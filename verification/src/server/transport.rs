//! The transport: which requests are let in, and what is counted.

use vstd::prelude::*;
use vstd::string::{StrSliceExecFns, StringExecFns};

use crate::server::database::Database;
use crate::server::error::{server_error_message, server_error_text, ServerError, ServerErrorView};
use crate::server::framing::{bad_frame, extract_payload, payload_of};
use crate::server::handler::{handled, AuditEvent, Reply, RequestHandler, Role, Step};
use crate::server::mutation::Done;
use crate::server::protocol::{error_view, ErrorCode, Request, Response, ResponseView};
use crate::text::{decimal, decimal_text, join2, str_eq, texts};

verus! {

/// A number and another, as far as 64 bits hold their sum.
pub open spec fn wrapped(a: u64, b: nat) -> u64 {
    ((a + b) % 0x1_0000_0000_0000_0000) as u64
}

fn wrapping_sum(a: u64, b: usize) -> (r: u64)
    ensures
        r == wrapped(a, b as nat),
{
    ((a as u128 + b as u128) % 0x1_0000_0000_0000_0000) as u64
}

/// What has been counted of requests. Counters wrap round.
#[derive(Debug, Clone, Copy, PartialEq, Eq, Structural)]
pub struct TransportMetrics {
    /// How many requests there were.
    pub requests_total: u64,
    /// How many were answered.
    pub requests_success: u64,
    /// How many were not.
    pub requests_failed: u64,
    /// How many bytes came in.
    pub bytes_received: u64,
    /// How many bytes went out.
    pub bytes_sent: u64,
    /// When counting began, in nanoseconds.
    pub started_at: u64,
}

/// The counters after a request.
pub open spec fn recorded(m: TransportMetrics, success: bool, received: nat, sent: nat) -> TransportMetrics {
    TransportMetrics {
        requests_total: wrapped(m.requests_total, 1),
        requests_success: if success {
            wrapped(m.requests_success, 1)
        } else {
            m.requests_success
        },
        requests_failed: if success {
            m.requests_failed
        } else {
            wrapped(m.requests_failed, 1)
        },
        bytes_received: wrapped(m.bytes_received, received),
        bytes_sent: wrapped(m.bytes_sent, sent),
        started_at: m.started_at,
    }
}

impl TransportMetrics {
    /// Counting begins.
    pub fn new(now: u64) -> (m: TransportMetrics)
        ensures
            m == (TransportMetrics {
                requests_total: 0,
                requests_success: 0,
                requests_failed: 0,
                bytes_received: 0,
                bytes_sent: 0,
                started_at: now,
            }),
    {
        TransportMetrics {
            requests_total: 0,
            requests_success: 0,
            requests_failed: 0,
            bytes_received: 0,
            bytes_sent: 0,
            started_at: now,
        }
    }

    fn record(&mut self, success: bool, received_bytes: usize, sent_bytes: usize)
        ensures
            *final(self) == recorded(
                *old(self),
                success,
                received_bytes as nat,
                sent_bytes as nat,
            ),
    {
        self.requests_total = wrapping_sum(self.requests_total, 1);
        if success {
            self.requests_success = wrapping_sum(self.requests_success, 1);
        } else {
            self.requests_failed = wrapping_sum(self.requests_failed, 1);
        }
        self.bytes_received = wrapping_sum(self.bytes_received, received_bytes);
        self.bytes_sent = wrapping_sum(self.bytes_sent, sent_bytes);
    }

    /// Counts a request that was answered.
    pub fn record_success(&mut self, received_bytes: usize, sent_bytes: usize)
        ensures
            *final(self) == recorded(*old(self), true, received_bytes as nat, sent_bytes as nat),
    {
        self.record(true, received_bytes, sent_bytes)
    }

    /// Counts a request that was not answered.
    pub fn record_failure(&mut self, received_bytes: usize, sent_bytes: usize)
        ensures
            *final(self) == recorded(*old(self), false, received_bytes as nat, sent_bytes as nat),
    {
        self.record(false, received_bytes, sent_bytes)
    }

    /// Counts a request by how it ended: where the response could not be sent, it
    /// was not answered and nothing went out.
    pub fn record_exchange(
        &mut self,
        sent: bool,
        success: bool,
        received_bytes: usize,
        sent_bytes: usize,
    )
        ensures
            *final(self) == recorded(
                *old(self),
                sent && success,
                received_bytes as nat,
                if sent {
                    sent_bytes as nat
                } else {
                    0
                },
            ),
    {
        if !sent {
            self.record_failure(received_bytes, 0)
        } else if success {
            self.record_success(received_bytes, sent_bytes)
        } else {
            self.record_failure(received_bytes, sent_bytes)
        }
    }

    /// How long it has been counted, in nanoseconds.
    pub fn uptime(&self, now: u64) -> (n: u64)
        ensures
            n == if now > self.started_at {
                now - self.started_at
            } else {
                0
            },
    {
        if now > self.started_at {
            now - self.started_at
        } else {
            0
        }
    }

    /// How many requests there were.
    pub fn total_requests(&self) -> (n: u64)
        ensures
            n == self.requests_total,
    {
        self.requests_total
    }

    /// How many were answered.
    pub fn successful_requests(&self) -> (n: u64)
        ensures
            n == self.requests_success,
    {
        self.requests_success
    }

    /// How many were not.
    pub fn failed_requests(&self) -> (n: u64)
        ensures
            n == self.requests_failed,
    {
        self.requests_failed
    }

    /// How many bytes came in.
    pub fn total_bytes_received(&self) -> (n: u64)
        ensures
            n == self.bytes_received,
    {
        self.bytes_received
    }

    /// How many bytes went out.
    pub fn total_bytes_sent(&self) -> (n: u64)
        ensures
            n == self.bytes_sent,
    {
        self.bytes_sent
    }
}

/// Every request that is counted was answered or was not.
pub proof fn law_requests_add_up(m: TransportMetrics, success: bool, received: nat, sent: nat)
    requires
        m.requests_total == wrapped(m.requests_success, m.requests_failed as nat),
    ensures
        recorded(m, success, received, sent).requests_total == wrapped(
            recorded(m, success, received, sent).requests_success,
            recorded(m, success, received, sent).requests_failed as nat,
        ),
{
}

/// How many requests are let in.
#[derive(Debug, Clone, Copy, PartialEq, Eq, Structural)]
pub struct RateLimitConfig {
    /// How many each second.
    pub requests_per_second: u32,
    /// How many at once.
    pub burst_size: u32,
    /// Whether they are limited at all.
    pub enabled: bool,
}

impl RateLimitConfig {
    /// So many each second, and so many at once.
    pub fn new(requests_per_second: u32, burst_size: u32) -> (c: RateLimitConfig)
        ensures
            c == (RateLimitConfig { requests_per_second, burst_size, enabled: true }),
    {
        RateLimitConfig { requests_per_second, burst_size, enabled: true }
    }
}

/// A token bucket: each request takes a token, and tokens come back with time.
#[derive(Debug, Clone, Copy, PartialEq, Eq, Structural)]
pub struct RateLimiter {
    tokens: u64,
    max_tokens: u64,
    refill_rate: u64,
    last_refill: u64,
    enabled: bool,
}

/// A token bucket in mathematical terms.
pub ghost struct BucketView {
    /// The tokens that are left.
    pub tokens: u64,
    /// The tokens that there are at most.
    pub max_tokens: u64,
    /// The tokens that come back each second.
    pub refill_rate: u64,
    /// When tokens last came back, in nanoseconds.
    pub last_refill: u64,
    /// Whether tokens are taken at all.
    pub enabled: bool,
}

/// How often tokens come back at most: every millisecond.
pub open spec fn refill_interval() -> nat {
    1_000_000
}

/// The bucket after so many tokens have come back at a time. They come back only
/// where enough time has gone by, and never more than fit.
pub open spec fn refilled(b: BucketView, now: u64, new_tokens: u64) -> BucketView {
    if now >= b.last_refill + refill_interval() && new_tokens > 0 {
        BucketView {
            tokens: if b.tokens + new_tokens < b.max_tokens {
                (b.tokens + new_tokens) as u64
            } else {
                b.max_tokens
            },
            last_refill: now,
            ..b
        }
    } else {
        b
    }
}

/// Whether a request is let in, and the bucket afterwards.
pub open spec fn acquired(b: BucketView, now: u64, new_tokens: u64) -> (bool, BucketView) {
    if !b.enabled {
        (true, b)
    } else {
        let r = refilled(b, now, new_tokens);
        if r.tokens == 0 {
            (false, r)
        } else {
            (true, BucketView { tokens: (r.tokens - 1) as u64, ..r })
        }
    }
}

impl View for RateLimiter {
    type V = BucketView;

    closed spec fn view(&self) -> BucketView {
        BucketView {
            tokens: self.tokens,
            max_tokens: self.max_tokens,
            refill_rate: self.refill_rate,
            last_refill: self.last_refill,
            enabled: self.enabled,
        }
    }
}

impl RateLimiter {
    /// A full bucket.
    pub fn new(config: &RateLimitConfig, now: u64) -> (l: RateLimiter)
        ensures
            l@ == (BucketView {
                tokens: config.burst_size as u64,
                max_tokens: config.burst_size as u64,
                refill_rate: config.requests_per_second as u64,
                last_refill: now,
                enabled: config.enabled,
            }),
    {
        RateLimiter {
            tokens: config.burst_size as u64,
            max_tokens: config.burst_size as u64,
            refill_rate: config.requests_per_second as u64,
            last_refill: now,
            enabled: config.enabled,
        }
    }

    /// A bucket that no token is taken from.
    pub fn disabled() -> (l: RateLimiter)
        ensures
            l@ == (BucketView {
                tokens: u64::MAX,
                max_tokens: u64::MAX,
                refill_rate: 0,
                last_refill: 0,
                enabled: false,
            }),
    {
        RateLimiter {
            tokens: u64::MAX,
            max_tokens: u64::MAX,
            refill_rate: 0,
            last_refill: 0,
            enabled: false,
        }
    }

    /// The time since tokens last came back, in nanoseconds.
    pub fn elapsed(&self, now: u64) -> (n: u64)
        ensures
            n == if now > self@.last_refill {
                now - self@.last_refill
            } else {
                0
            },
    {
        if now > self.last_refill {
            now - self.last_refill
        } else {
            0
        }
    }

    /// The tokens that come back each second.
    pub fn refill_rate(&self) -> (n: u64)
        ensures
            n == self@.refill_rate,
    {
        self.refill_rate
    }

    fn refill(&mut self, now: u64, new_tokens: u64)
        ensures
            final(self)@ == refilled(old(self)@, now, new_tokens),
    {
        if now as u128 >= self.last_refill as u128 + 1_000_000 && new_tokens > 0 {
            self.tokens = if (self.tokens as u128 + new_tokens as u128) < self.max_tokens as u128 {
                self.tokens + new_tokens
            } else {
                self.max_tokens
            };
            self.last_refill = now;
        }
    }

    /// Lets a request in, where a token is left once so many have come back.
    pub fn try_acquire(&mut self, now: u64, new_tokens: u64) -> (allowed: bool)
        ensures
            (allowed, final(self)@) == acquired(old(self)@, now, new_tokens),
    {
        if !self.enabled {
            return true;
        }
        self.refill(now, new_tokens);
        if self.tokens == 0 {
            false
        } else {
            self.tokens = self.tokens - 1;
            true
        }
    }
}

/// There are never more tokens than fit, and a request that is let in takes one.
pub proof fn law_bucket_bounded(b: BucketView, now: u64, new_tokens: u64)
    requires
        b.tokens <= b.max_tokens,
    ensures
        acquired(b, now, new_tokens).1.tokens <= b.max_tokens,
        acquired(b, now, new_tokens).1.max_tokens == b.max_tokens,
        b.enabled && acquired(b, now, new_tokens).0 ==> acquired(b, now, new_tokens).1.tokens + 1
            == refilled(b, now, new_tokens).tokens,
        b.enabled && !acquired(b, now, new_tokens).0 ==> acquired(b, now, new_tokens).1.tokens == 0,
{
}

/// The bucket after requests at one time, with no token coming back, and how
/// many of them were let in.
pub open spec fn burst(b: BucketView, now: u64, n: nat) -> (nat, BucketView)
    decreases n,
{
    if n == 0 {
        (0, b)
    } else {
        let (count, after) = burst(b, now, (n - 1) as nat);
        let (ok, next) = acquired(after, now, 0);
        (if ok { count + 1 } else { count }, next)
    }
}

/// Of requests that come at once, as many are let in as there are tokens.
pub proof fn law_burst_is_limited(b: BucketView, now: u64, n: nat)
    requires
        b.enabled,
    ensures
        burst(b, now, n).0 == if n <= b.tokens {
            n
        } else {
            b.tokens as nat
        },
        burst(b, now, n).1 == (BucketView {
            tokens: if n <= b.tokens {
                (b.tokens - n) as u64
            } else {
                0
            },
            ..b
        }),
    decreases n,
{
    if n > 0 {
        law_burst_is_limited(b, now, (n - 1) as nat);
    }
}

/// How many of some requests are let in, and the bucket afterwards. Each comes at a
/// time, with the tokens that come back by then.
pub open spec fn let_in(b: BucketView, requests: Seq<(u64, u64)>) -> (nat, BucketView)
    decreases requests.len(),
{
    if requests.len() == 0 {
        (0, b)
    } else {
        let (count, after) = let_in(b, requests.drop_last());
        let (ok, next) = acquired(after, requests.last().0, requests.last().1);
        (if ok { count + 1 } else { count }, next)
    }
}

/// The tokens that came back in all, before each of some requests.
pub open spec fn came_back(b: BucketView, requests: Seq<(u64, u64)>) -> nat
    decreases requests.len(),
{
    if requests.len() == 0 {
        0
    } else {
        let (now, new_tokens) = requests.last();
        let before = let_in(b, requests.drop_last()).1;
        came_back(b, requests.drop_last()) + if now >= before.last_refill + refill_interval() {
            new_tokens as nat
        } else {
            0
        }
    }
}

/// Over any run of requests, no more are let in than there were tokens at the start
/// and came back since.
pub proof fn law_requests_are_limited(b: BucketView, requests: Seq<(u64, u64)>)
    requires
        b.enabled,
        b.tokens <= b.max_tokens,
    ensures
        let_in(b, requests).0 + let_in(b, requests).1.tokens <= b.tokens + came_back(b, requests),
        let_in(b, requests).1.tokens <= b.max_tokens,
        let_in(b, requests).1.max_tokens == b.max_tokens,
        let_in(b, requests).1.enabled,
    decreases requests.len(),
{
    if requests.len() > 0 {
        law_requests_are_limited(b, requests.drop_last());
    }
}

/// Counts the connections that are open.
#[derive(Debug, Clone, Copy, PartialEq, Eq, Structural)]
pub struct ConnectionTracker {
    active: u64,
    max: u64,
    enabled: bool,
    rate_limited: u64,
    connection_rejected: u64,
}

/// Open connections in mathematical terms.
pub ghost struct TrackerView {
    /// How many are open.
    pub active: u64,
    /// How many may be.
    pub max: u64,
    /// Whether they are limited at all.
    pub enabled: bool,
    /// How many requests came too fast.
    pub rate_limited: u64,
    /// How many connections were too many.
    pub connection_rejected: u64,
}

/// Whether a connection is let in, and what is counted afterwards.
pub open spec fn connected(t: TrackerView) -> (bool, TrackerView) {
    if !t.enabled {
        (true, t)
    } else if t.active >= t.max {
        (false, TrackerView { connection_rejected: wrapped(t.connection_rejected, 1), ..t })
    } else {
        (true, TrackerView { active: (t.active + 1) as u64, ..t })
    }
}

/// What is counted after a connection has been closed.
pub open spec fn released(t: TrackerView) -> TrackerView {
    if t.enabled {
        TrackerView { active: wrapped(t.active, 0xffff_ffff_ffff_ffff), ..t }
    } else {
        t
    }
}

impl View for ConnectionTracker {
    type V = TrackerView;

    closed spec fn view(&self) -> TrackerView {
        TrackerView {
            active: self.active,
            max: self.max,
            enabled: self.enabled,
            rate_limited: self.rate_limited,
            connection_rejected: self.connection_rejected,
        }
    }
}

impl ConnectionTracker {
    /// No connection is open yet.
    pub fn new(max_connections: u32, enabled: bool) -> (t: ConnectionTracker)
        ensures
            t@ == (TrackerView {
                active: 0,
                max: max_connections as u64,
                enabled,
                rate_limited: 0,
                connection_rejected: 0,
            }),
    {
        ConnectionTracker {
            active: 0,
            max: max_connections as u64,
            enabled,
            rate_limited: 0,
            connection_rejected: 0,
        }
    }

    /// Lets a connection in, where it is not too many.
    pub fn try_acquire(&mut self) -> (allowed: bool)
        ensures
            (allowed, final(self)@) == connected(old(self)@),
    {
        if !self.enabled {
            return true;
        }
        if self.active >= self.max {
            self.connection_rejected = wrapping_sum(self.connection_rejected, 1);
            return false;
        }
        self.active = self.active + 1;
        true
    }

    /// Closes a connection.
    pub fn release(&mut self)
        ensures
            final(self)@ == released(old(self)@),
    {
        if self.enabled {
            self.active = if self.active == 0 {
                u64::MAX
            } else {
                self.active - 1
            };
        }
    }

    /// Counts a request that came too fast.
    pub fn record_rate_limited(&mut self)
        ensures
            final(self)@ == (TrackerView {
                rate_limited: wrapped(old(self)@.rate_limited, 1),
                ..old(self)@
            }),
    {
        self.rate_limited = wrapping_sum(self.rate_limited, 1);
    }

    /// How many requests came too fast.
    pub fn rate_limited_count(&self) -> (n: u64)
        ensures
            n == self@.rate_limited,
    {
        self.rate_limited
    }

    /// How many connections were too many.
    pub fn connection_rejected_count(&self) -> (n: u64)
        ensures
            n == self@.connection_rejected,
    {
        self.connection_rejected
    }

    /// How many connections are open.
    pub fn active_connections(&self) -> (n: u64)
        ensures
            n == self@.active,
    {
        self.active
    }
}

/// Where connections are limited, no more are open than may be; and a connection
/// that is closed makes room for the next.
pub proof fn law_connections_limited(t: TrackerView)
    requires
        t.active <= t.max,
    ensures
        connected(t).1.active <= t.max,
        connected(t).0 ==> released(connected(t).1) == t,
        t.enabled ==> (connected(t).0 <==> t.active < t.max),
{
}

/// What lets messages in and answers them.
pub struct TransportWorker {
    /// What answers requests.
    pub handler: RequestHandler,
    /// How long messages may be.
    pub max_message_size: usize,
    /// How fast they may come.
    pub rate_limiter: RateLimiter,
    /// How many may be open.
    pub connection_tracker: ConnectionTracker,
}

/// What has become of a message.
pub enum Admission {
    /// It is turned away.
    Rejected(Response),
    /// It is let in, and its payload can be read.
    Admitted(Vec<u8>),
    /// It is let in, but no request can be read from it. The payload, where there
    /// is one, may still introduce a client.
    Malformed(ServerError, Option<Vec<u8>>),
}

/// What a payload turned out to be.
pub enum Reading {
    /// A request.
    Request(Request),
    /// A client introduces itself, with the version of the protocol that it
    /// speaks.
    Handshake(u32),
    /// Neither, for a reason.
    Unreadable(String),
}

/// What is sent back.
pub enum WireReply {
    /// A response.
    Response(Response),
    /// An answer to a client that introduced itself.
    Handshake(HandshakeResponse),
}

/// The response to a request that comes too fast.
pub open spec fn too_fast() -> ResponseView {
    error_view(0, ErrorCode::BudgetExceeded, "rate limit exceeded"@)
}

/// The response to a connection that is too many.
pub open spec fn too_many() -> ResponseView {
    error_view(0, ErrorCode::BudgetExceeded, "connection limit exceeded"@)
}

/// What is said of a message that is too long.
pub open spec fn too_large_text(len: nat, max: nat) -> Seq<char> {
    "message too large: "@ + decimal(len) + " bytes (max: "@ + decimal(max) + ")"@
}

/// What can be read of a message.
pub open spec fn message_payload(data: Seq<u8>, max: nat) -> Result<Seq<u8>, ServerErrorView> {
    if data.len() > max {
        Err(ServerErrorView::Protocol(too_large_text(data.len(), max)))
    } else {
        match payload_of(data) {
            Some(p) => Ok(p),
            None => Err(bad_frame()),
        }
    }
}

/// Reads the payload of a message that is not too long.
pub fn read_message(data: &[u8], max_message_size: usize) -> (r: Result<Vec<u8>, ServerError>)
    ensures
        match r {
            Ok(p) => message_payload(data@, max_message_size as nat) == Ok::<
                Seq<u8>,
                ServerErrorView,
            >(p@),
            Err(e) => message_payload(data@, max_message_size as nat) == Err::<
                Seq<u8>,
                ServerErrorView,
            >(e@),
        },
{
    if data.len() > max_message_size {
        let mut s: String = "message too large: ".to_owned();
        s.append(decimal_text(data.len() as u128).as_str());
        s.append(" bytes (max: ");
        s.append(decimal_text(max_message_size as u128).as_str());
        s.append(")");
        return Err(ServerError::Protocol(s));
    }
    extract_payload(data)
}

/// The payload of a message, whatever its length.
pub open spec fn payload_bytes(p: Option<Vec<u8>>) -> Option<Seq<u8>> {
    match p {
        Some(p) => Some(p@),
        None => None,
    }
}

/// The response to a message that cannot be read.
pub open spec fn unreadable(e: ServerErrorView) -> ResponseView {
    error_view(0, ErrorCode::Internal, server_error_text(e))
}

/// What is said of a payload that is no request.
pub open spec fn undecoded(reason: Seq<char>) -> ServerErrorView {
    ServerErrorView::Protocol("failed to deserialize request: "@ + reason)
}

impl TransportWorker {
    /// A worker.
    pub fn new(
        handler: RequestHandler,
        max_message_size: usize,
        rate_limiter: RateLimiter,
        connection_tracker: ConnectionTracker,
    ) -> (w: TransportWorker)
        ensures
            w == (TransportWorker { handler, max_message_size, rate_limiter, connection_tracker }),
    {
        TransportWorker { handler, max_message_size, rate_limiter, connection_tracker }
    }

    /// Lets a message in, or turns it away: first by how fast they come, then by
    /// how many are open. What is let in stays open until it is answered.
    pub fn let_in(&mut self, data: &[u8], now: u64, new_tokens: u64) -> (a: Admission)
        ensures
            final(self).handler == old(self).handler,
            final(self).max_message_size == old(self).max_message_size,
            final(self).rate_limiter@ == acquired(old(self).rate_limiter@, now, new_tokens).1,
            ({
                let fast = acquired(old(self).rate_limiter@, now, new_tokens).0;
                let open = connected(old(self).connection_tracker@);
                if !fast {
                    &&& a matches Admission::Rejected(r) && r@ == too_fast()
                    &&& final(self).connection_tracker@ == (TrackerView {
                        rate_limited: wrapped(old(self).connection_tracker@.rate_limited, 1),
                        ..old(self).connection_tracker@
                    })
                } else {
                    &&& final(self).connection_tracker@ == open.1
                    &&& if !open.0 {
                        a matches Admission::Rejected(r) && r@ == too_many()
                    } else {
                        match message_payload(data@, old(self).max_message_size as nat) {
                            Ok(p) => a matches Admission::Admitted(got) && got@ == p,
                            Err(e) => a matches Admission::Malformed(got, p) && got@ == e
                                && payload_bytes(p) == payload_of(data@),
                        }
                    }
                }
            }),
    {
        if !self.rate_limiter.try_acquire(now, new_tokens) {
            self.connection_tracker.record_rate_limited();
            return Admission::Rejected(
                Response::error(0, ErrorCode::BudgetExceeded, "rate limit exceeded".to_owned()),
            );
        }
        if !self.connection_tracker.try_acquire() {
            return Admission::Rejected(
                Response::error(
                    0,
                    ErrorCode::BudgetExceeded,
                    "connection limit exceeded".to_owned(),
                ),
            );
        }
        match read_message(data, self.max_message_size) {
            Ok(payload) => Admission::Admitted(payload),
            Err(e) => match extract_payload(data) {
                Ok(payload) => Admission::Malformed(e, Some(payload)),
                Err(_) => Admission::Malformed(e, None),
            },
        }
    }

    /// Answers a payload that was let in, and tells whether that was a success and
    /// what goes into the audit log. The message is not open any more.
    pub fn answer(&mut self, db: &mut Database, reading: Reading) -> (r: (
        WireReply,
        bool,
        Vec<AuditEvent>,
    ))
        ensures
            final(self).connection_tracker@ == released(old(self).connection_tracker@),
            final(self).rate_limiter@ == old(self).rate_limiter@,
            final(self).handler == old(self).handler,
            final(self).max_message_size == old(self).max_message_size,
            match reading {
                Reading::Request(request) => r.0 matches WireReply::Response(response) && r.1 == (
                response.status is Success) && exists|fresh: Seq<Seq<u8>>|
                    #[trigger] handled(
                        old(self).handler@,
                        old(db)@,
                        final(db)@,
                        request,
                        Role::Single,
                        Reply::Nothing,
                        fresh,
                        Step::Answer(response, r.2),
                    ),
                Reading::Handshake(version) => {
                    &&& r.0 matches WireReply::Handshake(h) && greeted(
                        h,
                        version,
                        old(db)@.schema.version,
                    )
                    &&& r.1
                    &&& r.2@.len() == 0
                    &&& final(db)@ == old(db)@
                },
                Reading::Unreadable(reason) => {
                    &&& r.0 matches WireReply::Response(response) && response@ == unreadable(
                        undecoded(reason@),
                    )
                    &&& !r.1
                    &&& r.2@.len() == 0
                    &&& final(db)@ == old(db)@
                },
            },
    {
        self.connection_tracker.release();
        match reading {
            Reading::Request(request) => {
                let (response, events) = self.handler.handle(db, &request);
                let success: bool = response.status.is_ok();
                (WireReply::Response(response), success, events)
            },
            Reading::Handshake(version) => (
                WireReply::Handshake(answer_handshake(version, db.schema_version())),
                true,
                Vec::new(),
            ),
            Reading::Unreadable(reason) => {
                let e = ServerError::Protocol(
                    join2("failed to deserialize request: ", reason.as_str()),
                );
                (WireReply::Response(unreadable_response(&e)), false, Vec::new())
            },
        }
    }

    /// Answers a message that was let in but from which no request can be read,
    /// and tells whether that was a success: it is, where the payload introduces
    /// a client. The message is not open any more.
    pub fn answer_malformed(&mut self, db: &Database, e: ServerError, handshake: Option<u32>) -> (r:
        (WireReply, bool))
        ensures
            final(self).connection_tracker@ == released(old(self).connection_tracker@),
            final(self).rate_limiter@ == old(self).rate_limiter@,
            final(self).handler == old(self).handler,
            final(self).max_message_size == old(self).max_message_size,
            match handshake {
                Some(version) => {
                    &&& r.0 matches WireReply::Handshake(h) && greeted(
                        h,
                        version,
                        db@.schema.version,
                    )
                    &&& r.1
                },
                None => {
                    &&& r.0 matches WireReply::Response(response) && response@ == unreadable(e@)
                    &&& !r.1
                },
            },
    {
        self.connection_tracker.release();
        match handshake {
            Some(version) => (
                WireReply::Handshake(answer_handshake(version, db.schema_version())),
                true,
            ),
            None => (WireReply::Response(unreadable_response(&e)), false),
        }
    }
}

/// How an exchange ended.
pub enum Exchange {
    /// With a reply, which is a success or not.
    Done(WireReply, bool),
    /// It broke off.
    Panicked,
    /// It took too long.
    TimedOut,
}

/// What is sent back at the end of an exchange, and whether it is a success.
pub fn settle_exchange(exchange: Exchange, timeout_ms: u64) -> (r: (WireReply, bool))
    ensures
        match exchange {
            Exchange::Done(reply, success) => r == (reply, success),
            Exchange::Panicked => (r.0 matches WireReply::Response(response) && response@
                == broke_off()) && !r.1,
            Exchange::TimedOut => (r.0 matches WireReply::Response(response) && response@
                == took_too_long(timeout_ms)) && !r.1,
        },
{
    match exchange {
        Exchange::Done(reply, success) => (reply, success),
        Exchange::Panicked => (WireReply::Response(panic_response()), false),
        Exchange::TimedOut => (WireReply::Response(timeout_response(timeout_ms)), false),
    }
}

/// Whether an exchange is slow: it takes more than half of the time it has.
pub fn is_slow(elapsed_ns: u64, timeout_ns: u64) -> (r: bool)
    ensures
        r == (elapsed_ns > timeout_ns / 2),
{
    elapsed_ns > timeout_ns / 2
}

/// The response where a request broke off.
pub open spec fn broke_off() -> ResponseView {
    error_view(0, ErrorCode::Internal, "internal processing error"@)
}

/// The response where a request took too long.
pub open spec fn took_too_long(timeout_ms: u64) -> ResponseView {
    error_view(
        0,
        ErrorCode::Timeout,
        "request timed out after "@ + decimal(timeout_ms as nat) + "ms"@,
    )
}

/// The response to a message that cannot be read.
pub fn unreadable_response(e: &ServerError) -> (r: Response)
    ensures
        r@ == unreadable(e@),
{
    Response::error(0, ErrorCode::Internal, server_error_message(e))
}

/// The response where a request broke off.
pub fn panic_response() -> (r: Response)
    ensures
        r@ == broke_off(),
{
    Response::error(0, ErrorCode::Internal, "internal processing error".to_owned())
}

/// The response where a request took too long.
pub fn timeout_response(timeout_ms: u64) -> (r: Response)
    ensures
        r@ == took_too_long(timeout_ms),
{
    let mut s: String = "request timed out after ".to_owned();
    s.append(decimal_text(timeout_ms as u128).as_str());
    s.append("ms");
    Response::error(0, ErrorCode::Timeout, s)
}

/// The version of the protocol.
pub const PROTOCOL_VERSION: u32 = 1;

/// The answer to a client that introduces itself.
#[derive(Debug)]
pub struct HandshakeResponse {
    /// Whether it is welcome.
    pub accepted: bool,
    /// The version of the protocol.
    pub protocol_version: u32,
    /// The version of the schema.
    pub schema_version: u64,
    /// The server's name, or why the client is not welcome.
    pub text: String,
}

/// What is said to a client that speaks another version.
pub open spec fn incompatible_text(client: u32) -> Seq<char> {
    "incompatible protocol version: client="@ + decimal(client as nat) + " server="@ + decimal(
        PROTOCOL_VERSION as nat,
    )
}

/// Whether a client that introduces itself was answered as it is to be: it is
/// welcome where it speaks the same version.
pub open spec fn greeted(r: HandshakeResponse, client_version: u32, schema_version: u64) -> bool {
    &&& r.accepted == (client_version == PROTOCOL_VERSION)
    &&& r.protocol_version == PROTOCOL_VERSION
    &&& r.schema_version == if r.accepted {
        schema_version
    } else {
        0
    }
    &&& r.text@ == if r.accepted {
        "ormdb-server"@
    } else {
        incompatible_text(client_version)
    }
}

/// Answers a client that introduces itself.
pub fn answer_handshake(client_version: u32, schema_version: u64) -> (r: HandshakeResponse)
    ensures
        greeted(r, client_version, schema_version),
{
    if client_version == PROTOCOL_VERSION {
        HandshakeResponse {
            accepted: true,
            protocol_version: PROTOCOL_VERSION,
            schema_version,
            text: "ormdb-server".to_owned(),
        }
    } else {
        let mut s: String = "incompatible protocol version: client=".to_owned();
        s.append(decimal_text(client_version as u128).as_str());
        s.append(" server=");
        s.append(decimal_text(PROTOCOL_VERSION as u128).as_str());
        HandshakeResponse {
            accepted: false,
            protocol_version: PROTOCOL_VERSION,
            schema_version: 0,
            text: s,
        }
    }
}

/// How messages are kept secret.
#[derive(Debug)]
pub struct TlsConfig {
    /// Whether they are.
    pub enabled: bool,
    /// The file with the certificate.
    pub cert_path: Option<String>,
    /// The file with the key.
    pub key_path: Option<String>,
    /// The file with the authority that clients are checked by.
    pub ca_path: Option<String>,
}

/// How the server is reached.
#[derive(Debug)]
pub struct TransportConfig {
    /// The address for connections over the network.
    pub tcp_address: Option<String>,
    /// The address for connections on the machine.
    pub ipc_address: Option<String>,
    /// How messages are kept secret.
    pub tls: TlsConfig,
    /// How many workers there are.
    pub transport_workers: usize,
}

/// What the transport has to do to be reached.
#[derive(Debug)]
pub struct TransportPlan {
    /// The files with the certificate and the key, with a colon between them.
    pub cert_key: Option<String>,
    /// The file with the authority.
    pub ca: Option<String>,
    /// The addresses to listen on, in order.
    pub listen: Vec<String>,
    /// How many workers there are.
    pub worker_count: usize,
}

/// A text with a part replaced wherever it comes.
pub open spec fn replaced(s: Seq<char>, part: Seq<char>, by: Seq<char>) -> Seq<char>
    decreases s.len(),
{
    if s.len() == 0 || part.len() == 0 {
        s
    } else if part.len() <= s.len() && s.take(part.len() as int) == part {
        by + replaced(s.skip(part.len() as int), part, by)
    } else {
        seq![s[0]] + replaced(s.drop_first(), part, by)
    }
}

fn replace_all(text: &str, part: &str, by: &str) -> (r: String)
    requires
        part@.len() > 0,
    ensures
        r@ == replaced(text@, part@, by@),
{
    let total: usize = text.unicode_len();
    let width: usize = part.unicode_len();
    let mut out: String = String::new();
    let mut i: usize = 0;
    assert(text@.skip(0) =~= text@);
    assert(out@ + replaced(text@.skip(0), part@, by@) =~= replaced(text@, part@, by@));
    while i < total
        invariant
            i <= total == text@.len(),
            width == part@.len() > 0,
            out@ + replaced(text@.skip(i as int), part@, by@) == replaced(text@, part@, by@),
        decreases total - i,
    {
        let ghost rest = text@.skip(i as int);
        let ghost before = out@;
        if width <= total - i && str_eq(text.substring_char(i, i + width), part) {
            proof {
                assert(text@.subrange(i as int, i + width) =~= rest.take(width as int));
                assert(rest.skip(width as int) =~= text@.skip(i + width));
            }
            out.append(by);
            i = i + width;
            assert(out@ + replaced(text@.skip(i as int), part@, by@) =~= before + replaced(
                rest,
                part@,
                by@,
            ));
        } else {
            proof {
                if width <= total - i {
                    assert(text@.subrange(i as int, i + width) =~= rest.take(width as int));
                }
                assert(rest[0] == text@[i as int]);
                assert(rest.drop_first() =~= text@.skip(i + 1));
                assert(text@.subrange(i as int, i + 1) =~= seq![rest[0]]);
            }
            out.append(text.substring_char(i, i + 1));
            i = i + 1;
            assert(out@ + replaced(text@.skip(i as int), part@, by@) =~= before + replaced(
                rest,
                part@,
                by@,
            ));
        }
    }
    assert(out@ + replaced(text@.skip(i as int), part@, by@) =~= out@);
    out
}

/// The address that is listened on for connections over the network.
pub open spec fn tcp_listen(address: Seq<char>, tls: bool) -> Seq<char> {
    if tls {
        replaced(address, "tcp://"@, "tls+tcp://"@)
    } else {
        address
    }
}

/// What the transport has to do to be reached, in mathematical terms: the files
/// with certificate and key, the file with the authority, and the addresses.
pub ghost struct PlanOfTransport {
    /// The files with the certificate and the key.
    pub cert_key: Option<Seq<char>>,
    /// The file with the authority.
    pub ca: Option<Seq<char>>,
    /// The addresses to listen on.
    pub listen: Seq<Seq<char>>,
    /// How many workers there are.
    pub worker_count: nat,
}

/// What a transport that is asked for has to do, or why it is refused: it needs an
/// address.
pub open spec fn created_outcome(c: TransportConfig) -> Result<PlanOfTransport, ServerErrorView> {
    if c.tcp_address is None && c.ipc_address is None {
        Err(ServerErrorView::Config("no transport configured (need TCP or IPC address)"@))
    } else {
        transport_outcome(c)
    }
}

/// What the transport has to do to be reached, or why it cannot be.
pub open spec fn transport_outcome(c: TransportConfig) -> Result<PlanOfTransport, ServerErrorView> {
    if c.tls.enabled && (c.tls.cert_path is None || c.tls.key_path is None) {
        Err(ServerErrorView::Config("TLS enabled but certificate or key path not provided"@))
    } else {
        Ok(
            PlanOfTransport {
                cert_key: if c.tls.enabled {
                    Some(c.tls.cert_path->0@ + ":"@ + c.tls.key_path->0@)
                } else {
                    None
                },
                ca: if c.tls.enabled {
                    c.tls.ca_path.deep_view()
                } else {
                    None
                },
                listen: (match c.tcp_address {
                    Some(a) => seq![tcp_listen(a@, c.tls.enabled)],
                    None => Seq::empty(),
                }) + (match c.ipc_address {
                    Some(a) => seq![a@],
                    None => Seq::empty(),
                }),
                worker_count: if c.transport_workers >= 1 {
                    c.transport_workers as nat
                } else {
                    1
                },
            },
        )
    }
}

impl View for TransportPlan {
    type V = PlanOfTransport;

    open spec fn view(&self) -> PlanOfTransport {
        PlanOfTransport {
            cert_key: self.cert_key.deep_view(),
            ca: self.ca.deep_view(),
            listen: texts(self.listen@),
            worker_count: self.worker_count as nat,
        }
    }
}

/// Works out what the transport has to do to be reached.
pub fn plan_transport(config: &TransportConfig) -> (r: Result<TransportPlan, ServerError>)
    ensures
        match r {
            Ok(p) => transport_outcome(*config) == Ok::<PlanOfTransport, ServerErrorView>(p@),
            Err(e) => transport_outcome(*config) == Err::<PlanOfTransport, ServerErrorView>(e@),
        },
{
    let mut cert_key: Option<String> = None;
    let mut ca: Option<String> = None;
    if config.tls.enabled {
        match (&config.tls.cert_path, &config.tls.key_path) {
            (Some(cert), Some(key)) => {
                let mut s: String = cert.clone();
                s.append(":");
                s.append(key.as_str());
                cert_key = Some(s);
            },
            _ => {
                return Err(
                    ServerError::Config(
                        "TLS enabled but certificate or key path not provided".to_owned(),
                    ),
                );
            },
        }
        if let Some(path) = &config.tls.ca_path {
            ca = Some(path.clone());
        }
    }
    proof {
        reveal_strlit("tcp://");
    }
    let mut listen: Vec<String> = Vec::new();
    assert(texts(listen@) =~= Seq::<Seq<char>>::empty());
    if let Some(address) = &config.tcp_address {
        let tcp: String = if config.tls.enabled {
            replace_all(address.as_str(), "tcp://", "tls+tcp://")
        } else {
            address.clone()
        };
        listen.push(tcp);
        assert(texts(listen@) =~= seq![tcp_listen(address@, config.tls.enabled)]);
    }
    let ghost first = texts(listen@);
    if let Some(address) = &config.ipc_address {
        listen.push(address.clone());
        assert(texts(listen@) =~= first + seq![address@]);
    } else {
        assert(texts(listen@) =~= first + Seq::<Seq<char>>::empty());
    }
    let worker_count: usize = if config.transport_workers >= 1 {
        config.transport_workers
    } else {
        1
    };
    Ok(TransportPlan { cert_key, ca, listen, worker_count })
}

/// Works out what a transport that listens on the configured addresses has to do.
pub fn create_transport(config: &TransportConfig) -> (r: Result<TransportPlan, ServerError>)
    ensures
        match r {
            Ok(p) => created_outcome(*config) == Ok::<PlanOfTransport, ServerErrorView>(p@),
            Err(e) => created_outcome(*config) == Err::<PlanOfTransport, ServerErrorView>(e@),
        },
{
    if config.tcp_address.is_none() && config.ipc_address.is_none() {
        return Err(
            ServerError::Config("no transport configured (need TCP or IPC address)".to_owned()),
        );
    }
    plan_transport(config)
}

} // verus!

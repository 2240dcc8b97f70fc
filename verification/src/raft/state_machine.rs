//! The replicated state machine: what has been agreed on is applied in the order
//! of the log, and how far that has come is kept on disk.

use vstd::prelude::*;

use crate::raft::apply::{request_applied, ApplyMutation};
use crate::raft::error::RaftError;
use crate::raft::stored::{
    decode_log_id, decode_membership, encode_log_id, encode_membership, members_json,
    optional_place, parsed_members, parsed_place, parts_of, place_json, place_of, MemberParts,
    Place,
};
use crate::raft::types::{
    log_view, orderly, ClientRequest, ClientRequestView, ClientResponse, ClientResponseView, Entry,
    EntryOfLog, EntryPayload, LogId, Membership, PayloadOfEntry, StoredMembership,
    StoredMembershipView,
};
use crate::server::database::DbView;
use crate::storage::engine::StorageEngine;
use crate::storage::kv::between;
use crate::storage::model::StoreView;

verus! {

/// The key under which the last place that was applied is kept.
pub open spec fn applied_key() -> Seq<u8> {
    seq![108u8, 97, 115, 116, 95, 97, 112, 112, 108, 105, 101, 100]
}

/// The key under which the members are kept.
pub open spec fn members_key() -> Seq<u8> {
    seq![109u8, 101, 109, 98, 101, 114, 115, 104, 105, 112]
}

fn key_applied() -> (k: Vec<u8>)
    ensures
        k@ == applied_key(),
{
    let k: Vec<u8> = vec![108, 97, 115, 116, 95, 97, 112, 112, 108, 105, 101, 100];
    assert(k@ =~= applied_key());
    k
}

fn key_members() -> (k: Vec<u8>)
    ensures
        k@ == members_key(),
{
    let k: Vec<u8> = vec![109, 101, 109, 98, 101, 114, 115, 104, 105, 112];
    assert(k@ =~= members_key());
    k
}

/// The state machine.
pub struct OrmdbStateMachine {
    /// What makes on the database what has been agreed on.
    pub apply_fn: Option<ApplyMutation>,
    last_applied: Option<LogId>,
    membership: StoredMembership,
}

/// How far the log has been applied, and to what.
pub ghost struct Progress {
    /// The last place that was applied.
    pub last_applied: Option<LogId>,
    /// The members.
    pub membership: StoredMembershipView,
    /// The database.
    pub database: Option<DbView>,
}

/// The database that requests are applied to.
pub open spec fn applied_database(f: Option<ApplyMutation>) -> Option<DbView> {
    match f {
        Some(f) => Some(f.database@),
        None => None,
    }
}

impl View for OrmdbStateMachine {
    type V = Progress;

    closed spec fn view(&self) -> Progress {
        Progress {
            last_applied: self.last_applied,
            membership: self.membership@,
            database: applied_database(self.apply_fn),
        }
    }
}

/// The last place that was applied, as it is kept on disk, if it can be read.
pub open spec fn stored_place(stored: Map<Seq<u8>, Seq<u8>>) -> Option<Option<Place>> {
    if stored.contains_key(applied_key()) {
        match parsed_place(stored[applied_key()]) {
            Some(place) => Some(Some(place)),
            None => None,
        }
    } else {
        Some(None)
    }
}

/// The members as they are kept on disk, if they can be read.
pub open spec fn stored_members(stored: Map<Seq<u8>, Seq<u8>>) -> Option<MemberParts> {
    if stored.contains_key(members_key()) {
        parsed_members(stored[members_key()])
    } else {
        Some((None, Seq::empty(), Seq::empty()))
    }
}

/// What is on disk once the state has been kept. Where nothing has been applied,
/// what is kept of that stays.
pub open spec fn kept(
    stored: Map<Seq<u8>, Seq<u8>>,
    last_applied: Option<LogId>,
    membership: StoredMembershipView,
) -> Map<Seq<u8>, Seq<u8>> {
    let json = members_json(
        optional_place(membership.log_id),
        membership.membership.configs,
        membership.membership.nodes,
    );
    match last_applied {
        Some(log_id) => stored.insert(applied_key(), place_json(place_of(log_id))),
        None => stored,
    }.insert(members_key(), json)
}

/// What is answered where nothing makes what has been agreed on.
pub open spec fn not_configured() -> Seq<char> {
    "State machine not configured with mutation executor"@
}

/// The answer to a request, given what applying it gave.
pub open spec fn request_answer(r: Result<ClientResponse, String>) -> ClientResponseView {
    match r {
        Ok(response) => response@,
        Err(text) => ClientResponseView::Error(text@),
    }
}

/// Whether an answer is what applying a request gave.
pub open spec fn request_answered(
    before: DbView,
    after: DbView,
    request: ClientRequestView,
    commit_ts: u64,
    answer: ClientResponseView,
) -> bool {
    exists|r: Result<ClientResponse, String>|
        #[trigger] request_applied(r, before, after, request, commit_ts) && answer
            == request_answer(r)
}

/// What is answered to a request, by what making it gave, where something makes what
/// has been agreed on.
pub open spec fn response_for(
    request: ClientRequestView,
    made: Option<Result<ClientResponse, String>>,
) -> ClientResponseView {
    if request is Noop {
        ClientResponseView::NoopResult
    } else {
        match made {
            Some(r) => request_answer(r),
            None => ClientResponseView::Error(not_configured()),
        }
    }
}

/// The answer to a request, by what making it gave.
pub fn response_to(request: &ClientRequest, made: Option<Result<ClientResponse, String>>) -> (r:
    ClientResponse)
    ensures
        r@ == response_for(request@, made),
{
    match request {
        ClientRequest::Noop => ClientResponse::NoopResult,
        _ => match made {
            Some(Ok(response)) => response,
            Some(Err(text)) => ClientResponse::Error(text),
            None => ClientResponse::Error(
                "State machine not configured with mutation executor".to_owned(),
            ),
        },
    }
}

/// Whether a request was answered as it is to be.
pub open spec fn answered(
    before: Option<DbView>,
    after: Option<DbView>,
    request: ClientRequestView,
    commit_ts: u64,
    answer: ClientResponseView,
) -> bool {
    if request is Noop {
        after == before && answer == ClientResponseView::NoopResult
    } else {
        match before {
            None => after is None && answer == ClientResponseView::Error(not_configured()),
            Some(db) => match after {
                Some(next) => request_answered(db, next, request, commit_ts, answer),
                None => false,
            },
        }
    }
}

/// Whether an entry of the log was applied as it is to be.
pub open spec fn entry_applied(
    before: Progress,
    entry: EntryOfLog,
    answer: ClientResponseView,
    after: Progress,
) -> bool {
    &&& after.last_applied == Some(entry.log_id)
    &&& match entry.payload {
        PayloadOfEntry::Blank => {
            &&& answer == ClientResponseView::NoopResult
            &&& after.membership == before.membership
            &&& after.database == before.database
        },
        PayloadOfEntry::Normal(request) => {
            &&& answered(before.database, after.database, request, entry.log_id.index, answer)
            &&& after.membership == before.membership
        },
        PayloadOfEntry::Membership(m) => {
            &&& answer == ClientResponseView::NoopResult
            &&& after.membership == (StoredMembershipView {
                log_id: Some(entry.log_id),
                membership: m,
            })
            &&& after.database == before.database
        },
    }
}

/// Whether part of the log was applied in order, each entry as it is to be.
pub open spec fn log_applied(
    before: Progress,
    entries: Seq<EntryOfLog>,
    answers: Seq<ClientResponseView>,
    after: Progress,
) -> bool
    decreases entries.len(),
{
    if entries.len() == 0 {
        answers.len() == 0 && after == before
    } else {
        answers.len() == entries.len() && exists|mid: Progress|
            log_applied(before, entries.drop_last(), answers.drop_last(), mid)
                && #[trigger] entry_applied(mid, entries.last(), answers.last(), after)
    }
}

/// Answers in mathematical terms.
pub open spec fn answers_view(answers: Seq<ClientResponse>) -> Seq<ClientResponseView> {
    answers.map_values(|r: ClientResponse| r@)
}

fn load_last_applied(storage: &StorageEngine) -> (r: Result<Option<LogId>, RaftError>)
    ensures
        match r {
            Ok(log_id) => stored_place(storage@.log_state) == Some(optional_place(log_id)),
            Err(e) => e is Storage,
        },
{
    match storage.log_entry(key_applied().as_slice()) {
        Ok(Some(json)) => match decode_log_id(json.as_slice()) {
            Ok(log_id) => Ok(Some(log_id)),
            Err(e) => Err(e),
        },
        Ok(None) => Ok(None),
        Err(e) => Err(RaftError::Storage(e.to_string())),
    }
}

fn load_membership(storage: &StorageEngine) -> (r: Result<StoredMembership, RaftError>)
    ensures
        match r {
            Ok(m) => stored_members(storage@.log_state) == Some(parts_of(m@)),
            Err(e) => e is Storage,
        },
{
    match storage.log_entry(key_members().as_slice()) {
        Ok(Some(json)) => decode_membership(json.as_slice()),
        Ok(None) => Ok(StoredMembership { log_id: None, membership: Membership::empty() }),
        Err(e) => Err(RaftError::Storage(e.to_string())),
    }
}

/// Whether a store keeps how far the log has been applied, so that it can be read back;
/// or, where the database failed, keeps it in part.
pub open spec fn state_kept(
    r: Result<(), RaftError>,
    before: StoreView,
    after: StoreView,
    last_applied: Option<LogId>,
    membership: StoredMembershipView,
) -> bool {
    let done = kept(before.log_state, last_applied, membership);
    &&& after == (StoreView { log_state: after.log_state, ..before })
    &&& match r {
        Ok(_) => {
            &&& after.log_state == done
            &&& last_applied is Some ==> stored_place(done) == Some(optional_place(last_applied))
            &&& orderly(membership.membership) ==> stored_members(done) == Some(
                parts_of(membership),
            )
        },
        Err(e) => e is Storage && between(before.log_state, done, after.log_state),
    }
}

/// Keeps how far the log has been applied.
fn keep_state(
    storage: &mut StorageEngine,
    last_applied: Option<LogId>,
    membership: &StoredMembership,
) -> (r: Result<(), RaftError>)
    ensures
        state_kept(r, old(storage)@, final(storage)@, last_applied, membership@),
{
    proof {
        assert(applied_key().len() != members_key().len());
    }
    if let Some(log_id) = last_applied {
        let json: Vec<u8> = encode_log_id(log_id)?;
        match storage.keep_log_entry(key_applied().as_slice(), json.as_slice()) {
            Ok(_) => {},
            Err(e) => {
                return Err(RaftError::Storage(e.to_string()));
            },
        }
    }
    let json: Vec<u8> = encode_membership(membership)?;
    match storage.keep_log_entry(key_members().as_slice(), json.as_slice()) {
        Ok(_) => {},
        Err(e) => {
            return Err(RaftError::Storage(e.to_string()));
        },
    }
    match storage.flush_log() {
        Ok(_) => Ok(()),
        Err(e) => Err(RaftError::Storage(e.to_string())),
    }
}

/// Whether the database of a state machine keeps how far the log has been applied.
/// Without a database nothing is kept.
pub open spec fn database_keeps(r: Result<(), RaftError>, before: Progress, after: Progress) -> bool {
    match before.database {
        Some(db) => {
            &&& after.database is Some
            &&& state_kept(
                r,
                db.store,
                after.database->0.store,
                before.last_applied,
                before.membership,
            )
            &&& after == (Progress {
                database: Some(DbView { store: after.database->0.store, ..db }),
                ..before
            })
        },
        None => r is Ok && after == before,
    }
}

/// Whether something has gone well, or why not.
pub open spec fn outcome_of<T>(r: Result<T, RaftError>) -> Result<(), RaftError> {
    match r {
        Ok(_) => Ok(()),
        Err(e) => Err(e),
    }
}

impl OrmdbStateMachine {
    /// A state machine that goes on where the last one on a store has come. It applies
    /// no mutations yet.
    pub fn new(storage: &StorageEngine) -> (r: Result<OrmdbStateMachine, RaftError>)
        ensures
            match r {
                Ok(sm) => {
                    &&& sm@.database is None
                    &&& stored_place(storage@.log_state) == Some(optional_place(sm@.last_applied))
                    &&& stored_members(storage@.log_state) == Some(parts_of(sm@.membership))
                },
                Err(e) => e is Storage,
            },
    {
        let last_applied: Option<LogId> = load_last_applied(storage)?;
        let membership: StoredMembership = load_membership(storage)?;
        Ok(OrmdbStateMachine { apply_fn: None, last_applied, membership })
    }

    /// With what makes on the database what has been agreed on.
    pub fn with_apply_fn(self, apply_fn: ApplyMutation) -> (sm: OrmdbStateMachine)
        ensures
            sm@ == (Progress { database: Some(apply_fn.database@), ..self@ }),
    {
        OrmdbStateMachine { apply_fn: Some(apply_fn), ..self }
    }

    /// Keeps in the store of the database how far the log has been applied.
    fn keep_in_database(&mut self) -> (r: Result<(), RaftError>)
        ensures
            database_keeps(r, old(self)@, final(self)@),
    {
        match &mut self.apply_fn {
            Some(apply_fn) => keep_state(
                &mut apply_fn.database.storage,
                self.last_applied,
                &self.membership,
            ),
            None => Ok(()),
        }
    }

    fn apply_request(&mut self, request: &ClientRequest, commit_ts: u64) -> (response: ClientResponse)
        ensures
            final(self)@ == (Progress {
                database: final(self)@.database,
                ..old(self)@
            }),
            answered(
                old(self)@.database,
                final(self)@.database,
                request@,
                commit_ts,
                response@,
            ),
    {
        if let ClientRequest::Noop = request {
            return response_to(request, None);
        }
        let made: Option<Result<ClientResponse, String>> = match &mut self.apply_fn {
            Some(apply_fn) => {
                let ghost before = apply_fn.database@;
                let r: Result<ClientResponse, String> = apply_fn.apply(request, commit_ts);
                assert(request_applied(r, before, apply_fn.database@, request@, commit_ts));
                Some(r)
            },
            None => None,
        };
        response_to(request, made)
    }

    fn apply_entry(&mut self, entry: &Entry) -> (response: ClientResponse)
        ensures
            entry_applied(
                old(self)@,
                entry@,
                response@,
                final(self)@,
            ),
    {
        self.last_applied = Some(entry.log_id);
        match &entry.payload {
            EntryPayload::Blank => ClientResponse::NoopResult,
            EntryPayload::Normal(request) => self.apply_request(request, entry.log_id.index),
            EntryPayload::Membership(m) => {
                self.membership = StoredMembership {
                    log_id: Some(entry.log_id),
                    membership: m.copy(),
                };
                ClientResponse::NoopResult
            },
        }
    }

    fn apply_all(&mut self, entries: &Vec<Entry>) -> (responses: Vec<ClientResponse>)
        ensures
            log_applied(
                old(self)@,
                log_view(entries@),
                answers_view(responses@),
                final(self)@,
            ),
    {
        let ghost log = log_view(entries@);
        let ghost start = self@;
        let mut responses: Vec<ClientResponse> = Vec::new();
        let mut i: usize = 0;
        assert(log.take(0) =~= Seq::<EntryOfLog>::empty());
        while i < entries.len()
            invariant
                i <= entries@.len(),
                log == log_view(entries@),
                responses@.len() == i,
                log_applied(start, log.take(i as int), answers_view(responses@), self@),
            decreases entries@.len() - i,
        {
            let ghost mid = self@;
            let ghost before = responses@;
            let response: ClientResponse = self.apply_entry(&entries[i]);
            responses.push(response);
            i = i + 1;
            proof {
                assert(log.take(i as int).drop_last() =~= log.take(i - 1));
                assert(log.take(i as int).last() == entries@[i - 1]@);
                assert(answers_view(responses@).drop_last() =~= answers_view(before));
                assert(answers_view(responses@).last() == response@);
                assert(entry_applied(
                    mid,
                    log.take(i as int).last(),
                    answers_view(responses@).last(),
                    self@,
                ));
            }
        }
        assert(log.take(i as int) =~= log);
        responses
    }

    /// Applies part of the log in order, and keeps in a store how far that has come.
    pub fn apply(&mut self, storage: &mut StorageEngine, entries: &Vec<Entry>) -> (r: Result<
        Vec<ClientResponse>,
        RaftError,
    >)
        ensures
            exists|answers: Seq<ClientResponseView>|
                #[trigger] log_applied(old(self)@, log_view(entries@), answers, final(self)@) && (
                r matches Ok(responses) ==> answers == answers_view(responses@)),
            state_kept(
                outcome_of(r),
                old(storage)@,
                final(storage)@,
                final(self)@.last_applied,
                final(self)@.membership,
            ),
    {
        let responses: Vec<ClientResponse> = self.apply_all(entries);
        assert(log_applied(old(self)@, log_view(entries@), answers_view(responses@), self@));
        match keep_state(storage, self.last_applied, &self.membership) {
            Ok(_) => Ok(responses),
            Err(e) => Err(e),
        }
    }

    /// Applies part of the log in order, and keeps in the store of the database itself
    /// how far that has come.
    pub fn apply_and_keep(&mut self, entries: &Vec<Entry>) -> (r: Result<
        Vec<ClientResponse>,
        RaftError,
    >)
        ensures
            exists|answers: Seq<ClientResponseView>, applied: Progress|
                {
                    &&& #[trigger] log_applied(old(self)@, log_view(entries@), answers, applied)
                    &&& r matches Ok(responses) ==> answers == answers_view(responses@)
                    &&& database_keeps(outcome_of(r), applied, final(self)@)
                },
    {
        let responses: Vec<ClientResponse> = self.apply_all(entries);
        assert(log_applied(old(self)@, log_view(entries@), answers_view(responses@), self@));
        match self.keep_in_database() {
            Ok(_) => Ok(responses),
            Err(e) => Err(e),
        }
    }

    /// Takes over how far another node has come, and keeps it in a store.
    pub fn install_snapshot(
        &mut self,
        storage: &mut StorageEngine,
        last_log_id: Option<LogId>,
        last_membership: StoredMembership,
    ) -> (r: Result<(), RaftError>)
        ensures
            final(self)@ == (Progress {
                last_applied: last_log_id,
                membership: last_membership@,
                database: old(self)@.database,
            }),
            state_kept(r, old(storage)@, final(storage)@, last_log_id, last_membership@),
    {
        self.last_applied = last_log_id;
        self.membership = last_membership;
        keep_state(storage, self.last_applied, &self.membership)
    }

    /// Takes over how far another node has come, and keeps it in the store of the
    /// database itself.
    pub fn install_and_keep(
        &mut self,
        last_log_id: Option<LogId>,
        last_membership: StoredMembership,
    ) -> (r: Result<(), RaftError>)
        ensures
            database_keeps(
                r,
                Progress {
                    last_applied: last_log_id,
                    membership: last_membership@,
                    database: old(self)@.database,
                },
                final(self)@,
            ),
    {
        self.last_applied = last_log_id;
        self.membership = last_membership;
        self.keep_in_database()
    }

    /// The last place that was applied.
    pub fn last_applied(&self) -> (r: Option<LogId>)
        ensures
            r == self@.last_applied,
    {
        self.last_applied
    }

    /// The members.
    pub fn membership(&self) -> (m: StoredMembership)
        ensures
            m@ == self@.membership,
    {
        self.membership.copy()
    }

    /// How far the log has been applied.
    pub fn applied_state(&self) -> (r: (Option<LogId>, StoredMembership))
        ensures
            r.0 == self@.last_applied,
            r.1@ == self@.membership,
    {
        (self.last_applied, self.membership.copy())
    }
}

/// The members that part of the log leaves.
pub open spec fn members_after(m: StoredMembershipView, entries: Seq<EntryOfLog>) -> StoredMembershipView
    decreases entries.len(),
{
    if entries.len() == 0 {
        m
    } else {
        match entries.last().payload {
            PayloadOfEntry::Membership(members) => StoredMembershipView {
                log_id: Some(entries.last().log_id),
                membership: members,
            },
            _ => members_after(m, entries.drop_last()),
        }
    }
}

/// After part of the log has been applied, the last place that was applied is
/// that of its last entry, the members are those of the last entry that has
/// some, and entries without a request leave the database as it was.
pub proof fn law_progress_follows_log(
    before: Progress,
    entries: Seq<EntryOfLog>,
    answers: Seq<ClientResponseView>,
    after: Progress,
)
    requires
        log_applied(before, entries, answers, after),
    ensures
        answers.len() == entries.len(),
        after.last_applied == if entries.len() == 0 {
            before.last_applied
        } else {
            Some(entries.last().log_id)
        },
        after.membership == members_after(before.membership, entries),
        (forall|i: int|
            0 <= i < entries.len() ==> !((#[trigger] entries[i]).payload is Normal)
                || entries[i].payload->Normal_0 is Noop) ==> after.database == before.database,
        after.database is Some <==> before.database is Some,
    decreases entries.len(),
{
    if entries.len() > 0 {
        let init = entries.drop_last();
        let mid = choose|mid: Progress|
            log_applied(before, init, answers.drop_last(), mid) && #[trigger] entry_applied(
                mid,
                entries.last(),
                answers.last(),
                after,
            );
        law_progress_follows_log(before, init, answers.drop_last(), mid);
        if forall|i: int|
            0 <= i < entries.len() ==> !((#[trigger] entries[i]).payload is Normal)
                || entries[i].payload->Normal_0 is Noop {
            assert forall|i: int| 0 <= i < init.len() implies !((
            #[trigger] init[i]).payload is Normal) || init[i].payload->Normal_0 is Noop by {
                assert(init[i] == entries[i]);
            }
            assert(entries[entries.len() - 1] == entries.last());
        }
    }
}

/// A state machine that is opened on a store goes on where the one that kept its state
/// there last had come.
pub proof fn law_next_machine_goes_on(
    r: Result<(), RaftError>,
    before: StoreView,
    after: StoreView,
    last: Progress,
    next: Progress,
)
    requires
        state_kept(r, before, after, last.last_applied, last.membership),
        r is Ok,
        last.last_applied is Some,
        orderly(last.membership.membership),
        stored_place(after.log_state) == Some(optional_place(next.last_applied)),
        stored_members(after.log_state) == Some(parts_of(next.membership)),
    ensures
        next.last_applied == last.last_applied,
        next.membership == last.membership,
{
}

} // verus!

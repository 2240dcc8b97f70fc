//! From the log to the database: what has been agreed on is made on this node.

use vstd::prelude::*;

use crate::bytes::EntityId;
use crate::error::ErrorView;
use crate::raft::types::{ClientRequest, ClientRequestView, ClientResponse, ClientResponseView};
use crate::server::database::{given_out, next_after, Database, DbView};
use crate::server::error::{server_error_message, server_error_text, ServerError, ServerErrorView};
use crate::server::mutation::{
    assigned, batch_answer, batch_done, batch_run, cut_short, execute_done,
    law_commit_is_deterministic, lemma_nothing_cut, settles, MutationExecutor, MutationResult,
    MutationResultView, MutationView, WriteClock,
};
use crate::storage::hash_index::ids_view;
use crate::storage::model::past_kept;

verus! {

/// How many identifiers a request may use up.
pub open spec fn request_size(request: ClientRequestView) -> nat {
    match request {
        ClientRequestView::Noop => 0,
        ClientRequestView::Mutate(_) => 1,
        ClientRequestView::MutateBatch(ms) => ms.len(),
    }
}

/// What a request does.
pub ghost struct AppliedView {
    /// The database afterwards.
    pub db: DbView,
    /// What is answered, or why nothing is.
    pub answer: Result<ClientResponseView, Seq<char>>,
}

/// The answer of a node to what a mutation answers.
pub open spec fn client_answer(answer: Result<MutationResultView, ServerErrorView>) -> Result<
    ClientResponseView,
    Seq<char>,
> {
    match answer {
        Ok(r) => Ok(ClientResponseView::MutationResult(r)),
        Err(e) => Err(server_error_text(e)),
    }
}

/// What a request does that was agreed on at a place in the log, with fresh
/// identifiers at hand. Its writes are stamped with that place.
pub open spec fn apply_done(
    db: DbView,
    request: ClientRequestView,
    commit_ts: u64,
    fresh: Seq<Seq<u8>>,
) -> AppliedView {
    match request {
        ClientRequestView::Noop => AppliedView { db, answer: Ok(ClientResponseView::NoopResult) },
        ClientRequestView::Mutate(m) => {
            let done = execute_done(db, m, WriteClock::Commit(commit_ts), 0, fresh[0], false);
            AppliedView { db: done.db, answer: client_answer(done.answer) }
        },
        ClientRequestView::MutateBatch(ms) => {
            let done = batch_done(db, ms, WriteClock::Commit(commit_ts), 0, fresh, false);
            AppliedView { db: done.db, answer: client_answer(batch_answer(done)) }
        },
    }
}

/// What is said where the database itself failed.
pub open spec fn database_failure_text() -> Seq<char> {
    server_error_text(ServerErrorView::Storage(ErrorView::Storage))
}

/// Whether a request needs nothing of the database.
pub open spec fn is_idle(request: ClientRequestView) -> bool {
    request is Noop || (request matches ClientRequestView::MutateBatch(ms) && ms.len() == 0)
}

/// Whether what was answered is what a request does, unless the database failed.
/// What needs nothing of the database is always answered.
pub open spec fn applied(
    r: Result<ClientResponse, String>,
    before: DbView,
    after: DbView,
    request: ClientRequestView,
    done: AppliedView,
) -> bool {
    &&& match r {
        Ok(response) => done.answer == Ok::<ClientResponseView, Seq<char>>(response@) && settles(
            after,
            done.db,
        ),
        Err(text) => (text@ == database_failure_text() && cut_short(after, before)) || (done.answer
            == Err::<ClientResponseView, Seq<char>>(text@) && settles(after, done.db)),
    }
    &&& is_idle(request) ==> r is Ok
    &&& request is Noop ==> after == before
}

/// Whether a request was applied with identifiers that were given out for it.
pub open spec fn request_applied(
    r: Result<ClientResponse, String>,
    before: DbView,
    after: DbView,
    request: ClientRequestView,
    commit_ts: u64,
) -> bool {
    let started = DbView {
        next_id: next_after(before.next_id, request_size(request)),
        ..before
    };
    exists|fresh: Seq<Seq<u8>>|
        {
            &&& #[trigger] given_out(fresh, before.next_id)
            &&& fresh.len() == request_size(request)
            &&& applied(
                r,
                started,
                after,
                request,
                apply_done(started, request, commit_ts, fresh),
            )
            &&& past_kept(after.store.data, before.store.data, commit_ts)
        }
}

/// Applies a request that was agreed on at a place in the log, with fresh
/// identifiers at hand.
pub fn apply_request_at(
    db: &mut Database,
    request: &ClientRequest,
    commit_ts: u64,
    fresh: &Vec<EntityId>,
) -> (r: Result<ClientResponse, String>)
    requires
        fresh@.len() == request_size(request@),
    ensures
        applied(
            r,
            old(db)@,
            final(db)@,
            request@,
            apply_done(old(db)@, request@, commit_ts, ids_view(fresh@)),
        ),
        past_kept(final(db)@.store.data, old(db)@.store.data, commit_ts),
{
    proof {
        lemma_nothing_cut(db@);
    }
    let executor = MutationExecutor::at_commit(commit_ts);
    let made: Result<MutationResult, ServerError> = match request {
        ClientRequest::Noop => {
            return Ok(ClientResponse::NoopResult);
        },
        ClientRequest::Mutate(mutation) => executor.execute_at(db, mutation, 0, fresh[0], false),
        ClientRequest::MutateBatch(batch) => executor.execute_batch_at(
            db,
            batch,
            0,
            fresh,
            false,
        ),
    };
    match made {
        Ok(result) => Ok(ClientResponse::MutationResult(result)),
        Err(e) => Err(server_error_message(&e)),
    }
}

/// Makes on a database what has been agreed on.
pub struct ApplyMutation {
    /// The database.
    pub database: Database,
}

/// What makes on a database what has been agreed on.
pub fn make_apply_fn(database: Database) -> (f: ApplyMutation)
    ensures
        f.database == database,
{
    ApplyMutation { database }
}

impl ApplyMutation {
    /// Applies a request that was agreed on at a place in the log.
    pub fn apply(&mut self, request: &ClientRequest, commit_ts: u64) -> (r: Result<
        ClientResponse,
        String,
    >)
        ensures
            request_applied(r, old(self).database@, final(self).database@, request@, commit_ts),
            is_idle(request@) ==> r is Ok,
            request@ is Noop ==> (r matches Ok(response) && response@ is NoopResult),
            request@ is Noop ==> final(self).database@ == old(self).database@,
    {
        let count: usize = match request {
            ClientRequest::Noop => 0,
            ClientRequest::Mutate(_) => 1,
            ClientRequest::MutateBatch(batch) => batch.mutations.len(),
        };
        assert(count == request_size(request@));
        let fresh: Vec<EntityId> = self.database.fresh_ids(count);
        let ghost started = self.database@;
        let r = apply_request_at(&mut self.database, request, commit_ts, &fresh);
        assert(ids_view(fresh@).len() == request_size(request@));
        assert(given_out(ids_view(fresh@), old(self).database@.next_id));
        assert(applied(
            r,
            started,
            self.database@,
            request@,
            apply_done(started, request@, commit_ts, ids_view(fresh@)),
        ));
        r
    }
}

/// A request that brings all identifiers with it.
pub open spec fn assigned_request(request: ClientRequestView, ids: Seq<Seq<u8>>) -> ClientRequestView {
    match request {
        ClientRequestView::Noop => request,
        ClientRequestView::Mutate(m) => ClientRequestView::Mutate(assigned(m, ids[0])),
        ClientRequestView::MutateBatch(ms) => ClientRequestView::MutateBatch(
            Seq::new(ms.len(), |i: int| assigned(ms[i], ids[i])),
        ),
    }
}

proof fn lemma_batch_is_deterministic(
    db: DbView,
    ms: Seq<MutationView>,
    ids: Seq<Seq<u8>>,
    n: nat,
    commit_ts: u64,
    fresh_a: Seq<Seq<u8>>,
    fresh_b: Seq<Seq<u8>>,
)
    requires
        n <= ms.len(),
    ensures
        ({
            let all = Seq::new(ms.len(), |i: int| assigned(ms[i], ids[i]));
            let clock = WriteClock::Commit(commit_ts);
            batch_run(db, all.take(n as int), clock, 0, fresh_a, false) == batch_run(
                db,
                all.take(n as int),
                clock,
                0,
                fresh_b,
                false,
            )
        }),
    decreases n,
{
    let all = Seq::new(ms.len(), |i: int| assigned(ms[i], ids[i]));
    let clock = WriteClock::Commit(commit_ts);
    if n > 0 {
        let k = n - 1;
        lemma_batch_is_deterministic(db, ms, ids, k as nat, commit_ts, fresh_a, fresh_b);
        assert(all.take(n as int).drop_last() =~= all.take(k));
        assert(all.take(n as int).last() == assigned(ms[k], ids[k]));
        let init = batch_run(db, all.take(k), clock, 0, fresh_a, false);
        law_commit_is_deterministic(
            init.db,
            ms[k],
            ids[k],
            commit_ts,
            0,
            0,
            fresh_a[k],
            fresh_b[k],
            false,
        );
    }
}

/// Applying what was agreed on at a place in the log is making it at that place.
pub proof fn law_applying_is_executing(
    db: DbView,
    request: ClientRequestView,
    commit_ts: u64,
    fresh: Seq<Seq<u8>>,
)
    ensures
        ({
            let done = apply_done(db, request, commit_ts, fresh);
            let clock = WriteClock::Commit(commit_ts);
            match request {
                ClientRequestView::Noop => done.db == db,
                ClientRequestView::Mutate(m) => {
                    let made = execute_done(db, m, clock, 0, fresh[0], false);
                    done.db == made.db && done.answer == client_answer(made.answer)
                },
                ClientRequestView::MutateBatch(ms) => {
                    let made = batch_done(db, ms, clock, 0, fresh, false);
                    done.db == made.db && done.answer == client_answer(batch_answer(made))
                },
            }
        }),
{
}

/// Nodes that are in the same state and apply the same request, with the
/// identifiers that it was sent with and at the same place in the log, come to
/// the same state and answer alike, whatever identifiers they would give out
/// themselves.
pub proof fn law_nodes_agree(
    db: DbView,
    request: ClientRequestView,
    ids: Seq<Seq<u8>>,
    commit_ts: u64,
    fresh_a: Seq<Seq<u8>>,
    fresh_b: Seq<Seq<u8>>,
)
    ensures
        apply_done(db, assigned_request(request, ids), commit_ts, fresh_a) == apply_done(
            db,
            assigned_request(request, ids),
            commit_ts,
            fresh_b,
        ),
{
    match request {
        ClientRequestView::Noop => {},
        ClientRequestView::Mutate(m) => {
            law_commit_is_deterministic(
                db,
                m,
                ids[0],
                commit_ts,
                0,
                0,
                fresh_a[0],
                fresh_b[0],
                false,
            );
        },
        ClientRequestView::MutateBatch(ms) => {
            lemma_batch_is_deterministic(db, ms, ids, ms.len(), commit_ts, fresh_a, fresh_b);
            let all = Seq::new(ms.len(), |i: int| assigned(ms[i], ids[i]));
            assert(all.take(ms.len() as int) =~= all);
        },
    }
}

} // verus!

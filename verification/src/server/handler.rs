//! Answering requests: who may ask what, and what is answered.

use vstd::prelude::*;
use vstd::string::StringExecFns;

use crate::bytes::{copy_slice, EntityId};
use crate::catalog::SchemaBundle;
use crate::error::{DbError, ErrorView};
use crate::query::ast::{FanoutBudget, FilterView, PlanView, QueryPlan, QueryResult, ResultView};
use crate::query::executor::{
    cache_counted, default_budget, query_counted, run_outcome, tuned, QueryExecutor, Ran, RunRules,
};
use crate::query::fetch::{gather, lemma_gather_step, queries_keep};
use crate::query::filter::{evaluate_optional, passes};
use crate::query::plan_cache::{cache_after, kept_plan, served_plan, CacheView};
use crate::query::planner::{
    asked_view, count_dots, path_depth, plan_outcome, plan_with_budget, AskedView, GraphQuery,
    QueryView,
};
use crate::query::rows::{copy_masks, masks_view, FieldMask, MaskView};
use crate::query::statistics::{count_of, one_more, with_count, TableStatistics};
use crate::raft::types::{ClientRequest, ClientRequestView, ClientResponse};
use crate::security::{
    authenticated, denied_text, has_admin, permits, policies_view, Access, AuthView, Authenticator,
    ContextView, PolicyView, RlsPolicy, SecurityContext, SecurityError, SecurityErrorView,
};
use crate::server::changelog::{changes_from, changes_view, first_changes, ChangeLog, ChangeView};
use crate::server::consistency::ReadConsistency;
use crate::server::database::{given_out, next_after, refreshed, Database, DbView};
use crate::server::error::{
    security_error_message, security_error_text, store_error_message, store_error_text, ServerError,
    ServerErrorView,
};
use crate::server::mutation::{
    assigned, batch_executed, ensure_assigned_id, executed, mutations_view, Mutation, MutationBatch,
    MutationExecutor, MutationResult, MutationResultView, MutationView, WriteClock,
};
use crate::server::protocol::{
    empty_snapshot, error_view, ok_view, with_query, AggregateQuery, ErrorCode, MetricsResult,
    MetricsView, Operation, PayloadView, RegistrySnapshot, ReplicationRole, ReplicationStatus,
    Request, Response, ResponsePayload, ResponseView, StreamChangesRequest,
};
use crate::storage::columnar::{row_item_view, row_items, RowItem, RowItemView};
use crate::storage::engine::StorageEngine;
use crate::storage::hash_index::ids_view;
use crate::storage::model::StoreView;
use crate::text::{chars_of, copy_texts, decimal, decimal_text, join2, texts};

verus! {

/// Whether a text holds another.
pub open spec fn holds_text(s: Seq<char>, part: Seq<char>) -> bool {
    exists|i: int|
        0 <= i && i + part.len() <= s.len() && #[trigger] s.subrange(i, i + part.len()) == part
}

/// Whether a text holds another.
pub fn text_holds(s: &str, part: &str) -> (r: bool)
    ensures
        r == holds_text(s@, part@),
{
    let a: Vec<char> = chars_of(s);
    let b: Vec<char> = chars_of(part);
    let total: usize = a.len();
    let width: usize = b.len();
    let mut i: usize = 0;
    while width <= total && i <= total - width
        invariant
            total == a@.len(),
            width == b@.len(),
            a@ == s@,
            b@ == part@,
            i <= total + 1,
            forall|k: int|
                0 <= k < i && k + width <= total ==> #[trigger] s@.subrange(k, k + width) != part@,
        decreases total + 1 - i,
    {
        let mut j: usize = 0;
        while j < width && a[i + j] == b[j]
            invariant
                total == a@.len(),
                width == b@.len(),
                i + width <= total,
                j <= width,
                forall|k: int| 0 <= k < j ==> #[trigger] a@[i + k] == b@[k],
            decreases width - j,
        {
            j = j + 1;
        }
        proof {
            let here = s@.subrange(i as int, i + width);
            if j == width {
                assert forall|k: int| 0 <= k < width implies here[k] == part@[k] by {
                    assert(a@[i + k] == b@[k]);
                }
                assert(here =~= part@);
            } else {
                assert(here[j as int] != part@[j as int]);
            }
        }
        if j == width {
            return true;
        }
        i = i + 1;
    }
    false
}

/// What a client is told of an error: what is its own affair in full, and of
/// what is the server's only that it failed.
pub open spec fn told(e: ServerErrorView) -> (ErrorCode, Seq<char>) {
    match e {
        ServerErrorView::Database(s) => if holds_text(s, "not found"@) {
            (ErrorCode::NotFound, s)
        } else {
            (ErrorCode::Internal, "database operation failed"@)
        },
        ServerErrorView::Storage(_) => (ErrorCode::Internal, "storage operation failed"@),
        ServerErrorView::Protocol(s) => (ErrorCode::InvalidRequest, s),
        ServerErrorView::Transport(_) => (ErrorCode::Internal, "transport error"@),
        ServerErrorView::Config(_) => (ErrorCode::Internal, "server configuration error"@),
        ServerErrorView::Io(_) => (ErrorCode::Internal, "I/O operation failed"@),
        ServerErrorView::Security(e) => match e {
            SecurityErrorView::AuthenticationFailed(_) => (
                ErrorCode::AuthenticationFailed,
                "authentication failed"@,
            ),
            SecurityErrorView::PermissionDenied(s) => (
                ErrorCode::PermissionDenied,
                "permission denied: "@ + s,
            ),
            SecurityErrorView::CapabilityNotGranted(s) => (
                ErrorCode::PermissionDenied,
                "capability not granted: "@ + s,
            ),
            SecurityErrorView::RlsViolation(_) => (
                ErrorCode::PermissionDenied,
                "access denied by policy"@,
            ),
            SecurityErrorView::FieldAccessDenied(_, field) => (
                ErrorCode::PermissionDenied,
                "access denied to field: "@ + field,
            ),
            SecurityErrorView::InvalidCapabilityFormat(s) => (
                ErrorCode::InvalidRequest,
                "invalid capability format: "@ + s,
            ),
            SecurityErrorView::BudgetExceeded(s) => (
                ErrorCode::BudgetExceeded,
                "budget exceeded: "@ + s,
            ),
            _ => (ErrorCode::Internal, "security operation failed"@),
        },
    }
}

/// The response that tells a client of an error.
pub open spec fn error_response_view(id: u64, e: ServerErrorView) -> ResponseView {
    error_view(id, told(e).0, told(e).1)
}

/// Tells a client of an error.
pub fn error_response(id: u64, error: &ServerError) -> (r: Response)
    ensures
        r@ == error_response_view(id, error@),
{
    let (code, message): (ErrorCode, String) = match error {
        ServerError::Database(s) => if text_holds(s.as_str(), "not found") {
            (ErrorCode::NotFound, s.clone())
        } else {
            (ErrorCode::Internal, "database operation failed".to_owned())
        },
        ServerError::Storage(_) => (ErrorCode::Internal, "storage operation failed".to_owned()),
        ServerError::Protocol(s) => (ErrorCode::InvalidRequest, s.clone()),
        ServerError::Transport(_) => (ErrorCode::Internal, "transport error".to_owned()),
        ServerError::Config(_) => (ErrorCode::Internal, "server configuration error".to_owned()),
        ServerError::Io(_) => (ErrorCode::Internal, "I/O operation failed".to_owned()),
        ServerError::Security(e) => match e {
            SecurityError::AuthenticationFailed(_) => (
                ErrorCode::AuthenticationFailed,
                "authentication failed".to_owned(),
            ),
            SecurityError::PermissionDenied(s) => (
                ErrorCode::PermissionDenied,
                join2("permission denied: ", s.as_str()),
            ),
            SecurityError::CapabilityNotGranted(s) => (
                ErrorCode::PermissionDenied,
                join2("capability not granted: ", s.as_str()),
            ),
            SecurityError::RlsViolation(_) => (
                ErrorCode::PermissionDenied,
                "access denied by policy".to_owned(),
            ),
            SecurityError::FieldAccessDenied { entity, field } => (
                ErrorCode::PermissionDenied,
                join2("access denied to field: ", field.as_str()),
            ),
            SecurityError::InvalidCapabilityFormat(s) => (
                ErrorCode::InvalidRequest,
                join2("invalid capability format: ", s.as_str()),
            ),
            SecurityError::BudgetExceeded(s) => (
                ErrorCode::BudgetExceeded,
                join2("budget exceeded: ", s.as_str()),
            ),
            _ => (ErrorCode::Internal, "security operation failed".to_owned()),
        },
    };
    Response::error(id, code, message)
}

/// Internal details stay inside: whatever failed in the server, all clients are
/// told the same.
pub proof fn law_internal_errors_look_alike(a: Seq<char>, b: Seq<char>, x: ErrorView, y: ErrorView)
    requires
        !holds_text(a, "not found"@),
        !holds_text(b, "not found"@),
    ensures
        told(ServerErrorView::Database(a)) == told(ServerErrorView::Database(b)),
        told(ServerErrorView::Storage(x)) == told(ServerErrorView::Storage(y)),
        told(ServerErrorView::Transport(a)) == told(ServerErrorView::Transport(b)),
        told(ServerErrorView::Config(a)) == told(ServerErrorView::Config(b)),
        told(ServerErrorView::Io(a)) == told(ServerErrorView::Io(b)),
{
}

/// What is written into the audit log.
#[derive(Debug)]
#[allow(inconsistent_fields)]
pub enum AuditEvent {
    /// A client was recognised, or not.
    Authentication {
        /// The connection.
        connection_id: String,
        /// The client.
        client_id: String,
        /// What it may do.
        capabilities: Vec<String>,
        /// Why it was not recognised.
        error: Option<String>,
    },
    /// A client was refused.
    AccessDenied {
        /// The client.
        client_id: String,
        /// What it wanted to do.
        operation: String,
        /// With which entity type.
        entity: Option<String>,
        /// Why it was refused.
        reason: String,
    },
    /// A query was answered.
    Query {
        /// The client.
        client_id: String,
        /// The entity type.
        entity: String,
        /// How many entities were returned.
        result_count: usize,
    },
    /// A change was made.
    Mutation {
        /// The client.
        client_id: String,
        /// The entity type.
        entity: String,
        /// What was done.
        operation: String,
        /// The entities that were inserted.
        ids: Vec<EntityId>,
    },
}

/// What is written into the audit log, in mathematical terms.
pub ghost enum AuditView {
    /// See [`AuditEvent::Authentication`].
    Authentication(Seq<char>, Seq<char>, Seq<Seq<char>>, Option<Seq<char>>),
    /// See [`AuditEvent::AccessDenied`].
    AccessDenied(Seq<char>, Seq<char>, Option<Seq<char>>, Seq<char>),
    /// See [`AuditEvent::Query`].
    Query(Seq<char>, Seq<char>, nat),
    /// See [`AuditEvent::Mutation`].
    Mutation(Seq<char>, Seq<char>, Seq<char>, Seq<Seq<u8>>),
}

impl View for AuditEvent {
    type V = AuditView;

    open spec fn view(&self) -> AuditView {
        match *self {
            AuditEvent::Authentication { connection_id, client_id, capabilities, error } => AuditView::Authentication(
                connection_id@,
                client_id@,
                texts(capabilities@),
                error.deep_view(),
            ),
            AuditEvent::AccessDenied { client_id, operation, entity, reason } => AuditView::AccessDenied(
                client_id@,
                operation@,
                entity.deep_view(),
                reason@,
            ),
            AuditEvent::Query { client_id, entity, result_count } => AuditView::Query(
                client_id@,
                entity@,
                result_count as nat,
            ),
            AuditEvent::Mutation { client_id, entity, operation, ids } => AuditView::Mutation(
                client_id@,
                entity@,
                operation@,
                ids_view(ids@),
            ),
        }
    }
}

/// Audit events in mathematical terms.
pub open spec fn events_view(events: Seq<AuditEvent>) -> Seq<AuditView> {
    events.map_values(|e: AuditEvent| e@)
}

/// The word for a change.
pub open spec fn mutation_word(m: MutationView) -> Seq<char> {
    match m {
        MutationView::Insert(_, _) => "insert"@,
        MutationView::Update(_, _, _) => "update"@,
        MutationView::Upsert(_, _, _) => "upsert"@,
        MutationView::Delete(_, _) => "delete"@,
    }
}

fn word_for(m: &Mutation) -> (s: &'static str)
    ensures
        s@ == mutation_word(m@),
{
    match m {
        Mutation::Insert { entity, data } => "insert",
        Mutation::Update { entity, id, data } => "update",
        Mutation::Upsert { entity, id, data } => "upsert",
        Mutation::Delete { entity, id } => "delete",
    }
}

/// What is asked for, in a word, and of which entity type.
pub open spec fn operation_info(op: Operation) -> (Seq<char>, Option<Seq<char>>) {
    match op {
        Operation::Query(q) => ("query"@, Some(q@.root_entity)),
        Operation::Mutate(m) => (mutation_word(m@), Some(m@.entity())),
        Operation::MutateBatch(_) => ("mutate_batch"@, None),
        Operation::GetSchema => ("get_schema"@, None),
        Operation::Ping => ("ping"@, None),
        Operation::Explain(q) => ("explain"@, Some(q@.root_entity)),
        Operation::GetMetrics => ("get_metrics"@, None),
        Operation::Aggregate(q) => ("aggregate"@, Some(q.root_entity@)),
        Operation::Subscribe => ("subscribe"@, None),
        Operation::Unsubscribe => ("unsubscribe"@, None),
        Operation::StreamChanges(_) => ("stream_changes"@, None),
        Operation::GetReplicationStatus => ("get_replication_status"@, None),
        Operation::ApplySchema(_) => ("apply_schema"@, None),
    }
}

/// What is asked for, in a word, and of which entity type.
pub fn extract_operation_info(op: &Operation) -> (r: (String, Option<String>))
    ensures
        (r.0@, r.1.deep_view()) == operation_info(*op),
{
    match op {
        Operation::Query(q) => ("query".to_owned(), Some(q.root_entity.clone())),
        Operation::Mutate(m) => (word_for(m).to_owned(), Some(m.entity().to_owned())),
        Operation::MutateBatch(_) => ("mutate_batch".to_owned(), None),
        Operation::GetSchema => ("get_schema".to_owned(), None),
        Operation::Ping => ("ping".to_owned(), None),
        Operation::Explain(q) => ("explain".to_owned(), Some(q.root_entity.clone())),
        Operation::GetMetrics => ("get_metrics".to_owned(), None),
        Operation::Aggregate(q) => ("aggregate".to_owned(), Some(q.root_entity.clone())),
        Operation::Subscribe => ("subscribe".to_owned(), None),
        Operation::Unsubscribe => ("unsubscribe".to_owned(), None),
        Operation::StreamChanges(_) => ("stream_changes".to_owned(), None),
        Operation::GetReplicationStatus => ("get_replication_status".to_owned(), None),
        Operation::ApplySchema(_) => ("apply_schema".to_owned(), None),
    }
}

/// The greatest depth of relations.
pub open spec fn deepest(asked: Seq<AskedView>) -> nat
    decreases asked.len(),
{
    if asked.len() == 0 {
        0
    } else {
        let init = deepest(asked.drop_last());
        let here = path_depth(asked.last().path);
        if here > init {
            here
        } else {
            init
        }
    }
}

/// How deep a query goes: the root is one level, and relations add theirs.
pub open spec fn query_depth(q: QueryView) -> nat {
    deepest(q.includes) + 1
}

/// How deep a query goes.
pub fn calculate_query_depth(query: &GraphQuery) -> (n: u128)
    ensures
        n == query_depth(query@),
{
    let ghost all = asked_view(query.includes@);
    let mut max: usize = 0;
    let mut found: bool = false;
    let mut i: usize = 0;
    assert(all.take(0) =~= Seq::<AskedView>::empty());
    while i < query.includes.len()
        invariant
            i <= query.includes@.len(),
            all == asked_view(query.includes@),
            found == (i > 0),
            deepest(all.take(i as int)) == if found {
                max + 1
            } else {
                0
            },
        decreases query.includes@.len() - i,
    {
        proof {
            assert(all.take(i + 1).drop_last() =~= all.take(i as int));
            assert(all.take(i + 1).last() == all[i as int]);
        }
        let dots: usize = count_dots(query.includes[i].path.as_str());
        if !found || dots > max {
            max = dots;
        }
        found = true;
        i = i + 1;
    }
    assert(all.take(all.len() as int) =~= all);
    if found {
        max as u128 + 2
    } else {
        1
    }
}

/// What is said of a query that goes too deep.
pub open spec fn too_deep_text(depth: nat, limit: nat) -> Seq<char> {
    "query depth "@ + decimal(depth) + " exceeds limit "@ + decimal(limit)
}

/// Whether a client may change something.
pub open spec fn mutation_allowed(c: ContextView, m: MutationView) -> Result<(), ServerErrorView> {
    let access = if m is Delete {
        Access::Delete
    } else {
        Access::Write
    };
    if permits(c.capabilities, access, m.entity()) {
        Ok(())
    } else {
        Err(denied(access, m.entity()))
    }
}

/// The refusal of an access.
pub open spec fn denied(access: Access, entity: Seq<char>) -> ServerErrorView {
    ServerErrorView::Security(SecurityErrorView::PermissionDenied(denied_text(access, entity)))
}

/// Whether a client may make several changes: it has to be allowed to make each.
pub open spec fn mutations_allowed(c: ContextView, ms: Seq<MutationView>) -> Result<
    (),
    ServerErrorView,
>
    decreases ms.len(),
{
    if ms.len() == 0 {
        Ok(())
    } else {
        match mutations_allowed(c, ms.drop_last()) {
            Err(e) => Err(e),
            Ok(_) => mutation_allowed(c, ms.last()),
        }
    }
}

/// Whether a client may read entities of a type.
pub open spec fn read_allowed(c: ContextView, entity: Seq<char>) -> Result<(), ServerErrorView> {
    if permits(c.capabilities, Access::Read, entity) {
        Ok(())
    } else {
        Err(denied(Access::Read, entity))
    }
}

/// Whether a client may do everything.
pub open spec fn admin_allowed(c: ContextView) -> Result<(), ServerErrorView> {
    if has_admin(c.capabilities) {
        Ok(())
    } else {
        Err(ServerErrorView::Security(SecurityErrorView::PermissionDenied("admin access"@)))
    }
}

/// Whether a client may ask a query: it may read the root entities, and the query
/// does not go too deep.
pub open spec fn query_allowed(c: ContextView, q: QueryView) -> Result<(), ServerErrorView> {
    match read_allowed(c, q.root_entity) {
        Err(e) => Err(e),
        Ok(_) => if query_depth(q) > c.budget.max_depth {
            Err(
                ServerErrorView::Security(
                    SecurityErrorView::BudgetExceeded(
                        too_deep_text(query_depth(q), c.budget.max_depth as nat),
                    ),
                ),
            )
        } else {
            Ok(())
        },
    }
}

/// Whether a client may ask for something.
pub open spec fn allowed(c: ContextView, op: Operation) -> Result<(), ServerErrorView> {
    match op {
        Operation::Query(q) => query_allowed(c, q@),
        Operation::Explain(q) => query_allowed(c, q@),
        Operation::Mutate(m) => mutation_allowed(c, m@),
        Operation::MutateBatch(b) => mutations_allowed(c, mutations_view(b.mutations@)),
        Operation::Aggregate(q) => read_allowed(c, q.root_entity@),
        Operation::GetMetrics => admin_allowed(c),
        Operation::StreamChanges(_) => admin_allowed(c),
        Operation::GetReplicationStatus => admin_allowed(c),
        Operation::ApplySchema(_) => admin_allowed(c),
        Operation::GetSchema => Ok(()),
        Operation::Ping => Ok(()),
        Operation::Subscribe => Ok(()),
        Operation::Unsubscribe => Ok(()),
    }
}

/// Whether permissions agree with what is expected.
pub open spec fn permission_is(
    r: Result<(), ServerError>,
    expected: Result<(), ServerErrorView>,
) -> bool {
    match r {
        Ok(_) => expected is Ok,
        Err(e) => expected == Err::<(), ServerErrorView>(e@),
    }
}

fn require(context: &SecurityContext, access: Access, entity: &str) -> (r: Result<(), ServerError>)
    ensures
        match r {
            Ok(_) => permits(context@.capabilities, access, entity@),
            Err(e) => !permits(context@.capabilities, access, entity@) && e@ == denied(
                access,
                entity@,
            ),
        },
{
    match context.require(access, entity) {
        Ok(_) => Ok(()),
        Err(e) => Err(ServerError::Security(e)),
    }
}

fn check_mutation_permission(context: &SecurityContext, m: &Mutation) -> (r: Result<(), ServerError>)
    ensures
        permission_is(r, mutation_allowed(context@, m@)),
{
    match m {
        Mutation::Delete { entity, id } => require(context, Access::Delete, entity.as_str()),
        _ => require(context, Access::Write, m.entity()),
    }
}

fn check_query(context: &SecurityContext, q: &GraphQuery) -> (r: Result<(), ServerError>)
    ensures
        permission_is(r, query_allowed(context@, q@)),
{
    require(context, Access::Read, q.root_entity.as_str())?;
    let depth: u128 = calculate_query_depth(q);
    let limit: usize = context.budget.max_depth;
    if depth > limit as u128 {
        let mut s: String = "query depth ".to_owned();
        s.append(decimal_text(depth).as_str());
        s.append(" exceeds limit ");
        s.append(decimal_text(limit as u128).as_str());
        return Err(ServerError::Security(SecurityError::BudgetExceeded(s)));
    }
    Ok(())
}

fn check_admin(context: &SecurityContext) -> (r: Result<(), ServerError>)
    ensures
        permission_is(r, admin_allowed(context@)),
{
    match context.require_admin() {
        Ok(_) => Ok(()),
        Err(e) => Err(ServerError::Security(e)),
    }
}

fn check_batch(context: &SecurityContext, batch: &MutationBatch) -> (r: Result<(), ServerError>)
    ensures
        permission_is(r, mutations_allowed(context@, mutations_view(batch.mutations@))),
{
    let ghost all = mutations_view(batch.mutations@);
    let mut i: usize = 0;
    assert(all.take(0) =~= Seq::<MutationView>::empty());
    while i < batch.mutations.len()
        invariant
            i <= batch.mutations@.len(),
            all == mutations_view(batch.mutations@),
            mutations_allowed(context@, all.take(i as int)) is Ok,
        decreases batch.mutations@.len() - i,
    {
        proof {
            assert(all.take(i + 1).drop_last() =~= all.take(i as int));
            assert(all.take(i + 1).last() == all[i as int]);
            if mutations_allowed(context@, all.take(i + 1)) is Err {
                lemma_batch_refused(context@, all, i + 1);
            }
        }
        check_mutation_permission(context, &batch.mutations[i])?;
        i = i + 1;
    }
    assert(all.take(all.len() as int) =~= all);
    Ok(())
}

proof fn lemma_batch_refused(c: ContextView, ms: Seq<MutationView>, n: int)
    requires
        0 <= n <= ms.len(),
        mutations_allowed(c, ms.take(n)) is Err,
    ensures
        mutations_allowed(c, ms) == mutations_allowed(c, ms.take(n)),
    decreases ms.len() - n,
{
    if n == ms.len() {
        assert(ms.take(n) =~= ms);
    } else {
        assert(ms.take(n + 1).drop_last() =~= ms.take(n));
        lemma_batch_refused(c, ms, n + 1);
    }
}

/// Whether a client may ask for something.
pub fn check_permission(context: &SecurityContext, op: &Operation) -> (r: Result<(), ServerError>)
    ensures
        permission_is(r, allowed(context@, *op)),
{
    match op {
        Operation::Query(q) => check_query(context, q),
        Operation::Explain(q) => check_query(context, q),
        Operation::Mutate(m) => check_mutation_permission(context, m),
        Operation::MutateBatch(b) => check_batch(context, b),
        Operation::Aggregate(q) => require(context, Access::Read, q.root_entity.as_str()),
        Operation::GetMetrics => check_admin(context),
        Operation::StreamChanges(_) => check_admin(context),
        Operation::GetReplicationStatus => check_admin(context),
        Operation::ApplySchema(_) => check_admin(context),
        Operation::GetSchema => Ok(()),
        Operation::Ping => Ok(()),
        Operation::Subscribe => Ok(()),
        Operation::Unsubscribe => Ok(()),
    }
}

/// A client that may do everything is refused nothing but queries that go too
/// deep.
pub proof fn law_admin_is_allowed(c: ContextView, op: Operation)
    requires
        has_admin(c.capabilities),
    ensures
        match op {
            Operation::Query(q) => allowed(c, op) is Ok <==> query_depth(q@) <= c.budget.max_depth,
            Operation::Explain(q) => allowed(c, op) is Ok <==> query_depth(q@)
                <= c.budget.max_depth,
            _ => allowed(c, op) is Ok,
        },
{
    match op {
        Operation::MutateBatch(b) => {
            lemma_admin_batch(c, mutations_view(b.mutations@));
        },
        _ => {},
    }
}

proof fn lemma_admin_batch(c: ContextView, ms: Seq<MutationView>)
    requires
        has_admin(c.capabilities),
    ensures
        mutations_allowed(c, ms) is Ok,
    decreases ms.len(),
{
    if ms.len() > 0 {
        lemma_admin_batch(c, ms.drop_last());
    }
}

/// Whether a request depends on the schema.
pub open spec fn needs_schema(op: Operation) -> bool {
    op is Query || op is Mutate || op is MutateBatch
}

/// Whether a client has another version of the schema; 0 stands for any.
pub open spec fn mismatched(request: Request, server_version: u64) -> bool {
    needs_schema(request.operation) && request.schema_version != 0 && request.schema_version
        != server_version
}

/// What is said where a client has another version of the schema.
pub open spec fn mismatch_text(client: u64, server: u64) -> Seq<char> {
    "schema version mismatch: client has "@ + decimal(client as nat) + ", server has "@ + decimal(
        server as nat,
    )
}

fn mismatch_message(client: u64, server: u64) -> (s: String)
    ensures
        s@ == mismatch_text(client, server),
{
    let mut s: String = "schema version mismatch: client has ".to_owned();
    s.append(decimal_text(client as u128).as_str());
    s.append(", server has ");
    s.append(decimal_text(server as u128).as_str());
    s
}

/// The number of entities in all.
pub open spec fn sum_counts(counts: Seq<(Seq<char>, u64)>) -> nat
    decreases counts.len(),
{
    if counts.len() == 0 {
        0
    } else {
        sum_counts(counts.drop_last()) + counts.last().1 as nat
    }
}

/// What a server has done. Without a registry nothing has been counted.
pub open spec fn metrics_of(
    registry: Option<RegistrySnapshot>,
    queries_by_entity: Seq<(Seq<char>, u64)>,
    db: DbView,
) -> MetricsView {
    MetricsView {
        queries_by_entity: if registry is Some {
            queries_by_entity
        } else {
            Seq::empty()
        },
        registry: match registry {
            Some(r) => RegistrySnapshot {
                cache_hits: db.counters.cache_hits,
                cache_misses: db.counters.cache_misses,
                cache_evictions: db.plan_cache.evictions,
                cache_size: db.plan_cache.plans.len() as u64,
                ..r
            },
            None => empty_snapshot(),
        },
        cache_capacity: if registry is Some {
            1000
        } else {
            0
        },
        entity_counts: db.statistics,
        total_entities: sum_counts(db.statistics),
    }
}

/// Collects what a server has done.
pub fn collect_metrics(
    registry: Option<RegistrySnapshot>,
    queries: &TableStatistics,
    db: &Database,
) -> (m: MetricsResult)
    ensures
        m@ == metrics_of(registry, queries@, db@),
{
    let statistics: &TableStatistics = &db.statistics;
    let entity_counts: Vec<(String, u64)> = statistics.snapshot();
    let ghost counts = statistics@;
    let mut total: u128 = 0;
    let mut i: usize = 0;
    assert(counts.take(0) =~= Seq::<(Seq<char>, u64)>::empty());
    while i < entity_counts.len()
        invariant
            i <= entity_counts@.len(),
            counts == entity_counts@.map_values(|c: (String, u64)| (c.0@, c.1)),
            total == sum_counts(counts.take(i as int)),
            total <= i as nat * 0xffff_ffff_ffff_ffff,
        decreases entity_counts@.len() - i,
    {
        proof {
            assert(counts.take(i + 1).drop_last() =~= counts.take(i as int));
            assert(counts.take(i + 1).last() == counts[i as int]);
            assert((i + 1) as nat * 0xffff_ffff_ffff_ffff == i as nat * 0xffff_ffff_ffff_ffff
                + 0xffff_ffff_ffff_ffff) by (nonlinear_arith);
            assert(i as nat * 0xffff_ffff_ffff_ffff <= 0xffff_ffff_ffff_ffff
                * 0xffff_ffff_ffff_ffff) by (nonlinear_arith)
                requires
                    i <= 0xffff_ffff_ffff_ffff,
            ;
        }
        total = total + entity_counts[i].1 as u128;
        i = i + 1;
    }
    assert(counts.take(counts.len() as int) =~= counts);
    let (snapshot, cache_capacity): (RegistrySnapshot, u64) = match registry {
        Some(r) => (
            RegistrySnapshot {
                cache_hits: db.counters.cache_hits,
                cache_misses: db.counters.cache_misses,
                cache_evictions: db.plan_cache.evictions(),
                cache_size: db.plan_cache.len() as u64,
                ..r
            },
            1000,
        ),
        None => (RegistrySnapshot::default(), 0),
    };
    let queries_by_entity: Vec<(String, u64)> = match registry {
        Some(_) => queries.snapshot(),
        None => Vec::new(),
    };
    let m = MetricsResult {
        registry: snapshot,
        queries_by_entity,
        cache_capacity,
        entity_counts,
        total_entities: total,
    };
    assert(m@.queries_by_entity =~= metrics_of(registry, queries@, db@).queries_by_entity);
    m
}

/// Where the changes after a batch start.
pub open spec fn next_lsn(entries: Seq<ChangeView>, from_lsn: u64) -> u64 {
    if entries.len() > 0 && entries.last().lsn < u64::MAX {
        (entries.last().lsn + 1) as u64
    } else if entries.len() > 0 {
        u64::MAX
    } else {
        from_lsn
    }
}

/// The answer to a request for changes.
pub open spec fn stream_view(log: Seq<ChangeView>, req: StreamChangesRequest) -> PayloadView {
    let types = match req.entity_filter {
        Some(t) => Some(texts(t@)),
        None => None,
    };
    let all = changes_from(log, req.from_lsn, types);
    let entries = first_changes(all, req.batch_size as nat);
    PayloadView::StreamChanges(entries, next_lsn(entries, req.from_lsn), all.len() > req.batch_size)
}

/// Answers a request for changes.
pub fn stream_changes(changelog: &ChangeLog, req: &StreamChangesRequest) -> (p: ResponsePayload)
    ensures
        p@ == stream_view(changelog@, *req),
{
    let batch: usize = req.batch_size as usize;
    let (entries, has_more) = match &req.entity_filter {
        Some(types) => changelog.scan_filtered(req.from_lsn, batch, Some(types)),
        None => changelog.scan_batch(req.from_lsn, batch),
    };
    let ghost views = changes_view(entries@);
    assert(views.len() == entries@.len());
    let next: u64 = if entries.len() > 0 {
        let last: u64 = entries[entries.len() - 1].lsn;
        assert(views.last().lsn == last);
        if last < u64::MAX {
            last + 1
        } else {
            last
        }
    } else {
        req.from_lsn
    };
    ResponsePayload::StreamChanges { entries, next_lsn: next, has_more }
}

/// What a node is in its cluster.
#[derive(Debug, Clone, Copy, PartialEq, Eq, Structural)]
pub enum Role {
    /// It is alone.
    Single,
    /// It leads.
    Leader,
    /// It follows.
    Follower,
}

/// What the cluster has answered.
#[derive(Debug)]
pub enum Reply {
    /// Nothing has been asked of it yet.
    Nothing,
    /// What was replicated, or why it was not.
    Written(Result<ClientResponse, String>),
    /// The node leads the cluster, or why it does not.
    Confirmed(Result<(), String>),
}

/// What is to be done with a request.
#[derive(Debug)]
pub enum Step {
    /// It is answered; the events go into the audit log.
    Answer(Response, Vec<AuditEvent>),
    /// It has to be replicated first.
    Write(ClientRequest),
    /// The node has to make sure first that it leads the cluster.
    Confirm,
}

/// The part of a step that an operation decides.
pub enum Performed {
    /// The answer, and the events that go into the audit log.
    Payload(ResponsePayload, Vec<AuditEvent>),
    /// It has to be replicated first.
    Write(ClientRequest),
    /// The node has to make sure first that it leads the cluster.
    Confirm,
}

/// The part of a step that an operation decides, in mathematical terms.
pub ghost enum PerformedView {
    /// See [`Performed::Payload`].
    Payload(PayloadView, Seq<AuditView>),
    /// See [`Performed::Write`].
    Write(ClientRequestView),
    /// See [`Performed::Confirm`].
    Confirm,
}

impl View for Performed {
    type V = PerformedView;

    open spec fn view(&self) -> PerformedView {
        match *self {
            Performed::Payload(p, events) => PerformedView::Payload(p@, events_view(events@)),
            Performed::Write(r) => PerformedView::Write(r@),
            Performed::Confirm => PerformedView::Confirm,
        }
    }
}

/// Results in mathematical terms.
pub open spec fn performed_view(r: Result<Performed, ServerError>) -> Result<
    PerformedView,
    ServerErrorView,
> {
    match r {
        Ok(p) => Ok(p@),
        Err(e) => Err(e@),
    }
}

/// Whether an operation is planned by how many entities there are.
pub open spec fn planned_by_counts(op: Operation) -> bool {
    op is Query || op is Explain
}

/// How long counts are good for, in microseconds: a minute.
pub open spec fn statistics_interval() -> u64 {
    60_000_000
}

/// Answers requests.
pub struct RequestHandler {
    authenticator: Authenticator,
    read_consistency: ReadConsistency,
    policies: Vec<RlsPolicy>,
    masks: Vec<FieldMask>,
    registry: Option<RegistrySnapshot>,
    queries: TableStatistics,
}

/// How requests are answered, in mathematical terms.
pub ghost struct HandlerView {
    /// How clients are recognised.
    pub authenticator: AuthView,
    /// How queries are read.
    pub read_consistency: ReadConsistency,
    /// The row-level policies.
    pub policies: Seq<PolicyView>,
    /// What is done to fields before clients see them that may not do everything.
    pub masks: Seq<MaskView>,
    /// What has been counted.
    pub registry: Option<RegistrySnapshot>,
    /// How many queries were answered from each type.
    pub queries: Seq<(Seq<char>, u64)>,
}

impl View for RequestHandler {
    type V = HandlerView;

    closed spec fn view(&self) -> HandlerView {
        HandlerView {
            authenticator: self.authenticator@,
            read_consistency: self.read_consistency,
            policies: policies_view(self.policies@),
            masks: masks_view(self.masks@),
            registry: self.registry,
            queries: self.queries@,
        }
    }
}

/// What a query of a client is run under.
pub open spec fn rules_for(h: HandlerView, c: ContextView, read_ts: Option<u64>) -> RunRules {
    RunRules {
        masks: c.masks,
        policies: if has_admin(c.capabilities) {
            Seq::empty()
        } else {
            h.policies
        },
        read_ts,
        hits: None,
    }
}

/// Whether a query was run as it is to be.
pub open spec fn ran_as(
    before: StoreView,
    after: StoreView,
    planned: Result<PlanView, ErrorView>,
    rules: RunRules,
    statistics: Option<Seq<(Seq<char>, u64)>>,
    r: Result<ResultView, ErrorView>,
) -> bool {
    match planned {
        Err(x) => r == Err::<ResultView, ErrorView>(x) && after == before,
        Ok(plan) => match r {
            Ok(v) => run_outcome(before, plan, rules, statistics) matches Ok(ran) && v == ran.result
                && after == ran.store,
            Err(e) => queries_keep(after, before) && (e is Storage || run_outcome(
                before,
                plan,
                rules,
                statistics,
            ) == Err::<Ran, ErrorView>(e)),
        },
    }
}

/// The error of a query that could not be answered.
pub open spec fn query_failed(prefix: Seq<char>, e: ErrorView) -> ServerErrorView {
    ServerErrorView::Database(prefix + store_error_text(e))
}

/// The answer to a query.
pub open spec fn query_answer(
    c: ContextView,
    q: QueryView,
    prefix: Seq<char>,
    r: Result<ResultView, ErrorView>,
) -> Result<PerformedView, ServerErrorView> {
    match r {
        Ok(v) => Ok(
            PerformedView::Payload(
                PayloadView::Query(v),
                seq![AuditView::Query(c.client_id, q.root_entity, v.entities[0].ids.len())],
            ),
        ),
        Err(e) => Err(query_failed(prefix, e)),
    }
}

/// What went wrong, where something did.
pub open spec fn failure_in(r: Result<ResultView, ErrorView>) -> Option<ErrorView> {
    match r {
        Ok(_) => None,
        Err(e) => Some(e),
    }
}

/// Whether a query was answered as it is to be.
pub open spec fn query_performed(
    h: HandlerView,
    c: ContextView,
    before: DbView,
    after: DbView,
    q: QueryView,
    role: Role,
    reply: Reply,
    r: Result<PerformedView, ServerErrorView>,
) -> bool {
    let planned = plan_outcome(before.schema, q, default_budget());
    let served = served_plan(before.plan_cache, before.schema, q, default_budget());
    let snapshot = rules_for(h, c, Some(before.store.watermark));
    &&& after == (DbView {
        store: after.store,
        plan_cache: after.plan_cache,
        counters: after.counters,
        ..before
    })
    &&& after.plan_cache == if h.read_consistency == ReadConsistency::ReadCommitted {
        cache_after(before.plan_cache, before.schema, q, default_budget())
    } else {
        before.plan_cache
    }
    &&& match h.read_consistency {
        ReadConsistency::ReadCommitted => exists|v: Result<ResultView, ErrorView>|
            #[trigger] ran_as(
                before.store,
                after.store,
                tuned(served, true),
                rules_for(h, c, None),
                Some(before.statistics),
                v,
            ) && r == query_answer(c, q, "query execution failed: "@, v) && query_counted(
                cache_counted(
                    before.counters,
                    kept_plan(before.plan_cache.plans, before.schema.version, q) is Some,
                ),
                after.counters,
                failure_in(v),
                before.store,
                tuned(served, true),
                rules_for(h, c, None),
                Some(before.statistics),
            ),
        ReadConsistency::Snapshot => exists|v: Result<ResultView, ErrorView>|
            #[trigger] ran_as(before.store, after.store, planned, snapshot, None, v) && r
                == query_answer(c, q, "snapshot query failed: "@, v) && query_counted(
                before.counters,
                after.counters,
                failure_in(v),
                before.store,
                planned,
                snapshot,
                None,
            ),
        ReadConsistency::Linearizable => if role != Role::Single && !(reply is Confirmed) {
            r == Ok::<PerformedView, ServerErrorView>(PerformedView::Confirm) && after == before
        } else if role != Role::Single && reply->Confirmed_0 is Err {
            r == Err::<PerformedView, ServerErrorView>(
                ServerErrorView::Database(
                    "linearizable read failed: "@ + reply->Confirmed_0->Err_0@,
                ),
            ) && after == before
        } else {
            exists|v: Result<ResultView, ErrorView>|
                #[trigger] ran_as(before.store, after.store, planned, snapshot, None, v) && r
                    == query_answer(c, q, "linearizable query failed: "@, v) && query_counted(
                before.counters,
                after.counters,
                failure_in(v),
                before.store,
                planned,
                snapshot,
                None,
            )
        },
    }
}

/// The event of a change.
pub open spec fn mutation_event(c: ContextView, m: MutationView, ids: Seq<Seq<u8>>) -> AuditView {
    AuditView::Mutation(c.client_id, m.entity(), mutation_word(m), ids)
}

/// The events of several changes.
pub open spec fn batch_events(c: ContextView, ms: Seq<MutationView>) -> Seq<AuditView> {
    ms.map_values(|m: MutationView| mutation_event(c, m, Seq::empty()))
}

/// What the cluster's answer to a change comes to.
pub open spec fn replicated(reply: Result<ClientResponse, String>) -> Result<
    MutationResultView,
    ServerErrorView,
> {
    match reply {
        Ok(ClientResponse::MutationResult(r)) => Ok(r@),
        Ok(ClientResponse::Error(s)) => Err(ServerErrorView::Database(s@)),
        Ok(ClientResponse::NoopResult) => Err(
            ServerErrorView::Database("unexpected noop response from raft"@),
        ),
        Err(e) => Err(ServerErrorView::Database("raft write failed: "@ + e@)),
    }
}

/// The refusal of a change by a node that follows.
pub open spec fn not_leader() -> ServerErrorView {
    ServerErrorView::Database(
        "not the leader; writes must be sent to the current cluster leader"@,
    )
}

/// The answer to a change.
pub open spec fn mutation_answer(
    r: Result<MutationResultView, ServerErrorView>,
    events: Seq<AuditView>,
) -> Result<PerformedView, ServerErrorView> {
    match r {
        Ok(v) => Ok(PerformedView::Payload(PayloadView::Mutation(v), events)),
        Err(e) => Err(e),
    }
}

/// What a node that is not alone does with a change.
pub open spec fn routed(
    role: Role,
    reply: Reply,
    request: ClientRequestView,
    events: spec_fn(MutationResultView) -> Seq<AuditView>,
) -> Result<PerformedView, ServerErrorView> {
    if role == Role::Follower {
        Err(not_leader())
    } else {
        match reply {
            Reply::Written(w) => match replicated(w) {
                Ok(v) => mutation_answer(Ok(v), events(v)),
                Err(e) => Err(e),
            },
            _ => Ok(PerformedView::Write(request)),
        }
    }
}

/// A result in mathematical terms.
pub open spec fn mutation_view_of(r: Result<MutationResult, ServerError>) -> Result<
    MutationResultView,
    ServerErrorView,
> {
    match r {
        Ok(v) => Ok(v@),
        Err(e) => Err(e@),
    }
}

/// Changes that bring all identifiers with them.
pub open spec fn all_assigned(ms: Seq<MutationView>, fresh: Seq<Seq<u8>>) -> Seq<MutationView> {
    Seq::new(ms.len(), |i: int| assigned(ms[i], fresh[i]))
}

/// The rows that pass a condition, or the first error.
pub open spec fn counted_rows(items: Seq<RowItemView>, filter: Option<FilterView>) -> Result<
    Seq<Seq<u8>>,
    ErrorView,
> {
    gather(items.map_values(|i: RowItemView| counted_row(i, filter)), Seq::empty(), None)
}

/// A row, where it passes a condition.
pub open spec fn counted_row(item: RowItemView, filter: Option<FilterView>) -> Result<
    Option<Seq<u8>>,
    ErrorView,
> {
    match item {
        Err(e) => Err(e),
        Ok((id, fs)) => match passes(filter, fs) {
            Err(e) => Err(e),
            Ok(true) => Ok(Some(id)),
            Ok(false) => Ok(None),
        },
    }
}

/// An answer without an event.
pub open spec fn plain_answer(p: PayloadView) -> Result<PerformedView, ServerErrorView> {
    Ok(PerformedView::Payload(p, Seq::empty()))
}

/// Whether an operation was performed as it is to be.
pub open spec fn performed(
    h: HandlerView,
    c: ContextView,
    before: DbView,
    after: DbView,
    op: Operation,
    role: Role,
    reply: Reply,
    fresh: Seq<Seq<u8>>,
    r: Result<PerformedView, ServerErrorView>,
) -> bool {
    match op {
        Operation::Query(q) => query_performed(h, c, before, after, q@, role, reply, r),
        Operation::Mutate(m) => if role == Role::Single {
            exists|x: Result<MutationResult, ServerError>, now: u64, id: Seq<u8>|
                #[trigger] executed(x, before, after, m@, WriteClock::Wall, now, id, false) && r
                    == mutation_answer(
                    mutation_view_of(x),
                    if x is Ok {
                        seq![mutation_event(c, m@, x->Ok_0@.inserted_ids)]
                    } else {
                        Seq::empty()
                    },
                )
        } else {
            after == before && r == routed(
                role,
                reply,
                ClientRequestView::Mutate(assigned(m@, fresh[0])),
                |v: MutationResultView| seq![mutation_event(c, m@, v.inserted_ids)],
            )
        },
        Operation::MutateBatch(b) => if role == Role::Single {
            exists|x: Result<MutationResult, ServerError>, now: u64, ids: Seq<Seq<u8>>|
                #[trigger] batch_executed(
                    x,
                    before,
                    after,
                    mutations_view(b.mutations@),
                    WriteClock::Wall,
                    now,
                    ids,
                    false,
                ) && r == mutation_answer(
                    mutation_view_of(x),
                    batch_events(c, mutations_view(b.mutations@)),
                )
        } else {
            after == before && r == routed(
                role,
                reply,
                ClientRequestView::MutateBatch(
                    all_assigned(mutations_view(b.mutations@), fresh),
                ),
                |v: MutationResultView| batch_events(c, mutations_view(b.mutations@)),
            )
        },
        Operation::GetSchema => after == before && r == plain_answer(
            PayloadView::Schema(
                before.schema.version,
                if before.schema.version == 0 {
                    None
                } else {
                    Some(before.schema)
                },
            ),
        ),
        Operation::Ping => after == before && r == plain_answer(PayloadView::Pong),
        Operation::Explain(q) => after == before && r == match tuned(
            plan_outcome(before.schema, q@, default_budget()),
            true,
        ) {
            Ok(p) => plain_answer(PayloadView::Explain(p)),
            Err(e) => Err(query_failed("explain failed: "@, e)),
        },
        Operation::GetMetrics => after == before && r == plain_answer(
            PayloadView::Metrics(metrics_of(h.registry, h.queries, before)),
        ),
        Operation::Aggregate(q) => after == before && {
            let rows = counted_rows(
                row_items(before.store.columnar, q.root_entity@),
                q.filter.deep_view(),
            );
            ||| r == Err::<PerformedView, ServerErrorView>(
                query_failed("aggregate query failed: "@, ErrorView::Storage),
            )
            ||| r == match rows {
                Ok(found) => plain_answer(
                    PayloadView::Aggregate(q.root_entity@, found.len() as u64),
                ),
                Err(e) => Err(query_failed("aggregate query failed: "@, e)),
            }
        },
        Operation::Subscribe => after == before && r == Err::<PerformedView, ServerErrorView>(
            no_pubsub(),
        ),
        Operation::Unsubscribe => after == before && r == Err::<PerformedView, ServerErrorView>(
            no_pubsub(),
        ),
        Operation::StreamChanges(req) => after == before && r == plain_answer(
            stream_view(before.changelog, req),
        ),
        Operation::GetReplicationStatus => after == before && r == plain_answer(
            PayloadView::Replication(
                ReplicationStatus {
                    role: ReplicationRole::Standalone,
                    current_lsn: before.changelog.len() as u64,
                    lag_entries: 0,
                    lag_ms: 0,
                },
            ),
        ),
        Operation::ApplySchema(s) => after == (DbView {
            schema: s@,
            plan_cache: CacheView { plans: Seq::empty(), ..before.plan_cache },
            ..before
        }) && r
            == plain_answer(PayloadView::SchemaApplied(s@.version)),
    }
}

/// The refusal of subscriptions.
pub open spec fn no_pubsub() -> ServerErrorView {
    ServerErrorView::Protocol("pub-sub operations not yet available on this handler"@)
}

/// Whether a refusal goes into the audit log.
pub open spec fn is_denial(e: ServerErrorView) -> bool {
    e matches ServerErrorView::Security(s) && (s is PermissionDenied || s is CapabilityNotGranted
        || s is RlsViolation || s is FieldAccessDenied)
}

/// The events of a request that was not answered.
pub open spec fn denial_events(c: ContextView, op: Operation, e: ServerErrorView) -> Seq<AuditView> {
    if is_denial(e) {
        seq![
            AuditView::AccessDenied(
                c.client_id,
                operation_info(op).0,
                operation_info(op).1,
                security_error_text(e->Security_0),
            ),
        ]
    } else {
        Seq::empty()
    }
}

/// The name of a client.
pub open spec fn client_name(request: Request) -> Seq<char> {
    match request.client_id {
        Some(s) => s@,
        None => "anonymous"@,
    }
}

/// The name of a connection.
pub open spec fn connection_name(request: Request) -> Seq<char> {
    "req-"@ + decimal(request.id as nat)
}

/// The client of a request that was recognised.
pub open spec fn context_of(
    h: HandlerView,
    request: Request,
    capabilities: Seq<Seq<char>>,
) -> ContextView {
    ContextView {
        connection_id: connection_name(request),
        client_id: client_name(request),
        capabilities,
        budget: default_budget(),
        masks: if has_admin(capabilities) {
            Seq::empty()
        } else {
            h.masks
        },
    }
}

/// The event of a client that was recognised, or not.
pub open spec fn authentication_event(request: Request, r: Result<Seq<Seq<char>>, SecurityErrorView>) -> AuditView {
    AuditView::Authentication(
        connection_name(request),
        client_name(request),
        match r {
            Ok(capabilities) => capabilities,
            Err(_) => Seq::empty(),
        },
        match r {
            Ok(_) => None,
            Err(e) => Some(security_error_text(e)),
        },
    )
}

/// Whether a step is an answer.
pub open spec fn answers(step: Step, response: ResponseView, events: Seq<AuditView>) -> bool {
    step matches Step::Answer(r, e) && r@ == response && events_view(e@) == events
}

/// Whether a request was handled as it is to be, with the handler's own way of
/// recognising clients.
pub open spec fn handled(
    h: HandlerView,
    before: DbView,
    after: DbView,
    request: Request,
    role: Role,
    reply: Reply,
    fresh: Seq<Seq<u8>>,
    step: Step,
) -> bool {
    let auth = authenticated(h.authenticator, request.credentials.deep_view());
    handled_as(h, auth, before, after, request, role, reply, fresh, step)
}

/// Whether a request was handled as it is to be: a client that is not recognised
/// is turned away; one with another schema is told so; one that may not ask is
/// refused; and else the operation is performed.
pub open spec fn handled_as(
    h: HandlerView,
    auth: Result<Seq<Seq<char>>, SecurityErrorView>,
    before: DbView,
    after: DbView,
    request: Request,
    role: Role,
    reply: Reply,
    fresh: Seq<Seq<u8>>,
    step: Step,
) -> bool {
    let first = authentication_event(request, auth);
    match auth {
        Err(e) => after == before && answers(
            step,
            error_response_view(request.id, ServerErrorView::Security(e)),
            seq![first],
        ),
        Ok(capabilities) => {
            let c = context_of(h, request, capabilities);
            if mismatched(request, before.schema.version) {
                after == before && answers(
                    step,
                    error_view(
                        request.id,
                        ErrorCode::SchemaMismatch,
                        mismatch_text(request.schema_version, before.schema.version),
                    ),
                    seq![first],
                )
            } else {
                match allowed(c, request.operation) {
                    Err(e) => after == before && answers(
                        step,
                        error_response_view(request.id, e),
                        seq![first] + denial_events(c, request.operation, e),
                    ),
                    Ok(_) => exists|r: Result<PerformedView, ServerErrorView>|
                        #[trigger] performed(
                            h,
                            c,
                            before,
                            after,
                            request.operation,
                            role,
                            reply,
                            fresh,
                            r,
                        ) && stepped(step, request, c, first, r),
                }
            }
        },
    }
}

/// What was found out of a client, in mathematical terms.
pub open spec fn recognised_view(r: Result<Vec<String>, SecurityError>) -> Result<
    Seq<Seq<char>>,
    SecurityErrorView,
> {
    match r {
        Ok(capabilities) => Ok(texts(capabilities@)),
        Err(e) => Err(e@),
    }
}

/// Whether a step follows from what was performed.
pub open spec fn stepped(
    step: Step,
    request: Request,
    c: ContextView,
    first: AuditView,
    r: Result<PerformedView, ServerErrorView>,
) -> bool {
    match r {
        Ok(PerformedView::Payload(p, events)) => answers(
            step,
            ok_view(request.id, p),
            seq![first] + events,
        ),
        Ok(PerformedView::Write(w)) => step matches Step::Write(got) && got@ == w,
        Ok(PerformedView::Confirm) => step is Confirm,
        Err(e) => answers(
            step,
            error_response_view(request.id, e),
            seq![first] + denial_events(c, request.operation, e),
        ),
    }
}

/// Whether a request is turned away before it is performed.
pub open spec fn turned_away(h: HandlerView, before: DbView, request: Request) -> bool {
    match authenticated(h.authenticator, request.credentials.deep_view()) {
        Err(_) => true,
        Ok(capabilities) => mismatched(request, before.schema.version) || allowed(
            context_of(h, request, capabilities),
            request.operation,
        ) is Err,
    }
}

/// A request that is turned away changes nothing and is answered with an error, on
/// every node.
pub proof fn law_turned_away_changes_nothing(
    h: HandlerView,
    before: DbView,
    after: DbView,
    request: Request,
    role: Role,
    reply: Reply,
    fresh: Seq<Seq<u8>>,
    step: Step,
)
    requires
        handled(h, before, after, request, role, reply, fresh, step),
        turned_away(h, before, request),
    ensures
        after == before,
        step matches Step::Answer(r, _) && r@.id == request.id && r@.status is Error
            && r@.payload is Empty,
{
}

/// A node of a cluster never writes by itself: it answers a write only with what
/// the cluster replied, and its data stay as they are.
pub proof fn law_replicas_do_not_write(
    h: HandlerView,
    before: DbView,
    after: DbView,
    request: Request,
    role: Role,
    reply: Reply,
    fresh: Seq<Seq<u8>>,
    step: Step,
)
    requires
        handled(h, before, after, request, role, reply, fresh, step),
        request.operation is Mutate || request.operation is MutateBatch,
        role != Role::Single,
    ensures
        after == before,
{
}

/// The answer to a query, in mathematical terms.
pub open spec fn answer_view(r: Result<QueryResult, DbError>) -> Result<ResultView, ErrorView> {
    match r {
        Ok(result) => Ok(result@),
        Err(e) => Err(e@),
    }
}

fn failed_query(prefix: &str, e: &DbError) -> (r: ServerError)
    ensures
        r@ == query_failed(prefix@, e@),
{
    ServerError::Database(join2(prefix, store_error_message(e).as_str()))
}

fn no_events() -> (v: Vec<AuditEvent>)
    ensures
        events_view(v@) == Seq::<AuditView>::empty(),
{
    let v: Vec<AuditEvent> = Vec::new();
    assert(events_view(v@) =~= Seq::<AuditView>::empty());
    v
}

fn one_event(e: AuditEvent) -> (v: Vec<AuditEvent>)
    ensures
        events_view(v@) == seq![e@],
{
    let mut v: Vec<AuditEvent> = Vec::new();
    v.push(e);
    assert(events_view(v@) =~= seq![e@]);
    v
}

fn made_event(context: &SecurityContext, m: &Mutation, ids: &Vec<EntityId>) -> (e: AuditEvent)
    ensures
        e@ == mutation_event(context@, m@, ids_view(ids@)),
{
    AuditEvent::Mutation {
        client_id: context.client_id.clone(),
        entity: m.entity().to_owned(),
        operation: word_for(m).to_owned(),
        ids: copy_slice(ids.as_slice()),
    }
}

fn made_events(context: &SecurityContext, batch: &MutationBatch) -> (v: Vec<AuditEvent>)
    ensures
        events_view(v@) == batch_events(context@, mutations_view(batch.mutations@)),
{
    let ghost ms = mutations_view(batch.mutations@);
    let none: Vec<EntityId> = Vec::new();
    assert(ids_view(none@) =~= Seq::<Seq<u8>>::empty());
    let mut v: Vec<AuditEvent> = Vec::new();
    let mut i: usize = 0;
    while i < batch.mutations.len()
        invariant
            i <= batch.mutations@.len(),
            ms == mutations_view(batch.mutations@),
            ids_view(none@) == Seq::<Seq<u8>>::empty(),
            v@.len() == i,
            forall|k: int|
                0 <= k < i ==> (#[trigger] v@[k])@ == mutation_event(
                    context@,
                    ms[k],
                    Seq::empty(),
                ),
        decreases batch.mutations@.len() - i,
    {
        assert(ms[i as int] == batch.mutations@[i as int]@);
        v.push(made_event(context, &batch.mutations[i], &none));
        i = i + 1;
    }
    assert(events_view(v@) =~= batch_events(context@, ms));
    v
}

fn take_reply(w: Result<ClientResponse, String>) -> (r: Result<MutationResult, ServerError>)
    ensures
        mutation_view_of(r) == replicated(w),
{
    match w {
        Ok(response) => match response {
            ClientResponse::MutationResult(r) => Ok(r),
            ClientResponse::Error(s) => Err(ServerError::Database(s)),
            ClientResponse::NoopResult => Err(
                ServerError::Database("unexpected noop response from raft".to_owned()),
            ),
        },
        Err(e) => Err(ServerError::Database(join2("raft write failed: ", e.as_str()))),
    }
}

fn refuse_write() -> (e: ServerError)
    ensures
        e@ == not_leader(),
{
    ServerError::Database(
        "not the leader; writes must be sent to the current cluster leader".to_owned(),
    )
}

fn assign_all(batch: &MutationBatch, fresh: &Vec<EntityId>) -> (b: MutationBatch)
    requires
        fresh@.len() >= batch.mutations@.len(),
    ensures
        mutations_view(b.mutations@) == all_assigned(
            mutations_view(batch.mutations@),
            ids_view(fresh@),
        ),
{
    let mut mutations: Vec<Mutation> = Vec::new();
    let mut i: usize = 0;
    while i < batch.mutations.len()
        invariant
            i <= batch.mutations@.len() <= fresh@.len(),
            mutations@.len() == i,
            forall|k: int|
                0 <= k < i ==> (#[trigger] mutations@[k])@ == assigned(
                    batch.mutations@[k]@,
                    fresh@[k]@,
                ),
        decreases batch.mutations@.len() - i,
    {
        mutations.push(ensure_assigned_id(&batch.mutations[i], fresh[i]));
        i = i + 1;
    }
    assert(mutations_view(mutations@) =~= all_assigned(
        mutations_view(batch.mutations@),
        ids_view(fresh@),
    ));
    MutationBatch { mutations }
}

/// How many fresh identifiers a request may need.
pub open spec fn ids_needed(op: Operation) -> nat {
    match op {
        Operation::Mutate(_) => 1,
        Operation::MutateBatch(b) => b.mutations@.len(),
        _ => 0,
    }
}

/// Counts the entities that pass a condition, by the row projection.
pub fn count_entities(storage: &StorageEngine, query: &AggregateQuery) -> (r: Result<u64, DbError>)
    ensures
        ({
            let rows = counted_rows(
                row_items(storage@.columnar, query.root_entity@),
                query.filter.deep_view(),
            );
            match r {
                Ok(n) => rows matches Ok(found) && n == found.len() as u64,
                Err(e) => e@ is Storage || rows == Err::<Seq<Seq<u8>>, ErrorView>(e@),
            }
        }),
{
    let items: Vec<RowItem> = storage.scan_rows(query.root_entity.as_str())?;
    let ghost views = items@.map_values(|i: RowItem| row_item_view(i));
    let ghost f = query.filter.deep_view();
    let ghost all = views.map_values(|i: RowItemView| counted_row(i, f));
    let ghost mut found: Seq<Seq<u8>> = Seq::empty();
    let mut count: u64 = 0;
    let mut i: usize = 0;
    proof {
        assert(all.skip(0) =~= all);
    }
    while i < items.len()
        invariant
            i <= items@.len(),
            views == items@.map_values(|i: RowItem| row_item_view(i)),
            views == row_items(storage@.columnar, query.root_entity@),
            f == query.filter.deep_view(),
            all == views.map_values(|i: RowItemView| counted_row(i, f)),
            count == found.len(),
            count <= i,
            gather(all, Seq::empty(), None) == gather(all.skip(i as int), found, None),
        decreases items@.len() - i,
    {
        proof {
            lemma_gather_step(all, i as int, found, None);
            assert(all[i as int] == counted_row(row_item_view(items@[i as int]), f));
        }
        match &items[i] {
            Ok(item) => {
                if evaluate_optional(&query.filter, item.1.as_slice())? {
                    count = count + 1;
                    proof {
                        found = found.push(item.0@);
                    }
                }
            },
            Err(e) => {
                return Err(e.duplicate());
            },
        }
        i = i + 1;
    }
    Ok(count)
}

impl RequestHandler {
    /// A handler that lets everybody do everything. For development only.
    pub fn new() -> (h: RequestHandler)
        ensures
            h@ == (HandlerView {
                authenticator: AuthView::Dev,
                read_consistency: ReadConsistency::ReadCommitted,
                policies: Seq::empty(),
                masks: Seq::empty(),
                registry: None,
                queries: Seq::empty(),
            }),
    {
        RequestHandler::with_authenticator(Authenticator::Dev)
    }

    /// A handler that recognises clients.
    pub fn with_authenticator(authenticator: Authenticator) -> (h: RequestHandler)
        ensures
            h@ == (HandlerView {
                authenticator: authenticator@,
                read_consistency: ReadConsistency::ReadCommitted,
                policies: Seq::empty(),
                masks: Seq::empty(),
                registry: None,
                queries: Seq::empty(),
            }),
    {
        let h = RequestHandler {
            authenticator,
            read_consistency: ReadConsistency::default(),
            policies: Vec::new(),
            masks: Vec::new(),
            registry: None,
            queries: TableStatistics::new(),
        };
        assert(h@.policies =~= Seq::<PolicyView>::empty());
        assert(h@.masks =~= Seq::<MaskView>::empty());
        h
    }

    /// With a read consistency.
    pub fn with_read_consistency(self, mode: ReadConsistency) -> (h: RequestHandler)
        ensures
            h@ == (HandlerView { read_consistency: mode, ..self@ }),
    {
        RequestHandler { read_consistency: mode, ..self }
    }

    /// With row-level policies.
    pub fn with_policies(self, policies: Vec<RlsPolicy>) -> (h: RequestHandler)
        ensures
            h@ == (HandlerView { policies: policies_view(policies@), ..self@ }),
    {
        RequestHandler { policies, ..self }
    }

    /// With masks for clients that may not do everything.
    pub fn with_masks(self, masks: Vec<FieldMask>) -> (h: RequestHandler)
        ensures
            h@ == (HandlerView { masks: masks_view(masks@), ..self@ }),
    {
        RequestHandler { masks, ..self }
    }

    /// With what has been counted.
    pub fn with_metrics(self, registry: RegistrySnapshot) -> (h: RequestHandler)
        ensures
            h@ == (HandlerView { registry: Some(registry), ..self@ }),
    {
        RequestHandler { registry: Some(registry), ..self }
    }

    /// Counts a query from a type that was answered in so many microseconds, where
    /// anything is counted.
    pub fn record_query(&mut self, entity: &str, duration_us: u64)
        ensures
            final(self)@ == (match old(self)@.registry {
                Some(registry) => HandlerView {
                    registry: Some(with_query(registry, duration_us)),
                    queries: with_count(
                        old(self)@.queries,
                        entity@,
                        one_more(count_of(old(self)@.queries, entity@)),
                    ),
                    ..old(self)@
                },
                None => old(self)@,
            }),
    {
        if let Some(registry) = self.registry {
            self.registry = Some(registry.record_query(duration_us));
            self.queries.increment(entity);
        }
    }

    /// Notes for how many seconds the server has run, where anything is counted.
    pub fn record_uptime(&mut self, seconds: u64)
        ensures
            final(self)@ == (match old(self)@.registry {
                Some(registry) => HandlerView {
                    registry: Some(RegistrySnapshot { uptime_secs: seconds, ..registry }),
                    ..old(self)@
                },
                None => old(self)@,
            }),
    {
        if let Some(registry) = self.registry {
            self.registry = Some(RegistrySnapshot { uptime_secs: seconds, ..registry });
        }
    }

    /// Before a query is planned, counts the entities of each type again, where that
    /// is due. Where they cannot be counted, what is known stays.
    pub fn refresh_statistics(&self, db: &mut Database, op: &Operation, now: u64) -> (r: Result<
        (),
        DbError,
    >)
        ensures
            if planned_by_counts(*op) {
                refreshed(r, old(db)@, final(db)@, now, statistics_interval())
            } else {
                r is Ok && final(db)@ == old(db)@
            },
    {
        match op {
            Operation::Query(_) => db.refresh_statistics_if_stale(now, 60_000_000),
            Operation::Explain(_) => db.refresh_statistics_if_stale(now, 60_000_000),
            _ => Ok(()),
        }
    }

    fn run_query(
        &self,
        db: &mut Database,
        query: &GraphQuery,
        context: &SecurityContext,
        snapshot: bool,
    ) -> (r: Result<QueryResult, DbError>)
        ensures
            final(db)@ == (DbView {
                store: final(db)@.store,
                plan_cache: if snapshot {
                    old(db)@.plan_cache
                } else {
                    cache_after(
                        old(db)@.plan_cache,
                        old(db)@.schema,
                        query@,
                        default_budget(),
                    )
                },
                counters: final(db)@.counters,
                ..old(db)@
            }),
            ({
                let planned = plan_outcome(old(db)@.schema, query@, default_budget());
                let served = served_plan(
                    old(db)@.plan_cache,
                    old(db)@.schema,
                    query@,
                    default_budget(),
                );
                let v = answer_view(r);
                if snapshot {
                    ran_as(
                        old(db)@.store,
                        final(db)@.store,
                        planned,
                        rules_for(self@, context@, Some(old(db)@.store.watermark)),
                        None,
                        v,
                    ) && query_counted(
                        old(db)@.counters,
                        final(db)@.counters,
                        failure_in(v),
                        old(db)@.store,
                        planned,
                        rules_for(self@, context@, Some(old(db)@.store.watermark)),
                        None,
                    )
                } else {
                    ran_as(
                        old(db)@.store,
                        final(db)@.store,
                        tuned(served, true),
                        rules_for(self@, context@, None),
                        Some(old(db)@.statistics),
                        v,
                    ) && query_counted(
                        cache_counted(
                            old(db)@.counters,
                            kept_plan(
                                old(db)@.plan_cache.plans,
                                old(db)@.schema.version,
                                query@,
                            ) is Some,
                        ),
                        final(db)@.counters,
                        failure_in(v),
                        old(db)@.store,
                        tuned(served, true),
                        rules_for(self@, context@, None),
                        Some(old(db)@.statistics),
                    )
                }
            }),
            r matches Ok(result) ==> result@.entities.len() > 0,
    {
        let mut executor: QueryExecutor<'_> = QueryExecutor::with_metrics(
            &db.catalog,
            db.counters,
        ).with_security(context).with_policy_store(&self.policies);
        proof {
            assert(executor.rules(None) == rules_for(self@, context@, None));
            assert(executor.rules(Some(db@.store.watermark)) == rules_for(
                self@,
                context@,
                Some(db@.store.watermark),
            ));
        }
        let r: Result<QueryResult, DbError> = if snapshot {
            executor.execute_snapshot(&mut db.storage, query)
        } else {
            executor.execute_with_cache(
                &mut db.storage,
                query,
                &mut db.plan_cache,
                Some(&db.statistics),
            )
        };
        db.counters = executor.counters();
        r
    }

    fn handle_query(
        &self,
        db: &mut Database,
        query: &GraphQuery,
        context: &SecurityContext,
        role: Role,
        reply: &Reply,
    ) -> (r: Result<Performed, ServerError>)
        ensures
            query_performed(
                self@,
                context@,
                old(db)@,
                final(db)@,
                query@,
                role,
                *reply,
                performed_view(r),
            ),
    {
        let prefix: &str = match self.read_consistency {
            ReadConsistency::ReadCommitted => "query execution failed: ",
            ReadConsistency::Snapshot => "snapshot query failed: ",
            ReadConsistency::Linearizable => {
                if role != Role::Single {
                    match reply {
                        Reply::Confirmed(c) => match c {
                            Ok(_) => {},
                            Err(e) => {
                                return Err(
                                    ServerError::Database(
                                        join2("linearizable read failed: ", e.as_str()),
                                    ),
                                );
                            },
                        },
                        _ => {
                            return Ok(Performed::Confirm);
                        },
                    }
                }
                "linearizable query failed: "
            },
        };
        let snapshot: bool = match self.read_consistency {
            ReadConsistency::ReadCommitted => false,
            _ => true,
        };
        let ran: Result<QueryResult, DbError> = self.run_query(db, query, context, snapshot);
        let ghost v = answer_view(ran);
        let ghost planned = plan_outcome(old(db)@.schema, query@, default_budget());
        let ghost served = served_plan(
            old(db)@.plan_cache,
            old(db)@.schema,
            query@,
            default_budget(),
        );
        proof {
            if snapshot {
                assert(ran_as(
                    old(db)@.store,
                    db@.store,
                    planned,
                    rules_for(self@, context@, Some(old(db)@.store.watermark)),
                    None,
                    v,
                ));
            } else {
                assert(ran_as(
                    old(db)@.store,
                    db@.store,
                    tuned(served, true),
                    rules_for(self@, context@, None),
                    Some(old(db)@.statistics),
                    v,
                ));
            }
        }
        let r: Result<Performed, ServerError> = match ran {
            Ok(result) => {
                assert(result@.entities[0] == result.entities@[0]@);
                let result_count: usize = result.entities[0].len();
                let events: Vec<AuditEvent> = one_event(
                    AuditEvent::Query {
                        client_id: context.client_id.clone(),
                        entity: query.root_entity.clone(),
                        result_count,
                    },
                );
                Ok(Performed::Payload(ResponsePayload::Query(result), events))
            },
            Err(e) => Err(failed_query(prefix, &e)),
        };
        assert(performed_view(r) == query_answer(context@, query@, prefix@, v));
        r
    }

    fn handle_mutate(
        &self,
        db: &mut Database,
        mutation: &Mutation,
        context: &SecurityContext,
        role: Role,
        reply: Reply,
        fresh: &Vec<EntityId>,
    ) -> (r: Result<Performed, ServerError>)
        requires
            fresh@.len() >= 1,
        ensures
            performed(
                self@,
                context@,
                old(db)@,
                final(db)@,
                Operation::Mutate(*mutation),
                role,
                reply,
                ids_view(fresh@),
                performed_view(r),
            ),
    {
        assert(ids_view(fresh@)[0] == fresh@[0]@);
        match role {
            Role::Single => {
                let x: Result<MutationResult, ServerError> = MutationExecutor::new().execute(
                    db,
                    mutation,
                );
                match x {
                    Ok(result) => {
                        let events: Vec<AuditEvent> = one_event(
                            made_event(context, mutation, &result.inserted_ids),
                        );
                        Ok(Performed::Payload(ResponsePayload::Mutation(result), events))
                    },
                    Err(e) => Err(e),
                }
            },
            Role::Follower => Err(refuse_write()),
            Role::Leader => match reply {
                Reply::Written(w) => {
                    let result: MutationResult = take_reply(w)?;
                    let events: Vec<AuditEvent> = one_event(
                        made_event(context, mutation, &result.inserted_ids),
                    );
                    Ok(Performed::Payload(ResponsePayload::Mutation(result), events))
                },
                _ => Ok(
                    Performed::Write(ClientRequest::Mutate(ensure_assigned_id(mutation, fresh[0]))),
                ),
            },
        }
    }

    fn handle_batch(
        &self,
        db: &mut Database,
        batch: &MutationBatch,
        context: &SecurityContext,
        role: Role,
        reply: Reply,
        fresh: &Vec<EntityId>,
    ) -> (r: Result<Performed, ServerError>)
        requires
            fresh@.len() >= batch.mutations@.len(),
        ensures
            performed(
                self@,
                context@,
                old(db)@,
                final(db)@,
                Operation::MutateBatch(*batch),
                role,
                reply,
                ids_view(fresh@),
                performed_view(r),
            ),
    {
        match role {
            Role::Single => {
                match MutationExecutor::new().execute_batch(db, batch) {
                    Ok(result) => Ok(
                        Performed::Payload(
                            ResponsePayload::Mutation(result),
                            made_events(context, batch),
                        ),
                    ),
                    Err(e) => Err(e),
                }
            },
            Role::Follower => Err(refuse_write()),
            Role::Leader => match reply {
                Reply::Written(w) => {
                    let result: MutationResult = take_reply(w)?;
                    Ok(
                        Performed::Payload(
                            ResponsePayload::Mutation(result),
                            made_events(context, batch),
                        ),
                    )
                },
                _ => Ok(Performed::Write(ClientRequest::MutateBatch(assign_all(batch, fresh)))),
            },
        }
    }

    fn perform(
        &self,
        db: &mut Database,
        operation: &Operation,
        context: &SecurityContext,
        role: Role,
        reply: Reply,
        fresh: &Vec<EntityId>,
    ) -> (r: Result<Performed, ServerError>)
        requires
            fresh@.len() >= ids_needed(*operation),
        ensures
            performed(
                self@,
                context@,
                old(db)@,
                final(db)@,
                *operation,
                role,
                reply,
                ids_view(fresh@),
                performed_view(r),
            ),
    {
        match operation {
            Operation::Query(q) => self.handle_query(db, q, context, role, &reply),
            Operation::Mutate(m) => self.handle_mutate(db, m, context, role, reply, fresh),
            Operation::MutateBatch(b) => self.handle_batch(db, b, context, role, reply, fresh),
            Operation::GetSchema => {
                let version: u64 = db.schema_version();
                let schema: Option<SchemaBundle> = if version == 0 {
                    None
                } else {
                    Some(db.catalog.current_schema().copy())
                };
                Ok(Performed::Payload(ResponsePayload::Schema { version, schema }, no_events()))
            },
            Operation::Ping => Ok(Performed::Payload(ResponsePayload::Pong, no_events())),
            Operation::Explain(q) => match plan_with_budget(
                &db.catalog,
                q,
                FanoutBudget::default(),
            ) {
                Ok(plan) => {
                    let mut plan: QueryPlan = plan;
                    plan.deduplicate_includes();
                    Ok(Performed::Payload(ResponsePayload::Explain(plan), no_events()))
                },
                Err(e) => Err(failed_query("explain failed: ", &e)),
            },
            Operation::GetMetrics => Ok(
                Performed::Payload(
                    ResponsePayload::Metrics(
                        collect_metrics(self.registry, &self.queries, db),
                    ),
                    no_events(),
                ),
            ),
            Operation::Aggregate(q) => match count_entities(&db.storage, q) {
                Ok(count) => Ok(
                    Performed::Payload(
                        ResponsePayload::Aggregate { entity: q.root_entity.clone(), count },
                        no_events(),
                    ),
                ),
                Err(e) => Err(failed_query("aggregate query failed: ", &e)),
            },
            Operation::Subscribe => Err(pubsub_refused()),
            Operation::Unsubscribe => Err(pubsub_refused()),
            Operation::StreamChanges(req) => Ok(
                Performed::Payload(stream_changes(&db.changelog, req), no_events()),
            ),
            Operation::GetReplicationStatus => Ok(
                Performed::Payload(
                    ResponsePayload::Replication(
                        ReplicationStatus {
                            role: ReplicationRole::Standalone,
                            current_lsn: db.changelog.current_lsn(),
                            lag_entries: 0,
                            lag_ms: 0,
                        },
                    ),
                    no_events(),
                ),
            ),
            Operation::ApplySchema(s) => {
                db.catalog.apply_schema(s.copy());
                db.plan_cache.clear();
                Ok(
                    Performed::Payload(
                        ResponsePayload::SchemaApplied { version: db.schema_version() },
                        no_events(),
                    ),
                )
            },
        }
    }

    /// Handles a request as far as the node can by itself. Where the cluster has to
    /// act first, the step says so, and the request is handed in again with the
    /// cluster's reply.
    pub fn step(
        &self,
        db: &mut Database,
        request: &Request,
        role: Role,
        reply: Reply,
        fresh: &Vec<EntityId>,
    ) -> (s: Step)
        requires
            fresh@.len() >= ids_needed(request.operation),
        ensures
            handled(
                self@,
                old(db)@,
                final(db)@,
                *request,
                role,
                reply,
                ids_view(fresh@),
                s,
            ),
    {
        let recognised: Result<Vec<String>, SecurityError> = self.authenticator.authenticate(
            &request.credentials,
        );
        self.step_recognised(db, request, recognised, role, reply, fresh)
    }

    /// Takes a step towards the answer to a request, where it has been found out
    /// elsewhere what the client may do.
    pub fn step_recognised(
        &self,
        db: &mut Database,
        request: &Request,
        recognised: Result<Vec<String>, SecurityError>,
        role: Role,
        reply: Reply,
        fresh: &Vec<EntityId>,
    ) -> (s: Step)
        requires
            fresh@.len() >= ids_needed(request.operation),
        ensures
            handled_as(
                self@,
                recognised_view(recognised),
                old(db)@,
                final(db)@,
                *request,
                role,
                reply,
                ids_view(fresh@),
                s,
            ),
    {
        let ghost auth = recognised_view(recognised);
        let ghost first = authentication_event(*request, auth);
        let connection_id: String = join2("req-", decimal_text(request.id as u128).as_str());
        let client_id: String = match &request.client_id {
            Some(s) => s.clone(),
            None => "anonymous".to_owned(),
        };
        let capabilities: Vec<String> = match recognised {
            Ok(capabilities) => capabilities,
            Err(e) => {
                let nothing: Vec<String> = Vec::new();
                assert(texts(nothing@) =~= Seq::<Seq<char>>::empty());
                let event = AuditEvent::Authentication {
                    connection_id,
                    client_id,
                    capabilities: nothing,
                    error: Some(security_error_message(&e)),
                };
                return Step::Answer(
                    error_response(request.id, &ServerError::Security(e)),
                    one_event(event),
                );
            },
        };
        let event = AuditEvent::Authentication {
            connection_id: connection_id.clone(),
            client_id: client_id.clone(),
            capabilities: copy_texts(capabilities.as_slice()),
            error: None,
        };
        assert(event@ == first);
        let mut events: Vec<AuditEvent> = one_event(event);
        let mut context = SecurityContext {
            connection_id,
            client_id,
            capabilities,
            budget: FanoutBudget::default(),
            masks: Vec::new(),
        };
        assert(context@.masks =~= Seq::<MaskView>::empty());
        if !context.is_admin() {
            context.masks = copy_masks(&self.masks);
        }
        assert(context@ == context_of(self@, *request, auth->Ok_0));
        let server_version: u64 = db.schema_version();
        let depends: bool = match &request.operation {
            Operation::Query(_) => true,
            Operation::Mutate(_) => true,
            Operation::MutateBatch(_) => true,
            _ => false,
        };
        if depends && request.schema_version != 0 && request.schema_version != server_version {
            return Step::Answer(
                Response::error(
                    request.id,
                    ErrorCode::SchemaMismatch,
                    mismatch_message(request.schema_version, server_version),
                ),
                events,
            );
        }
        let outcome: Result<Performed, ServerError> = match check_permission(
            &context,
            &request.operation,
        ) {
            Ok(_) => {
                let r: Result<Performed, ServerError> = self.perform(
                    db,
                    &request.operation,
                    &context,
                    role,
                    reply,
                    fresh,
                );
                assert(performed(
                    self@,
                    context@,
                    old(db)@,
                    db@,
                    request.operation,
                    role,
                    reply,
                    ids_view(fresh@),
                    performed_view(r),
                ));
                r
            },
            Err(e) => Err(e),
        };
        let ghost view = performed_view(outcome);
        let s: Step = match outcome {
            Ok(Performed::Payload(payload, more)) => {
                let ghost before = events_view(events@);
                let ghost added = events_view(more@);
                let mut more: Vec<AuditEvent> = more;
                events.append(&mut more);
                assert(events_view(events@) =~= before + added);
                Step::Answer(Response::ok(request.id, payload), events)
            },
            Ok(Performed::Write(w)) => Step::Write(w),
            Ok(Performed::Confirm) => Step::Confirm,
            Err(e) => {
                let ghost before = events_view(events@);
                if let ServerError::Security(reason) = &e {
                    let logged: bool = match reason {
                        SecurityError::PermissionDenied(_) => true,
                        SecurityError::CapabilityNotGranted(_) => true,
                        SecurityError::RlsViolation(_) => true,
                        SecurityError::FieldAccessDenied { entity, field } => true,
                        _ => false,
                    };
                    if logged {
                        let (operation, entity) = extract_operation_info(&request.operation);
                        events.push(
                            AuditEvent::AccessDenied {
                                client_id: context.client_id.clone(),
                                operation,
                                entity,
                                reason: security_error_message(reason),
                            },
                        );
                    }
                }
                assert(events_view(events@) =~= before + denial_events(
                    context@,
                    request.operation,
                    e@,
                ));
                Step::Answer(error_response(request.id, &e), events)
            },
        };
        proof {
            if view is Err || view->Ok_0 is Payload {
                assert(stepped(s, *request, context@, first, view));
            }
        }
        s
    }

    /// Takes a step towards the answer to a request, with identifiers that are given
    /// out for it.
    pub fn advance(&self, db: &mut Database, request: &Request, role: Role, reply: Reply) -> (s:
        Step)
        ensures
            exists|fresh: Seq<Seq<u8>>|
                {
                    &&& #[trigger] given_out(fresh, old(db)@.next_id)
                    &&& fresh.len() == ids_needed(request.operation)
                    &&& handled(
                        self@,
                        DbView {
                            next_id: next_after(old(db)@.next_id, fresh.len()),
                            ..old(db)@
                        },
                        final(db)@,
                        *request,
                        role,
                        reply,
                        fresh,
                        s,
                    )
                },
    {
        let count: usize = match &request.operation {
            Operation::Mutate(_) => 1,
            Operation::MutateBatch(b) => b.mutations.len(),
            _ => 0,
        };
        let fresh: Vec<EntityId> = db.fresh_ids(count);
        assert(ids_view(fresh@).len() == fresh@.len());
        assert(given_out(ids_view(fresh@), old(db)@.next_id));
        self.step(db, request, role, reply, &fresh)
    }

    /// Handles a request on a node that is alone.
    pub fn handle(&self, db: &mut Database, request: &Request) -> (r: (Response, Vec<AuditEvent>))
        ensures
            exists|fresh: Seq<Seq<u8>>|
                #[trigger] handled(
                    self@,
                    old(db)@,
                    final(db)@,
                    *request,
                    Role::Single,
                    Reply::Nothing,
                    fresh,
                    Step::Answer(r.0, r.1),
                ),
    {
        let count: usize = match &request.operation {
            Operation::Mutate(_) => 1,
            Operation::MutateBatch(b) => b.mutations.len(),
            _ => 0,
        };
        let nil: EntityId = [0u8; 16];
        let mut fresh: Vec<EntityId> = Vec::new();
        let mut i: usize = 0;
        while i < count
            invariant
                i <= count,
                fresh@.len() == i,
            decreases count - i,
        {
            fresh.push(nil);
            i = i + 1;
        }
        let s: Step = self.step(db, request, Role::Single, Reply::Nothing, &fresh);
        match s {
            Step::Answer(response, events) => (response, events),
            Step::Write(_) => (lost(request.id), no_events()),
            Step::Confirm => (lost(request.id), no_events()),
        }
    }
}

/// A response where there is none.
fn lost(id: u64) -> (r: Response)
    ensures
        r@ == error_view(id, ErrorCode::Internal, "internal processing error"@),
{
    Response::error(id, ErrorCode::Internal, "internal processing error".to_owned())
}

fn pubsub_refused() -> (e: ServerError)
    ensures
        e@ == no_pubsub(),
{
    ServerError::Protocol("pub-sub operations not yet available on this handler".to_owned())
}

} // verus!

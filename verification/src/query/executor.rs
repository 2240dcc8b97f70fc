//! Running queries: rows are found, sorted and paged, relations are followed,
//! and all of it is put into blocks.

use vstd::prelude::*;

use crate::bytes::EntityId;
use crate::catalog::{Catalog, SchemaView};
use crate::error::{DbError, ErrorView};
use crate::query::ast::{
    blocks_view, includes_view, rows_view, EntityBlock, EntityRow, FanoutBudget, FilterExpr,
    FilterView, IncludePlan, IncludeView, PlanView, QueryPlan, QueryResult, ResultView, RowView,
};
use crate::query::fetch::{
    columnar_row, columnar_rows, count_rows, counting, cut, enough, fetch_entities, fetch_outcome,
    found_row, needed_names, nothing_near, queries_keep, refiltered, rows_for_ids, scan_row,
    scanned_rows, selected, within_reach, AccessPath, Fetched, HitsView, SearchHits,
};
use crate::query::filter::{combine_filters, combined};
use crate::query::includes::{
    budget_message, budget_text, entities_text, filters_view, follow_all, include_with,
    law_no_parents_no_reading, resolve_includes, with_filters, FollowRules, FollowedPaths,
    JoinStrategy, Via,
};
use crate::query::plan_cache::{
    cache_after, kept_plan, lemma_kept_plan_fits, served_plan, PlanCache,
};
use crate::query::plan_reuse::{copy_plan, rebind};
use crate::query::planner::{copy_filter, deduplicated, plan_outcome, plan_with_budget, GraphQuery};
use crate::query::rows::{
    apply_pagination, block_of, build_entity_block, ids_of_rows, law_sorting_keeps_rows, masks_view,
    more_after, paged, row_ids, sort_rows, sorted, FieldMask, MaskView,
};
use crate::query::statistics::TableStatistics;
use crate::security::{
    compile_policies, has_admin, policies_view, policy_for, ContextView, PolicyView, RlsPolicy,
    SecurityContext,
};
use crate::storage::columnar::{row_items, RowItemView};
use crate::storage::engine::{lemma_batch_len, StorageEngine};
use crate::storage::hash_index::ids_view;
use crate::storage::model::{latest_batch_outcome, scan_outcome, ScanItemView, StoreView, When};

verus! {

/// What queries have done so far.
#[derive(Debug, Clone, Copy, PartialEq, Eq, Structural)]
pub struct QueryCounters {
    /// How often the equality index was used.
    pub hash_index: u64,
    /// How often the ordered index was used.
    pub btree_index: u64,
    /// How often the row projection was used.
    pub columnar: u64,
    /// How often all entities were read.
    pub row: u64,
    /// How often a vector index was used.
    pub vector_index: u64,
    /// How often a geographic index was used.
    pub geo_index: u64,
    /// How often a text index was used.
    pub fulltext_index: u64,
    /// How often relations were followed by nested loops.
    pub nested_loop: u64,
    /// How often relations were followed by hashing.
    pub hash_join: u64,
    /// How many queries were answered.
    pub queries: u64,
    /// How often a plan was at hand.
    pub cache_hits: u64,
    /// How often a plan had to be made.
    pub cache_misses: u64,
}

/// One more; counters wrap round.
pub open spec fn bumped(n: u64) -> u64 {
    if n == u64::MAX {
        0
    } else {
        (n + 1) as u64
    }
}

/// One more; counters wrap round.
pub fn bump(n: u64) -> (r: u64)
    ensures
        r == bumped(n),
{
    if n == u64::MAX {
        0
    } else {
        n + 1
    }
}

/// The counters after a way has been taken.
pub open spec fn with_path(c: QueryCounters, path: AccessPath) -> QueryCounters {
    match path {
        AccessPath::Row => QueryCounters { row: bumped(c.row), ..c },
        AccessPath::HashIndex => QueryCounters { hash_index: bumped(c.hash_index), ..c },
        AccessPath::BfTree => QueryCounters { btree_index: bumped(c.btree_index), ..c },
        AccessPath::Columnar => QueryCounters { columnar: bumped(c.columnar), ..c },
        AccessPath::VectorIndex => QueryCounters { vector_index: bumped(c.vector_index), ..c },
        AccessPath::GeoIndex => QueryCounters { geo_index: bumped(c.geo_index), ..c },
        AccessPath::FulltextIndex => QueryCounters {
            fulltext_index: bumped(c.fulltext_index),
            ..c
        },
    }
}

/// The counters after a relation has been followed.
pub open spec fn with_via(c: QueryCounters, via: Via) -> QueryCounters {
    match via {
        Via::Snapshot => c,
        Via::HashIndex => with_path(c, AccessPath::HashIndex),
        Via::BfTree => with_path(c, AccessPath::BfTree),
        Via::Join(JoinStrategy::NestedLoop) => QueryCounters {
            nested_loop: bumped(c.nested_loop),
            ..c
        },
        Via::Join(JoinStrategy::HashJoin) => QueryCounters { hash_join: bumped(c.hash_join), ..c },
    }
}

/// The counters after relations have been followed.
pub open spec fn with_vias(c: QueryCounters, vias: Seq<Via>) -> QueryCounters
    decreases vias.len(),
{
    if vias.len() == 0 {
        c
    } else {
        with_via(with_vias(c, vias.drop_last()), vias.last())
    }
}

/// Nothing has been done.
pub open spec fn no_queries() -> QueryCounters {
    QueryCounters {
        hash_index: 0,
        btree_index: 0,
        columnar: 0,
        row: 0,
        vector_index: 0,
        geo_index: 0,
        fulltext_index: 0,
        nested_loop: 0,
        hash_join: 0,
        queries: 0,
        cache_hits: 0,
        cache_misses: 0,
    }
}

impl QueryCounters {
    /// Nothing has been done.
    pub fn new() -> (c: QueryCounters)
        ensures
            c == no_queries(),
    {
        QueryCounters {
            hash_index: 0,
            btree_index: 0,
            columnar: 0,
            row: 0,
            vector_index: 0,
            geo_index: 0,
            fulltext_index: 0,
            nested_loop: 0,
            hash_join: 0,
            queries: 0,
            cache_hits: 0,
            cache_misses: 0,
        }
    }

    /// Counts a way that was taken.
    pub fn record_access_path(&mut self, path: AccessPath)
        ensures
            *final(self) == with_path(*old(self), path),
    {
        match path {
            AccessPath::Row => {
                self.row = bump(self.row);
            },
            AccessPath::HashIndex => {
                self.hash_index = bump(self.hash_index);
            },
            AccessPath::BfTree => {
                self.btree_index = bump(self.btree_index);
            },
            AccessPath::Columnar => {
                self.columnar = bump(self.columnar);
            },
            AccessPath::VectorIndex => {
                self.vector_index = bump(self.vector_index);
            },
            AccessPath::GeoIndex => {
                self.geo_index = bump(self.geo_index);
            },
            AccessPath::FulltextIndex => {
                self.fulltext_index = bump(self.fulltext_index);
            },
        }
    }

    fn record_via(&mut self, via: Via)
        ensures
            *final(self) == with_via(*old(self), via),
    {
        match via {
            Via::Snapshot => {},
            Via::HashIndex => self.record_access_path(AccessPath::HashIndex),
            Via::BfTree => self.record_access_path(AccessPath::BfTree),
            Via::Join(JoinStrategy::NestedLoop) => {
                self.nested_loop = bump(self.nested_loop);
            },
            Via::Join(JoinStrategy::HashJoin) => {
                self.hash_join = bump(self.hash_join);
            },
        }
    }

    fn record_vias(&mut self, vias: &Vec<Via>)
        ensures
            *final(self) == with_vias(*old(self), vias@),
    {
        let mut i: usize = 0;
        assert(vias@.take(0) =~= Seq::<Via>::empty());
        while i < vias.len()
            invariant
                i <= vias@.len(),
                *self == with_vias(*old(self), vias@.take(i as int)),
            decreases vias@.len() - i,
        {
            proof {
                assert(vias@.take(i + 1).drop_last() =~= vias@.take(i as int));
                assert(vias@.take(i + 1).last() == vias@[i as int]);
            }
            self.record_via(vias[i]);
            i = i + 1;
        }
        assert(vias@.take(vias@.len() as int) =~= vias@);
    }

    /// How often the equality index, the ordered index, the row projection and
    /// all entities were used.
    pub fn access_path_counts(&self) -> (r: (u64, u64, u64, u64))
        ensures
            r == (self.hash_index, self.btree_index, self.columnar, self.row),
    {
        (self.hash_index, self.btree_index, self.columnar, self.row)
    }
}

/// What a query is run under.
pub ghost struct RunRules {
    /// What is done to fields.
    pub masks: Seq<MaskView>,
    /// The policies that apply.
    pub policies: Seq<PolicyView>,
    /// When entities are read.
    pub read_ts: Option<u64>,
    /// What search indexes found.
    pub hits: Option<HitsView>,
}

/// A plan with the policies put into its conditions.
pub open spec fn secured(plan: PlanView, policies: Seq<PolicyView>) -> PlanView {
    PlanView {
        filter: combined(plan.filter, policy_for(policies, plan.root_entity)),
        includes: plan.includes.map_values(
            |i: IncludeView| include_with(i, combined(i.filter, policy_for(policies, i.to_entity))),
        ),
        ..plan
    }
}

/// What running a query gives.
pub ghost struct Ran {
    /// The store: the ordered index may cover columns more.
    pub store: StoreView,
    /// The answer.
    pub result: ResultView,
    /// The way that was taken to the root entities.
    pub path: AccessPath,
    /// The ways that were taken to related entities.
    pub vias: Seq<Via>,
}

/// Too many root entities.
pub open spec fn too_many_entities(count: nat, plan: PlanView) -> ErrorView {
    ErrorView::InvalidData(budget_text(count, entities_text(), plan.budget.max_entities as nat))
}

/// What running a plan gives.
pub open spec fn run_outcome(
    store: StoreView,
    plan: PlanView,
    rules: RunRules,
    statistics: Option<Seq<(Seq<char>, u64)>>,
) -> Result<Ran, ErrorView> {
    let p = secured(plan, rules.policies);
    match fetch_outcome(store, p, rules.read_ts, rules.hits) {
        Err(e) => Err(e),
        Ok(found) => if counting(found.rows.len(), p, rules.read_ts) > p.budget.max_entities {
            Err(too_many_entities(counting(found.rows.len(), p, rules.read_ts), p))
        } else {
            let rows = paged(sorted(found.rows, p.order_by), p.pagination);
            let follow = FollowRules {
                roots: row_ids(rows),
                max_edges: p.budget.max_edges as nat,
                masks: rules.masks,
                read_ts: rules.read_ts,
                statistics,
            };
            match follow_all(found.store, follow, p.includes) {
                Err(e) => Err(e),
                Ok(done) => Ok(
                    Ran {
                        store: done.store,
                        result: ResultView {
                            entities: seq![
                                block_of(p.root_entity, rows, p.fields, rules.masks),
                            ] + done.blocks,
                            edges: done.edge_blocks,
                            has_more: more_after(found.rows.len(), p.pagination),
                        },
                        path: found.path,
                        vias: done.vias,
                    },
                ),
            }
        },
    }
}

/// The counters after a query has been answered.
pub open spec fn counted(c: QueryCounters, ran: Ran) -> QueryCounters {
    with_vias(with_path(c, ran.path), ran.vias)
}

/// The counters after a query that failed: a way that was taken to the root entities
/// counts.
pub open spec fn counted_in_vain(
    error: ErrorView,
    before: QueryCounters,
    after: QueryCounters,
    store: StoreView,
    plan: PlanView,
    rules: RunRules,
) -> bool {
    match fetch_outcome(store, secured(plan, rules.policies), rules.read_ts, rules.hits) {
        Ok(found) => after == with_path(before, found.path) || error is Storage && after == before,
        Err(_) => after == before,
    }
}

/// The counters after a plan has been looked for among those that are kept.
pub open spec fn cache_counted(c: QueryCounters, kept: bool) -> QueryCounters {
    if kept {
        QueryCounters { cache_hits: bumped(c.cache_hits), ..c }
    } else {
        QueryCounters { cache_misses: bumped(c.cache_misses), ..c }
    }
}

/// The counters after a query has been answered and counted.
pub open spec fn counted_query(c: QueryCounters, ran: Ran) -> QueryCounters {
    let after = counted(c, ran);
    QueryCounters { queries: bumped(after.queries), ..after }
}

/// What an executor is set up with.
pub ghost struct Setup {
    /// The schema.
    pub schema: SchemaView,
    /// The client, where there is one.
    pub context: Option<ContextView>,
    /// The policies, where there are any.
    pub policies: Option<Seq<PolicyView>>,
    /// What search indexes found.
    pub hits: Option<HitsView>,
}

impl Setup {
    /// What queries are run under, at a time: fields are masked for the client, and
    /// policies apply where there is one that may not do everything.
    pub open spec fn rules(self, read_ts: Option<u64>) -> RunRules {
        RunRules {
            masks: match self.context {
                Some(c) => c.masks,
                None => Seq::empty(),
            },
            policies: match (self.context, self.policies) {
                (Some(c), Some(p)) => if has_admin(c.capabilities) {
                    Seq::empty()
                } else {
                    p
                },
                _ => Seq::empty(),
            },
            read_ts,
            hits: self.hits,
        }
    }
}

/// The rows of a plan.
pub ghost struct FoundRows {
    /// The store: the ordered index may cover a column more.
    pub store: StoreView,
    /// The rows, sorted and paged.
    pub rows: Seq<RowView>,
    /// Whether there are rows after them.
    pub has_more: bool,
}

/// What finding the rows of a plan gives.
pub open spec fn rows_outcome(store: StoreView, plan: PlanView, hits: Option<HitsView>) -> Result<
    FoundRows,
    ErrorView,
> {
    match fetch_outcome(store, plan, None, hits) {
        Err(e) => Err(e),
        Ok(found) => if counting(found.rows.len(), plan, None) > plan.budget.max_entities {
            Err(too_many_entities(counting(found.rows.len(), plan, None), plan))
        } else {
            Ok(
                FoundRows {
                    store: found.store,
                    rows: paged(sorted(found.rows, plan.order_by), plan.pagination),
                    has_more: more_after(found.rows.len(), plan.pagination),
                },
            )
        },
    }
}

/// Whether rows are what is expected, unless the database failed.
pub open spec fn rows_answered(
    r: Result<(Vec<EntityRow>, bool), DbError>,
    before: StoreView,
    after: StoreView,
    plan: PlanView,
    hits: Option<HitsView>,
) -> bool {
    let expected = rows_outcome(before, plan, hits);
    match r {
        Ok((rows, more)) => expected == Ok::<FoundRows, ErrorView>(
            FoundRows { store: after, rows: rows_view(rows@), has_more: more },
        ),
        Err(e) => queries_keep(after, before) && ((e@ is Storage && !nothing_near(
            plan.filter,
            hits,
        )) || expected == Err::<FoundRows, ErrorView>(e@)),
    }
}

/// Whether the way that was taken to rows was counted.
pub open spec fn rows_counted(
    r: Result<(Vec<EntityRow>, bool), DbError>,
    before: QueryCounters,
    after: QueryCounters,
    fetched: Result<Fetched, ErrorView>,
) -> bool {
    match fetched {
        Ok(found) => after == with_path(before, found.path) || (after == before && r is Err
            && r->Err_0@ is Storage),
        Err(_) => after == before,
    }
}

/// What went wrong, where something did.
pub open spec fn failure_of(r: Result<QueryResult, DbError>) -> Option<ErrorView> {
    match r {
        Ok(_) => None,
        Err(e) => Some(e@),
    }
}

/// Whether a query was counted as it is to be: where it was answered, and else as far
/// as it came.
pub open spec fn query_counted(
    before: QueryCounters,
    after: QueryCounters,
    failure: Option<ErrorView>,
    store: StoreView,
    planned: Result<PlanView, ErrorView>,
    rules: RunRules,
    statistics: Option<Seq<(Seq<char>, u64)>>,
) -> bool {
    match planned {
        Err(_) => after == before,
        Ok(plan) => match failure {
            None => after == counted_query(
                before,
                run_outcome(store, plan, rules, statistics)->Ok_0,
            ),
            Some(e) => counted_in_vain(e, before, after, store, plan, rules),
        },
    }
}

/// Runs queries.
pub struct QueryExecutor<'a> {
    catalog: &'a Catalog,
    security_context: Option<&'a SecurityContext>,
    policies: Option<&'a Vec<RlsPolicy>>,
    hits: Option<SearchHits>,
    counters: QueryCounters,
}

/// Whether a plan is answered without reading the store: it is a search of which no hit
/// is near enough.
pub open spec fn answered_unread(plan: PlanView, rules: RunRules) -> bool {
    rules.read_ts is None && nothing_near(secured(plan, rules.policies).filter, rules.hits)
}

/// Whether an answer is what running a plan gives, unless the database failed.
pub open spec fn run_agrees(
    r: Result<QueryResult, DbError>,
    before: StoreView,
    after: StoreView,
    plan: PlanView,
    rules: RunRules,
    statistics: Option<Seq<(Seq<char>, u64)>>,
) -> bool {
    let expected = run_outcome(before, plan, rules, statistics);
    match r {
        Ok(result) => expected matches Ok(ran) && result@ == ran.result && after == ran.store,
        Err(e) => queries_keep(after, before) && ((e@ is Storage && !answered_unread(plan, rules))
            || expected == Err::<Ran, ErrorView>(e@)),
    }
}

impl<'a> QueryExecutor<'a> {
    /// What an executor was set up with.
    pub closed spec fn setup(&self) -> Setup {
        Setup {
            schema: self.catalog@,
            context: match self.security_context {
                Some(c) => Some(c@),
                None => None,
            },
            policies: match self.policies {
                Some(p) => Some(policies_view(p@)),
                None => None,
            },
            hits: self.hits.deep_view(),
        }
    }

    /// The schema.
    pub open spec fn schema(&self) -> SchemaView {
        self.setup().schema
    }

    /// The client, where there is one.
    pub open spec fn context(&self) -> Option<ContextView> {
        self.setup().context
    }

    /// What queries are run under, at a time.
    pub open spec fn rules(&self, read_ts: Option<u64>) -> RunRules {
        self.setup().rules(read_ts)
    }

    /// What queries have done so far.
    pub closed spec fn counted(&self) -> QueryCounters {
        self.counters
    }

    /// An executor over a schema.
    pub fn new(catalog: &'a Catalog) -> (e: QueryExecutor<'a>)
        ensures
            e.setup() == (Setup { schema: catalog@, context: None, policies: None, hits: None }),
            e.counted() == no_queries(),
    {
        QueryExecutor {
            catalog,
            security_context: None,
            policies: None,
            hits: None,
            counters: QueryCounters::new(),
        }
    }

    /// An executor that goes on counting.
    pub fn with_metrics(catalog: &'a Catalog, counters: QueryCounters) -> (e: QueryExecutor<'a>)
        ensures
            e.setup() == (Setup { schema: catalog@, context: None, policies: None, hits: None }),
            e.counted() == counters,
    {
        QueryExecutor {
            catalog,
            security_context: None,
            policies: None,
            hits: None,
            counters,
        }
    }

    /// For a client: fields are masked for it.
    pub fn with_security(self, context: &'a SecurityContext) -> (e: QueryExecutor<'a>)
        ensures
            e.setup() == (Setup { context: Some(context@), ..self.setup() }),
            e.counted() == self.counted(),
    {
        QueryExecutor { security_context: Some(context), ..self }
    }

    /// With policies, which apply where there is a client that may not do
    /// everything.
    pub fn with_policy_store(self, policies: &'a Vec<RlsPolicy>) -> (e: QueryExecutor<'a>)
        ensures
            e.setup() == (Setup { policies: Some(policies_view(policies@)), ..self.setup() }),
            e.counted() == self.counted(),
    {
        QueryExecutor { policies: Some(policies), ..self }
    }

    /// With what search indexes found for the query.
    pub fn with_hits(self, hits: SearchHits) -> (e: QueryExecutor<'a>)
        ensures
            e.setup() == (Setup { hits: Some(hits@), ..self.setup() }),
            e.counted() == self.counted(),
    {
        QueryExecutor { hits: Some(hits), ..self }
    }

    /// Whether there is a client.
    pub fn has_security_context(&self) -> (r: bool)
        ensures
            r == (self.context() is Some),
    {
        self.security_context.is_some()
    }

    /// What queries have done so far.
    pub fn counters(&self) -> (c: QueryCounters)
        ensures
            c == self.counted(),
    {
        self.counters
    }

    fn compile_rls_filter(&self, entity: &str) -> (r: Option<FilterExpr>)
        ensures
            r.deep_view() == policy_for(self.rules(None).policies, entity@),
    {
        match (self.security_context, self.policies) {
            (Some(context), Some(policies)) => if context.is_admin() {
                None
            } else {
                compile_policies(policies.as_slice(), entity)
            },
            _ => None,
        }
    }

    fn include_filters(&self, includes: &Vec<IncludePlan>) -> (out: Vec<Option<FilterExpr>>)
        ensures
            out@.len() == includes@.len(),
            filters_view(out@) == includes_view(includes@).map_values(
                |i: IncludeView|
                    combined(i.filter, policy_for(self.rules(None).policies, i.to_entity)),
            ),
    {
        let ghost policies = self.rules(None).policies;
        let ghost all = includes_view(includes@);
        let mut out: Vec<Option<FilterExpr>> = Vec::new();
        let mut i: usize = 0;
        while i < includes.len()
            invariant
                i <= includes@.len(),
                policies == self.rules(None).policies,
                all == includes_view(includes@),
                out@.len() == i,
                forall|k: int|
                    0 <= k < i ==> (#[trigger] out@[k]).deep_view() == combined(
                        all[k].filter,
                        policy_for(policies, all[k].to_entity),
                    ),
            decreases includes@.len() - i,
        {
            assert(all[i as int] == includes@[i as int]@);
            out.push(
                combine_filters(
                    copy_filter(&includes[i].filter),
                    self.compile_rls_filter(includes[i].relation.to_entity.as_str()),
                ),
            );
            i = i + 1;
        }
        assert(filters_view(out@) =~= all.map_values(
            |i: IncludeView| combined(i.filter, policy_for(policies, i.to_entity)),
        ));
        out
    }

    fn run(
        &mut self,
        engine: &mut StorageEngine,
        plan: &QueryPlan,
        read_ts: Option<u64>,
        statistics: Option<&TableStatistics>,
    ) -> (r: Result<QueryResult, DbError>)
        ensures
            ({
                let stats = match statistics {
                    Some(s) => Some(s@),
                    None => None,
                };
                let expected = run_outcome(
                    old(engine)@,
                    plan@,
                    old(self).rules(read_ts),
                    stats,
                );
                &&& run_agrees(
                    r,
                    old(engine)@,
                    final(engine)@,
                    plan@,
                    old(self).rules(read_ts),
                    stats,
                )
                &&& final(self).setup() == old(self).setup()
                &&& match r {
                    Ok(_) => final(self).counted() == counted(
                        old(self).counted(),
                        expected->Ok_0,
                    ),
                    Err(e) => counted_in_vain(
                        e@,
                        old(self).counted(),
                        final(self).counted(),
                        old(engine)@,
                        plan@,
                        old(self).rules(read_ts),
                    ),
                }
            }),
    {
        let ghost rules = self.rules(read_ts);
        let ghost p = secured(plan@, rules.policies);
        let filter: Option<FilterExpr> = combine_filters(
            copy_filter(&plan.filter),
            self.compile_rls_filter(plan.root_entity.as_str()),
        );
        let filters: Vec<Option<FilterExpr>> = self.include_filters(&plan.includes);
        let none: Vec<FieldMask> = Vec::new();
        let masks: &[FieldMask] = match self.security_context {
            Some(context) => context.masks.as_slice(),
            None => none.as_slice(),
        };
        proof {
            assert(masks_view(masks@) =~= rules.masks);
            assert(with_filters(includes_view(plan.includes@), filters_view(filters@))
                =~= p.includes);
        }
        // Which way is taken depends on the condition alone, not on the relations.
        let (path, found) = fetch_entities(engine, plan, &filter, read_ts, &self.hits)?;
        self.counters.record_access_path(path);
        proof {
            if nothing_near(p.filter, rules.hits) && read_ts is None {
                lemma_nothing_found(old(engine)@, p, rules.hits);
            }
            lemma_fetch_ignores_includes(
                old(engine)@,
                refiltered(plan@, filter.deep_view()),
                p,
                read_ts,
                rules.hits,
            );
        }
        let mut rows: Vec<EntityRow> = found;
        assert(rows_view(rows@).len() == rows@.len());
        let count: usize = count_rows(rows.len(), plan, read_ts);
        if count > plan.budget.max_entities {
            return Err(
                DbError::InvalidData(
                    budget_message(
                        count as u128,
                        " entities, exceeding budget of ",
                        plan.budget.max_entities,
                    ),
                ),
            );
        }
        proof {
            law_sorting_keeps_rows(rows_view(rows@), p.order_by);
        }
        sort_rows(&mut rows, plan.order_by.as_slice());
        assert(rows_view(rows@).len() == rows@.len());
        let has_more: bool = apply_pagination(&mut rows, &plan.pagination);
        let ids: Vec<EntityId> = ids_of_rows(&rows);
        let block: EntityBlock = build_entity_block(
            plan.root_entity.as_str(),
            &rows,
            plan.fields.as_slice(),
            masks,
        );
        proof {
            if answered_unread(plan@, rules) {
                let follow = FollowRules {
                    roots: ids_view(ids@),
                    max_edges: p.budget.max_edges as nat,
                    masks: rules.masks,
                    read_ts,
                    statistics: match statistics {
                        Some(s) => Some(s@),
                        None => None,
                    },
                };
                law_no_parents_no_reading(engine@, follow, p.includes);
            }
        }
        let mut paths: FollowedPaths = resolve_includes(
            engine,
            &ids,
            &plan.includes,
            &filters,
            plan.budget.max_edges,
            masks,
            read_ts,
            statistics,
        )?;
        self.counters.record_vias(&paths.vias);
        let mut entities: Vec<EntityBlock> = Vec::new();
        entities.push(block);
        let ghost first = blocks_view(entities@);
        let ghost rest = blocks_view(paths.blocks@);
        entities.append(&mut paths.blocks);
        proof {
            assert(first =~= seq![block@]);
            assert(blocks_view(entities@) =~= first + rest);
        }
        Ok(QueryResult { entities, edges: paths.edge_blocks, has_more })
    }

    /// Runs a plan.
    pub fn execute_plan(&mut self, engine: &mut StorageEngine, plan: &QueryPlan) -> (r: Result<
        QueryResult,
        DbError,
    >)
        ensures
            final(self).setup() == old(self).setup(),
            ({
                let expected = run_outcome(old(engine)@, plan@, old(self).rules(None), None);
                &&& run_agrees(
                    r,
                    old(engine)@,
                    final(engine)@,
                    plan@,
                    old(self).rules(None),
                    None,
                )
                &&& match r {
                    Ok(_) => final(self).counted() == counted(
                        old(self).counted(),
                        expected->Ok_0,
                    ),
                    Err(e) => counted_in_vain(
                        e@,
                        old(self).counted(),
                        final(self).counted(),
                        old(engine)@,
                        plan@,
                        old(self).rules(None),
                    ),
                }
            }),
    {
        self.run(engine, plan, None, None)
    }

    /// Finds the rows of a plan, sorted and paged, without following relations.
    /// Policies and masks are not applied.
    pub fn execute_rows_planned(&mut self, engine: &mut StorageEngine, plan: &QueryPlan) -> (r: Result<
        (Vec<EntityRow>, bool),
        DbError,
    >)
        ensures
            final(self).setup() == old(self).setup(),
            rows_answered(
                r,
                old(engine)@,
                final(engine)@,
                plan@,
                old(self).rules(None).hits,
            ),
            rows_counted(
                r,
                old(self).counted(),
                final(self).counted(),
                fetch_outcome(old(engine)@, plan@, None, old(self).rules(None).hits),
            ),
    {
        let (path, found) = fetch_entities(engine, plan, &plan.filter, None, &self.hits)?;
        assert(refiltered(plan@, plan.filter.deep_view()) == plan@);
        self.counters.record_access_path(path);
        let mut rows: Vec<EntityRow> = found;
        assert(rows_view(rows@).len() == rows@.len());
        let count: usize = count_rows(rows.len(), plan, None);
        if count > plan.budget.max_entities {
            return Err(
                DbError::InvalidData(
                    budget_message(
                        count as u128,
                        " entities, exceeding budget of ",
                        plan.budget.max_entities,
                    ),
                ),
            );
        }
        proof {
            law_sorting_keeps_rows(rows_view(rows@), plan@.order_by);
        }
        sort_rows(&mut rows, plan.order_by.as_slice());
        assert(rows_view(rows@).len() == rows@.len());
        let more: bool = apply_pagination(&mut rows, &plan.pagination);
        Ok((rows, more))
    }

    /// Plans a query and finds its rows.
    pub fn execute_rows(&mut self, engine: &mut StorageEngine, query: &GraphQuery) -> (r: Result<
        (Vec<EntityRow>, bool),
        DbError,
    >)
        ensures
            final(self).setup() == old(self).setup(),
            match plan_outcome(old(self).schema(), query@, default_budget()) {
                Err(x) => r matches Err(e) && e@ == x && final(engine)@ == old(engine)@ && (final(self).counted() == old(self).counted()),
                Ok(plan) => {
                    &&& rows_answered(
                        r,
                        old(engine)@,
                        final(engine)@,
                        plan,
                        old(self).rules(None).hits,
                    )
                    &&& rows_counted(
                        r,
                        old(self).counted(),
                        final(self).counted(),
                        fetch_outcome(old(engine)@, plan, None, old(self).rules(None).hits),
                    )
                },
            },
    {
        let plan: QueryPlan = plan_with_budget(self.catalog, query, FanoutBudget::default())?;
        self.execute_rows_planned(engine, &plan)
    }

    fn plan_and_run(
        &mut self,
        engine: &mut StorageEngine,
        query: &GraphQuery,
        budget: FanoutBudget,
        read_ts: Option<u64>,
    ) -> (r: Result<QueryResult, DbError>)
        ensures
            final(self).setup() == old(self).setup(),
            query_answered(
                r,
                old(engine)@,
                final(engine)@,
                plan_outcome(old(self).schema(), query@, budget),
                old(self).rules(read_ts),
                None,
            ),
            query_counted(
                old(self).counted(),
                final(self).counted(),
                failure_of(r),
                old(engine)@,
                plan_outcome(old(self).schema(), query@, budget),
                old(self).rules(read_ts),
                None,
            ),
    {
        let plan: QueryPlan = plan_with_budget(self.catalog, query, budget)?;
        let result: QueryResult = self.run(engine, &plan, read_ts, None)?;
        self.counters.queries = bump(self.counters.queries);
        Ok(result)
    }

    /// Answers a query.
    pub fn execute(&mut self, engine: &mut StorageEngine, query: &GraphQuery) -> (r: Result<
        QueryResult,
        DbError,
    >)
        ensures
            final(self).setup() == old(self).setup(),
            query_answered(
                r,
                old(engine)@,
                final(engine)@,
                plan_outcome(old(self).schema(), query@, default_budget()),
                old(self).rules(None),
                None,
            ),
            query_counted(
                old(self).counted(),
                final(self).counted(),
                failure_of(r),
                old(engine)@,
                plan_outcome(old(self).schema(), query@, default_budget()),
                old(self).rules(None),
                None,
            ),
    {
        self.plan_and_run(engine, query, FanoutBudget::default(), None)
    }

    /// Answers a query that may return so much.
    pub fn execute_with_budget(
        &mut self,
        engine: &mut StorageEngine,
        query: &GraphQuery,
        budget: FanoutBudget,
    ) -> (r: Result<QueryResult, DbError>)
        ensures
            final(self).setup() == old(self).setup(),
            query_answered(
                r,
                old(engine)@,
                final(engine)@,
                plan_outcome(old(self).schema(), query@, budget),
                old(self).rules(None),
                None,
            ),
            query_counted(
                old(self).counted(),
                final(self).counted(),
                failure_of(r),
                old(engine)@,
                plan_outcome(old(self).schema(), query@, budget),
                old(self).rules(None),
                None,
            ),
    {
        self.plan_and_run(engine, query, budget, None)
    }

    /// Answers a query as of a timestamp: the root entities and all related ones
    /// are read as they were then.
    pub fn execute_as_of(
        &mut self,
        engine: &mut StorageEngine,
        query: &GraphQuery,
        read_ts: u64,
    ) -> (r: Result<QueryResult, DbError>)
        ensures
            final(self).setup() == old(self).setup(),
            query_answered(
                r,
                old(engine)@,
                final(engine)@,
                plan_outcome(old(self).schema(), query@, default_budget()),
                old(self).rules(Some(read_ts)),
                None,
            ),
            query_counted(
                old(self).counted(),
                final(self).counted(),
                failure_of(r),
                old(engine)@,
                plan_outcome(old(self).schema(), query@, default_budget()),
                old(self).rules(Some(read_ts)),
                None,
            ),
    {
        self.plan_and_run(engine, query, FanoutBudget::default(), Some(read_ts))
    }

    /// Answers a query as of the commit watermark: what has been committed is
    /// seen, and writes that commit later are excluded.
    pub fn execute_snapshot(&mut self, engine: &mut StorageEngine, query: &GraphQuery) -> (r: Result<
        QueryResult,
        DbError,
    >)
        ensures
            final(self).setup() == old(self).setup(),
            query_answered(
                r,
                old(engine)@,
                final(engine)@,
                plan_outcome(old(self).schema(), query@, default_budget()),
                old(self).rules(Some(old(engine)@.watermark)),
                None,
            ),
            query_counted(
                old(self).counted(),
                final(self).counted(),
                failure_of(r),
                old(engine)@,
                plan_outcome(old(self).schema(), query@, default_budget()),
                old(self).rules(Some(old(engine)@.watermark)),
                None,
            ),
    {
        let ts: u64 = engine.read_watermark();
        self.execute_as_of(engine, query, ts)
    }

    /// Answers a query with a plan that is kept for queries of its structure, or else
    /// with a new one, which is kept. What the query asks for counts, not what the
    /// plan was made with. With statistics, relations are deduplicated and strategies
    /// are chosen by them.
    pub fn execute_with_cache(
        &mut self,
        engine: &mut StorageEngine,
        query: &GraphQuery,
        cache: &mut PlanCache,
        statistics: Option<&TableStatistics>,
    ) -> (r: Result<QueryResult, DbError>)
        ensures
            final(self).setup() == old(self).setup(),
            final(cache)@ == cache_after(
                old(cache)@,
                old(self).schema(),
                query@,
                default_budget(),
            ),
            query_answered(
                r,
                old(engine)@,
                final(engine)@,
                tuned(
                    served_plan(old(cache)@, old(self).schema(), query@, default_budget()),
                    statistics is Some,
                ),
                old(self).rules(None),
                match statistics {
                    Some(s) => Some(s@),
                    None => None,
                },
            ),
            query_counted(
                cache_counted(
                    old(self).counted(),
                    kept_plan(old(cache)@.plans, old(self).schema().version, query@) is Some,
                ),
                final(self).counted(),
                failure_of(r),
                old(engine)@,
                tuned(
                    served_plan(old(cache)@, old(self).schema(), query@, default_budget()),
                    statistics is Some,
                ),
                old(self).rules(None),
                match statistics {
                    Some(s) => Some(s@),
                    None => None,
                },
            ),
    {
        let version: u64 = self.catalog.current_version();
        let kept: Option<QueryPlan> = match cache.get(version, query) {
            Some(plan) => {
                proof {
                    lemma_kept_plan_fits(cache@.plans, version, query@);
                }
                Some(rebind(plan, query, FanoutBudget::default()))
            },
            None => None,
        };
        let mut plan: QueryPlan = match kept {
            Some(plan) => {
                self.counters.cache_hits = bump(self.counters.cache_hits);
                plan
            },
            None => {
                self.counters.cache_misses = bump(self.counters.cache_misses);
                let plan: QueryPlan = plan_with_budget(
                    self.catalog,
                    query,
                    FanoutBudget::default(),
                )?;
                cache.insert(version, copy_plan(&plan));
                plan
            },
        };
        if statistics.is_some() {
            plan.deduplicate_includes();
        }
        let result: QueryResult = self.run(engine, &plan, None, statistics)?;
        self.counters.queries = bump(self.counters.queries);
        Ok(result)
    }

    /// Answers a query, choosing strategies by statistics.
    pub fn execute_with_statistics(
        &mut self,
        engine: &mut StorageEngine,
        query: &GraphQuery,
        statistics: &TableStatistics,
    ) -> (r: Result<QueryResult, DbError>)
        ensures
            final(self).setup() == old(self).setup(),
            query_answered(
                r,
                old(engine)@,
                final(engine)@,
                tuned(plan_outcome(old(self).schema(), query@, default_budget()), true),
                old(self).rules(None),
                Some(statistics@),
            ),
            query_counted(
                old(self).counted(),
                final(self).counted(),
                failure_of(r),
                old(engine)@,
                tuned(plan_outcome(old(self).schema(), query@, default_budget()), true),
                old(self).rules(None),
                Some(statistics@),
            ),
    {
        let mut plan: QueryPlan = plan_with_budget(self.catalog, query, FanoutBudget::default())?;
        plan.deduplicate_includes();
        let result: QueryResult = self.run(engine, &plan, None, Some(statistics))?;
        self.counters.queries = bump(self.counters.queries);
        Ok(result)
    }
}

/// The budget where none is given.
pub open spec fn default_budget() -> FanoutBudget {
    FanoutBudget { max_entities: 10_000, max_edges: 50_000, max_depth: 5 }
}

/// A plan as it is run with statistics, or without them.
pub open spec fn tuned(planned: Result<PlanView, ErrorView>, with_statistics: bool) -> Result<
    PlanView,
    ErrorView,
> {
    match planned {
        Ok(plan) => Ok(
            if with_statistics {
                PlanView { includes: deduplicated(plan.includes), ..plan }
            } else {
                plan
            },
        ),
        Err(e) => Err(e),
    }
}

/// Whether a query was answered as it is to be: where it cannot be planned with
/// the reason, and else with what running the plan gives.
pub open spec fn query_answered(
    r: Result<QueryResult, DbError>,
    before: StoreView,
    after: StoreView,
    planned: Result<PlanView, ErrorView>,
    rules: RunRules,
    statistics: Option<Seq<(Seq<char>, u64)>>,
) -> bool {
    match planned {
        Err(x) => r matches Err(e) && e@ == x && after == before,
        Ok(plan) => run_agrees(r, before, after, plan, rules, statistics),
    }
}

/// A search of which no hit is near enough finds nothing.
proof fn lemma_nothing_found(store: StoreView, plan: PlanView, hits: Option<HitsView>)
    requires
        nothing_near(plan.filter, hits),
    ensures
        fetch_outcome(store, plan, None, hits) matches Ok(found) && found.rows.len() == 0
            && found.store == store,
{
    let ids = within_reach(hits->0.hits, plan.filter->0->Search_1.reach());
    assert(ids =~= Seq::empty());
    let kept = cut(ids, enough(plan));
    assert(kept =~= Seq::empty());
    lemma_batch_len(store, kept);
}

/// How root entities are found does not depend on the relations.
proof fn lemma_fetch_ignores_includes(
    store: StoreView,
    a: PlanView,
    b: PlanView,
    read_ts: Option<u64>,
    hits: Option<HitsView>,
)
    requires
        a == (PlanView { includes: a.includes, ..b }),
    ensures
        fetch_outcome(store, a, read_ts, hits) == fetch_outcome(store, b, read_ts, hits),
{
    let items_a = |when: When, needed: Option<Seq<Seq<char>>>|
        scan_outcome(store, a.root_entity, when).map_values(
            |i: ScanItemView| scan_row(i, a.filter, needed),
        );
    let items_b = |when: When, needed: Option<Seq<Seq<char>>>|
        scan_outcome(store, b.root_entity, when).map_values(
            |i: ScanItemView| scan_row(i, b.filter, needed),
        );
    assert forall|when: When, needed: Option<Seq<Seq<char>>>, t: Option<nat>|
        #[trigger] scanned_rows(store, a, when, needed, t) == scanned_rows(store, b, when, needed, t) by {
        assert(items_a(when, needed) =~= items_b(when, needed));
    }
    assert forall|f: FilterView| #[trigger] columnar_rows(store, a, f) == columnar_rows(store, b, f) by {
        assert(row_items(store.columnar, a.root_entity).map_values(
            |i: RowItemView| columnar_row(i, f, selected(a)),
        ) =~= row_items(store.columnar, b.root_entity).map_values(
            |i: RowItemView| columnar_row(i, f, selected(b)),
        ));
    }
    assert forall|s: StoreView, ids: Seq<Seq<u8>>| #[trigger] rows_for_ids(s, ids, a) == rows_for_ids(
        s,
        ids,
        b,
    ) by {
        let kept = cut(ids, enough(a));
        let needed = needed_names(a.fields, a.filter, a.order_by);
        match latest_batch_outcome(s, kept) {
            Ok(found) => {
                assert(Seq::new(kept.len(), |i: int| found_row(kept[i], found[i], None, needed))
                    =~= Seq::new(
                    kept.len(),
                    |i: int|
                        found_row(
                            kept[i],
                            found[i],
                            None,
                            needed_names(b.fields, b.filter, b.order_by),
                        ),
                ));
            },
            Err(_) => {},
        }
    }
}

} // verus!

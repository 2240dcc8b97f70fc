//! Following relations: from entities to those that refer to them.

use vstd::prelude::*;
use vstd::string::{StrSliceExecFns, StringExecFns};

use crate::bytes::{copy_slice, EntityId};
use crate::codec::{decode_entity, entity_outcome, Field};
use crate::error::{DbError, ErrorView};
use crate::query::ast::{
    blocks_view, edge_blocks_view, edges_view, find_first, first_value, includes_view, rows_view,
    BlockView, Edge, EdgeBlock, EdgeBlockView, EdgeView, EntityBlock, EntityRow, FilterExpr,
    FilterView, IncludePlan, IncludeView, OrderView, RowView,
};
use crate::query::fetch::{
    collect_needed_fields, decode_record_fields, found_row, gather, lemma_gather_step,
    lemma_gathered_scan, needed_names, optional_names, queries_keep,
};
use crate::query::filter::{evaluate_optional, passes};
use crate::query::rows::{
    apply_per_parent_pagination, block_of, build_entity_block, firsts, ids_of_rows, in_row_order,
    masks_view, order_edges, paged_by_source, row_ids, seconds, sort_rows, sorted, FieldMask,
    MaskView,
};
use crate::query::statistics::{count_of, TableStatistics};
use crate::storage::btree_index::{scan_ids, BoundView};
use crate::storage::engine::{ensured, id_among, ids_agree, lemma_batch_len, StorageEngine};
use crate::storage::hash_index::{column_indexed, ids_view, lookup_outcome, HashIndex};
use crate::storage::model::{
    latest_batch_outcome, scan_item_view, scan_outcome, scan_view, ScanItem, ScanItemView,
    StoreView, When,
};
use crate::storage::record::{Record, RecordView};
use crate::text::{chars_of, decimal, decimal_text, str_eq};
use crate::value::{Value, ValueView};

verus! {

/// How a relation is followed where no index helps.
#[derive(Debug, Clone, Copy, PartialEq, Eq, Structural)]
pub enum JoinStrategy {
    /// For each related entity its source is looked for.
    NestedLoop,
    /// The sources are hashed first.
    HashJoin,
}

/// The strategy for so many sources and so many related entities: hashing pays
/// for more than a hundred sources or more than a thousand related entities.
pub open spec fn strategy_for(parents: nat, children: nat) -> JoinStrategy {
    if parents > 100 || children > 1000 {
        JoinStrategy::HashJoin
    } else {
        JoinStrategy::NestedLoop
    }
}

impl JoinStrategy {
    /// The strategy for so many sources and so many related entities.
    pub fn select(parent_count: usize, child_count: u64) -> (s: JoinStrategy)
        ensures
            s == strategy_for(parent_count as nat, child_count as nat),
    {
        if parent_count > 100 || child_count > 1000 {
            JoinStrategy::HashJoin
        } else {
            JoinStrategy::NestedLoop
        }
    }
}

/// The way that was taken to follow a relation.
#[derive(Debug, Clone, Copy, PartialEq, Eq, Structural)]
pub enum Via {
    /// All entities as of a timestamp.
    Snapshot,
    /// The equality index.
    HashIndex,
    /// The ordered index.
    BfTree,
    /// All entities, with a strategy.
    Join(JoinStrategy),
}

/// What a relation leads to: related entities with the edges to them.
pub ghost struct Related {
    /// The store: the ordered index may cover a column more.
    pub store: StoreView,
    /// The way that was taken.
    pub via: Via,
    /// The related entities and the edges to them.
    pub pairs: Seq<(RowView, EdgeView)>,
}

/// The related entity that a scanned entity is, where it refers to one of the
/// sources and passes the condition.
pub open spec fn related_row(item: ScanItemView, sources: Seq<Seq<u8>>, rel: IncludeView) -> Result<
    Option<(RowView, EdgeView)>,
    ErrorView,
> {
    match item {
        Err(e) => Err(e),
        Ok((id, _, r)) => match entity_outcome(r.data) {
            Err(e) => Err(e),
            Ok(fields) => match first_value(fields, rel.to_field) {
                Some(ValueView::Uuid(from_id)) => if sources.contains(from_id) {
                    match passes(rel.filter, fields) {
                        Err(e) => Err(e),
                        Ok(true) => Ok(
                            Some((RowView { id, fields }, EdgeView { from_id, to_id: id })),
                        ),
                        Ok(false) => Ok(None),
                    }
                } else {
                    Ok(None)
                },
                _ => Ok(None),
            },
        },
    }
}

/// What a relation leads to, by a scan of the type that it leads to.
pub open spec fn scanned_related(
    store: StoreView,
    sources: Seq<Seq<u8>>,
    rel: IncludeView,
    when: When,
) -> Result<Seq<(RowView, EdgeView)>, ErrorView> {
    gather(
        scan_outcome(store, rel.to_entity, when).map_values(
            |i: ScanItemView| related_row(i, sources, rel),
        ),
        Seq::empty(),
        None,
    )
}

/// The entities that refer to an entity, by an index.
pub open spec fn indexed_children(store: StoreView, use_hash: bool, rel: IncludeView, id: Seq<u8>) -> Result<
    Seq<Seq<u8>>,
    ErrorView,
> {
    if use_hash {
        lookup_outcome(store.hash, rel.to_entity, rel.to_field, ValueView::Uuid(id))
    } else {
        Ok(
            scan_ids(
                store.btree->0,
                rel.to_entity,
                rel.to_field,
                BoundView::Equal(ValueView::Uuid(id)),
            ),
        )
    }
}

/// An entity with each of those that refer to it.
pub open spec fn pairs_of(id: Seq<u8>, children: Seq<Seq<u8>>) -> Seq<(Seq<u8>, Seq<u8>)> {
    children.map_values(|c: Seq<u8>| (id, c))
}

/// The sources, each with those that refer to it.
pub open spec fn indexed_pairs(
    store: StoreView,
    use_hash: bool,
    rel: IncludeView,
    sources: Seq<Seq<u8>>,
) -> Result<Seq<(Seq<u8>, Seq<u8>)>, ErrorView>
    decreases sources.len(),
{
    if sources.len() == 0 {
        Ok(Seq::empty())
    } else {
        match indexed_pairs(store, use_hash, rel, sources.drop_last()) {
            Err(e) => Err(e),
            Ok(init) => match indexed_children(store, use_hash, rel, sources.last()) {
                Err(e) => Err(e),
                Ok(children) => Ok(init + pairs_of(sources.last(), children)),
            },
        }
    }
}

/// The related entity of a pair, where it is there and passes the condition.
pub open spec fn pair_row(
    pair: (Seq<u8>, Seq<u8>),
    found: Option<(u64, RecordView)>,
    rel: IncludeView,
) -> Result<Option<(RowView, EdgeView)>, ErrorView> {
    match found_row(
        pair.1,
        found,
        rel.filter,
        needed_names(rel.fields, rel.filter, rel.order_by),
    ) {
        Err(e) => Err(e),
        Ok(None) => Ok(None),
        Ok(Some(row)) => Ok(Some((row, EdgeView { from_id: pair.0, to_id: pair.1 }))),
    }
}

/// The second parts of pairs.
pub open spec fn children_of(pairs: Seq<(Seq<u8>, Seq<u8>)>) -> Seq<Seq<u8>> {
    pairs.map_values(|p: (Seq<u8>, Seq<u8>)| p.1)
}

/// What a relation leads to, by an index.
pub open spec fn indexed_related(
    store: StoreView,
    use_hash: bool,
    sources: Seq<Seq<u8>>,
    rel: IncludeView,
) -> Result<Seq<(RowView, EdgeView)>, ErrorView> {
    match indexed_pairs(store, use_hash, rel, sources) {
        Err(e) => Err(e),
        Ok(pairs) => match latest_batch_outcome(store, children_of(pairs)) {
            Err(e) => Err(e),
            Ok(found) => gather(
                Seq::new(pairs.len(), |i: int| pair_row(pairs[i], found[i], rel)),
                Seq::empty(),
                None,
            ),
        },
    }
}

/// What a relation leads to. As of a timestamp all entities are read as they
/// were then. Otherwise the equality index is used where it has the field, else
/// the ordered index where the store has one, and else all entities are read.
/// No index is used where there is a type between the two.
pub open spec fn related_outcome(
    store: StoreView,
    sources: Seq<Seq<u8>>,
    rel: IncludeView,
    read_ts: Option<u64>,
    children: nat,
) -> Result<Related, ErrorView> {
    let joined = Via::Join(strategy_for(sources.len(), children));
    match read_ts {
        Some(ts) => match scanned_related(store, sources, rel, When::AsOf(ts)) {
            Ok(pairs) => Ok(Related { store, via: Via::Snapshot, pairs }),
            Err(e) => Err(e),
        },
        None => if rel.edge_entity is Some {
            match scanned_related(store, sources, rel, When::Latest) {
                Ok(pairs) => Ok(Related { store, via: joined, pairs }),
                Err(e) => Err(e),
            }
        } else if column_indexed(store.hash, rel.to_entity, rel.to_field) {
            match indexed_related(store, true, sources, rel) {
                Ok(pairs) => Ok(Related { store, via: Via::HashIndex, pairs }),
                Err(e) => Err(e),
            }
        } else if store.btree is Some {
            match ensured(store, rel.to_entity, rel.to_field) {
                Err(e) => Err(e),
                Ok(after) => match indexed_related(after, false, sources, rel) {
                    Ok(pairs) => Ok(Related { store: after, via: Via::BfTree, pairs }),
                    Err(e) => Err(e),
                },
            }
        } else {
            match scanned_related(store, sources, rel, When::Latest) {
                Ok(pairs) => Ok(Related { store, via: joined, pairs }),
                Err(e) => Err(e),
            }
        },
    }
}

/// What is returned of what a relation leads to: the rows sorted, and of each
/// source the wanted part of its rows in that order.
pub open spec fn finished(pairs: Seq<(RowView, EdgeView)>, rel: IncludeView) -> (
    Seq<RowView>,
    Seq<EdgeView>,
) {
    let rows = sorted(firsts(pairs), rel.order_by);
    match rel.pagination {
        Some(p) => {
            let edges = ordered_edges(rows, seconds(pairs), rel.order_by);
            let kept = paged_by_source(rows, edges, crate::query::rows::sources(edges), p);
            (firsts(kept), seconds(kept))
        },
        None => (rows, seconds(pairs)),
    }
}

/// The edges in the order of the rows, where the rows are sorted.
pub open spec fn ordered_edges(
    rows: Seq<RowView>,
    edges: Seq<EdgeView>,
    order_by: Seq<OrderView>,
) -> Seq<EdgeView> {
    if order_by.len() == 0 {
        edges
    } else {
        in_row_order(rows, edges)
    }
}

/// Where the last dot of a path stands; before the beginning where there is none.
pub open spec fn last_dot(path: Seq<char>) -> int
    decreases path.len(),
{
    if path.len() == 0 {
        -1
    } else if path.last() == '.' {
        path.len() - 1
    } else {
        last_dot(path.drop_last())
    }
}

/// The path of the relation that another one starts from; none where it starts
/// from the root.
pub open spec fn parent_of(path: Seq<char>) -> Option<Seq<char>> {
    if last_dot(path) >= 0 {
        Some(path.take(last_dot(path)))
    } else {
        None
    }
}

/// The entities that a path has led to.
pub open spec fn reached(resolved: Seq<(Seq<char>, Seq<Seq<u8>>)>, path: Seq<char>) -> Option<
    Seq<Seq<u8>>,
>
    decreases resolved.len(),
{
    if resolved.len() == 0 {
        None
    } else if resolved.last().0 == path {
        Some(resolved.last().1)
    } else {
        reached(resolved.drop_last(), path)
    }
}

/// What is said where a relation starts from one that has not been followed.
pub open spec fn unresolved_text(parent: Seq<char>, path: Seq<char>) -> Seq<char> {
    "Parent path '"@ + parent + "' not resolved for include '"@ + path + "'"@
}

/// What is said where a query would return too much.
pub open spec fn budget_text(count: nat, what: Seq<char>, limit: nat) -> Seq<char> {
    "Query would return "@ + decimal(count) + what + decimal(limit)
}

/// Too many edges.
pub open spec fn edges_text() -> Seq<char> {
    " edges, exceeding budget of "@
}

/// Too many entities.
pub open spec fn entities_text() -> Seq<char> {
    " entities, exceeding budget of "@
}

/// How far the relations of a query have been followed.
pub ghost struct Followed {
    /// The store.
    pub store: StoreView,
    /// The entities that each path has led to.
    pub resolved: Seq<(Seq<char>, Seq<Seq<u8>>)>,
    /// The number of edges so far.
    pub edges: nat,
    /// The related entities.
    pub blocks: Seq<BlockView>,
    /// The edges to them.
    pub edge_blocks: Seq<EdgeBlockView>,
    /// The ways that were taken.
    pub vias: Seq<Via>,
}

/// What is the same for all relations of a query.
pub ghost struct FollowRules {
    /// The root entities.
    pub roots: Seq<Seq<u8>>,
    /// How many edges there may be.
    pub max_edges: nat,
    /// What is done to fields.
    pub masks: Seq<MaskView>,
    /// When entities are read.
    pub read_ts: Option<u64>,
    /// The statistics to choose strategies by, where they are used. With them
    /// edges count before the wanted part is taken, without them after.
    pub statistics: Option<Seq<(Seq<char>, u64)>>,
}

/// The number of related entities that is reckoned with.
pub open spec fn expected_children(rules: FollowRules, rel: IncludeView) -> nat {
    match rules.statistics {
        Some(s) => match count_of(s, rel.to_entity) {
            Some(n) => n as nat,
            None => 1000,
        },
        None => 1000,
    }
}

/// The entities that a relation starts from.
pub open spec fn sources_of(done: Followed, rules: FollowRules, rel: IncludeView) -> Result<
    Seq<Seq<u8>>,
    ErrorView,
> {
    match parent_of(rel.path) {
        None => Ok(rules.roots),
        Some(parent) => match reached(done.resolved, parent) {
            Some(ids) => Ok(ids),
            None => Err(ErrorView::InvalidData(unresolved_text(parent, rel.path))),
        },
    }
}

/// One more relation followed.
pub open spec fn follow(done: Followed, rules: FollowRules, rel: IncludeView) -> Result<
    Followed,
    ErrorView,
> {
    match sources_of(done, rules, rel) {
        Err(e) => Err(e),
        Ok(from) => if from.len() == 0 {
            Ok(done)
        } else {
            match related_outcome(
                done.store,
                from,
                rel,
                rules.read_ts,
                expected_children(rules, rel),
            ) {
                Err(e) => Err(e),
                Ok(related) => {
                    let (rows, edges) = finished(related.pairs, rel);
                    let count = done.edges + if rules.statistics is Some {
                        related.pairs.len()
                    } else {
                        edges.len()
                    };
                    if count > rules.max_edges {
                        Err(
                            ErrorView::InvalidData(
                                budget_text(count, edges_text(), rules.max_edges),
                            ),
                        )
                    } else {
                        Ok(
                            Followed {
                                store: related.store,
                                resolved: done.resolved.push((rel.path, row_ids(rows))),
                                edges: count,
                                blocks: done.blocks.push(
                                    block_of(
                                        rel.to_entity,
                                        rows,
                                        rel.fields,
                                        rules.masks,
                                    ),
                                ),
                                edge_blocks: if edges.len() > 0 {
                                    done.edge_blocks.push(
                                        EdgeBlockView { relation: rel.path, edges },
                                    )
                                } else {
                                    done.edge_blocks
                                },
                                vias: done.vias.push(related.via),
                            },
                        )
                    }
                },
            }
        },
    }
}

/// Nothing followed yet: the empty path leads to the root entities.
pub open spec fn nothing_followed(store: StoreView, rules: FollowRules) -> Followed {
    Followed {
        store,
        resolved: seq![(Seq::empty(), rules.roots)],
        edges: 0,
        blocks: Seq::empty(),
        edge_blocks: Seq::empty(),
        vias: Seq::empty(),
    }
}

/// All relations followed, in order.
pub open spec fn follow_all(store: StoreView, rules: FollowRules, includes: Seq<IncludeView>) -> Result<
    Followed,
    ErrorView,
>
    decreases includes.len(),
{
    if includes.len() == 0 {
        Ok(nothing_followed(store, rules))
    } else {
        match follow_all(store, rules, includes.drop_last()) {
            Ok(done) => follow(done, rules, includes.last()),
            Err(e) => Err(e),
        }
    }
}

/// Whether what relations lead to can be told without reading the store: each starts
/// from no entity, until one starts from a relation that has not been followed.
pub open spec fn told_unread(
    store: StoreView,
    rules: FollowRules,
    includes: Seq<IncludeView>,
) -> bool
    decreases includes.len(),
{
    includes.len() == 0 || (told_unread(store, rules, includes.drop_last()) && match follow_all(
        store,
        rules,
        includes.drop_last(),
    ) {
        Ok(done) => match sources_of(done, rules, includes.last()) {
            Ok(from) => from.len() == 0,
            Err(_) => true,
        },
        Err(_) => true,
    })
}

proof fn lemma_told_unread(
    store: StoreView,
    rules: FollowRules,
    includes: Seq<IncludeView>,
    n: int,
)
    requires
        0 <= n <= includes.len(),
        told_unread(store, rules, includes),
    ensures
        told_unread(store, rules, includes.take(n)),
    decreases includes.len(),
{
    if n == includes.len() {
        assert(includes.take(n) =~= includes);
    } else {
        lemma_told_unread(store, rules, includes.drop_last(), n);
        assert(includes.drop_last().take(n) =~= includes.take(n));
    }
}

/// Without any entity to start from, all relations can be told without reading, and
/// those that start there lead nowhere.
pub proof fn law_no_parents_no_reading(
    store: StoreView,
    rules: FollowRules,
    includes: Seq<IncludeView>,
)
    requires
        rules.roots.len() == 0,
    ensures
        told_unread(store, rules, includes),
        (forall|i: int| 0 <= i < includes.len() ==> parent_of((#[trigger] includes[i]).path) is None)
            ==> follow_all(store, rules, includes) == Ok::<Followed, ErrorView>(
            nothing_followed(store, rules),
        ),
        follow_all(store, rules, includes) matches Ok(done) ==> done == nothing_followed(
            store,
            rules,
        ),
    decreases includes.len(),
{
    if includes.len() > 0 {
        let init = includes.drop_last();
        law_no_parents_no_reading(store, rules, init);
        let done = nothing_followed(store, rules);
        assert(done.resolved.drop_last().len() == 0);
        if forall|i: int|
            0 <= i < includes.len() ==> parent_of((#[trigger] includes[i]).path) is None {
            assert forall|i: int| 0 <= i < init.len() implies parent_of(
                (#[trigger] init[i]).path,
            ) is None by {
                assert(init[i] == includes[i]);
            }
            assert(includes[includes.len() - 1] == includes.last());
        }
        reveal_with_fuel(reached, 2);
    }
}

proof fn lemma_follow_fails(
    store: StoreView,
    rules: FollowRules,
    includes: Seq<IncludeView>,
    n: int,
)
    requires
        0 <= n <= includes.len(),
        follow_all(store, rules, includes.take(n)) is Err,
    ensures
        follow_all(store, rules, includes) == follow_all(store, rules, includes.take(n)),
    decreases includes.len() - n,
{
    if n == includes.len() {
        assert(includes.take(n) =~= includes);
    } else {
        assert(includes.take(n + 1).drop_last() =~= includes.take(n));
        lemma_follow_fails(store, rules, includes, n + 1);
    }
}

/// Gathers related entities from a scan.
pub fn gather_related(
    items: &Vec<ScanItem>,
    source_ids: &Vec<EntityId>,
    rel: &IncludePlan,
    filter: &Option<FilterExpr>,
) -> (r: Result<(Vec<EntityRow>, Vec<Edge>), DbError>)
    ensures
        ({
            let expected = gather(
                scan_view(items@).map_values(
                    |i: ScanItemView|
                        related_row(
                            i,
                            ids_view(source_ids@),
                            include_with(rel@, filter.deep_view()),
                        ),
                ),
                Seq::empty(),
                None,
            );
            pairs_are(r, expected)
        }),
{
    let ghost from = ids_view(source_ids@);
    let ghost inc = include_with(rel@, filter.deep_view());
    let ghost all = scan_view(items@).map_values(|i: ScanItemView| related_row(i, from, inc));
    let mut rows: Vec<EntityRow> = Vec::new();
    let mut edges: Vec<Edge> = Vec::new();
    let ghost mut pairs: Seq<(RowView, EdgeView)> = Seq::empty();
    let mut i: usize = 0;
    proof {
        assert(all.skip(0) =~= all);
        assert(rows_view(rows@) =~= firsts(pairs));
        assert(edges_view(edges@) =~= seconds(pairs));
    }
    while i < items.len()
        invariant
            i <= items@.len(),
            from == ids_view(source_ids@),
            inc == include_with(rel@, filter.deep_view()),
            all == scan_view(items@).map_values(|i: ScanItemView| related_row(i, from, inc)),
            rows_view(rows@) == firsts(pairs),
            edges_view(edges@) == seconds(pairs),
            gather(all, Seq::empty(), None) == gather(all.skip(i as int), pairs, None),
        decreases items@.len() - i,
    {
        let ghost rows_before = rows_view(rows@);
        let ghost edges_before = edges_view(edges@);
        proof {
            lemma_gather_step(all, i as int, pairs, None);
            assert(all[i as int] == related_row(scan_item_view(items@[i as int]), from, inc));
            assert(from.take(source_ids@.len() as int) =~= from);
        }
        match &items[i] {
            Ok(item) => {
                let fields: Vec<Field> = decode_entity(item.2.data.as_slice())?;
                let source: Option<EntityId> = match find_first(
                    fields.as_slice(),
                    rel.relation.to_field.as_str(),
                ) {
                    Some(Value::Uuid(id)) => if id_among(source_ids.as_slice(), source_ids.len(), id) {
                        Some(*id)
                    } else {
                        None
                    },
                    _ => None,
                };
                if let Some(from_id) = source {
                    if evaluate_optional(filter, fields.as_slice())? {
                        let row: EntityRow = EntityRow::new(item.0, fields);
                        let edge: Edge = Edge { from_id, to_id: item.0 };
                        let ghost new = row@;
                        rows.push(row);
                        edges.push(edge);
                        proof {
                            pairs = pairs.push((new, edge@));
                            assert(rows_view(rows@) =~= rows_before.push(new));
                            assert(edges_view(edges@) =~= edges_before.push(edge@));
                            assert(rows_view(rows@) =~= firsts(pairs));
                            assert(edges_view(edges@) =~= seconds(pairs));
                        }
                    }
                }
            },
            Err(e) => {
                return Err(e.duplicate());
            },
        }
        i = i + 1;
    }
    Ok((rows, edges))
}

/// The relation with another condition.
pub open spec fn include_with(rel: IncludeView, filter: Option<FilterView>) -> IncludeView {
    IncludeView { filter, ..rel }
}

/// Whether rows and edges are those of pairs.
pub open spec fn are_pairs(
    found: (Vec<EntityRow>, Vec<Edge>),
    pairs: Seq<(RowView, EdgeView)>,
) -> bool {
    rows_view(found.0@) == firsts(pairs) && edges_view(found.1@) == seconds(pairs)
}

/// Whether a result is exactly what is expected.
pub open spec fn pairs_are(
    r: Result<(Vec<EntityRow>, Vec<Edge>), DbError>,
    expected: Result<Seq<(RowView, EdgeView)>, ErrorView>,
) -> bool {
    match r {
        Ok(found) => expected is Ok && are_pairs(found, expected->Ok_0),
        Err(e) => expected == Err::<Seq<(RowView, EdgeView)>, ErrorView>(e@),
    }
}

/// Whether a result is what is expected, unless the database failed.
pub open spec fn pairs_agree(
    r: Result<(Vec<EntityRow>, Vec<Edge>), DbError>,
    expected: Result<Seq<(RowView, EdgeView)>, ErrorView>,
) -> bool {
    pairs_are(r, expected) || (r matches Err(e) && e@ is Storage)
}

fn scan_related(
    engine: &StorageEngine,
    source_ids: &Vec<EntityId>,
    rel: &IncludePlan,
    filter: &Option<FilterExpr>,
    when: When,
) -> (r: Result<(Vec<EntityRow>, Vec<Edge>), DbError>)
    ensures
        pairs_agree(
            r,
            scanned_related(
                engine@,
                ids_view(source_ids@),
                include_with(rel@, filter.deep_view()),
                when,
            ),
        ),
{
    let target: &str = rel.relation.to_entity.as_str();
    let items: Vec<ScanItem> = match when {
        When::Latest => engine.scan_entity_type(target),
        When::AsOf(ts) => engine.scan_entity_type_as_of(target, ts),
    };
    proof {
        let from = ids_view(source_ids@);
        let inc = include_with(rel@, filter.deep_view());
        lemma_gathered_scan(
            scan_view(items@),
            scan_outcome(engine@, target@, when),
            |i: ScanItemView| related_row(i, from, inc),
            None,
        );
    }
    gather_related(&items, source_ids, rel, filter)
}

fn children_via_index(
    engine: &StorageEngine,
    use_hash: bool,
    rel: &IncludePlan,
    id: EntityId,
) -> (r: Result<Vec<EntityId>, DbError>)
    requires
        use_hash || engine@.btree is Some,
    ensures
        ids_agree(r, indexed_children(engine@, use_hash, rel@, id@)),
{
    let target: &str = rel.relation.to_entity.as_str();
    let field: &str = rel.relation.to_field.as_str();
    let value: Value = Value::Uuid(id);
    if use_hash {
        engine.hash_lookup(target, field, &value)
    } else {
        match engine.btree_index() {
            Some(btree) => Ok(btree.scan_equal(target, field, &value)),
            None => Ok(Vec::new()),
        }
    }
}

fn pairs_via_index(
    engine: &StorageEngine,
    use_hash: bool,
    rel: &IncludePlan,
    source_ids: &Vec<EntityId>,
) -> (r: Result<(Vec<EntityId>, Vec<EntityId>), DbError>)
    requires
        use_hash || engine@.btree is Some,
    ensures
        match r {
            Ok((parents, children)) => {
                &&& parents@.len() == children@.len()
                &&& indexed_pairs(engine@, use_hash, rel@, ids_view(source_ids@)) == Ok::<
                    Seq<(Seq<u8>, Seq<u8>)>,
                    ErrorView,
                >(zipped(ids_view(parents@), ids_view(children@)))
            },
            Err(e) => e@ is Storage || indexed_pairs(
                engine@,
                use_hash,
                rel@,
                ids_view(source_ids@),
            ) == Err::<Seq<(Seq<u8>, Seq<u8>)>, ErrorView>(e@),
        },
{
    let ghost all = ids_view(source_ids@);
    let ghost inc = rel@;
    let mut parents: Vec<EntityId> = Vec::new();
    let mut children: Vec<EntityId> = Vec::new();
    let mut i: usize = 0;
    proof {
        assert(all.take(0) =~= Seq::<Seq<u8>>::empty());
        assert(zipped(ids_view(parents@), ids_view(children@)) =~= Seq::<(Seq<u8>, Seq<u8>)>::empty());
    }
    while i < source_ids.len()
        invariant
            i <= source_ids@.len(),
            use_hash || engine@.btree is Some,
            all == ids_view(source_ids@),
            inc == rel@,
            parents@.len() == children@.len(),
            indexed_pairs(engine@, use_hash, inc, all.take(i as int)) == Ok::<
                Seq<(Seq<u8>, Seq<u8>)>,
                ErrorView,
            >(zipped(ids_view(parents@), ids_view(children@))),
        decreases source_ids@.len() - i,
    {
        let id: EntityId = source_ids[i];
        let ghost before = zipped(ids_view(parents@), ids_view(children@));
        proof {
            assert(all.take(i + 1).drop_last() =~= all.take(i as int));
            assert(all.take(i + 1).last() == id@);
            if indexed_pairs(engine@, use_hash, inc, all.take(i + 1)) is Err {
                lemma_pairs_fail(engine@, use_hash, inc, all, i + 1);
            }
        }
        let own: Vec<EntityId> = children_via_index(engine, use_hash, rel, id)?;
        let ghost own_view = ids_view(own@);
        let mut k: usize = 0;
        assert(before + pairs_of(id@, own_view.take(0)) =~= before);
        while k < own.len()
            invariant
                k <= own@.len(),
                own_view == ids_view(own@),
                parents@.len() == children@.len(),
                zipped(ids_view(parents@), ids_view(children@)) == before + pairs_of(
                    id@,
                    own_view.take(k as int),
                ),
            decreases own@.len() - k,
        {
            let ghost step = zipped(ids_view(parents@), ids_view(children@));
            parents.push(id);
            children.push(own[k]);
            proof {
                assert(zipped(ids_view(parents@), ids_view(children@)) =~= step.push(
                    (id@, own@[k as int]@),
                ));
                assert(pairs_of(id@, own_view.take(k + 1)) =~= pairs_of(
                    id@,
                    own_view.take(k as int),
                ).push((id@, own@[k as int]@)));
                assert(zipped(ids_view(parents@), ids_view(children@)) =~= before + pairs_of(
                    id@,
                    own_view.take(k + 1),
                ));
            }
            k = k + 1;
        }
        assert(own_view.take(own_view.len() as int) =~= own_view);
        i = i + 1;
    }
    assert(all.take(all.len() as int) =~= all);
    Ok((parents, children))
}

/// Two sequences, element by element.
pub open spec fn zipped(a: Seq<Seq<u8>>, b: Seq<Seq<u8>>) -> Seq<(Seq<u8>, Seq<u8>)> {
    Seq::new(a.len(), |i: int| (a[i], b[i]))
}

proof fn lemma_pairs_fail(
    store: StoreView,
    use_hash: bool,
    rel: IncludeView,
    sources: Seq<Seq<u8>>,
    n: int,
)
    requires
        0 <= n <= sources.len(),
        indexed_pairs(store, use_hash, rel, sources.take(n)) is Err,
    ensures
        indexed_pairs(store, use_hash, rel, sources) == indexed_pairs(
            store,
            use_hash,
            rel,
            sources.take(n),
        ),
    decreases sources.len() - n,
{
    if n == sources.len() {
        assert(sources.take(n) =~= sources);
    } else {
        assert(sources.take(n + 1).drop_last() =~= sources.take(n));
        lemma_pairs_fail(store, use_hash, rel, sources, n + 1);
    }
}

/// Neither condition nor wanted fields matter for which entities refer to which.
proof fn lemma_pairs_ignore_filter(
    store: StoreView,
    use_hash: bool,
    a: IncludeView,
    b: IncludeView,
    sources: Seq<Seq<u8>>,
)
    requires
        a.to_entity == b.to_entity,
        a.to_field == b.to_field,
    ensures
        indexed_pairs(store, use_hash, a, sources) == indexed_pairs(store, use_hash, b, sources),
    decreases sources.len(),
{
    if sources.len() > 0 {
        lemma_pairs_ignore_filter(store, use_hash, a, b, sources.drop_last());
    }
}

fn related_via_index(
    engine: &StorageEngine,
    use_hash: bool,
    source_ids: &Vec<EntityId>,
    rel: &IncludePlan,
    filter: &Option<FilterExpr>,
) -> (r: Result<(Vec<EntityRow>, Vec<Edge>), DbError>)
    requires
        use_hash || engine@.btree is Some,
    ensures
        pairs_agree(
            r,
            indexed_related(
                engine@,
                use_hash,
                ids_view(source_ids@),
                include_with(rel@, filter.deep_view()),
            ),
        ),
{
    let ghost inc = include_with(rel@, filter.deep_view());
    let ghost from = ids_view(source_ids@);
    proof {
        lemma_pairs_ignore_filter(engine@, use_hash, rel@, inc, from);
    }
    let needed: Option<Vec<String>> = collect_needed_fields(
        &rel.fields,
        filter,
        &rel.order_by,
    );
    let (parents, children) = pairs_via_index(engine, use_hash, rel, source_ids)?;
    let ghost ids = zipped(ids_view(parents@), ids_view(children@));
    assert(children_of(ids) =~= ids_view(children@));
    let found: Vec<Option<(u64, Record)>> = engine.get_latest_batch(children.as_slice())?;
    let ghost results = found.deep_view();
    let ghost items = Seq::new(ids.len(), |i: int| pair_row(ids[i], results[i], inc));
    let mut rows: Vec<EntityRow> = Vec::new();
    let mut edges: Vec<Edge> = Vec::new();
    let ghost mut pairs: Seq<(RowView, EdgeView)> = Seq::empty();
    let mut i: usize = 0;
    proof {
        lemma_batch_len(engine@, children_of(ids));
        assert(items.skip(0) =~= items);
        assert(rows_view(rows@) =~= firsts(pairs));
        assert(edges_view(edges@) =~= seconds(pairs));
    }
    while i < children.len()
        invariant
            i <= children@.len() == found@.len(),
            parents@.len() == children@.len(),
            ids == zipped(ids_view(parents@), ids_view(children@)),
            results == found.deep_view(),
            from == ids_view(source_ids@),
            inc == include_with(rel@, filter.deep_view()),
            optional_names(needed) == needed_names(inc.fields, inc.filter, inc.order_by),
            items == Seq::new(ids.len(), |i: int| pair_row(ids[i], results[i], inc)),
            rows_view(rows@) == firsts(pairs),
            edges_view(edges@) == seconds(pairs),
            indexed_related(engine@, use_hash, from, inc) == gather(
                items.skip(i as int),
                pairs,
                None,
            ),
        decreases children@.len() - i,
    {
        let ghost rows_before = rows_view(rows@);
        let ghost edges_before = edges_view(edges@);
        proof {
            lemma_gather_step(items, i as int, pairs, None);
            assert(results[i as int] == found@[i as int].deep_view());
            assert(ids[i as int] == (parents@[i as int]@, children@[i as int]@));
        }
        if let Some(v) = &found[i] {
            let fields: Vec<Field> = decode_record_fields(v.1.data.as_slice(), &needed)?;
            if evaluate_optional(filter, fields.as_slice())? {
                let row: EntityRow = EntityRow::new(children[i], fields);
                let edge: Edge = Edge { from_id: parents[i], to_id: children[i] };
                let ghost new = row@;
                rows.push(row);
                edges.push(edge);
                proof {
                    pairs = pairs.push((new, edge@));
                    assert(rows_view(rows@) =~= rows_before.push(new));
                    assert(edges_view(edges@) =~= edges_before.push(edge@));
                    assert(rows_view(rows@) =~= firsts(pairs));
                    assert(edges_view(edges@) =~= seconds(pairs));
                }
            }
        }
        i = i + 1;
    }
    Ok((rows, edges))
}

/// What following a relation gave is what is expected, unless the database
/// failed.
pub open spec fn related_agrees(
    r: Result<(Via, Vec<EntityRow>, Vec<Edge>), DbError>,
    before: StoreView,
    after: StoreView,
    expected: Result<Related, ErrorView>,
) -> bool {
    match r {
        Ok((via, rows, edges)) => expected matches Ok(related) && related.store == after
            && related.via == via && are_pairs((rows, edges), related.pairs),
        Err(e) => queries_keep(after, before) && (e@ is Storage || expected == Err::<
            Related,
            ErrorView,
        >(e@)),
    }
}

/// Follows a relation by an index, where one can be used.
pub fn resolve_include_via_index(
    engine: &mut StorageEngine,
    source_ids: &Vec<EntityId>,
    rel: &IncludePlan,
    filter: &Option<FilterExpr>,
) -> (r: Result<Option<(Via, Vec<EntityRow>, Vec<Edge>)>, DbError>)
    ensures
        rel@.edge_entity is Some ==> (r matches Ok(found) && found is None),
        rel@.edge_entity is Some ==> final(engine)@ == old(engine)@,
        ({
            let inc = include_with(rel@, filter.deep_view());
            let expected = related_outcome(old(engine)@, ids_view(source_ids@), inc, None, 0);
            match r {
                Ok(Some(found)) => inc.edge_entity is None && (column_indexed(
                    old(engine)@.hash,
                    inc.to_entity,
                    inc.to_field,
                ) || old(engine)@.btree is Some) && related_agrees(
                    Ok(found),
                    old(engine)@,
                    final(engine)@,
                    expected,
                ),
                Ok(None) => final(engine)@ == old(engine)@ && (inc.edge_entity is Some || (
                !column_indexed(old(engine)@.hash, inc.to_entity, inc.to_field) && old(
                    engine,
                )@.btree is None)),
                Err(e) => queries_keep(final(engine)@, old(engine)@) && (e@ is Storage || (
                inc.edge_entity is None && (column_indexed(
                    old(engine)@.hash,
                    inc.to_entity,
                    inc.to_field,
                ) || old(engine)@.btree is Some) && expected == Err::<Related, ErrorView>(e@))),
            }
        }),
{
    if rel.relation.edge_entity.is_some() {
        return Ok(None);
    }
    let target: &str = rel.relation.to_entity.as_str();
    let field: &str = rel.relation.to_field.as_str();
    let use_hash: bool = engine.has_hash_index(target, field)?;
    if !use_hash {
        if !engine.ensure_btree_index(target, field)? {
            return Ok(None);
        }
    }
    let (rows, edges) = related_via_index(engine, use_hash, source_ids, rel, filter)?;
    let via: Via = if use_hash {
        Via::HashIndex
    } else {
        Via::BfTree
    };
    Ok(Some((via, rows, edges)))
}

/// Follows a relation.
pub fn find_related(
    engine: &mut StorageEngine,
    source_ids: &Vec<EntityId>,
    rel: &IncludePlan,
    filter: &Option<FilterExpr>,
    read_ts: Option<u64>,
    children: u64,
) -> (r: Result<(Via, Vec<EntityRow>, Vec<Edge>), DbError>)
    ensures
        related_agrees(
            r,
            old(engine)@,
            final(engine)@,
            related_outcome(
                old(engine)@,
                ids_view(source_ids@),
                include_with(rel@, filter.deep_view()),
                read_ts,
                children as nat,
            ),
        ),
{
    if let Some(ts) = read_ts {
        let (rows, edges) = scan_related(engine, source_ids, rel, filter, When::AsOf(ts))?;
        return Ok((Via::Snapshot, rows, edges));
    }
    match resolve_include_via_index(engine, source_ids, rel, filter)? {
        Some(found) => Ok(found),
        None => {
            let strategy: JoinStrategy = JoinStrategy::select(source_ids.len(), children);
            let (rows, edges) = scan_related(engine, source_ids, rel, filter, When::Latest)?;
            Ok((Via::Join(strategy), rows, edges))
        },
    }
}

/// Sorts what a relation leads to and leaves the wanted part of it.
pub fn finish_include(rows: Vec<EntityRow>, edges: Vec<Edge>, rel: &IncludePlan) -> (r: (
    Vec<EntityRow>,
    Vec<Edge>,
))
    ensures
        forall|pairs: Seq<(RowView, EdgeView)>, inc: IncludeView|
            are_pairs((rows, edges), pairs) && inc.order_by == rel@.order_by && inc.pagination
                == rel@.pagination ==> (rows_view(r.0@), edges_view(r.1@))
                == #[trigger] finished(pairs, inc),
{
    let mut sorted_rows: Vec<EntityRow> = rows;
    sort_rows(&mut sorted_rows, rel.order_by.as_slice());
    match &rel.pagination {
        Some(p) => if rel.order_by.len() == 0 {
            apply_per_parent_pagination(&sorted_rows, &edges, p)
        } else {
            let ordered: Vec<Edge> = order_edges(&sorted_rows, &edges);
            apply_per_parent_pagination(&sorted_rows, &ordered, p)
        },
        None => (sorted_rows, edges),
    }
}

/// The path of the relation that another one starts from.
pub fn parent_path(path: &str) -> (r: Option<String>)
    ensures
        r.deep_view() == parent_of(path@),
{
    let chars: Vec<char> = chars_of(path);
    let mut i: usize = chars.len();
    assert(path@.take(i as int) =~= path@);
    while i > 0
        invariant
            i <= chars@.len(),
            chars@ == path@,
            last_dot(path@) == last_dot(path@.take(i as int)),
        decreases i,
    {
        proof {
            assert(path@.take(i as int).last() == path@[i - 1]);
            assert(path@.take(i as int).drop_last() =~= path@.take(i - 1));
        }
        i = i - 1;
        if chars[i] == '.' {
            assert(path@.subrange(0, i as int) =~= path@.take(i as int));
            return Some(path.substring_char(0, i).to_owned());
        }
    }
    None
}

/// What is said where a query would return too much.
pub fn budget_message(count: u128, what: &str, limit: usize) -> (s: String)
    ensures
        s@ == budget_text(count as nat, what@, limit as nat),
{
    let mut s: String = "Query would return ".to_owned();
    s.append(decimal_text(count).as_str());
    s.append(what);
    s.append(decimal_text(limit as u128).as_str());
    s
}

fn unresolved_message(parent: &str, path: &str) -> (s: String)
    ensures
        s@ == unresolved_text(parent@, path@),
{
    let mut s: String = "Parent path '".to_owned();
    s.append(parent);
    s.append("' not resolved for include '");
    s.append(path);
    s.append("'");
    s
}

/// The entities that each path has led to, in mathematical terms.
pub open spec fn resolved_view(resolved: Seq<(String, Vec<EntityId>)>) -> Seq<
    (Seq<char>, Seq<Seq<u8>>),
> {
    resolved.map_values(|r: (String, Vec<EntityId>)| (r.0@, ids_view(r.1@)))
}

fn find_reached<'a>(resolved: &'a Vec<(String, Vec<EntityId>)>, path: &str) -> (r: Option<
    &'a Vec<EntityId>,
>)
    ensures
        match r {
            Some(ids) => reached(resolved_view(resolved@), path@) == Some(ids_view(ids@)),
            None => reached(resolved_view(resolved@), path@) is None,
        },
{
    let ghost all = resolved_view(resolved@);
    let mut i: usize = resolved.len();
    assert(all.take(i as int) =~= all);
    while i > 0
        invariant
            i <= resolved@.len(),
            all == resolved_view(resolved@),
            reached(all, path@) == reached(all.take(i as int), path@),
        decreases i,
    {
        proof {
            assert(all.take(i as int).last() == all[i - 1]);
            assert(all.take(i as int).drop_last() =~= all.take(i - 1));
        }
        i = i - 1;
        if str_eq(resolved[i].0.as_str(), path) {
            return Some(&resolved[i].1);
        }
    }
    None
}

/// Conditions of relations, each with the row-level policy put in.
pub open spec fn with_filters(includes: Seq<IncludeView>, filters: Seq<Option<FilterView>>) -> Seq<
    IncludeView,
> {
    Seq::new(includes.len(), |i: int| include_with(includes[i], filters[i]))
}

/// Conditions that may be missing, in mathematical terms.
pub open spec fn filters_view(filters: Seq<Option<FilterExpr>>) -> Seq<Option<FilterView>> {
    filters.map_values(|f: Option<FilterExpr>| f.deep_view())
}

/// What following relations gives.
pub struct FollowedPaths {
    /// The related entities.
    pub blocks: Vec<EntityBlock>,
    /// The edges to them.
    pub edge_blocks: Vec<EdgeBlock>,
    /// The ways that were taken.
    pub vias: Vec<Via>,
}

/// Follows relations in order.
pub fn resolve_includes(
    engine: &mut StorageEngine,
    parent_ids: &Vec<EntityId>,
    includes: &Vec<IncludePlan>,
    filters: &Vec<Option<FilterExpr>>,
    max_edges: usize,
    masks: &[FieldMask],
    read_ts: Option<u64>,
    statistics: Option<&TableStatistics>,
) -> (r: Result<FollowedPaths, DbError>)
    requires
        filters@.len() == includes@.len(),
    ensures
        ({
            let rules = FollowRules {
                roots: ids_view(parent_ids@),
                max_edges: max_edges as nat,
                masks: masks_view(masks@),
                read_ts,
                statistics: match statistics {
                    Some(s) => Some(s@),
                    None => None,
                },
            };
            let expected = follow_all(
                old(engine)@,
                rules,
                with_filters(includes_view(includes@), filters_view(filters@)),
            );
            let unread = told_unread(
                old(engine)@,
                rules,
                with_filters(includes_view(includes@), filters_view(filters@)),
            );
            match r {
                Ok(found) => expected matches Ok(done) && final(engine)@ == done.store
                    && blocks_view(found.blocks@) == done.blocks && edge_blocks_view(
                    found.edge_blocks@,
                ) == done.edge_blocks && found.vias@ == done.vias,
                Err(e) => queries_keep(final(engine)@, old(engine)@) && ((e@ is Storage && !unread)
                    || expected == Err::<Followed, ErrorView>(e@)),
            }
        }),
{
    let ghost rules = FollowRules {
        roots: ids_view(parent_ids@),
        max_edges: max_edges as nat,
        masks: masks_view(masks@),
        read_ts,
        statistics: match statistics {
            Some(s) => Some(s@),
            None => None,
        },
    };
    let ghost all = with_filters(includes_view(includes@), filters_view(filters@));
    let ghost store = engine@;
    let mut blocks: Vec<EntityBlock> = Vec::new();
    let mut edge_blocks: Vec<EdgeBlock> = Vec::new();
    let mut vias: Vec<Via> = Vec::new();
    let mut resolved: Vec<(String, Vec<EntityId>)> = Vec::new();
    resolved.push((String::new(), copy_slice(parent_ids.as_slice())));
    let mut total: u128 = 0;
    let mut i: usize = 0;
    let ghost mut done: Followed = nothing_followed(store, rules);
    proof {
        assert(all.take(0) =~= Seq::<IncludeView>::empty());
        assert(resolved_view(resolved@) =~= done.resolved);
        assert(blocks_view(blocks@) =~= done.blocks);
        assert(edge_blocks_view(edge_blocks@) =~= done.edge_blocks);
        assert(vias@ =~= done.vias);
    }
    while i < includes.len()
        invariant
            i <= includes@.len() == filters@.len(),
            store == old(engine)@,
            rules == (FollowRules {
                roots: ids_view(parent_ids@),
                max_edges: max_edges as nat,
                masks: masks_view(masks@),
                read_ts,
                statistics: match statistics {
                    Some(s) => Some(s@),
                    None => None,
                },
            }),
            all == with_filters(includes_view(includes@), filters_view(filters@)),
            follow_all(store, rules, all.take(i as int)) == Ok::<Followed, ErrorView>(done),
            engine@ == done.store,
            queries_keep(engine@, store),
            total == done.edges,
            total <= max_edges,
            resolved_view(resolved@) == done.resolved,
            blocks_view(blocks@) == done.blocks,
            edge_blocks_view(edge_blocks@) == done.edge_blocks,
            vias@ == done.vias,
        decreases includes@.len() - i,
    {
        let rel: &IncludePlan = &includes[i];
        let filter: &Option<FilterExpr> = &filters[i];
        let ghost inc = all[i as int];
        proof {
            if told_unread(store, rules, all) {
                lemma_told_unread(store, rules, all, i + 1);
            }
            assert(includes_view(includes@)[i as int] == rel@);
            assert(filters_view(filters@)[i as int] == filter.deep_view());
            assert(inc == include_with(rel@, filter.deep_view()));
            assert(all.take(i + 1).drop_last() =~= all.take(i as int));
            assert(all.take(i + 1).last() == inc);
            assert(follow_all(store, rules, all.take(i + 1)) == follow(done, rules, inc));
            if follow(done, rules, inc) is Err {
                lemma_follow_fails(store, rules, all, i + 1);
            }
        }
        let source_ids: Vec<EntityId> = match parent_path(rel.path.as_str()) {
            None => copy_slice(parent_ids.as_slice()),
            Some(parent) => match find_reached(&resolved, parent.as_str()) {
                Some(ids) => copy_slice(ids.as_slice()),
                None => {
                    return Err(
                        DbError::InvalidData(
                            unresolved_message(parent.as_str(), rel.path.as_str()),
                        ),
                    );
                },
            },
        };
        if source_ids.len() > 0 {
            let children: u64 = match statistics {
                Some(s) => match s.count(rel.relation.to_entity.as_str()) {
                    Some(n) => n,
                    None => 1000,
                },
                None => 1000,
            };
            let (via, found_rows, found_edges) = find_related(
                engine,
                &source_ids,
                rel,
                filter,
                read_ts,
                children,
            )?;
            let ghost related = related_outcome(
                done.store,
                ids_view(source_ids@),
                inc,
                read_ts,
                children as nat,
            )->Ok_0;
            let found_count: usize = found_edges.len();
            proof {
                assert(seconds(related.pairs).len() == related.pairs.len());
                assert(edges_view(found_edges@).len() == found_edges@.len());
            }
            let (rows, edges) = finish_include(found_rows, found_edges, rel);
            assert((rows_view(rows@), edges_view(edges@)) == finished(related.pairs, inc));
            assert(edges_view(edges@).len() == edges@.len());
            let counted: usize = if statistics.is_some() {
                found_count
            } else {
                edges.len()
            };
            total = total + counted as u128;
            if total > max_edges as u128 {
                return Err(
                    DbError::InvalidData(
                        budget_message(total, " edges, exceeding budget of ", max_edges),
                    ),
                );
            }
            let ids: Vec<EntityId> = ids_of_rows(&rows);
            let block: EntityBlock = build_entity_block(
                rel.relation.to_entity.as_str(),
                &rows,
                rel.fields.as_slice(),
                masks,
            );
            let ghost resolved_before = resolved_view(resolved@);
            let ghost blocks_before = blocks_view(blocks@);
            let ghost edge_blocks_before = edge_blocks_view(edge_blocks@);
            let ghost edges_here = edges_view(edges@);
            resolved.push((rel.path.clone(), ids));
            blocks.push(block);
            vias.push(via);
            assert(resolved_view(resolved@) =~= resolved_before.push(
                (rel@.path, row_ids(rows_view(rows@))),
            ));
            assert(blocks_view(blocks@) =~= blocks_before.push(block@));
            if edges.len() > 0 {
                edge_blocks.push(EdgeBlock { relation: rel.path.clone(), edges });
                assert(edge_blocks_view(edge_blocks@) =~= edge_blocks_before.push(
                    EdgeBlockView { relation: rel@.path, edges: edges_here },
                ));
            }
            proof {
                done = follow(done, rules, inc)->Ok_0;
            }
        }
        i = i + 1;
    }
    assert(all.take(all.len() as int) =~= all);
    Ok(FollowedPaths { blocks, edge_blocks, vias })
}

} // verus!

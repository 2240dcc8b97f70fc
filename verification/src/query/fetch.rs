//! Finding the root entities of a query: which way to take, and what it gives.

use vstd::prelude::*;

use crate::bytes::{copy_slice, EntityId};
use crate::codec::{
    decode_entity, decode_entity_projected, entity_outcome, fields_view, project, Field, FieldView,
};
use crate::error::{DbError, ErrorView};
use crate::query::ast::{
    order_view, rows_view, EntityRow, FilterExpr, FilterView, OrderDirection, OrderSpec, OrderView,
    PlanView, QueryPlan, RowView, SearchKind,
};
use crate::query::filter::{
    evaluate, evaluate_optional, extract_filter_fields, extract_like_prefix, filter_names, holds,
    passes, prefix_of_pattern,
};
use crate::storage::btree_index::{scan_ids, Bound, BoundView};
use crate::storage::columnar::{
    find_last, last_value, row_item_view, row_items, RowItem, RowItemView,
};
use crate::storage::engine::{ensured, lemma_batch_len, StorageEngine};
use crate::storage::hash_index::{column_indexed, ids_view, lookup_outcome, HashIndex};
use crate::storage::model::{
    agrees_until_failure, failed_at, latest_batch_outcome, scan_item_view, scan_outcome, scan_view,
    ScanItem, ScanItemView, StoreView, When,
};
use crate::storage::record::{Record, RecordView};
use crate::text::{contains_text, copy_texts, texts};
use crate::value::{compare_floats, float_is_nan, float_rank, is_nan, values_equal, Order};

verus! {

/// The way that was taken to find entities.
#[derive(Debug, Clone, Copy, PartialEq, Eq, Structural)]
pub enum AccessPath {
    /// The versions of all entities of the type.
    Row,
    /// The equality index.
    HashIndex,
    /// The ordered index.
    BfTree,
    /// The row projection.
    Columnar,
    /// A vector index.
    VectorIndex,
    /// A geographic index.
    GeoIndex,
    /// A text index.
    FulltextIndex,
}

/// What a search index found for a query: entities, each with its distance or
/// its score, by the bits of the number.
#[derive(Debug)]
pub struct SearchHits {
    /// The kind of the index.
    pub kind: SearchKind,
    /// What it found, best first.
    pub hits: Vec<(EntityId, u64)>,
}

/// Hits in mathematical terms.
pub ghost struct HitsView {
    /// The kind of the index.
    pub kind: SearchKind,
    /// What it found, best first.
    pub hits: Seq<(Seq<u8>, u64)>,
}

impl View for SearchHits {
    type V = HitsView;

    open spec fn view(&self) -> HitsView {
        HitsView {
            kind: self.kind,
            hits: self.hits@.map_values(|h: (EntityId, u64)| (h.0@, h.1)),
        }
    }
}

impl DeepView for SearchHits {
    type V = HitsView;

    open spec fn deep_view(&self) -> HitsView {
        self@
    }
}

/// The results that are something, in order, up to a number of them where one
/// is given; or the first error before that.
pub open spec fn gather<T>(
    items: Seq<Result<Option<T>, ErrorView>>,
    got: Seq<T>,
    target: Option<nat>,
) -> Result<Seq<T>, ErrorView>
    decreases items.len(),
{
    if items.len() == 0 {
        Ok(got)
    } else {
        match items[0] {
            Err(e) => Err(e),
            Ok(None) => gather(items.drop_first(), got, target),
            Ok(Some(t)) => {
                let more = got.push(t);
                if target is Some && more.len() >= target->0 {
                    Ok(more)
                } else {
                    gather(items.drop_first(), more, target)
                }
            },
        }
    }
}

/// One step of gathering.
pub proof fn lemma_gather_step<T>(
    items: Seq<Result<Option<T>, ErrorView>>,
    i: int,
    got: Seq<T>,
    target: Option<nat>,
)
    requires
        0 <= i < items.len(),
    ensures
        gather(items.skip(i), got, target) == match items[i] {
            Err(e) => Err(e),
            Ok(None) => gather(items.skip(i + 1), got, target),
            Ok(Some(t)) => if target is Some && got.push(t).len() >= target->0 {
                Ok(got.push(t))
            } else {
                gather(items.skip(i + 1), got.push(t), target)
            },
        },
{
    assert(items.skip(i)[0] == items[i]);
    assert(items.skip(i).drop_first() =~= items.skip(i + 1));
}

/// Gathering from a scan that the database cut short fails, or gives what the
/// whole scan would give.
pub proof fn lemma_gather_cut_short<T>(
    a: Seq<Result<Option<T>, ErrorView>>,
    b: Seq<Result<Option<T>, ErrorView>>,
    n: int,
    got: Seq<T>,
    target: Option<nat>,
)
    requires
        0 <= n < a.len(),
        n <= b.len(),
        a[n] == Err::<Option<T>, ErrorView>(ErrorView::Storage),
        a.take(n) == b.take(n),
    ensures
        gather(a, got, target) == gather(b, got, target) || gather(a, got, target) == Err::<
            Seq<T>,
            ErrorView,
        >(ErrorView::Storage),
    decreases n,
{
    if n > 0 {
        assert(a[0] == a.take(n)[0]);
        assert(b[0] == b.take(n)[0]);
        let a1 = a.drop_first();
        let b1 = b.drop_first();
        assert(a1.take(n - 1) =~= a.take(n).drop_first());
        assert(b1.take(n - 1) =~= b.take(n).drop_first());
        match a[0] {
            Err(_) => {},
            Ok(None) => {
                lemma_gather_cut_short(a1, b1, n - 1, got, target);
            },
            Ok(Some(t)) => {
                lemma_gather_cut_short(a1, b1, n - 1, got.push(t), target);
            },
        }
    }
}

/// The wanted fields of stored data.
pub open spec fn decoded(data: Seq<u8>, needed: Option<Seq<Seq<char>>>) -> Result<
    Seq<FieldView>,
    ErrorView,
> {
    match entity_outcome(data) {
        Ok(fs) => Ok(
            match needed {
                Some(names) => project(fs, names),
                None => fs,
            },
        ),
        Err(e) => Err(e),
    }
}

/// The row that a scanned entity gives, where it passes the condition.
pub open spec fn scan_row(
    item: ScanItemView,
    filter: Option<FilterView>,
    needed: Option<Seq<Seq<char>>>,
) -> Result<Option<RowView>, ErrorView> {
    match item {
        Err(e) => Err(e),
        Ok((id, _, r)) => match decoded(r.data, needed) {
            Err(e) => Err(e),
            Ok(fields) => match passes(filter, fields) {
                Err(e) => Err(e),
                Ok(true) => Ok(Some(RowView { id, fields })),
                Ok(false) => Ok(None),
            },
        },
    }
}

/// The row that an entity gives, where it is there and passes the condition.
pub open spec fn found_row(
    id: Seq<u8>,
    found: Option<(u64, RecordView)>,
    filter: Option<FilterView>,
    needed: Option<Seq<Seq<char>>>,
) -> Result<Option<RowView>, ErrorView> {
    match found {
        Some(v) => scan_row(Ok((id, v.0, v.1)), filter, needed),
        None => Ok(None),
    }
}

/// The fields that have to be read: all where no fields are asked for, else
/// those asked for, those that the condition speaks of and those to sort by.
pub open spec fn needed_names(
    fields: Seq<Seq<char>>,
    filter: Option<FilterView>,
    order: Seq<OrderView>,
) -> Option<Seq<Seq<char>>> {
    if fields.len() == 0 {
        None
    } else {
        Some(
            fields + (match filter {
                Some(f) => filter_names(f),
                None => Seq::empty(),
            }) + order_names(order),
        )
    }
}

/// The fields to sort by.
pub open spec fn order_names(order: Seq<OrderView>) -> Seq<Seq<char>> {
    order.map_values(|o: OrderView| o.0)
}

/// How many rows are enough, where nothing has to be sorted first: as many as the
/// wanted part reaches to, and one that tells whether more are left.
pub open spec fn enough(plan: PlanView) -> Option<nat> {
    if plan.order_by.len() == 0 && plan.pagination is Some {
        Some(plan.pagination->0.end() + 1)
    } else {
        None
    }
}

/// The first identifiers, as many as are enough.
pub open spec fn cut<T>(ids: Seq<T>, target: Option<nat>) -> Seq<T> {
    match target {
        Some(n) => if ids.len() > n {
            ids.take(n as int)
        } else {
            ids
        },
        None => ids,
    }
}

/// The rows of entities that an index named.
pub open spec fn rows_for_ids(store: StoreView, ids: Seq<Seq<u8>>, plan: PlanView) -> Result<
    Seq<RowView>,
    ErrorView,
> {
    let kept = cut(ids, enough(plan));
    let needed = needed_names(plan.fields, plan.filter, plan.order_by);
    match latest_batch_outcome(store, kept) {
        Err(e) => Err(e),
        Ok(found) => gather(
            Seq::new(kept.len(), |i: int| found_row(kept[i], found[i], None, needed)),
            Seq::empty(),
            None,
        ),
    }
}

/// The fields of the root entities that the row projection has to give.
pub open spec fn selected(plan: PlanView) -> Seq<Seq<char>> {
    (if plan.fields.len() == 0 {
        plan.root_fields
    } else {
        plan.fields
    }) + order_names(plan.order_by)
}

/// The row that a row of the projection gives, where it passes the condition:
/// first the fields that the condition speaks of, then the others.
pub open spec fn columnar_row(
    item: RowItemView,
    filter: FilterView,
    select: Seq<Seq<char>>,
) -> Result<Option<RowView>, ErrorView> {
    let names = filter_names(filter);
    match item {
        Err(e) => Err(e),
        Ok((id, fs)) => {
            let others = fs.filter(
                |f: FieldView| select.contains(f.0) && !names.contains(f.0),
            );
            match filter {
                FilterView::Eq(field, v) => match last_value(fs, field) {
                    Some(x) => if values_equal(x, v) {
                        let own = if select.contains(field) {
                            seq![(field, v)]
                        } else {
                            Seq::empty()
                        };
                        Ok(Some(RowView { id, fields: own + others }))
                    } else {
                        Ok(None)
                    },
                    None => Ok(None),
                },
                _ => {
                    let known = project(fs, names);
                    match holds(filter, known) {
                        Err(e) => Err(e),
                        Ok(true) => Ok(
                            Some(
                                RowView {
                                    id,
                                    fields: known.filter(|f: FieldView| select.contains(f.0))
                                        + others,
                                },
                            ),
                        ),
                        Ok(false) => Ok(None),
                    }
                },
            }
        },
    }
}

/// The rows that the row projection gives.
pub open spec fn columnar_rows(store: StoreView, plan: PlanView, filter: FilterView) -> Result<
    Seq<RowView>,
    ErrorView,
> {
    gather(
        row_items(store.columnar, plan.root_entity).map_values(
            |i: RowItemView| columnar_row(i, filter, selected(plan)),
        ),
        Seq::empty(),
        enough(plan),
    )
}

/// The rows that a scan of the root type gives.
pub open spec fn scanned_rows(
    store: StoreView,
    plan: PlanView,
    when: When,
    needed: Option<Seq<Seq<char>>>,
    target: Option<nat>,
) -> Result<Seq<RowView>, ErrorView> {
    gather(
        scan_outcome(store, plan.root_entity, when).map_values(
            |i: ScanItemView| scan_row(i, plan.filter, needed),
        ),
        Seq::empty(),
        target,
    )
}

/// Whether a number is not greater than another, both by their bits.
pub open spec fn float_le(a: u64, b: u64) -> bool {
    !is_nan(a) && !is_nan(b) && float_rank(a) <= float_rank(b)
}

/// The hits that are near enough.
pub open spec fn within_reach(hits: Seq<(Seq<u8>, u64)>, reach: Option<u64>) -> Seq<Seq<u8>>
    decreases hits.len(),
{
    if hits.len() == 0 {
        Seq::empty()
    } else {
        let init = within_reach(hits.drop_last(), reach);
        if reach is None || float_le(hits.last().1, reach->0) {
            init.push(hits.last().0)
        } else {
            init
        }
    }
}

/// Whether a condition is a search of which no hit is near enough.
pub open spec fn nothing_near(filter: Option<FilterView>, hits: Option<HitsView>) -> bool {
    (filter matches Some(f) && f is Search && hits is Some && hits->0.kind == f->Search_1.kind()
        && within_reach(hits->0.hits, f->Search_1.reach()).len() == 0)
}

/// The way that hits of a kind stand for.
pub open spec fn path_of_kind(kind: SearchKind) -> AccessPath {
    match kind {
        SearchKind::Vector => AccessPath::VectorIndex,
        SearchKind::Geo => AccessPath::GeoIndex,
        SearchKind::Text => AccessPath::FulltextIndex,
    }
}

/// The bound on an ordered column that a condition amounts to, where it does.
pub open spec fn bound_of(f: FilterView) -> Option<(Seq<char>, BoundView)> {
    match f {
        FilterView::Gt(field, v) => Some((field, BoundView::Greater(v))),
        FilterView::Ge(field, v) => Some((field, BoundView::GreaterEqual(v))),
        FilterView::Lt(field, v) => Some((field, BoundView::Less(v))),
        FilterView::Le(field, v) => Some((field, BoundView::LessEqual(v))),
        FilterView::Like(field, p) => match prefix_of_pattern(p) {
            Some(q) => Some((field, BoundView::Prefix(q))),
            None => None,
        },
        _ => None,
    }
}

/// What finding entities gives.
pub ghost struct Fetched {
    /// The store: the ordered index may cover a column more.
    pub store: StoreView,
    /// The way that was taken.
    pub path: AccessPath,
    /// The rows.
    pub rows: Seq<RowView>,
}

/// Rows that were found in a way that leaves the store as it is.
pub open spec fn fetched(store: StoreView, path: AccessPath, rows: Result<Seq<RowView>, ErrorView>) -> Result<
    Fetched,
    ErrorView,
> {
    match rows {
        Ok(rows) => Ok(Fetched { store, path, rows }),
        Err(e) => Err(e),
    }
}

/// Rows found through a column of the ordered index.
pub open spec fn ordered_rows(
    store: StoreView,
    plan: PlanView,
    column: Seq<char>,
    bound: BoundView,
    backwards: bool,
) -> Result<Fetched, ErrorView> {
    match ensured(store, plan.root_entity, column) {
        Err(e) => Err(e),
        Ok(after) => {
            let ids = scan_ids(after.btree->0, plan.root_entity, column, bound);
            fetched(
                after,
                AccessPath::BfTree,
                rows_for_ids(
                    after,
                    if backwards {
                        ids.reverse()
                    } else {
                        ids
                    },
                    plan,
                ),
            )
        },
    }
}

/// What finding the root entities of a query gives. As of a timestamp all
/// entities are read as they were then. Otherwise the first way that can be
/// taken is taken: the equality index, the ordered index, a search index, the
/// row projection where there is a condition, the ordered index where the rows
/// are sorted by one field, and else the entities themselves.
pub open spec fn fetch_outcome(
    store: StoreView,
    plan: PlanView,
    read_ts: Option<u64>,
    hits: Option<HitsView>,
) -> Result<Fetched, ErrorView> {
    let needed = needed_names(plan.fields, plan.filter, plan.order_by);
    match read_ts {
        Some(ts) => fetched(
            store,
            AccessPath::Row,
            scanned_rows(store, plan, When::AsOf(ts), None, None),
        ),
        None => match plan.filter {
            None => if plan.order_by.len() == 1 && store.btree is Some {
                ordered_rows(
                    store,
                    plan,
                    plan.order_by[0].0,
                    BoundView::All,
                    plan.order_by[0].1 == OrderDirection::Desc,
                )
            } else {
                fetched(
                    store,
                    AccessPath::Row,
                    scanned_rows(store, plan, When::Latest, needed, enough(plan)),
                )
            },
            Some(f) => if f is Eq && column_indexed(store.hash, plan.root_entity, f->Eq_0) {
                match lookup_outcome(store.hash, plan.root_entity, f->Eq_0, f->Eq_1) {
                    Ok(ids) => fetched(
                        store,
                        AccessPath::HashIndex,
                        rows_for_ids(store, ids, plan),
                    ),
                    Err(e) => Err(e),
                }
            } else if store.btree is Some && bound_of(f) is Some {
                ordered_rows(store, plan, bound_of(f)->Some_0.0, bound_of(f)->Some_0.1, false)
            } else if f is Search && hits is Some && hits->0.kind == f->Search_1.kind() {
                fetched(
                    store,
                    path_of_kind(hits->0.kind),
                    rows_for_ids(store, within_reach(hits->0.hits, f->Search_1.reach()), plan),
                )
            } else {
                fetched(store, AccessPath::Columnar, columnar_rows(store, plan, f))
            },
        },
    }
}

/// Whether nothing but the ordered index differs.
pub open spec fn queries_keep(a: StoreView, b: StoreView) -> bool {
    a == (StoreView { btree: a.btree, btree_columns: a.btree_columns, ..b })
}

/// The plan with another condition.
pub open spec fn refiltered(plan: PlanView, filter: Option<FilterView>) -> PlanView {
    PlanView { filter, ..plan }
}

/// Rows that may be missing, in mathematical terms.
pub open spec fn rows_agree(r: Result<Vec<EntityRow>, DbError>, expected: Result<Seq<RowView>, ErrorView>) -> bool {
    match r {
        Ok(rows) => expected == Ok::<Seq<RowView>, ErrorView>(rows_view(rows@)),
        Err(e) => e@ is Storage || expected == Err::<Seq<RowView>, ErrorView>(e@),
    }
}

/// Names that may be missing, in mathematical terms.
pub open spec fn optional_names(names: Option<Vec<String>>) -> Option<Seq<Seq<char>>> {
    match names {
        Some(n) => Some(texts(n@)),
        None => None,
    }
}

/// A number that may be missing, in mathematical terms.
pub open spec fn optional_nat(n: Option<u64>) -> Option<nat> {
    match n {
        Some(n) => Some(n as nat),
        None => None,
    }
}

/// The wanted fields of stored data.
pub fn decode_record_fields(data: &[u8], needed: &Option<Vec<String>>) -> (r: Result<
    Vec<Field>,
    DbError,
>)
    ensures
        match r {
            Ok(fields) => decoded(data@, optional_names(*needed)) == Ok::<
                Seq<FieldView>,
                ErrorView,
            >(fields_view(fields@)),
            Err(e) => decoded(data@, optional_names(*needed)) == Err::<Seq<FieldView>, ErrorView>(
                e@,
            ),
        },
{
    match needed {
        Some(names) => decode_entity_projected(data, names.as_slice()),
        None => decode_entity(data),
    }
}

/// The fields to sort by.
fn push_order_names(out: &mut Vec<String>, order_by: &[OrderSpec])
    ensures
        texts(final(out)@) == texts(old(out)@) + order_names(order_view(order_by@)),
{
    let ghost all = order_names(order_view(order_by@));
    let mut i: usize = 0;
    assert(texts(out@) =~= texts(old(out)@) + all.take(0));
    while i < order_by.len()
        invariant
            i <= order_by@.len(),
            all == order_names(order_view(order_by@)),
            texts(out@) == texts(old(out)@) + all.take(i as int),
        decreases order_by@.len() - i,
    {
        let ghost before = texts(out@);
        out.push(order_by[i].field.clone());
        i = i + 1;
        assert(texts(out@) =~= before.push(all[i - 1]));
        assert(texts(out@) =~= texts(old(out)@) + all.take(i as int));
    }
    assert(all.take(all.len() as int) =~= all);
}

/// Appends texts.
pub fn push_texts(out: &mut Vec<String>, more: &[String])
    ensures
        texts(final(out)@) == texts(old(out)@) + texts(more@),
{
    let ghost all = texts(more@);
    let mut i: usize = 0;
    assert(texts(out@) =~= texts(old(out)@) + all.take(0));
    while i < more.len()
        invariant
            i <= more@.len(),
            all == texts(more@),
            texts(out@) == texts(old(out)@) + all.take(i as int),
        decreases more@.len() - i,
    {
        let ghost before = texts(out@);
        out.push(more[i].clone());
        i = i + 1;
        assert(texts(out@) =~= before.push(all[i - 1]));
        assert(texts(out@) =~= texts(old(out)@) + all.take(i as int));
    }
    assert(all.take(all.len() as int) =~= all);
}

/// The fields that have to be read.
pub fn collect_needed_fields(
    fields: &Vec<String>,
    filter: &Option<FilterExpr>,
    order_by: &Vec<OrderSpec>,
) -> (r: Option<Vec<String>>)
    ensures
        optional_names(r) == needed_names(
            texts(fields@),
            filter.deep_view(),
            order_view(order_by@),
        ),
{
    if fields.len() == 0 {
        return None;
    }
    let mut out: Vec<String> = copy_texts(fields.as_slice());
    if let Some(f) = filter {
        let names: Vec<String> = extract_filter_fields(f);
        push_texts(&mut out, names.as_slice());
    }
    push_order_names(&mut out, order_by.as_slice());
    assert(texts(out@) =~= needed_names(
        texts(fields@),
        filter.deep_view(),
        order_view(order_by@),
    )->0);
    Some(out)
}

fn enough_rows(plan: &QueryPlan) -> (r: Option<u64>)
    ensures
        optional_nat(r) == enough(plan@),
{
    if plan.order_by.len() == 0 {
        match &plan.pagination {
            Some(p) => Some(p.offset as u64 + p.limit as u64 + 1),
            None => None,
        }
    } else {
        None
    }
}

/// How many of the rows that were found count: the one that only tells whether more
/// are left does not. As of a timestamp all rows are found, and all count.
pub open spec fn counting(found: nat, plan: PlanView, read_ts: Option<u64>) -> nat {
    if read_ts is None && enough(plan) == Some(found) {
        (found - 1) as nat
    } else {
        found
    }
}

/// How many of the rows that were found count.
pub fn count_rows(found: usize, plan: &QueryPlan, read_ts: Option<u64>) -> (n: usize)
    ensures
        n == counting(found as nat, plan@, read_ts),
{
    match (enough_rows(plan), read_ts) {
        (Some(target), None) => if found as u64 == target {
            found - 1
        } else {
            found
        },
        _ => found,
    }
}

/// How many hits a text index is asked for.
pub fn fulltext_limit(plan: &QueryPlan) -> (n: u64)
    ensures
        n == match plan@.pagination {
            Some(p) => p.end(),
            None => 1000,
        },
{
    match &plan.pagination {
        Some(p) => p.offset as u64 + p.limit as u64,
        None => 1000,
    }
}

/// The row that an entity's data gives, where it passes the condition.
fn row_of(
    id: EntityId,
    data: &[u8],
    filter: &Option<FilterExpr>,
    needed: &Option<Vec<String>>,
    Ghost(ts): Ghost<u64>,
    Ghost(deleted): Ghost<bool>,
) -> (r: Result<Option<EntityRow>, DbError>)
    ensures
        ({
            let expected = scan_row(
                Ok((id@, ts, RecordView { data: data@, deleted })),
                filter.deep_view(),
                optional_names(*needed),
            );
            match r {
                Ok(Some(row)) => expected == Ok::<Option<RowView>, ErrorView>(Some(row@)),
                Ok(None) => expected == Ok::<Option<RowView>, ErrorView>(None),
                Err(e) => expected == Err::<Option<RowView>, ErrorView>(e@),
            }
        }),
{
    let fields: Vec<Field> = decode_record_fields(data, needed)?;
    if evaluate_optional(filter, fields.as_slice())? {
        Ok(Some(EntityRow::new(id, fields)))
    } else {
        Ok(None)
    }
}

/// Gathers rows from a scan.
pub fn gather_scan(
    items: &Vec<ScanItem>,
    filter: &Option<FilterExpr>,
    needed: &Option<Vec<String>>,
    target: Option<u64>,
) -> (r: Result<Vec<EntityRow>, DbError>)
    ensures
        ({
            let expected = gather(
                scan_view(items@).map_values(
                    |i: ScanItemView|
                        scan_row(i, filter.deep_view(), optional_names(*needed)),
                ),
                Seq::empty(),
                optional_nat(target),
            );
            match r {
                Ok(rows) => expected == Ok::<Seq<RowView>, ErrorView>(rows_view(rows@)),
                Err(e) => expected == Err::<Seq<RowView>, ErrorView>(e@),
            }
        }),
{
    let ghost all = scan_view(items@).map_values(
        |i: ScanItemView| scan_row(i, filter.deep_view(), optional_names(*needed)),
    );
    let ghost t = optional_nat(target);
    let mut rows: Vec<EntityRow> = Vec::new();
    let mut i: usize = 0;
    proof {
        assert(all.skip(0) =~= all);
        assert(rows_view(rows@) =~= Seq::<RowView>::empty());
    }
    while i < items.len()
        invariant
            i <= items@.len(),
            all == scan_view(items@).map_values(
                |i: ScanItemView| scan_row(i, filter.deep_view(), optional_names(*needed)),
            ),
            t == optional_nat(target),
            gather(all, Seq::empty(), t) == gather(all.skip(i as int), rows_view(rows@), t),
        decreases items@.len() - i,
    {
        let ghost before = rows_view(rows@);
        proof {
            lemma_gather_step(all, i as int, before, t);
            assert(all[i as int] == scan_row(
                scan_item_view(items@[i as int]),
                filter.deep_view(),
                optional_names(*needed),
            ));
        }
        match &items[i] {
            Ok(item) => {
                let found: Option<EntityRow> = row_of(
                    item.0,
                    item.2.data.as_slice(),
                    filter,
                    needed,
                    Ghost(item.1),
                    Ghost(item.2.deleted),
                )?;
                if let Some(row) = found {
                    let ghost new = row@;
                    rows.push(row);
                    assert(rows_view(rows@) =~= before.push(new));
                    if let Some(n) = target {
                        if rows.len() as u64 >= n {
                            return Ok(rows);
                        }
                    }
                }
            },
            Err(e) => {
                return Err(e.duplicate());
            },
        }
        i = i + 1;
    }
    Ok(rows)
}

/// What gathering from a scan gives is what the store's content gives.
pub proof fn lemma_gathered_scan<T>(
    got: Seq<ScanItemView>,
    expected: Seq<ScanItemView>,
    f: spec_fn(ScanItemView) -> Result<Option<T>, ErrorView>,
    target: Option<nat>,
)
    requires
        agrees_until_failure(got, expected),
        f(Err(ErrorView::Storage)) == Err::<Option<T>, ErrorView>(ErrorView::Storage),
    ensures
        gather(got.map_values(f), Seq::empty(), target) == gather(
            expected.map_values(f),
            Seq::empty(),
            target,
        ) || gather(got.map_values(f), Seq::empty(), target) == Err::<Seq<T>, ErrorView>(
            ErrorView::Storage,
        ),
{
    if got != expected {
        let n = choose|n: int|
            0 <= n < got.len() && n <= expected.len() && #[trigger] failed_at(got, n) && got.take(n)
                == expected.take(n);
        let a = got.map_values(f);
        let b = expected.map_values(f);
        assert(a.take(n) =~= got.take(n).map_values(f));
        assert(b.take(n) =~= expected.take(n).map_values(f));
        lemma_gather_cut_short(a, b, n, Seq::empty(), target);
    }
}

fn fetch_scanned(
    engine: &StorageEngine,
    plan: &QueryPlan,
    filter: &Option<FilterExpr>,
    when: When,
    needed: &Option<Vec<String>>,
    target: Option<u64>,
) -> (r: Result<Vec<EntityRow>, DbError>)
    ensures
        rows_agree(
            r,
            scanned_rows(
                engine@,
                refiltered(plan@, filter.deep_view()),
                when,
                optional_names(*needed),
                optional_nat(target),
            ),
        ),
{
    let items: Vec<ScanItem> = match when {
        When::Latest => engine.scan_entity_type(plan.root_entity.as_str()),
        When::AsOf(ts) => engine.scan_entity_type_as_of(plan.root_entity.as_str(), ts),
    };
    proof {
        lemma_gathered_scan(
            scan_view(items@),
            scan_outcome(engine@, plan@.root_entity, when),
            |i: ScanItemView| scan_row(i, filter.deep_view(), optional_names(*needed)),
            optional_nat(target),
        );
        let f = filter.deep_view();
        let p = refiltered(plan@, f);
        assert(scan_outcome(engine@, plan@.root_entity, when).map_values(
            |i: ScanItemView| scan_row(i, p.filter, optional_names(*needed)),
        ) =~= scan_outcome(engine@, plan@.root_entity, when).map_values(
            |i: ScanItemView| scan_row(i, f, optional_names(*needed)),
        ));
    }
    gather_scan(&items, filter, needed, target)
}

/// The rows of entities that an index named.
pub fn fetch_rows_for_ids(
    engine: &StorageEngine,
    plan: &QueryPlan,
    filter: &Option<FilterExpr>,
    matching_ids: &Vec<EntityId>,
) -> (r: Result<Vec<EntityRow>, DbError>)
    ensures
        matching_ids@.len() == 0 ==> r is Ok,
        rows_agree(
            r,
            rows_for_ids(
                engine@,
                ids_view(matching_ids@),
                refiltered(plan@, filter.deep_view()),
            ),
        ),
{
    let ghost p = refiltered(plan@, filter.deep_view());
    let ghost all = ids_view(matching_ids@);
    let ghost kept = cut(all, enough(p));
    let needed: Option<Vec<String>> = collect_needed_fields(&plan.fields, filter, &plan.order_by);
    let ids: Vec<EntityId> = cut_ids(matching_ids, enough_rows(plan));
    let found: Vec<Option<(u64, Record)>> = engine.get_latest_batch(ids.as_slice())?;
    let ghost results = found.deep_view();
    let ghost items = Seq::new(
        kept.len(),
        |i: int| found_row(kept[i], results[i], None, optional_names(needed)),
    );
    let none: Option<FilterExpr> = None;
    let mut rows: Vec<EntityRow> = Vec::new();
    let mut i: usize = 0;
    proof {
        lemma_batch_len(engine@, kept);
        assert(items.skip(0) =~= items);
        assert(rows_view(rows@) =~= Seq::<RowView>::empty());
    }
    while i < ids.len()
        invariant
            i <= ids@.len() == found@.len(),
            p == refiltered(plan@, filter.deep_view()),
            all == ids_view(matching_ids@),
            kept == ids_view(ids@),
            results == found.deep_view(),
            none is None,
            items == Seq::new(
                kept.len(),
                |i: int| found_row(kept[i], results[i], None, optional_names(needed)),
            ),
            gather(items, Seq::empty(), None) == gather(
                items.skip(i as int),
                rows_view(rows@),
                None,
            ),
            rows_for_ids(engine@, all, p) == gather(items, Seq::empty(), None),
        decreases ids@.len() - i,
    {
        let ghost before = rows_view(rows@);
        proof {
            lemma_gather_step(items, i as int, before, None);
            assert(results[i as int] == found@[i as int].deep_view());
            assert(kept[i as int] == ids@[i as int]@);
        }
        if let Some(v) = &found[i] {
            let made: Option<EntityRow> = row_of(
                ids[i],
                v.1.data.as_slice(),
                &none,
                &needed,
                Ghost(v.0),
                Ghost(v.1.deleted),
            )?;
            if let Some(row) = made {
                let ghost new = row@;
                rows.push(row);
                assert(rows_view(rows@) =~= before.push(new));
            }
        }
        i = i + 1;
    }
    Ok(rows)
}

fn cut_ids(ids: &Vec<EntityId>, target: Option<u64>) -> (out: Vec<EntityId>)
    ensures
        ids_view(out@) == cut(ids_view(ids@), optional_nat(target)),
{
    let mut out: Vec<EntityId> = copy_slice(ids.as_slice());
    if let Some(n) = target {
        if out.len() as u64 > n {
            out.truncate(n as usize);
            assert(ids_view(out@) =~= ids_view(ids@).take(n as int));
        }
    }
    out
}

/// The hits that are near enough.
pub fn hits_within_reach(hits: &Vec<(EntityId, u64)>, reach: Option<u64>) -> (out: Vec<EntityId>)
    ensures
        ids_view(out@) == within_reach(
            hits@.map_values(|h: (EntityId, u64)| (h.0@, h.1)),
            reach,
        ),
{
    let ghost all = hits@.map_values(|h: (EntityId, u64)| (h.0@, h.1));
    let mut out: Vec<EntityId> = Vec::new();
    let mut i: usize = 0;
    assert(all.take(0) =~= Seq::<(Seq<u8>, u64)>::empty());
    assert(ids_view(out@) =~= Seq::<Seq<u8>>::empty());
    while i < hits.len()
        invariant
            i <= hits@.len(),
            all == hits@.map_values(|h: (EntityId, u64)| (h.0@, h.1)),
            ids_view(out@) == within_reach(all.take(i as int), reach),
        decreases hits@.len() - i,
    {
        let ghost before = ids_view(out@);
        let hit: (EntityId, u64) = hits[i];
        proof {
            assert(all.take(i + 1).drop_last() =~= all.take(i as int));
            assert(all.take(i + 1).last() == (hit.0@, hit.1));
        }
        let near: bool = match reach {
            Some(max) => !float_is_nan(hit.1) && !float_is_nan(max) && compare_floats(hit.1, max)
                != Order::Greater,
            None => true,
        };
        if near {
            out.push(hit.0);
            assert(ids_view(out@) =~= before.push(hit.0@));
        }
        i = i + 1;
    }
    assert(all.take(all.len() as int) =~= all);
    out
}

fn selected_fields(plan: &QueryPlan) -> (out: Vec<String>)
    ensures
        texts(out@) == selected(plan@),
{
    let mut out: Vec<String> = if plan.fields.len() == 0 {
        copy_texts(plan.root_fields.as_slice())
    } else {
        copy_texts(plan.fields.as_slice())
    };
    push_order_names(&mut out, plan.order_by.as_slice());
    out
}

/// The fields with some names and without others.
fn pick_fields(fields: &[Field], wanted: &[String], unwanted: &[String]) -> (out: Vec<Field>)
    ensures
        fields_view(out@) == fields_view(fields@).filter(
            |f: FieldView| texts(wanted@).contains(f.0) && !texts(unwanted@).contains(f.0),
        ),
{
    let ghost fs = fields_view(fields@);
    let ghost keep = |f: FieldView|
        texts(wanted@).contains(f.0) && !texts(unwanted@).contains(f.0);
    let mut out: Vec<Field> = Vec::new();
    let mut i: usize = 0;
    proof {
        reveal(Seq::filter);
        assert(fs.take(0) =~= Seq::<FieldView>::empty());
        assert(fields_view(out@) =~= fs.take(0).filter(keep));
    }
    while i < fields.len()
        invariant
            i <= fields@.len(),
            fs == fields_view(fields@),
            keep == (|f: FieldView|
                texts(wanted@).contains(f.0) && !texts(unwanted@).contains(f.0)),
            fields_view(out@) == fs.take(i as int).filter(keep),
        decreases fields@.len() - i,
    {
        let ghost before = fields_view(out@);
        proof {
            reveal(Seq::filter);
            assert(fs.take(i + 1).drop_last() =~= fs.take(i as int));
            assert(fs.take(i + 1).last() == fs[i as int]);
        }
        if contains_text(wanted, fields[i].0.as_str()) && !contains_text(
            unwanted,
            fields[i].0.as_str(),
        ) {
            out.push((fields[i].0.clone(), fields[i].1.copy()));
            assert(fields_view(out@) =~= before.push(fs[i as int]));
        }
        i = i + 1;
    }
    assert(fs.take(fs.len() as int) =~= fs);
    out
}

fn columnar_row_of(
    id: EntityId,
    fields: &Vec<Field>,
    filter: &FilterExpr,
    names: &Vec<String>,
    select: &Vec<String>,
) -> (r: Result<Option<EntityRow>, DbError>)
    requires
        texts(names@) == filter_names(filter@),
    ensures
        ({
            let expected = columnar_row(
                Ok((id@, fields_view(fields@))),
                filter@,
                texts(select@),
            );
            match r {
                Ok(Some(row)) => expected == Ok::<Option<RowView>, ErrorView>(Some(row@)),
                Ok(None) => expected == Ok::<Option<RowView>, ErrorView>(None),
                Err(e) => expected == Err::<Option<RowView>, ErrorView>(e@),
            }
        }),
{
    let ghost fs = fields_view(fields@);
    let mut others: Vec<Field> = pick_fields(
        fields.as_slice(),
        select.as_slice(),
        names.as_slice(),
    );
    let ghost rest = fields_view(others@);
    let mut own: Vec<Field> = Vec::new();
    match filter {
        FilterExpr::Eq { field, value } => match find_last(fields.as_slice(), field.as_str()) {
            Some(v) => {
                if !v.same(value) {
                    return Ok(None);
                }
                assert(fields_view(own@) =~= Seq::<FieldView>::empty());
                if contains_text(select.as_slice(), field.as_str()) {
                    own.push((field.clone(), value.copy()));
                    assert(fields_view(own@) =~= seq![(field@, value@)]);
                }
            },
            None => {
                return Ok(None);
            },
        },
        _ => {
            let nothing: Vec<String> = Vec::new();
            let known: Vec<Field> = pick_fields(
                fields.as_slice(),
                names.as_slice(),
                nothing.as_slice(),
            );
            proof {
                lemma_filters_agree(
                    fs,
                    |f: FieldView|
                        texts(names@).contains(f.0) && !texts(nothing@).contains(f.0),
                    |f: FieldView| texts(names@).contains(f.0),
                );
            }
            if !evaluate(filter, known.as_slice())? {
                return Ok(None);
            }
            own = pick_fields(known.as_slice(), select.as_slice(), nothing.as_slice());
            proof {
                lemma_filters_agree(
                    fields_view(known@),
                    |f: FieldView|
                        texts(select@).contains(f.0) && !texts(nothing@).contains(f.0),
                    |f: FieldView| texts(select@).contains(f.0),
                );
            }
        },
    }
    let ghost first = fields_view(own@);
    own.append(&mut others);
    assert(fields_view(own@) =~= first + rest);
    Ok(Some(EntityRow::new(id, own)))
}

proof fn lemma_filters_agree<T>(s: Seq<T>, p: spec_fn(T) -> bool, q: spec_fn(T) -> bool)
    requires
        forall|t: T| #[trigger] p(t) == q(t),
    ensures
        s.filter(p) == s.filter(q),
    decreases s.len(),
{
    reveal(Seq::filter);
    if s.len() > 0 {
        lemma_filters_agree(s.drop_last(), p, q);
        assert(p(s.last()) == q(s.last()));
    }
}

fn fetch_entities_columnar(
    engine: &StorageEngine,
    plan: &QueryPlan,
    whole: &Option<FilterExpr>,
    filter: &FilterExpr,
) -> (r: Result<Vec<EntityRow>, DbError>)
    requires
        whole.deep_view() == Some(filter@),
    ensures
        rows_agree(
            r,
            columnar_rows(engine@, refiltered(plan@, whole.deep_view()), filter@),
        ),
{
    let ghost p = refiltered(plan@, whole.deep_view());
    let names: Vec<String> = extract_filter_fields(filter);
    let select: Vec<String> = selected_fields(plan);
    let target: Option<u64> = enough_rows(plan);
    let items: Vec<RowItem> = engine.scan_rows(plan.root_entity.as_str())?;
    let ghost views = items@.map_values(|i: RowItem| row_item_view(i));
    let ghost all = views.map_values(|i: RowItemView| columnar_row(i, filter@, texts(select@)));
    let ghost t = optional_nat(target);
    let mut rows: Vec<EntityRow> = Vec::new();
    let mut i: usize = 0;
    proof {
        assert(all =~= row_items(engine@.columnar, p.root_entity).map_values(
            |i: RowItemView| columnar_row(i, filter@, selected(p)),
        ));
        assert(all.skip(0) =~= all);
        assert(rows_view(rows@) =~= Seq::<RowView>::empty());
    }
    while i < items.len()
        invariant
            i <= items@.len(),
            views == items@.map_values(|i: RowItem| row_item_view(i)),
            all == views.map_values(|i: RowItemView| columnar_row(i, filter@, texts(select@))),
            t == optional_nat(target),
            p == refiltered(plan@, whole.deep_view()),
            texts(names@) == filter_names(filter@),
            columnar_rows(engine@, p, filter@) == gather(
                all.skip(i as int),
                rows_view(rows@),
                t,
            ),
        decreases items@.len() - i,
    {
        let ghost before = rows_view(rows@);
        proof {
            lemma_gather_step(all, i as int, before, t);
            assert(all[i as int] == columnar_row(
                row_item_view(items@[i as int]),
                filter@,
                texts(select@),
            ));
        }
        match &items[i] {
            Ok(item) => {
                let found: Option<EntityRow> = columnar_row_of(
                    item.0,
                    &item.1,
                    filter,
                    &names,
                    &select,
                )?;
                if let Some(row) = found {
                    let ghost new = row@;
                    rows.push(row);
                    assert(rows_view(rows@) =~= before.push(new));
                    if let Some(n) = target {
                        if rows.len() as u64 >= n {
                            return Ok(rows);
                        }
                    }
                }
            },
            Err(e) => {
                return Err(e.duplicate());
            },
        }
        i = i + 1;
    }
    Ok(rows)
}

/// What finding entities gave is what is expected, unless the database failed.
pub open spec fn fetch_agrees(
    r: Result<(AccessPath, Vec<EntityRow>), DbError>,
    before: StoreView,
    after: StoreView,
    expected: Result<Fetched, ErrorView>,
) -> bool {
    match r {
        Ok((path, rows)) => expected == Ok::<Fetched, ErrorView>(
            Fetched { store: after, path, rows: rows_view(rows@) },
        ),
        Err(e) => queries_keep(after, before) && (e@ is Storage || expected == Err::<
            Fetched,
            ErrorView,
        >(e@)),
    }
}

fn fetch_entities_via_btree(
    engine: &mut StorageEngine,
    plan: &QueryPlan,
    filter: &Option<FilterExpr>,
    field: &str,
    bound: &Bound,
    backwards: bool,
) -> (r: Result<(AccessPath, Vec<EntityRow>), DbError>)
    requires
        old(engine)@.btree is Some,
    ensures
        fetch_agrees(
            r,
            old(engine)@,
            final(engine)@,
            ordered_rows(
                old(engine)@,
                refiltered(plan@, filter.deep_view()),
                field@,
                bound@,
                backwards,
            ),
        ),
{
    let _ready: bool = engine.ensure_btree_index(plan.root_entity.as_str(), field)?;
    let mut ids: Vec<EntityId> = match engine.btree_index() {
        Some(btree) => btree.scan(plan.root_entity.as_str(), field, bound),
        None => Vec::new(),
    };
    if backwards {
        ids = reversed_ids(&ids);
    }
    let rows: Vec<EntityRow> = fetch_rows_for_ids(engine, plan, filter, &ids)?;
    Ok((AccessPath::BfTree, rows))
}

fn reversed_ids(ids: &Vec<EntityId>) -> (out: Vec<EntityId>)
    ensures
        ids_view(out@) == ids_view(ids@).reverse(),
{
    let mut out: Vec<EntityId> = Vec::new();
    let mut i: usize = ids.len();
    while i > 0
        invariant
            i <= ids@.len(),
            out@.len() == ids@.len() - i,
            forall|k: int| 0 <= k < out@.len() ==> #[trigger] out@[k] == ids@[ids@.len() - 1 - k],
        decreases i,
    {
        i = i - 1;
        out.push(ids[i]);
    }
    assert(ids_view(out@) =~= ids_view(ids@).reverse());
    out
}

fn ordered_bound(filter: &FilterExpr) -> (r: Option<(String, Bound)>)
    ensures
        match r {
            Some((field, bound)) => bound_of(filter@) == Some((field@, bound@)),
            None => bound_of(filter@) is None,
        },
{
    match filter {
        FilterExpr::Gt { field, value } => Some((field.clone(), Bound::Greater(value.copy()))),
        FilterExpr::Ge { field, value } => Some((field.clone(), Bound::GreaterEqual(value.copy()))),
        FilterExpr::Lt { field, value } => Some((field.clone(), Bound::Less(value.copy()))),
        FilterExpr::Le { field, value } => Some((field.clone(), Bound::LessEqual(value.copy()))),
        FilterExpr::Like { field, pattern } => match extract_like_prefix(pattern.as_str()) {
            Some(prefix) => Some((field.clone(), Bound::Prefix(prefix))),
            None => None,
        },
        _ => None,
    }
}

/// Finds the root entities of a query.
pub fn fetch_entities(
    engine: &mut StorageEngine,
    plan: &QueryPlan,
    filter: &Option<FilterExpr>,
    read_ts: Option<u64>,
    hits: &Option<SearchHits>,
) -> (r: Result<(AccessPath, Vec<EntityRow>), DbError>)
    ensures
        fetch_agrees(
            r,
            old(engine)@,
            final(engine)@,
            fetch_outcome(
                old(engine)@,
                refiltered(plan@, filter.deep_view()),
                read_ts,
                hits.deep_view(),
            ),
        ),
        read_ts is None && nothing_near(filter.deep_view(), hits.deep_view()) ==> r is Ok,
{
    if let Some(ts) = read_ts {
        let everything: Option<Vec<String>> = None;
        let rows: Vec<EntityRow> = fetch_scanned(
            engine,
            plan,
            filter,
            When::AsOf(ts),
            &everything,
            None,
        )?;
        return Ok((AccessPath::Row, rows));
    }
    let root: &str = plan.root_entity.as_str();
    match filter {
        Some(f) => {
            if let FilterExpr::Eq { field, value } = f {
                if engine.has_hash_index(root, field.as_str())? {
                    let ids: Vec<EntityId> = engine.hash_lookup(root, field.as_str(), value)?;
                    let rows: Vec<EntityRow> = fetch_rows_for_ids(engine, plan, filter, &ids)?;
                    return Ok((AccessPath::HashIndex, rows));
                }
            }
            if engine.btree_index().is_some() {
                if let Some((field, bound)) = ordered_bound(f) {
                    return fetch_entities_via_btree(
                        engine,
                        plan,
                        filter,
                        field.as_str(),
                        &bound,
                        false,
                    );
                }
            }
            if let FilterExpr::Search { field, search } = f {
                if let Some(found) = hits {
                    if found.kind == search.kind() {
                        let ids: Vec<EntityId> = hits_within_reach(&found.hits, search.reach());
                        let rows: Vec<EntityRow> = fetch_rows_for_ids(engine, plan, filter, &ids)?;
                        let path: AccessPath = match found.kind {
                            SearchKind::Vector => AccessPath::VectorIndex,
                            SearchKind::Geo => AccessPath::GeoIndex,
                            SearchKind::Text => AccessPath::FulltextIndex,
                        };
                        return Ok((path, rows));
                    }
                }
            }
            let rows: Vec<EntityRow> = fetch_entities_columnar(engine, plan, filter, f)?;
            Ok((AccessPath::Columnar, rows))
        },
        None => {
            if plan.order_by.len() == 1 && engine.btree_index().is_some() {
                let order: &OrderSpec = &plan.order_by[0];
                assert(plan@.order_by[0] == order@);
                return fetch_entities_via_btree(
                    engine,
                    plan,
                    filter,
                    order.field.as_str(),
                    &Bound::All,
                    order.direction == OrderDirection::Desc,
                );
            }
            let needed: Option<Vec<String>> = collect_needed_fields(
                &plan.fields,
                filter,
                &plan.order_by,
            );
            let rows: Vec<EntityRow> = fetch_scanned(
                engine,
                plan,
                filter,
                When::Latest,
                &needed,
                enough_rows(plan),
            )?;
            Ok((AccessPath::Row, rows))
        },
    }
}

} // verus!

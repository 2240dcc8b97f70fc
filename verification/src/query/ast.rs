//! What queries are made of, and what they give.

use vstd::prelude::*;

use crate::bytes::{copy_slice, EntityId};
use crate::codec::{copy_fields, fields_view, Field, FieldView};
use crate::storage::hash_index::ids_view;
use crate::text::{copy_texts, str_eq, texts};
use crate::value::{Value, ValueView};

verus! {

/// The kind of a search that only a search index can answer.
#[derive(Debug, Clone, Copy, PartialEq, Eq, Structural)]
pub enum SearchKind {
    /// The vectors nearest to a vector.
    Vector,
    /// Points on the globe.
    Geo,
    /// Texts.
    Text,
}

/// A search that only a search index can answer.
#[derive(Debug)]
pub enum SearchExpr {
    /// The `k` vectors nearest to a vector.
    VectorNearestNeighbor {
        /// The vector, by the bits of its numbers.
        query_vector: Vec<u64>,
        /// How many are wanted.
        k: u32,
        /// How far they may be, by the bits of the number.
        max_distance: Option<u64>,
    },
    /// The points within a distance of a point.
    GeoWithinRadius {
        /// The point's latitude, by bits.
        center_lat: u64,
        /// The point's longitude, by bits.
        center_lon: u64,
        /// The distance in kilometres, by bits.
        radius_km: u64,
    },
    /// The points in a box: the bits of its least latitude and longitude, and of
    /// its greatest.
    GeoWithinBox {
        /// The least latitude.
        min_lat: u64,
        /// The least longitude.
        min_lon: u64,
        /// The greatest latitude.
        max_lat: u64,
        /// The greatest longitude.
        max_lon: u64,
    },
    /// The points in a polygon.
    GeoWithinPolygon {
        /// The polygon's vertices, by bits.
        vertices: Vec<(u64, u64)>,
    },
    /// The `k` points nearest to a point.
    GeoNearestNeighbor {
        /// The point's latitude, by bits.
        center_lat: u64,
        /// The point's longitude, by bits.
        center_lon: u64,
        /// How many are wanted.
        k: u32,
    },
    /// The texts that match a query.
    TextMatch {
        /// The query.
        query: String,
        /// The least score, by the bits of the number.
        min_score: Option<u64>,
    },
    /// The texts that hold a phrase.
    TextPhrase {
        /// The phrase.
        phrase: String,
    },
    /// The texts that hold some words and not others.
    TextBoolean {
        /// The words that must be there.
        must: Vec<String>,
        /// The words that should be there.
        should: Vec<String>,
        /// The words that must not be there.
        must_not: Vec<String>,
    },
}

/// A search in mathematical terms.
pub ghost enum SearchView {
    /// See [`SearchExpr::VectorNearestNeighbor`].
    VectorNearestNeighbor(Seq<u64>, u32, Option<u64>),
    /// See [`SearchExpr::GeoWithinRadius`].
    GeoWithinRadius(u64, u64, u64),
    /// See [`SearchExpr::GeoWithinBox`].
    GeoWithinBox(u64, u64, u64, u64),
    /// See [`SearchExpr::GeoWithinPolygon`].
    GeoWithinPolygon(Seq<(u64, u64)>),
    /// See [`SearchExpr::GeoNearestNeighbor`].
    GeoNearestNeighbor(u64, u64, u32),
    /// See [`SearchExpr::TextMatch`].
    TextMatch(Seq<char>, Option<u64>),
    /// See [`SearchExpr::TextPhrase`].
    TextPhrase(Seq<char>),
    /// See [`SearchExpr::TextBoolean`].
    TextBoolean(Seq<Seq<char>>, Seq<Seq<char>>, Seq<Seq<char>>),
}

impl View for SearchExpr {
    type V = SearchView;

    open spec fn view(&self) -> SearchView {
        match *self {
            SearchExpr::VectorNearestNeighbor { query_vector, k, max_distance } => SearchView::VectorNearestNeighbor(
                query_vector@,
                k,
                max_distance,
            ),
            SearchExpr::GeoWithinRadius { center_lat, center_lon, radius_km } => SearchView::GeoWithinRadius(
                center_lat,
                center_lon,
                radius_km,
            ),
            SearchExpr::GeoWithinBox { min_lat, min_lon, max_lat, max_lon } => SearchView::GeoWithinBox(
                min_lat,
                min_lon,
                max_lat,
                max_lon,
            ),
            SearchExpr::GeoWithinPolygon { vertices } => SearchView::GeoWithinPolygon(vertices@),
            SearchExpr::GeoNearestNeighbor { center_lat, center_lon, k } => SearchView::GeoNearestNeighbor(
                center_lat,
                center_lon,
                k,
            ),
            SearchExpr::TextMatch { query, min_score } => SearchView::TextMatch(query@, min_score),
            SearchExpr::TextPhrase { phrase } => SearchView::TextPhrase(phrase@),
            SearchExpr::TextBoolean { must, should, must_not } => SearchView::TextBoolean(
                texts(must@),
                texts(should@),
                texts(must_not@),
            ),
        }
    }
}

impl SearchView {
    /// The kind of index that the search needs.
    pub open spec fn kind(self) -> SearchKind {
        match self {
            SearchView::VectorNearestNeighbor(_, _, _) => SearchKind::Vector,
            SearchView::GeoWithinRadius(_, _, _) => SearchKind::Geo,
            SearchView::GeoWithinBox(_, _, _, _) => SearchKind::Geo,
            SearchView::GeoWithinPolygon(_) => SearchKind::Geo,
            SearchView::GeoNearestNeighbor(_, _, _) => SearchKind::Geo,
            SearchView::TextMatch(_, _) => SearchKind::Text,
            SearchView::TextPhrase(_) => SearchKind::Text,
            SearchView::TextBoolean(_, _, _) => SearchKind::Text,
        }
    }

    /// How far a hit may be.
    pub open spec fn reach(self) -> Option<u64> {
        match self {
            SearchView::VectorNearestNeighbor(_, _, max_distance) => max_distance,
            _ => None,
        }
    }
}

impl SearchExpr {
    /// The kind of index that the search needs.
    pub fn kind(&self) -> (k: SearchKind)
        ensures
            k == self@.kind(),
    {
        match self {
            SearchExpr::VectorNearestNeighbor { .. } => SearchKind::Vector,
            SearchExpr::GeoWithinRadius { .. } => SearchKind::Geo,
            SearchExpr::GeoWithinBox { .. } => SearchKind::Geo,
            SearchExpr::GeoWithinPolygon { .. } => SearchKind::Geo,
            SearchExpr::GeoNearestNeighbor { .. } => SearchKind::Geo,
            SearchExpr::TextMatch { .. } => SearchKind::Text,
            SearchExpr::TextPhrase { .. } => SearchKind::Text,
            SearchExpr::TextBoolean { .. } => SearchKind::Text,
        }
    }

    /// How far a hit may be.
    pub fn reach(&self) -> (d: Option<u64>)
        ensures
            d == self@.reach(),
    {
        match self {
            SearchExpr::VectorNearestNeighbor { max_distance, .. } => *max_distance,
            _ => None,
        }
    }

    /// A copy of the search.
    pub fn copy(&self) -> (r: SearchExpr)
        ensures
            r@ == self@,
    {
        match self {
            SearchExpr::VectorNearestNeighbor { query_vector, k, max_distance } => SearchExpr::VectorNearestNeighbor {
                query_vector: copy_slice(query_vector.as_slice()),
                k: *k,
                max_distance: *max_distance,
            },
            SearchExpr::GeoWithinRadius { center_lat, center_lon, radius_km } => SearchExpr::GeoWithinRadius {
                center_lat: *center_lat,
                center_lon: *center_lon,
                radius_km: *radius_km,
            },
            SearchExpr::GeoWithinBox { min_lat, min_lon, max_lat, max_lon } => SearchExpr::GeoWithinBox {
                min_lat: *min_lat,
                min_lon: *min_lon,
                max_lat: *max_lat,
                max_lon: *max_lon,
            },
            SearchExpr::GeoWithinPolygon { vertices } => SearchExpr::GeoWithinPolygon {
                vertices: copy_slice(vertices.as_slice()),
            },
            SearchExpr::GeoNearestNeighbor { center_lat, center_lon, k } => SearchExpr::GeoNearestNeighbor {
                center_lat: *center_lat,
                center_lon: *center_lon,
                k: *k,
            },
            SearchExpr::TextMatch { query, min_score } => SearchExpr::TextMatch {
                query: query.clone(),
                min_score: *min_score,
            },
            SearchExpr::TextPhrase { phrase } => SearchExpr::TextPhrase { phrase: phrase.clone() },
            SearchExpr::TextBoolean { must, should, must_not } => SearchExpr::TextBoolean {
                must: copy_texts(must.as_slice()),
                should: copy_texts(should.as_slice()),
                must_not: copy_texts(must_not.as_slice()),
            },
        }
    }
}

/// A condition on an entity's fields.
#[derive(Debug)]
pub enum FilterExpr {
    /// The field has the value.
    Eq {
        /// The field.
        field: String,
        /// The value.
        value: Value,
    },
    /// The field has a greater value.
    Gt {
        /// The field.
        field: String,
        /// The value.
        value: Value,
    },
    /// The field has a greater value or the same.
    Ge {
        /// The field.
        field: String,
        /// The value.
        value: Value,
    },
    /// The field has a smaller value.
    Lt {
        /// The field.
        field: String,
        /// The value.
        value: Value,
    },
    /// The field has a smaller value or the same.
    Le {
        /// The field.
        field: String,
        /// The value.
        value: Value,
    },
    /// The field's text matches a pattern.
    Like {
        /// The field.
        field: String,
        /// The pattern: `%` stands for any text, `_` for any character.
        pattern: String,
    },
    /// Both conditions hold.
    And(Box<FilterExpr>, Box<FilterExpr>),
    /// One of the conditions holds.
    Or(Box<FilterExpr>, Box<FilterExpr>),
    /// The condition does not hold.
    Not(Box<FilterExpr>),
    /// A search index has the entity among its hits.
    Search {
        /// The field.
        field: String,
        /// The search.
        search: SearchExpr,
    },
}

/// A condition in mathematical terms.
pub ghost enum FilterView {
    /// See [`FilterExpr::Eq`].
    Eq(Seq<char>, ValueView),
    /// See [`FilterExpr::Gt`].
    Gt(Seq<char>, ValueView),
    /// See [`FilterExpr::Ge`].
    Ge(Seq<char>, ValueView),
    /// See [`FilterExpr::Lt`].
    Lt(Seq<char>, ValueView),
    /// See [`FilterExpr::Le`].
    Le(Seq<char>, ValueView),
    /// See [`FilterExpr::Like`].
    Like(Seq<char>, Seq<char>),
    /// See [`FilterExpr::And`].
    And(Box<FilterView>, Box<FilterView>),
    /// See [`FilterExpr::Or`].
    Or(Box<FilterView>, Box<FilterView>),
    /// See [`FilterExpr::Not`].
    Not(Box<FilterView>),
    /// See [`FilterExpr::Search`].
    Search(Seq<char>, SearchView),
}

/// A condition in mathematical terms.
pub open spec fn filter_view(f: FilterExpr) -> FilterView
    decreases f,
{
    match f {
        FilterExpr::Eq { field, value } => FilterView::Eq(field@, value@),
        FilterExpr::Gt { field, value } => FilterView::Gt(field@, value@),
        FilterExpr::Ge { field, value } => FilterView::Ge(field@, value@),
        FilterExpr::Lt { field, value } => FilterView::Lt(field@, value@),
        FilterExpr::Le { field, value } => FilterView::Le(field@, value@),
        FilterExpr::Like { field, pattern } => FilterView::Like(field@, pattern@),
        FilterExpr::And(a, b) => FilterView::And(
            Box::new(filter_view(*a)),
            Box::new(filter_view(*b)),
        ),
        FilterExpr::Or(a, b) => FilterView::Or(
            Box::new(filter_view(*a)),
            Box::new(filter_view(*b)),
        ),
        FilterExpr::Not(a) => FilterView::Not(Box::new(filter_view(*a))),
        FilterExpr::Search { field, search } => FilterView::Search(field@, search@),
    }
}

impl View for FilterExpr {
    type V = FilterView;

    open spec fn view(&self) -> FilterView {
        filter_view(*self)
    }
}

impl DeepView for FilterExpr {
    type V = FilterView;

    open spec fn deep_view(&self) -> FilterView {
        self@
    }
}

impl FilterExpr {
    /// The field has the value.
    pub fn eq(field: &str, value: Value) -> (f: FilterExpr)
        ensures
            f@ == FilterView::Eq(field@, value@),
    {
        FilterExpr::Eq { field: field.to_owned(), value }
    }

    /// The field has a greater value.
    pub fn gt(field: &str, value: Value) -> (f: FilterExpr)
        ensures
            f@ == FilterView::Gt(field@, value@),
    {
        FilterExpr::Gt { field: field.to_owned(), value }
    }

    /// The field's text matches a pattern.
    pub fn like(field: &str, pattern: &str) -> (f: FilterExpr)
        ensures
            f@ == FilterView::Like(field@, pattern@),
    {
        FilterExpr::Like { field: field.to_owned(), pattern: pattern.to_owned() }
    }

    /// A copy of the condition.
    pub fn copy(&self) -> (f: FilterExpr)
        ensures
            f@ == self@,
        decreases *self,
    {
        match self {
            FilterExpr::Eq { field, value } => FilterExpr::Eq {
                field: field.clone(),
                value: value.copy(),
            },
            FilterExpr::Gt { field, value } => FilterExpr::Gt {
                field: field.clone(),
                value: value.copy(),
            },
            FilterExpr::Ge { field, value } => FilterExpr::Ge {
                field: field.clone(),
                value: value.copy(),
            },
            FilterExpr::Lt { field, value } => FilterExpr::Lt {
                field: field.clone(),
                value: value.copy(),
            },
            FilterExpr::Le { field, value } => FilterExpr::Le {
                field: field.clone(),
                value: value.copy(),
            },
            FilterExpr::Like { field, pattern } => FilterExpr::Like {
                field: field.clone(),
                pattern: pattern.clone(),
            },
            FilterExpr::And(a, b) => FilterExpr::And(Box::new(a.copy()), Box::new(b.copy())),
            FilterExpr::Or(a, b) => FilterExpr::Or(Box::new(a.copy()), Box::new(b.copy())),
            FilterExpr::Not(a) => FilterExpr::Not(Box::new(a.copy())),
            FilterExpr::Search { field, search } => FilterExpr::Search {
                field: field.clone(),
                search: search.copy(),
            },
        }
    }
}

/// Which way to sort.
#[derive(Debug, Clone, Copy, PartialEq, Eq, Structural)]
pub enum OrderDirection {
    /// Smallest first.
    Asc,
    /// Greatest first.
    Desc,
}

/// A field to sort by.
#[derive(Debug)]
pub struct OrderSpec {
    /// The field.
    pub field: String,
    /// Which way.
    pub direction: OrderDirection,
}

/// A field to sort by, in mathematical terms.
pub type OrderView = (Seq<char>, OrderDirection);

impl View for OrderSpec {
    type V = OrderView;

    open spec fn view(&self) -> OrderView {
        (self.field@, self.direction)
    }
}

impl OrderSpec {
    /// By a field, smallest first.
    pub fn asc(field: &str) -> (o: OrderSpec)
        ensures
            o@ == (field@, OrderDirection::Asc),
    {
        OrderSpec { field: field.to_owned(), direction: OrderDirection::Asc }
    }

    /// By a field, greatest first.
    pub fn desc(field: &str) -> (o: OrderSpec)
        ensures
            o@ == (field@, OrderDirection::Desc),
    {
        OrderSpec { field: field.to_owned(), direction: OrderDirection::Desc }
    }

    /// A copy.
    pub fn copy(&self) -> (o: OrderSpec)
        ensures
            o@ == self@,
    {
        OrderSpec { field: self.field.clone(), direction: self.direction }
    }
}

/// Fields to sort by, in mathematical terms.
pub open spec fn order_view(order: Seq<OrderSpec>) -> Seq<OrderView> {
    order.map_values(|o: OrderSpec| o@)
}

/// Which part of the results is wanted.
#[derive(Debug, Clone, Copy, PartialEq, Eq, Structural)]
pub struct Pagination {
    /// How many results.
    pub limit: u32,
    /// How many to leave out before them.
    pub offset: u32,
}

impl Pagination {
    /// So many results, after leaving out so many.
    pub fn new(limit: u32, offset: u32) -> (p: Pagination)
        ensures
            p.limit == limit,
            p.offset == offset,
    {
        Pagination { limit, offset }
    }

    /// How many results have to be found.
    pub open spec fn end(self) -> nat {
        (self.offset + self.limit) as nat
    }
}

/// How much a query may return.
#[derive(Debug, Clone, Copy, PartialEq, Eq, Structural)]
pub struct FanoutBudget {
    /// How many entities of the root type.
    pub max_entities: usize,
    /// How many edges in all.
    pub max_edges: usize,
    /// How many levels of relations.
    pub max_depth: usize,
}

impl Default for FanoutBudget {
    fn default() -> (b: FanoutBudget)
        ensures
            b.max_entities == 10_000,
            b.max_edges == 50_000,
            b.max_depth == 5,
    {
        FanoutBudget { max_entities: 10_000, max_edges: 50_000, max_depth: 5 }
    }
}

/// An entity and its fields.
#[derive(Debug)]
pub struct EntityRow {
    /// The entity.
    pub id: EntityId,
    /// Its fields.
    pub fields: Vec<Field>,
}

/// A row in mathematical terms.
pub ghost struct RowView {
    /// The entity.
    pub id: Seq<u8>,
    /// Its fields.
    pub fields: Seq<FieldView>,
}

impl View for EntityRow {
    type V = RowView;

    open spec fn view(&self) -> RowView {
        RowView { id: self.id@, fields: fields_view(self.fields@) }
    }
}

/// Rows in mathematical terms.
pub open spec fn rows_view(rows: Seq<EntityRow>) -> Seq<RowView> {
    rows.map_values(|r: EntityRow| r@)
}

/// The value that a name has among fields: the first one, where there are several.
pub open spec fn first_value(fs: Seq<FieldView>, name: Seq<char>) -> Option<ValueView>
    decreases fs.len(),
{
    if fs.len() == 0 {
        None
    } else if fs[0].0 == name {
        Some(fs[0].1)
    } else {
        first_value(fs.drop_first(), name)
    }
}

/// The value that a name has among fields: the first one, where there are several.
pub fn find_first<'a>(fields: &'a [Field], name: &str) -> (r: Option<&'a Value>)
    ensures
        r.deep_view() == first_value(fields_view(fields@), name@),
{
    let ghost fs = fields_view(fields@);
    let mut i: usize = 0;
    assert(fs.skip(0) =~= fs);
    while i < fields.len()
        invariant
            i <= fields@.len(),
            fs == fields_view(fields@),
            first_value(fs, name@) == first_value(fs.skip(i as int), name@),
        decreases fields@.len() - i,
    {
        proof {
            assert(fs.skip(i as int)[0] == fs[i as int]);
            assert(fs.skip(i as int).drop_first() =~= fs.skip(i + 1));
        }
        if str_eq(fields[i].0.as_str(), name) {
            return Some(&fields[i].1);
        }
        i = i + 1;
    }
    None
}

impl EntityRow {
    /// An entity with fields.
    pub fn new(id: EntityId, fields: Vec<Field>) -> (r: EntityRow)
        ensures
            r@ == (RowView { id: id@, fields: fields_view(fields@) }),
    {
        EntityRow { id, fields }
    }

    /// A copy of the row.
    pub fn copy(&self) -> (r: EntityRow)
        ensures
            r@ == self@,
    {
        EntityRow { id: self.id, fields: copy_fields(self.fields.as_slice()) }
    }
}

/// A relation between two entities.
#[derive(Debug, Clone, Copy)]
pub struct Edge {
    /// Where it starts.
    pub from_id: EntityId,
    /// Where it ends.
    pub to_id: EntityId,
}

/// An edge in mathematical terms.
pub ghost struct EdgeView {
    /// Where it starts.
    pub from_id: Seq<u8>,
    /// Where it ends.
    pub to_id: Seq<u8>,
}

impl View for Edge {
    type V = EdgeView;

    open spec fn view(&self) -> EdgeView {
        EdgeView { from_id: self.from_id@, to_id: self.to_id@ }
    }
}

/// Edges in mathematical terms.
pub open spec fn edges_view(edges: Seq<Edge>) -> Seq<EdgeView> {
    edges.map_values(|e: Edge| e@)
}

/// The edges of one relation.
#[derive(Debug)]
pub struct EdgeBlock {
    /// The relation's path.
    pub relation: String,
    /// The edges.
    pub edges: Vec<Edge>,
}

/// The edges of one relation, in mathematical terms.
pub ghost struct EdgeBlockView {
    /// The relation's path.
    pub relation: Seq<char>,
    /// The edges.
    pub edges: Seq<EdgeView>,
}

impl View for EdgeBlock {
    type V = EdgeBlockView;

    open spec fn view(&self) -> EdgeBlockView {
        EdgeBlockView { relation: self.relation@, edges: edges_view(self.edges@) }
    }
}

impl EdgeBlock {
    /// The number of edges.
    pub fn len(&self) -> (n: usize)
        ensures
            n == self@.edges.len(),
    {
        self.edges.len()
    }
}

/// A column of a block: the values that the block's entities have in a field.
#[derive(Debug)]
pub struct ColumnData {
    /// The field.
    pub name: String,
    /// The values.
    pub values: Vec<Value>,
}

/// A column in mathematical terms.
pub ghost struct ColumnView {
    /// The field.
    pub name: Seq<char>,
    /// The values.
    pub values: Seq<ValueView>,
}

impl View for ColumnData {
    type V = ColumnView;

    open spec fn view(&self) -> ColumnView {
        ColumnView { name: self.name@, values: values_view(self.values@) }
    }
}

/// Values in mathematical terms.
pub open spec fn values_view(values: Seq<Value>) -> Seq<ValueView> {
    values.map_values(|v: Value| v@)
}

/// Columns in mathematical terms.
pub open spec fn columns_view(columns: Seq<ColumnData>) -> Seq<ColumnView> {
    columns.map_values(|c: ColumnData| c@)
}

/// The entities of one type, by columns.
#[derive(Debug)]
pub struct EntityBlock {
    /// The type.
    pub entity: String,
    /// The entities.
    pub ids: Vec<EntityId>,
    /// Their fields.
    pub columns: Vec<ColumnData>,
}

/// A block in mathematical terms.
pub ghost struct BlockView {
    /// The type.
    pub entity: Seq<char>,
    /// The entities.
    pub ids: Seq<Seq<u8>>,
    /// Their fields.
    pub columns: Seq<ColumnView>,
}

impl View for EntityBlock {
    type V = BlockView;

    open spec fn view(&self) -> BlockView {
        BlockView {
            entity: self.entity@,
            ids: ids_view(self.ids@),
            columns: columns_view(self.columns@),
        }
    }
}

/// The first column with a name.
pub open spec fn column_named(columns: Seq<ColumnView>, name: Seq<char>) -> Option<ColumnView>
    decreases columns.len(),
{
    if columns.len() == 0 {
        None
    } else if columns[0].name == name {
        Some(columns[0])
    } else {
        column_named(columns.drop_first(), name)
    }
}

impl EntityBlock {
    /// The number of entities.
    pub fn len(&self) -> (n: usize)
        ensures
            n == self@.ids.len(),
    {
        self.ids.len()
    }

    /// Whether there are no entities.
    pub fn is_empty(&self) -> (r: bool)
        ensures
            r == (self@.ids.len() == 0),
    {
        self.ids.len() == 0
    }

    /// The first column with a name.
    pub fn column(&self, name: &str) -> (r: Option<&ColumnData>)
        ensures
            match r {
                Some(c) => column_named(self@.columns, name@) == Some(c@),
                None => column_named(self@.columns, name@) is None,
            },
    {
        let ghost all = self@.columns;
        let mut i: usize = 0;
        assert(all.skip(0) =~= all);
        while i < self.columns.len()
            invariant
                i <= self.columns@.len(),
                all == columns_view(self.columns@),
                column_named(all, name@) == column_named(all.skip(i as int), name@),
            decreases self.columns@.len() - i,
        {
            proof {
                assert(all.skip(i as int)[0] == self.columns@[i as int]@);
                assert(all.skip(i as int).drop_first() =~= all.skip(i + 1));
            }
            if str_eq(self.columns[i].name.as_str(), name) {
                return Some(&self.columns[i]);
            }
            i = i + 1;
        }
        None
    }
}

/// What a query gives.
#[derive(Debug)]
pub struct QueryResult {
    /// The entities, by type: first those of the root type.
    pub entities: Vec<EntityBlock>,
    /// The edges, by relation.
    pub edges: Vec<EdgeBlock>,
    /// Whether there are more entities of the root type.
    pub has_more: bool,
}

/// What a query gives, in mathematical terms.
pub ghost struct ResultView {
    /// The entities, by type.
    pub entities: Seq<BlockView>,
    /// The edges, by relation.
    pub edges: Seq<EdgeBlockView>,
    /// Whether there are more entities of the root type.
    pub has_more: bool,
}

/// Blocks in mathematical terms.
pub open spec fn blocks_view(blocks: Seq<EntityBlock>) -> Seq<BlockView> {
    blocks.map_values(|b: EntityBlock| b@)
}

/// Edge blocks in mathematical terms.
pub open spec fn edge_blocks_view(blocks: Seq<EdgeBlock>) -> Seq<EdgeBlockView> {
    blocks.map_values(|b: EdgeBlock| b@)
}

impl View for QueryResult {
    type V = ResultView;

    open spec fn view(&self) -> ResultView {
        ResultView {
            entities: blocks_view(self.entities@),
            edges: edge_blocks_view(self.edges@),
            has_more: self.has_more,
        }
    }
}

impl DeepView for QueryResult {
    type V = ResultView;

    open spec fn deep_view(&self) -> ResultView {
        self@
    }
}

/// A relation from one entity type to another.
#[derive(Debug)]
pub struct RelationDef {
    /// Its name.
    pub name: String,
    /// The type that it starts from.
    pub from_entity: String,
    /// The field that it starts from.
    pub from_field: String,
    /// The type that it leads to.
    pub to_entity: String,
    /// The field that refers back.
    pub to_field: String,
    /// The type between the two, where there is one.
    pub edge_entity: Option<String>,
}

/// A relation to follow.
#[derive(Debug)]
pub struct IncludePlan {
    /// The relations' names from the root, with dots between them.
    pub path: String,
    /// The relation.
    pub relation: RelationDef,
    /// The fields that are wanted; all where it is empty.
    pub fields: Vec<String>,
    /// The condition on the related entities.
    pub filter: Option<FilterExpr>,
    /// What to sort them by.
    pub order_by: Vec<OrderSpec>,
    /// Which of them are wanted for each source entity.
    pub pagination: Option<Pagination>,
}

/// A relation to follow, in mathematical terms.
pub ghost struct IncludeView {
    /// The relations' names from the root, with dots between them.
    pub path: Seq<char>,
    /// The relation's name.
    pub name: Seq<char>,
    /// The type that the relation starts from.
    pub from_entity: Seq<char>,
    /// The field that the relation starts from.
    pub from_field: Seq<char>,
    /// The type that the relation leads to.
    pub to_entity: Seq<char>,
    /// The field that refers back.
    pub to_field: Seq<char>,
    /// The type between the two, where there is one.
    pub edge_entity: Option<Seq<char>>,
    /// The fields that are wanted.
    pub fields: Seq<Seq<char>>,
    /// The condition on the related entities.
    pub filter: Option<FilterView>,
    /// What to sort them by.
    pub order_by: Seq<OrderView>,
    /// Which of them are wanted for each source entity.
    pub pagination: Option<Pagination>,
}

impl View for IncludePlan {
    type V = IncludeView;

    open spec fn view(&self) -> IncludeView {
        IncludeView {
            path: self.path@,
            name: self.relation.name@,
            from_entity: self.relation.from_entity@,
            from_field: self.relation.from_field@,
            to_entity: self.relation.to_entity@,
            to_field: self.relation.to_field@,
            edge_entity: self.relation.edge_entity.deep_view(),
            fields: texts(self.fields@),
            filter: self.filter.deep_view(),
            order_by: order_view(self.order_by@),
            pagination: self.pagination,
        }
    }
}

/// A planned query.
#[derive(Debug)]
pub struct QueryPlan {
    /// The root type.
    pub root_entity: String,
    /// The root type's fields.
    pub root_fields: Vec<String>,
    /// The fields that are wanted; all where it is empty.
    pub fields: Vec<String>,
    /// The condition on the root entities.
    pub filter: Option<FilterExpr>,
    /// What to sort them by.
    pub order_by: Vec<OrderSpec>,
    /// Which of them are wanted.
    pub pagination: Option<Pagination>,
    /// The relations to follow.
    pub includes: Vec<IncludePlan>,
    /// How much may be returned.
    pub budget: FanoutBudget,
}

/// A planned query in mathematical terms.
pub ghost struct PlanView {
    /// The root type.
    pub root_entity: Seq<char>,
    /// The root type's fields.
    pub root_fields: Seq<Seq<char>>,
    /// The fields that are wanted.
    pub fields: Seq<Seq<char>>,
    /// The condition on the root entities.
    pub filter: Option<FilterView>,
    /// What to sort them by.
    pub order_by: Seq<OrderView>,
    /// Which of them are wanted.
    pub pagination: Option<Pagination>,
    /// The relations to follow.
    pub includes: Seq<IncludeView>,
    /// How much may be returned.
    pub budget: FanoutBudget,
}

/// Relations to follow, in mathematical terms.
pub open spec fn includes_view(includes: Seq<IncludePlan>) -> Seq<IncludeView> {
    includes.map_values(|i: IncludePlan| i@)
}

impl View for QueryPlan {
    type V = PlanView;

    open spec fn view(&self) -> PlanView {
        PlanView {
            root_entity: self.root_entity@,
            root_fields: texts(self.root_fields@),
            fields: texts(self.fields@),
            filter: self.filter.deep_view(),
            order_by: order_view(self.order_by@),
            pagination: self.pagination,
            includes: includes_view(self.includes@),
            budget: self.budget,
        }
    }
}

} // verus!

//! Planning: from what is asked for to what has to be done.

use vstd::prelude::*;
use vstd::string::{StrSliceExecFns, StringExecFns};

use crate::catalog::{entity_named, relation_named, Catalog, FieldType, SchemaView};
use crate::error::{DbError, ErrorView};
use crate::query::ast::{
    includes_view, order_view, FanoutBudget, FilterExpr, FilterView, IncludePlan, IncludeView,
    OrderSpec, OrderView, Pagination, PlanView, QueryPlan, RelationDef,
};
use crate::query::includes::{last_dot, parent_of, parent_path};
use crate::text::{chars_of, copy_texts, str_eq, texts};

verus! {

/// A relation that is asked for.
#[derive(Debug)]
pub struct RelationInclude {
    /// The relations' names from the root, with dots between them.
    pub path: String,
    /// The fields that are wanted; all where it is empty.
    pub fields: Vec<String>,
    /// The condition on the related entities.
    pub filter: Option<FilterExpr>,
    /// What to sort them by.
    pub order_by: Vec<OrderSpec>,
    /// Which of them are wanted for each source entity.
    pub pagination: Option<Pagination>,
}

/// A relation that is asked for, in mathematical terms.
pub ghost struct AskedView {
    /// The relations' names from the root, with dots between them.
    pub path: Seq<char>,
    /// The fields that are wanted.
    pub fields: Seq<Seq<char>>,
    /// The condition on the related entities.
    pub filter: Option<FilterView>,
    /// What to sort them by.
    pub order_by: Seq<OrderView>,
    /// Which of them are wanted for each source entity.
    pub pagination: Option<Pagination>,
}

impl View for RelationInclude {
    type V = AskedView;

    open spec fn view(&self) -> AskedView {
        AskedView {
            path: self.path@,
            fields: texts(self.fields@),
            filter: self.filter.deep_view(),
            order_by: order_view(self.order_by@),
            pagination: self.pagination,
        }
    }
}

/// How many dots a path has.
pub open spec fn dots(path: Seq<char>) -> nat
    decreases path.len(),
{
    if path.len() == 0 {
        0
    } else {
        dots(path.drop_last()) + if path.last() == '.' {
            1nat
        } else {
            0
        }
    }
}

/// How many relations a path goes through.
pub open spec fn path_depth(path: Seq<char>) -> nat {
    dots(path) + 1
}

/// How many dots a path has.
pub fn count_dots(path: &str) -> (n: usize)
    ensures
        n == dots(path@),
        n <= path@.len(),
{
    let chars: Vec<char> = chars_of(path);
    let mut n: usize = 0;
    let mut i: usize = 0;
    assert(path@.take(0) =~= Seq::<char>::empty());
    while i < chars.len()
        invariant
            i <= chars@.len(),
            chars@ == path@,
            n <= i,
            n == dots(path@.take(i as int)),
        decreases chars@.len() - i,
    {
        proof {
            assert(path@.take(i + 1).drop_last() =~= path@.take(i as int));
            assert(path@.take(i + 1).last() == path@[i as int]);
        }
        if chars[i] == '.' {
            n = n + 1;
        }
        i = i + 1;
    }
    assert(path@.take(path@.len() as int) =~= path@);
    n
}

impl RelationInclude {
    /// All related entities with all fields.
    pub fn new(path: &str) -> (r: RelationInclude)
        ensures
            r@ == (AskedView {
                path: path@,
                fields: Seq::empty(),
                filter: None,
                order_by: Seq::empty(),
                pagination: None,
            }),
    {
        let r = RelationInclude {
            path: path.to_owned(),
            fields: Vec::new(),
            filter: None,
            order_by: Vec::new(),
            pagination: None,
        };
        assert(r@.fields =~= Seq::<Seq<char>>::empty());
        assert(r@.order_by =~= Seq::<OrderView>::empty());
        r
    }
}

/// A query.
#[derive(Debug)]
pub struct GraphQuery {
    /// The root type.
    pub root_entity: String,
    /// The fields that are wanted; all where it is empty.
    pub fields: Vec<String>,
    /// The condition on the root entities.
    pub filter: Option<FilterExpr>,
    /// What to sort them by.
    pub order_by: Vec<OrderSpec>,
    /// Which of them are wanted.
    pub pagination: Option<Pagination>,
    /// The relations to follow.
    pub includes: Vec<RelationInclude>,
}

/// A query in mathematical terms.
pub ghost struct QueryView {
    /// The root type.
    pub root_entity: Seq<char>,
    /// The fields that are wanted.
    pub fields: Seq<Seq<char>>,
    /// The condition on the root entities.
    pub filter: Option<FilterView>,
    /// What to sort them by.
    pub order_by: Seq<OrderView>,
    /// Which of them are wanted.
    pub pagination: Option<Pagination>,
    /// The relations to follow.
    pub includes: Seq<AskedView>,
}

/// Relations that are asked for, in mathematical terms.
pub open spec fn asked_view(includes: Seq<RelationInclude>) -> Seq<AskedView> {
    includes.map_values(|r: RelationInclude| r@)
}

impl View for GraphQuery {
    type V = QueryView;

    open spec fn view(&self) -> QueryView {
        QueryView {
            root_entity: self.root_entity@,
            fields: texts(self.fields@),
            filter: self.filter.deep_view(),
            order_by: order_view(self.order_by@),
            pagination: self.pagination,
            includes: asked_view(self.includes@),
        }
    }
}

impl GraphQuery {
    /// All entities of a type with all fields.
    pub fn new(root_entity: &str) -> (q: GraphQuery)
        ensures
            q@ == (QueryView {
                root_entity: root_entity@,
                fields: Seq::empty(),
                filter: None,
                order_by: Seq::empty(),
                pagination: None,
                includes: Seq::empty(),
            }),
    {
        let q = GraphQuery {
            root_entity: root_entity.to_owned(),
            fields: Vec::new(),
            filter: None,
            order_by: Vec::new(),
            pagination: None,
            includes: Vec::new(),
        };
        assert(q@.fields =~= Seq::<Seq<char>>::empty());
        assert(q@.order_by =~= Seq::<OrderView>::empty());
        assert(q@.includes =~= Seq::<AskedView>::empty());
        q
    }

    /// With these fields only.
    pub fn with_fields(self, fields: Vec<String>) -> (q: GraphQuery)
        ensures
            q@ == (QueryView { fields: texts(fields@), ..self@ }),
    {
        let mut made = self;
        made.fields = fields;
        made
    }

    /// With a condition.
    pub fn with_filter(self, filter: FilterExpr) -> (q: GraphQuery)
        ensures
            q@ == (QueryView { filter: Some(filter@), ..self@ }),
    {
        let mut made = self;
        made.filter = Some(filter);
        made
    }

    /// Sorted by one field more.
    pub fn with_order(self, order: OrderSpec) -> (q: GraphQuery)
        ensures
            q@ == (QueryView { order_by: self@.order_by.push(order@), ..self@ }),
    {
        let mut made = self;
        let ghost before = made@.order_by;
        made.order_by.push(order);
        assert(made@.order_by =~= before.push(order@));
        made
    }

    /// Only a part of them.
    pub fn with_pagination(self, pagination: Pagination) -> (q: GraphQuery)
        ensures
            q@ == (QueryView { pagination: Some(pagination), ..self@ }),
    {
        let mut made = self;
        made.pagination = Some(pagination);
        made
    }

    /// Following one relation more.
    pub fn with_include(self, relation: RelationInclude) -> (q: GraphQuery)
        ensures
            q@ == (QueryView { includes: self@.includes.push(relation@), ..self@ }),
    {
        let mut made = self;
        let ghost before = made@.includes;
        made.includes.push(relation);
        assert(made@.includes =~= before.push(relation@));
        made
    }
}

/// What is said of an entity type that the schema does not have.
pub open spec fn unknown_entity_text(name: Seq<char>) -> Seq<char> {
    "Entity '"@ + name + "' not found"@
}

/// What is said of a relation that the schema does not have.
pub open spec fn unknown_relation_text(path: Seq<char>) -> Seq<char> {
    "Relation '"@ + path + "' not found"@
}

/// The type that a planned path leads to.
pub open spec fn planned_target(planned: Seq<IncludeView>, path: Seq<char>) -> Option<Seq<char>>
    decreases planned.len(),
{
    if planned.len() == 0 {
        None
    } else if planned.last().path == path {
        Some(planned.last().to_entity)
    } else {
        planned_target(planned.drop_last(), path)
    }
}

/// The last name of a path.
pub open spec fn last_segment(path: Seq<char>) -> Seq<char> {
    path.skip(last_dot(path) + 1)
}

/// One relation planned.
pub open spec fn plan_relation(
    schema: SchemaView,
    root: Seq<char>,
    planned: Seq<IncludeView>,
    asked: AskedView,
) -> Result<IncludeView, ErrorView> {
    let source = match parent_of(asked.path) {
        None => Some(root),
        Some(parent) => planned_target(planned, parent),
    };
    match source {
        None => Err(ErrorView::InvalidData(unknown_relation_text(asked.path))),
        Some(source) => match relation_named(schema.relations, source, last_segment(asked.path)) {
            None => Err(ErrorView::InvalidData(unknown_relation_text(asked.path))),
            Some(r) => Ok(
                IncludeView {
                    path: asked.path,
                    to_entity: r.to_entity,
                    to_field: r.to_field,
                    edge_entity: r.edge_entity,
                    name: r.name,
                    from_entity: r.from_entity,
                    from_field: r.from_field,
                    fields: asked.fields,
                    filter: asked.filter,
                    order_by: asked.order_by,
                    pagination: asked.pagination,
                },
            ),
        },
    }
}

/// Relations planned, in order.
pub open spec fn plan_relations(schema: SchemaView, root: Seq<char>, asked: Seq<AskedView>) -> Result<
    Seq<IncludeView>,
    ErrorView,
>
    decreases asked.len(),
{
    if asked.len() == 0 {
        Ok(Seq::empty())
    } else {
        match plan_relations(schema, root, asked.drop_last()) {
            Err(e) => Err(e),
            Ok(planned) => match plan_relation(schema, root, planned, asked.last()) {
                Err(e) => Err(e),
                Ok(rel) => Ok(planned.push(rel)),
            },
        }
    }
}

/// A query planned.
pub open spec fn plan_outcome(schema: SchemaView, query: QueryView, budget: FanoutBudget) -> Result<
    PlanView,
    ErrorView,
> {
    match entity_named(schema.entities, query.root_entity) {
        None => Err(ErrorView::InvalidData(unknown_entity_text(query.root_entity))),
        Some(e) => match plan_relations(schema, query.root_entity, query.includes) {
            Err(err) => Err(err),
            Ok(includes) => Ok(
                PlanView {
                    root_entity: query.root_entity,
                    root_fields: e.fields.map_values(|f: (Seq<char>, FieldType)| f.0),
                    fields: query.fields,
                    filter: query.filter,
                    order_by: query.order_by,
                    pagination: query.pagination,
                    includes,
                    budget,
                },
            ),
        },
    }
}

proof fn lemma_plan_fails(schema: SchemaView, root: Seq<char>, asked: Seq<AskedView>, n: int)
    requires
        0 <= n <= asked.len(),
        plan_relations(schema, root, asked.take(n)) is Err,
    ensures
        plan_relations(schema, root, asked) == plan_relations(schema, root, asked.take(n)),
    decreases asked.len() - n,
{
    if n == asked.len() {
        assert(asked.take(n) =~= asked);
    } else {
        assert(asked.take(n + 1).drop_last() =~= asked.take(n));
        lemma_plan_fails(schema, root, asked, n + 1);
    }
}

pub(crate) fn copy_orders(orders: &Vec<OrderSpec>) -> (out: Vec<OrderSpec>)
    ensures
        order_view(out@) == order_view(orders@),
{
    let mut out: Vec<OrderSpec> = Vec::new();
    let mut i: usize = 0;
    while i < orders.len()
        invariant
            i <= orders@.len(),
            out@.len() == i,
            forall|k: int| 0 <= k < i ==> (#[trigger] out@[k])@ == orders@[k]@,
        decreases orders@.len() - i,
    {
        out.push(orders[i].copy());
        i = i + 1;
    }
    assert(order_view(out@) =~= order_view(orders@));
    out
}

/// A copy of a condition that may be missing.
pub fn copy_filter(filter: &Option<FilterExpr>) -> (out: Option<FilterExpr>)
    ensures
        out.deep_view() == filter.deep_view(),
{
    match filter {
        Some(f) => Some(f.copy()),
        None => None,
    }
}

fn find_planned_target<'a>(planned: &'a Vec<IncludePlan>, path: &str) -> (r: Option<&'a String>)
    ensures
        r.deep_view() == planned_target(includes_view(planned@), path@),
{
    let ghost all = includes_view(planned@);
    let mut i: usize = planned.len();
    assert(all.take(i as int) =~= all);
    while i > 0
        invariant
            i <= planned@.len(),
            all == includes_view(planned@),
            planned_target(all, path@) == planned_target(all.take(i as int), path@),
        decreases i,
    {
        proof {
            assert(all.take(i as int).last() == all[i - 1]);
            assert(all.take(i as int).drop_last() =~= all.take(i - 1));
        }
        i = i - 1;
        if str_eq(planned[i].path.as_str(), path) {
            return Some(&planned[i].relation.to_entity);
        }
    }
    None
}

proof fn lemma_last_dot(path: Seq<char>)
    ensures
        -1 <= last_dot(path) < path.len(),
    decreases path.len(),
{
    if path.len() > 0 {
        lemma_last_dot(path.drop_last());
    }
}

fn segment_of(path: &str) -> (s: String)
    ensures
        s@ == last_segment(path@),
{
    let total: usize = path.unicode_len();
    let skip: usize = match parent_path(path) {
        Some(parent) => {
            proof {
                lemma_last_dot(path@);
            }
            parent.as_str().unicode_len() + 1
        },
        None => 0,
    };
    proof {
        lemma_last_dot(path@);
        assert(skip == last_dot(path@) + 1);
        assert(path@.subrange(skip as int, path@.len() as int) =~= path@.skip(skip as int));
    }
    path.substring_char(skip, total).to_owned()
}

fn quoted(before: &str, name: &str, after: &str) -> (s: String)
    ensures
        s@ == before@ + name@ + after@,
{
    let mut s: String = before.to_owned();
    s.append(name);
    s.append(after);
    s
}

/// Plans a query.
pub fn plan_with_budget(catalog: &Catalog, query: &GraphQuery, budget: FanoutBudget) -> (r: Result<
    QueryPlan,
    DbError,
>)
    ensures
        match r {
            Ok(plan) => plan_outcome(catalog@, query@, budget) == Ok::<PlanView, ErrorView>(plan@),
            Err(e) => plan_outcome(catalog@, query@, budget) == Err::<PlanView, ErrorView>(e@),
        },
{
    let root: &str = query.root_entity.as_str();
    let root_fields: Vec<String> = match catalog.get_entity(root) {
        Some(entity) => entity.field_list(),
        None => {
            return Err(DbError::InvalidData(quoted("Entity '", root, "' not found")));
        },
    };
    let ghost all = asked_view(query.includes@);
    let mut includes: Vec<IncludePlan> = Vec::new();
    let mut i: usize = 0;
    assert(all.take(0) =~= Seq::<AskedView>::empty());
    assert(includes_view(includes@) =~= Seq::<IncludeView>::empty());
    while i < query.includes.len()
        invariant
            i <= query.includes@.len(),
            all == asked_view(query.includes@),
            root@ == query@.root_entity,
            entity_named(catalog@.entities, query@.root_entity) is Some,
            plan_relations(catalog@, root@, all.take(i as int)) == Ok::<
                Seq<IncludeView>,
                ErrorView,
            >(includes_view(includes@)),
        decreases query.includes@.len() - i,
    {
        let asked: &RelationInclude = &query.includes[i];
        let ghost before = includes_view(includes@);
        proof {
            assert(all.take(i + 1).drop_last() =~= all.take(i as int));
            assert(all.take(i + 1).last() == asked@);
            if plan_relations(catalog@, root@, all.take(i + 1)) is Err {
                lemma_plan_fails(catalog@, root@, all, i + 1);
            }
        }
        let source: Option<String> = match parent_path(asked.path.as_str()) {
            None => Some(root.to_owned()),
            Some(parent) => match find_planned_target(&includes, parent.as_str()) {
                Some(target) => Some(target.clone()),
                None => None,
            },
        };
        let name: String = segment_of(asked.path.as_str());
        let relation: Option<&RelationDef> = match &source {
            Some(source) => catalog.get_relation(source.as_str(), name.as_str()),
            None => None,
        };
        match relation {
            Some(r) => {
                let rel = IncludePlan {
                    path: asked.path.clone(),
                    relation: r.copy(),
                    fields: copy_texts(asked.fields.as_slice()),
                    filter: copy_filter(&asked.filter),
                    order_by: copy_orders(&asked.order_by),
                    pagination: asked.pagination,
                };
                includes.push(rel);
                assert(includes_view(includes@) =~= before.push(rel@));
            },
            None => {
                return Err(
                    DbError::InvalidData(
                        quoted("Relation '", asked.path.as_str(), "' not found"),
                    ),
                );
            },
        }
        i = i + 1;
    }
    assert(all.take(all.len() as int) =~= all);
    Ok(
        QueryPlan {
            root_entity: query.root_entity.clone(),
            root_fields,
            fields: copy_texts(query.fields.as_slice()),
            filter: copy_filter(&query.filter),
            order_by: copy_orders(&query.order_by),
            pagination: query.pagination,
            includes,
            budget,
        },
    )
}

/// Whether one of the relations has a path.
pub open spec fn path_planned(includes: Seq<IncludeView>, path: Seq<char>) -> bool {
    exists|i: int| 0 <= i < includes.len() && (#[trigger] includes[i]).path == path
}

/// The relations, each path once.
pub open spec fn deduplicated(includes: Seq<IncludeView>) -> Seq<IncludeView>
    decreases includes.len(),
{
    if includes.len() == 0 {
        Seq::empty()
    } else {
        let init = deduplicated(includes.drop_last());
        if path_planned(init, includes.last().path) {
            init
        } else {
            init.push(includes.last())
        }
    }
}

impl QueryPlan {
    /// Leaves of relations with the same path only the first.
    pub fn deduplicate_includes(&mut self)
        ensures
            final(self)@ == (PlanView {
                includes: deduplicated(old(self)@.includes),
                ..old(self)@
            }),
    {
        let ghost all = self@.includes;
        let ghost whole = self@;
        let mut i: usize = 0;
        let ghost mut done: int = 0;
        proof {
            assert(all.take(0) =~= Seq::<IncludeView>::empty());
            assert(all =~= deduplicated(all.take(0)) + all.skip(0));
        }
        while i < self.includes.len()
            invariant
                i <= self.includes@.len(),
                0 <= done <= all.len(),
                deduplicated(all.take(done)).len() == i,
                self@.includes == deduplicated(all.take(done)) + all.skip(done),
                self@ == (PlanView { includes: self@.includes, ..whole }),
            decreases all.len() - done,
        {
            let ghost head = deduplicated(all.take(done));
            let ghost before = self@.includes;
            proof {
                assert(before.len() == self.includes@.len());
                assert(before[i as int] == all.skip(done)[0]);
                assert(before[i as int] == self.includes@[i as int]@);
                assert(all.take(done + 1).drop_last() =~= all.take(done));
                assert(all.take(done + 1).last() == all[done]);
            }
            let mut known: bool = false;
            let mut k: usize = 0;
            while k < i && !known
                invariant
                    k <= i < self.includes@.len(),
                    head.len() == i,
                    before == includes_view(self.includes@),
                    before == head + all.skip(done),
                    0 <= done < all.len(),
                    before[i as int] == all[done],
                    known ==> path_planned(head, all[done].path),
                    forall|j: int| 0 <= j < k ==> (#[trigger] head[j]).path != all[done].path,
                decreases i - k, if known { 0int } else { 1int },
            {
                assert(head[k as int] == before[k as int]);
                assert(before[k as int] == self.includes@[k as int]@);
                assert(before[i as int] == self.includes@[i as int]@);
                if str_eq(self.includes[k].path.as_str(), self.includes[i].path.as_str()) {
                    known = true;
                } else {
                    k = k + 1;
                }
            }
            if known {
                let _ = self.includes.remove(i);
                assert(self@.includes =~= before.remove(i as int));
                assert(self@.includes =~= head + all.skip(done + 1));
            } else {
                assert(!path_planned(head, all[done].path));
                i = i + 1;
                assert(self@.includes =~= head.push(all[done]) + all.skip(done + 1));
            }
            proof {
                done = done + 1;
            }
        }
        proof {
            assert(self@.includes.len() == self.includes@.len());
            assert(all.take(done) =~= all);
            assert(self@.includes =~= deduplicated(all));
        }
    }
}

} // verus!

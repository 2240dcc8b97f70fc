//! Plans that are used again: a plan belongs to the structure of a query, and serves
//! every query of that structure, whatever its conditions are.

use vstd::prelude::*;

use crate::catalog::SchemaView;
use crate::error::ErrorView;
use crate::query::ast::{FanoutBudget, IncludePlan, IncludeView, PlanView, QueryPlan};
use crate::query::includes::parent_of;
use crate::query::planner::{
    copy_filter, copy_orders, plan_outcome, plan_relations, planned_target, AskedView, GraphQuery,
    QueryView, RelationInclude,
};
use crate::text::{copy_texts, str_eq};

verus! {

/// Whether a plan was made for queries of the structure of a query: from the same
/// root, along the same paths.
pub open spec fn fits(plan: PlanView, query: QueryView) -> bool {
    &&& plan.root_entity == query.root_entity
    &&& plan.includes.len() == query.includes.len()
    &&& forall|i: int|
        0 <= i < plan.includes.len() ==> (#[trigger] plan.includes[i]).path
            == query.includes[i].path
}

/// A planned relation with what a query asks of it.
pub open spec fn rebound_relation(rel: IncludeView, asked: AskedView) -> IncludeView {
    IncludeView {
        fields: asked.fields,
        filter: asked.filter,
        order_by: asked.order_by,
        pagination: asked.pagination,
        ..rel
    }
}

/// A plan with what a query asks for.
pub open spec fn rebound(plan: PlanView, query: QueryView, budget: FanoutBudget) -> PlanView {
    PlanView {
        fields: query.fields,
        filter: query.filter,
        order_by: query.order_by,
        pagination: query.pagination,
        includes: Seq::new(
            plan.includes.len(),
            |i: int| rebound_relation(plan.includes[i], query.includes[i]),
        ),
        budget,
        ..plan
    }
}

/// The plan for a query: the one at hand where it fits, else a new one.
pub open spec fn chosen_plan(
    cached: Option<PlanView>,
    schema: SchemaView,
    query: QueryView,
    budget: FanoutBudget,
) -> Result<PlanView, ErrorView> {
    match cached {
        Some(plan) => if fits(plan, query) {
            Ok(rebound(plan, query, budget))
        } else {
            plan_outcome(schema, query, budget)
        },
        None => plan_outcome(schema, query, budget),
    }
}

/// Whether a plan fits a query.
pub fn plan_fits(plan: &QueryPlan, query: &GraphQuery) -> (r: bool)
    ensures
        r == fits(plan@, query@),
{
    if !str_eq(plan.root_entity.as_str(), query.root_entity.as_str()) {
        return false;
    }
    if plan.includes.len() != query.includes.len() {
        assert(plan@.includes.len() == plan.includes@.len());
        assert(query@.includes.len() == query.includes@.len());
        return false;
    }
    let mut i: usize = 0;
    while i < plan.includes.len()
        invariant
            i <= plan.includes@.len(),
            plan.includes@.len() == query.includes@.len(),
            forall|k: int|
                0 <= k < i ==> (#[trigger] plan@.includes[k]).path == query@.includes[k].path,
        decreases plan.includes@.len() - i,
    {
        assert(plan@.includes[i as int].path == plan.includes@[i as int].path@);
        assert(query@.includes[i as int].path == query.includes@[i as int].path@);
        if !str_eq(plan.includes[i].path.as_str(), query.includes[i].path.as_str()) {
            return false;
        }
        i = i + 1;
    }
    true
}

/// A copy of a plan.
pub fn copy_plan(plan: &QueryPlan) -> (r: QueryPlan)
    ensures
        r@ == plan@,
{
    let mut includes: Vec<IncludePlan> = Vec::new();
    let mut i: usize = 0;
    while i < plan.includes.len()
        invariant
            i <= plan.includes@.len(),
            includes@.len() == i,
            forall|k: int| 0 <= k < i ==> (#[trigger] includes@[k])@ == plan.includes@[k]@,
        decreases plan.includes@.len() - i,
    {
        let one: &IncludePlan = &plan.includes[i];
        includes.push(
            IncludePlan {
                path: one.path.clone(),
                relation: one.relation.copy(),
                fields: copy_texts(one.fields.as_slice()),
                filter: copy_filter(&one.filter),
                order_by: copy_orders(&one.order_by),
                pagination: one.pagination,
            },
        );
        i = i + 1;
    }
    let r = QueryPlan {
        root_entity: plan.root_entity.clone(),
        root_fields: copy_texts(plan.root_fields.as_slice()),
        fields: copy_texts(plan.fields.as_slice()),
        filter: copy_filter(&plan.filter),
        order_by: copy_orders(&plan.order_by),
        pagination: plan.pagination,
        includes,
        budget: plan.budget,
    };
    assert(r@.includes =~= plan@.includes);
    r
}

/// Gives a plan what a query asks for.
pub fn rebind(plan: &QueryPlan, query: &GraphQuery, budget: FanoutBudget) -> (r: QueryPlan)
    requires
        fits(plan@, query@),
    ensures
        r@ == rebound(plan@, query@, budget),
{
    let mut includes: Vec<IncludePlan> = Vec::new();
    let mut i: usize = 0;
    assert(plan@.includes.len() == plan.includes@.len());
    assert(query@.includes.len() == query.includes@.len());
    while i < plan.includes.len()
        invariant
            i <= plan.includes@.len(),
            plan.includes@.len() == query.includes@.len(),
            includes@.len() == i,
            forall|k: int|
                0 <= k < i ==> (#[trigger] includes@[k])@ == rebound_relation(
                    plan@.includes[k],
                    query@.includes[k],
                ),
        decreases plan.includes@.len() - i,
    {
        let old_one: &IncludePlan = &plan.includes[i];
        let asked: &RelationInclude = &query.includes[i];
        assert(plan@.includes[i as int] == old_one@);
        assert(query@.includes[i as int] == asked@);
        includes.push(
            IncludePlan {
                path: old_one.path.clone(),
                relation: old_one.relation.copy(),
                fields: copy_texts(asked.fields.as_slice()),
                filter: copy_filter(&asked.filter),
                order_by: copy_orders(&asked.order_by),
                pagination: asked.pagination,
            },
        );
        i = i + 1;
    }
    let r = QueryPlan {
        root_entity: plan.root_entity.clone(),
        root_fields: copy_texts(plan.root_fields.as_slice()),
        fields: copy_texts(query.fields.as_slice()),
        filter: copy_filter(&query.filter),
        order_by: copy_orders(&query.order_by),
        pagination: query.pagination,
        includes,
        budget,
    };
    assert(r@.includes =~= rebound(plan@, query@, budget).includes);
    r
}

proof fn lemma_same_targets(a: Seq<IncludeView>, b: Seq<IncludeView>, path: Seq<char>)
    requires
        a.len() == b.len(),
        forall|i: int|
            0 <= i < a.len() ==> (#[trigger] a[i]).path == b[i].path && a[i].to_entity
                == b[i].to_entity,
    ensures
        planned_target(a, path) == planned_target(b, path),
    decreases a.len(),
{
    if a.len() > 0 {
        assert(a[a.len() - 1].path == b[b.len() - 1].path);
        assert forall|i: int| 0 <= i < a.len() - 1 implies (#[trigger] a.drop_last()[i]).path
            == b.drop_last()[i].path && a.drop_last()[i].to_entity == b.drop_last()[i].to_entity by {
            assert(a[i].path == b[i].path);
        }
        lemma_same_targets(a.drop_last(), b.drop_last(), path);
    }
}

/// Relations that are asked for along the same paths are planned alike.
proof fn lemma_relations_planned_alike(
    schema: SchemaView,
    root: Seq<char>,
    asked: Seq<AskedView>,
    other: Seq<AskedView>,
)
    requires
        asked.len() == other.len(),
        forall|i: int| 0 <= i < asked.len() ==> (#[trigger] asked[i]).path == other[i].path,
        plan_relations(schema, root, asked) is Ok,
    ensures
        plan_relations(schema, root, other) is Ok,
        plan_relations(schema, root, asked)->Ok_0.len() == asked.len(),
        plan_relations(schema, root, other)->Ok_0.len() == asked.len(),
        forall|i: int|
            0 <= i < asked.len() ==> #[trigger] plan_relations(schema, root, other)->Ok_0[i]
                == rebound_relation(plan_relations(schema, root, asked)->Ok_0[i], other[i]),
        forall|i: int|
            0 <= i < asked.len() ==> (#[trigger] plan_relations(
                schema,
                root,
                asked,
            )->Ok_0[i]).path == asked[i].path,
    decreases asked.len(),
{
    if asked.len() > 0 {
        let a = asked.drop_last();
        let b = other.drop_last();
        assert forall|i: int| 0 <= i < a.len() implies (#[trigger] a[i]).path == b[i].path by {
            assert(asked[i].path == other[i].path);
        }
        assert(asked[asked.len() - 1].path == other[other.len() - 1].path);
        lemma_relations_planned_alike(schema, root, a, b);
        let pa = plan_relations(schema, root, a)->Ok_0;
        let pb = plan_relations(schema, root, b)->Ok_0;
        assert forall|i: int| 0 <= i < pa.len() implies (#[trigger] pa[i]).path == pb[i].path
            && pa[i].to_entity == pb[i].to_entity by {
            assert(pb[i] == rebound_relation(pa[i], b[i]));
        }
        if parent_of(asked.last().path) is Some {
            lemma_same_targets(pa, pb, parent_of(asked.last().path)->0);
        }
        let all_a = plan_relations(schema, root, asked)->Ok_0;
        let all_b = plan_relations(schema, root, other)->Ok_0;
        assert forall|i: int| 0 <= i < asked.len() implies #[trigger] all_b[i]
            == rebound_relation(all_a[i], other[i]) by {
            if i < a.len() {
                assert(pb[i] == rebound_relation(pa[i], b[i]));
            }
        }
        assert forall|i: int| 0 <= i < asked.len() implies (#[trigger] all_a[i]).path
            == asked[i].path by {
            if i < a.len() {
                assert(pa[i].path == a[i].path);
            }
        }
    }
}

/// A plan that was made under the schema serves every query that it fits just as a
/// new plan would, whatever the conditions of the two queries are.
pub proof fn law_reused_plan_is_new(
    schema: SchemaView,
    first: QueryView,
    query: QueryView,
    budget: FanoutBudget,
)
    requires
        plan_outcome(schema, first, budget) is Ok,
    ensures
        chosen_plan(
            Some(plan_outcome(schema, first, budget)->Ok_0),
            schema,
            query,
            budget,
        ) == plan_outcome(schema, query, budget),
{
    let plan = plan_outcome(schema, first, budget)->Ok_0;
    if fits(plan, query) {
        lemma_relations_planned_alike(schema, first.root_entity, first.includes, first.includes);
        assert forall|i: int| 0 <= i < first.includes.len() implies (
        #[trigger] first.includes[i]).path == query.includes[i].path by {
            assert(plan.includes[i].path == query.includes[i].path);
        }
        lemma_relations_planned_alike(schema, first.root_entity, first.includes, query.includes);
        let fresh = plan_relations(schema, query.root_entity, query.includes)->Ok_0;
        assert(fresh =~= rebound(plan, query, budget).includes);
    }
}

} // verus!

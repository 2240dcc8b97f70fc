//! Plans that are kept, each for all queries of one structure.

use vstd::prelude::*;

use crate::catalog::SchemaView;
use crate::error::ErrorView;
use crate::query::ast::{FanoutBudget, PlanView, QueryPlan};
use crate::query::executor::{bump, bumped};
use crate::query::plan_reuse::{chosen_plan, fits, law_reused_plan_is_new, plan_fits};
use crate::query::planner::{plan_outcome, GraphQuery, QueryView};

verus! {

/// Plans that are kept, each with the version of the schema that it was made under.
#[derive(Debug)]
pub struct PlanCache {
    plans: Vec<(u64, QueryPlan)>,
    capacity: usize,
    evictions: u64,
}

/// Plans that are kept, in mathematical terms.
pub ghost struct CacheView {
    /// The plans, the oldest first, each with its version.
    pub plans: Seq<(u64, PlanView)>,
    /// How many there are at most.
    pub capacity: nat,
    /// How many have made room.
    pub evictions: u64,
}

/// The plan for queries of a structure under a version of the schema, where one is
/// kept.
pub open spec fn kept_plan(plans: Seq<(u64, PlanView)>, version: u64, query: QueryView) -> Option<
    PlanView,
>
    decreases plans.len(),
{
    if plans.len() == 0 {
        None
    } else if plans.last().0 == version && fits(plans.last().1, query) {
        Some(plans.last().1)
    } else {
        kept_plan(plans.drop_last(), version, query)
    }
}

/// The plans with one more. The oldest makes room where there is none.
pub open spec fn with_plan(cache: CacheView, version: u64, plan: PlanView) -> CacheView {
    if cache.capacity == 0 {
        cache
    } else if cache.plans.len() >= cache.capacity {
        CacheView {
            plans: cache.plans.drop_first().push((version, plan)),
            evictions: bumped(cache.evictions),
            ..cache
        }
    } else {
        CacheView { plans: cache.plans.push((version, plan)), ..cache }
    }
}

/// The plan that serves a query.
pub open spec fn served_plan(
    cache: CacheView,
    schema: SchemaView,
    query: QueryView,
    budget: FanoutBudget,
) -> Result<PlanView, ErrorView> {
    chosen_plan(kept_plan(cache.plans, schema.version, query), schema, query, budget)
}

/// The plans that are kept after a query has been served: a new one is kept.
pub open spec fn cache_after(
    cache: CacheView,
    schema: SchemaView,
    query: QueryView,
    budget: FanoutBudget,
) -> CacheView {
    match served_plan(cache, schema, query, budget) {
        Ok(plan) => if kept_plan(cache.plans, schema.version, query) is Some {
            cache
        } else {
            with_plan(cache, schema.version, plan)
        },
        Err(_) => cache,
    }
}

/// Whether a plan was made under a schema.
pub open spec fn made_under(schema: SchemaView, plan: PlanView, budget: FanoutBudget) -> bool {
    exists|query: QueryView|
        #[trigger] plan_outcome(schema, query, budget) == Ok::<PlanView, ErrorView>(plan)
}

/// Whether all plans of the version of a schema were made under it.
pub open spec fn all_made_under(
    plans: Seq<(u64, PlanView)>,
    schema: SchemaView,
    budget: FanoutBudget,
) -> bool {
    forall|i: int|
        0 <= i < plans.len() && (#[trigger] plans[i]).0 == schema.version ==> made_under(
            schema,
            plans[i].1,
            budget,
        )
}

/// A plan that is kept for a query fits it.
pub proof fn lemma_kept_plan_fits(plans: Seq<(u64, PlanView)>, version: u64, query: QueryView)
    ensures
        kept_plan(plans, version, query) matches Some(plan) ==> fits(plan, query),
    decreases plans.len(),
{
    if plans.len() > 0 {
        lemma_kept_plan_fits(plans.drop_last(), version, query);
    }
}

proof fn lemma_kept_plan_made(
    plans: Seq<(u64, PlanView)>,
    schema: SchemaView,
    query: QueryView,
    budget: FanoutBudget,
)
    requires
        all_made_under(plans, schema, budget),
    ensures
        kept_plan(plans, schema.version, query) matches Some(plan) ==> made_under(
            schema,
            plan,
            budget,
        ),
    decreases plans.len(),
{
    if plans.len() > 0 {
        assert(plans[plans.len() - 1] == plans.last());
        assert(all_made_under(plans.drop_last(), schema, budget)) by {
            assert forall|i: int|
                0 <= i < plans.drop_last().len() && (#[trigger] plans.drop_last()[i]).0
                    == schema.version implies made_under(schema, plans.drop_last()[i].1, budget) by {
                assert(plans[i] == plans.drop_last()[i]);
            }
        }
        lemma_kept_plan_made(plans.drop_last(), schema, query, budget);
    }
}

/// Where the plans that are kept were made by serving queries under the schema in
/// force, each query is served as if none were kept, and the plans stay such.
pub proof fn law_cache_changes_no_plan(
    cache: CacheView,
    schema: SchemaView,
    query: QueryView,
    budget: FanoutBudget,
)
    requires
        all_made_under(cache.plans, schema, budget),
    ensures
        served_plan(cache, schema, query, budget) == plan_outcome(schema, query, budget),
        all_made_under(cache_after(cache, schema, query, budget).plans, schema, budget),
        cache.plans.len() <= cache.capacity ==> cache_after(
            cache,
            schema,
            query,
            budget,
        ).plans.len() <= cache.capacity,
{
    lemma_kept_plan_made(cache.plans, schema, query, budget);
    if let Some(plan) = kept_plan(cache.plans, schema.version, query) {
        let first = choose|first: QueryView|
            #[trigger] plan_outcome(schema, first, budget) == Ok::<PlanView, ErrorView>(plan);
        law_reused_plan_is_new(schema, first, query, budget);
    }
    let after = cache_after(cache, schema, query, budget).plans;
    assert forall|i: int|
        0 <= i < after.len() && (#[trigger] after[i]).0 == schema.version implies made_under(
        schema,
        after[i].1,
        budget,
    ) by {
        if after != cache.plans {
            let shift = cache.plans.len() + 1 - after.len();
            if i < after.len() - 1 {
                assert(after[i] == cache.plans[i + shift]);
            } else {
                assert(plan_outcome(schema, query, budget) == Ok::<PlanView, ErrorView>(after[i].1));
            }
        }
    }
}

impl View for PlanCache {
    type V = CacheView;

    closed spec fn view(&self) -> CacheView {
        CacheView {
            plans: self.plans@.map_values(|p: (u64, QueryPlan)| (p.0, p.1@)),
            capacity: self.capacity as nat,
            evictions: self.evictions,
        }
    }
}

impl PlanCache {
    /// A place for so many plans.
    pub fn new(capacity: usize) -> (c: PlanCache)
        ensures
            c@ == (CacheView { plans: Seq::empty(), capacity: capacity as nat, evictions: 0 }),
    {
        let c = PlanCache { plans: Vec::new(), capacity, evictions: 0 };
        assert(c@.plans =~= Seq::<(u64, PlanView)>::empty());
        c
    }

    /// How many plans are kept.
    pub fn len(&self) -> (n: usize)
        ensures
            n == self@.plans.len(),
    {
        self.plans.len()
    }

    /// How many plans have made room.
    pub fn evictions(&self) -> (n: u64)
        ensures
            n == self@.evictions,
    {
        self.evictions
    }

    /// Keeps no plan any longer.
    pub fn clear(&mut self)
        ensures
            final(self)@ == (CacheView { plans: Seq::empty(), ..old(self)@ }),
    {
        self.plans = Vec::new();
        assert(self@.plans =~= Seq::<(u64, PlanView)>::empty());
    }

    /// The plan for queries of a structure under a version of the schema, where one
    /// is kept.
    pub fn get(&self, version: u64, query: &GraphQuery) -> (r: Option<&QueryPlan>)
        ensures
            match r {
                Some(plan) => kept_plan(self@.plans, version, query@) == Some(plan@),
                None => kept_plan(self@.plans, version, query@) is None,
            },
    {
        let ghost all = self@.plans;
        let mut i: usize = self.plans.len();
        assert(all.take(all.len() as int) =~= all);
        while i > 0
            invariant
                i <= self.plans@.len(),
                all == self.plans@.map_values(|p: (u64, QueryPlan)| (p.0, p.1@)),
                kept_plan(all, version, query@) == kept_plan(
                    all.take(i as int),
                    version,
                    query@,
                ),
            decreases i,
        {
            proof {
                assert(all.take(i as int).last() == all[i - 1]);
                assert(all.take(i as int).drop_last() =~= all.take(i - 1));
            }
            i = i - 1;
            if self.plans[i].0 == version && plan_fits(&self.plans[i].1, query) {
                return Some(&self.plans[i].1);
            }
        }
        None
    }

    /// Keeps a plan that was made under a version of the schema.
    pub fn insert(&mut self, version: u64, plan: QueryPlan)
        ensures
            final(self)@ == with_plan(old(self)@, version, plan@),
    {
        let ghost before = self@;
        if self.capacity > 0 {
            if self.plans.len() >= self.capacity {
                let _ = self.plans.remove(0);
                self.evictions = bump(self.evictions);
            }
            self.plans.push((version, plan));
        }
        assert(self@.plans =~= with_plan(before, version, plan@).plans);
    }
}

} // verus!

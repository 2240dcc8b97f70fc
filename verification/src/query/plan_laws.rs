//! What holds of plans: which relations they follow, and between which types.

use vstd::prelude::*;

use crate::catalog::{relation_named, RelationView, SchemaView};
use crate::query::ast::IncludeView;
use crate::query::graph_laws::{lemma_parents, lemma_where_the_dot_is, path_under, undotted};
use crate::query::planner::{
    deduplicated, last_segment, path_planned, plan_relations, planned_target, AskedView,
};

verus! {

proof fn lemma_relation_is_there(
    relations: Seq<RelationView>,
    from: Seq<char>,
    name: Seq<char>,
)
    ensures
        relation_named(relations, from, name) matches Some(r) ==> relations.contains(r)
            && r.from_entity == from && r.name == name,
        relation_named(relations, from, name) is None ==> forall|i: int|
            0 <= i < relations.len() ==> (#[trigger] relations[i]).from_entity != from
                || relations[i].name != name,
    decreases relations.len(),
{
    if relations.len() > 0 {
        let rest = relations.drop_first();
        lemma_relation_is_there(rest, from, name);
        if relations[0].from_entity == from && relations[0].name == name {
            assert(relations.contains(relations[0]));
        } else {
            if let Some(r) = relation_named(rest, from, name) {
                let i = choose|i: int| 0 <= i < rest.len() && rest[i] == r;
                assert(relations[i + 1] == r);
            } else {
                assert forall|i: int| 0 <= i < relations.len() implies (
                #[trigger] relations[i]).from_entity != from || relations[i].name != name by {
                    if i > 0 {
                        assert(rest[i - 1] == relations[i]);
                    }
                }
            }
        }
    }
}

proof fn lemma_target_is_planned(planned: Seq<IncludeView>, path: Seq<char>)
    ensures
        planned_target(planned, path) matches Some(entity) ==> exists|i: int|
            0 <= i < planned.len() && (#[trigger] planned[i]).path == path && planned[i].to_entity
                == entity,
    decreases planned.len(),
{
    if planned.len() > 0 {
        let init = planned.drop_last();
        lemma_target_is_planned(init, path);
        if planned.last().path == path {
            assert(planned[planned.len() - 1].path == path);
        } else if let Some(entity) = planned_target(init, path) {
            let i = choose|i: int|
                0 <= i < init.len() && (#[trigger] init[i]).path == path && init[i].to_entity
                    == entity;
            assert(planned[i] == init[i]);
        }
    }
}

/// Whether a relation is one of the schema.
pub open spec fn is_relation_of(schema: SchemaView, rel: IncludeView) -> bool {
    exists|r: RelationView| #[trigger]
        schema.relations.contains(r) && r.name == rel.name && r.from_entity == rel.from_entity
            && r.from_field == rel.from_field && r.to_entity == rel.to_entity && r.to_field
            == rel.to_field && r.edge_entity == rel.edge_entity
}

/// Each relation of a plan is one of the schema, has the name that its path ends with,
/// starts from the root type or from the type that an earlier relation of the plan leads
/// to, and is followed as was asked.
pub proof fn law_planned_relations_connect(
    schema: SchemaView,
    root: Seq<char>,
    asked: Seq<AskedView>,
    i: int,
    parent: Seq<char>,
    name: Seq<char>,
)
    requires
        plan_relations(schema, root, asked) is Ok,
        0 <= i < asked.len(),
        undotted(name),
        asked[i].path == path_under(parent, name),
    ensures
        ({
            let planned = plan_relations(schema, root, asked)->Ok_0;
            let rel = planned[i];
            &&& planned.len() == asked.len()
            &&& is_relation_of(schema, rel)
            &&& rel.path == asked[i].path
            &&& rel.name == name
            &&& if parent.len() == 0 {
                rel.from_entity == root
            } else {
                exists|j: int|
                    0 <= j < i && (#[trigger] planned[j]).path == parent && planned[j].to_entity
                        == rel.from_entity
            }
            &&& rel.fields == asked[i].fields
            &&& rel.filter == asked[i].filter
            &&& rel.order_by == asked[i].order_by
            &&& rel.pagination == asked[i].pagination
        }),
    decreases asked.len(),
{
    let init = asked.drop_last();
    let planned = plan_relations(schema, root, asked)->Ok_0;
    let before = plan_relations(schema, root, init)->Ok_0;
    lemma_planned_len(schema, root, init);
    if i < init.len() {
        assert(init[i] == asked[i]);
        law_planned_relations_connect(schema, root, init, i, parent, name);
        assert(planned[i] == before[i]);
        if parent.len() > 0 {
            let j = choose|j: int|
                0 <= j < i && (#[trigger] before[j]).path == parent && before[j].to_entity
                    == before[i].from_entity;
            assert(planned[j] == before[j]);
        }
    } else {
        assert(asked.last() == asked[i]);
        lemma_parents(parent, name);
        lemma_segment(parent, name);
        let from = if parent.len() == 0 {
            root
        } else {
            planned_target(before, parent)->0
        };
        lemma_relation_is_there(schema.relations, from, name);
        let r = relation_named(schema.relations, from, name)->0;
        assert(schema.relations.contains(r));
        if parent.len() > 0 {
            lemma_target_is_planned(before, parent);
            let j = choose|j: int|
                0 <= j < before.len() && (#[trigger] before[j]).path == parent
                    && before[j].to_entity == from;
            assert(planned[j] == before[j]);
        }
    }
}

proof fn lemma_planned_len(schema: SchemaView, root: Seq<char>, asked: Seq<AskedView>)
    requires
        plan_relations(schema, root, asked) is Ok,
    ensures
        plan_relations(schema, root, asked)->Ok_0.len() == asked.len(),
    decreases asked.len(),
{
    if asked.len() > 0 {
        lemma_planned_len(schema, root, asked.drop_last());
    }
}

proof fn lemma_segment(parent: Seq<char>, name: Seq<char>)
    requires
        undotted(name),
    ensures
        last_segment(path_under(parent, name)) == name,
{
    lemma_where_the_dot_is(parent, name);
    let path = path_under(parent, name);
    assert(last_segment(path) =~= name);
}

/// A relation of the root that the schema does not have is refused.
pub proof fn law_unknown_relation_is_refused(
    schema: SchemaView,
    root: Seq<char>,
    asked: AskedView,
)
    requires
        undotted(asked.path),
        forall|i: int|
            0 <= i < schema.relations.len() ==> (#[trigger] schema.relations[i]).from_entity != root
                || schema.relations[i].name != asked.path,
    ensures
        plan_relations(schema, root, seq![asked]) is Err,
{
    let all = seq![asked];
    assert(all.drop_last() =~= Seq::<AskedView>::empty());
    assert(all.last() == asked);
    reveal_with_fuel(plan_relations, 2);
    lemma_parents(Seq::empty(), asked.path);
    lemma_segment(Seq::empty(), asked.path);
    assert(path_under(Seq::empty(), asked.path) == asked.path);
    lemma_relation_is_there(schema.relations, root, asked.path);
    if let Some(r) = relation_named(schema.relations, root, asked.path) {
        let i = choose|i: int| 0 <= i < schema.relations.len() && schema.relations[i] == r;
        assert(schema.relations[i].from_entity == root);
    }
}

/// Where relations are followed once for each path, the first of each path stays, in
/// order, and no path comes twice.
pub proof fn law_each_path_once(includes: Seq<IncludeView>, path: Seq<char>)
    ensures
        ({
            let once = deduplicated(includes);
            &&& path_planned(once, path) <==> path_planned(includes, path)
            &&& forall|i: int, j: int|
                0 <= i < j < once.len() ==> (#[trigger] once[i]).path != (#[trigger] once[j]).path
            &&& forall|i: int|
                0 <= i < once.len() ==> includes.contains(#[trigger] once[i])
        }),
    decreases includes.len(),
{
    if includes.len() > 0 {
        let init = includes.drop_last();
        let last = includes[includes.len() - 1];
        assert(last == includes.last());
        law_each_path_once(init, path);
        law_each_path_once(init, last.path);
        let before = deduplicated(init);
        let once = deduplicated(includes);
        assert(path_planned(includes, path) <==> path_planned(init, path) || last.path == path) by {
            if path_planned(init, path) {
                let i = choose|i: int| 0 <= i < init.len() && (#[trigger] init[i]).path == path;
                assert(includes[i].path == path);
            }
            if path_planned(includes, path) {
                let i = choose|i: int|
                    0 <= i < includes.len() && (#[trigger] includes[i]).path == path;
                if i < init.len() {
                    assert(init[i].path == path);
                }
            }
        }
        assert(path_planned(once, path) <==> path_planned(before, path) || last.path == path) by {
            if path_planned(before, path) {
                let i = choose|i: int| 0 <= i < before.len() && (#[trigger] before[i]).path == path;
                assert(once[i].path == path);
            }
            if path_planned(once, path) {
                let i = choose|i: int| 0 <= i < once.len() && (#[trigger] once[i]).path == path;
                if i < before.len() {
                    assert(before[i].path == path);
                }
            }
            if last.path == path && !path_planned(before, path) {
                assert(once[before.len() as int].path == path);
            }
        }
        assert forall|i: int| 0 <= i < once.len() implies includes.contains(#[trigger] once[i]) by {
            if i < before.len() {
                assert(once[i] == before[i]);
                let k = choose|k: int| 0 <= k < init.len() && init[k] == before[i];
                assert(includes[k] == once[i]);
            }
        }
        assert forall|i: int, j: int| 0 <= i < j < once.len() implies (#[trigger] once[i]).path != (
        #[trigger] once[j]).path by {
            if j < before.len() {
                assert(before[i].path != before[j].path);
            } else {
                assert(once[i] == before[i]);
            }
        }
    }
}

} // verus!

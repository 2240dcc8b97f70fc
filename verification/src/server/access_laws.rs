//! What holds of who may do what, and of what is counted for them.

use vstd::prelude::*;

use crate::bytes::{lemma_lex_antisymmetric, lex_lt};
use crate::codec::FieldView;
use crate::error::ErrorView;
use crate::query::ast::FilterView;
use crate::query::fetch::gather;
use crate::query::fetch_laws::{lemma_all_are_gathered, lemma_gathered_were_there};
use crate::query::filter::passes;
use crate::query::planner::{dots, AskedView, QueryView};
use crate::security::{
    access_word, allows, authenticated, is_admin_word, key_capabilities, permits, Access,
    ApiKeyView, AuthView, ContextView, SecurityErrorView,
};
use crate::server::error::ServerErrorView;
use crate::server::handler::{
    allowed, counted_row, counted_rows, deepest, mismatched, mutation_allowed, mutations_allowed,
    query_allowed, sum_counts, told,
};
use crate::server::mutation::MutationView;
use crate::server::protocol::{ErrorCode, Operation, Request};
use crate::storage::columnar::{row_item, row_items, RowItemView};
use crate::storage::kv::{lemma_prefix_is_listed, prefix_keys, prefix_listing};
use crate::storage::layout::{type_key, type_prefix};
use crate::storage::model::StoreView;
use crate::storage::truth::{faithful, fields_now, is_there, law_rows_are_those_held};

verus! {

proof fn lemma_words(entity: Seq<char>)
    ensures
        access_word(Access::Read) + ":"@ + entity == "read:"@ + entity,
        access_word(Access::Write) + ":"@ + entity == "write:"@ + entity,
        access_word(Access::Delete) + ":"@ + entity == "delete:"@ + entity,
        access_word(Access::Read) + ":"@ + "*"@ == "read:*"@,
        access_word(Access::Write) + ":"@ + "*"@ == "write:*"@,
        access_word(Access::Delete) + ":"@ + "*"@ == "delete:*"@,
{
    reveal_strlit("read");
    reveal_strlit("write");
    reveal_strlit("delete");
    reveal_strlit(":");
    reveal_strlit("*");
    reveal_strlit("read:");
    reveal_strlit("write:");
    reveal_strlit("delete:");
    reveal_strlit("read:*");
    reveal_strlit("write:*");
    reveal_strlit("delete:*");
    assert("read"@ + ":"@ =~= "read:"@);
    assert("write"@ + ":"@ =~= "write:"@);
    assert("delete"@ + ":"@ =~= "delete:"@);
    assert("read:"@ + "*"@ =~= "read:*"@);
    assert("write:"@ + "*"@ =~= "write:*"@);
    assert("delete:"@ + "*"@ =~= "delete:*"@);
}

proof fn lemma_permitted(
    capabilities: Seq<Seq<char>>,
    access: Access,
    entity: Seq<char>,
    own: Seq<char>,
    any: Seq<char>,
)
    requires
        own == access_word(access) + ":"@ + entity,
        any == access_word(access) + ":"@ + "*"@,
    ensures
        permits(capabilities, access, entity) <==> capabilities.contains("admin"@)
            || capabilities.contains(own) || capabilities.contains(any),
{
    if capabilities.contains("admin"@) {
        let i = choose|i: int| 0 <= i < capabilities.len() && capabilities[i] == "admin"@;
        assert(is_admin_word(capabilities[i]));
    }
    if capabilities.contains(own) {
        let i = choose|i: int| 0 <= i < capabilities.len() && capabilities[i] == own;
        assert(allows(capabilities[i], access, entity));
    }
    if capabilities.contains(any) {
        let i = choose|i: int| 0 <= i < capabilities.len() && capabilities[i] == any;
        assert(allows(capabilities[i], access, entity));
    }
}

/// Who may read, write or delete entities of a type: those with the word for it and the
/// type, those with the word for it and any type, and those who administer; no one else.
pub proof fn law_words_permit(capabilities: Seq<Seq<char>>, entity: Seq<char>)
    ensures
        permits(capabilities, Access::Read, entity) <==> capabilities.contains("admin"@)
            || capabilities.contains("read:"@ + entity) || capabilities.contains("read:*"@),
        permits(capabilities, Access::Write, entity) <==> capabilities.contains("admin"@)
            || capabilities.contains("write:"@ + entity) || capabilities.contains("write:*"@),
        permits(capabilities, Access::Delete, entity) <==> capabilities.contains("admin"@)
            || capabilities.contains("delete:"@ + entity) || capabilities.contains("delete:*"@),
{
    lemma_words(entity);
    lemma_permitted(capabilities, Access::Read, entity, "read:"@ + entity, "read:*"@);
    lemma_permitted(capabilities, Access::Write, entity, "write:"@ + entity, "write:*"@);
    lemma_permitted(capabilities, Access::Delete, entity, "delete:"@ + entity, "delete:*"@);
}

/// Whoever may only read everything may neither write nor delete anything, and whoever may
/// only write everything may neither read nor delete.
pub proof fn law_words_do_not_mix(entity: Seq<char>)
    ensures
        !permits(seq!["read:*"@], Access::Write, entity),
        !permits(seq!["read:*"@], Access::Delete, entity),
        !permits(seq!["write:*"@], Access::Read, entity),
        !permits(seq!["write:*"@], Access::Delete, entity),
        !permits(seq!["delete:*"@], Access::Read, entity),
        !permits(seq!["delete:*"@], Access::Write, entity),
{
    law_words_permit(seq!["read:*"@], entity);
    law_words_permit(seq!["write:*"@], entity);
    law_words_permit(seq!["delete:*"@], entity);
    reveal_strlit("admin");
    reveal_strlit("read:");
    reveal_strlit("write:");
    reveal_strlit("delete:");
    reveal_strlit("read:*");
    reveal_strlit("write:*");
    reveal_strlit("delete:*");
    assert("admin"@[0] == 'a');
    assert("read:*"@[0] == 'r' && ("read:"@ + entity)[0] == 'r');
    assert("write:*"@[0] == 'w' && ("write:"@ + entity)[0] == 'w');
    assert("delete:*"@[0] == 'd' && ("delete:"@ + entity)[0] == 'd');
}

/// Whether somebody may make a mutation: a deletion takes the right to delete, any other
/// the right to write.
pub open spec fn may_make(capabilities: Seq<Seq<char>>, m: MutationView) -> bool {
    capabilities.contains("admin"@) || match m {
        MutationView::Delete(entity, _) => capabilities.contains("delete:"@ + entity)
            || capabilities.contains("delete:*"@),
        MutationView::Insert(entity, _) => capabilities.contains("write:"@ + entity)
            || capabilities.contains("write:*"@),
        MutationView::Update(entity, _, _) => capabilities.contains("write:"@ + entity)
            || capabilities.contains("write:*"@),
        MutationView::Upsert(entity, _, _) => capabilities.contains("write:"@ + entity)
            || capabilities.contains("write:*"@),
    }
}

/// A mutation is let through for those who may make it, and a batch for those who may make
/// each of its mutations.
pub proof fn law_mutations_need_rights(c: ContextView, ms: Seq<MutationView>, m: MutationView)
    ensures
        mutation_allowed(c, m) is Ok <==> may_make(c.capabilities, m),
        mutations_allowed(c, ms) is Ok <==> forall|i: int|
            0 <= i < ms.len() ==> may_make(c.capabilities, #[trigger] ms[i]),
    decreases ms.len(),
{
    law_words_permit(c.capabilities, m.entity());
    if ms.len() > 0 {
        let init = ms.drop_last();
        let last = ms[ms.len() - 1];
        assert(last == ms.last());
        law_mutations_need_rights(c, init, last);
        if forall|i: int| 0 <= i < init.len() ==> may_make(c.capabilities, #[trigger] init[i]) {
            if may_make(c.capabilities, last) {
                assert forall|i: int| 0 <= i < ms.len() implies may_make(
                    c.capabilities,
                    #[trigger] ms[i],
                ) by {
                    if i < init.len() {
                        assert(init[i] == ms[i]);
                    }
                }
            }
        }
        if forall|i: int| 0 <= i < ms.len() ==> may_make(c.capabilities, #[trigger] ms[i]) {
            assert forall|i: int| 0 <= i < init.len() implies may_make(
                c.capabilities,
                #[trigger] init[i],
            ) by {
                assert(init[i] == ms[i]);
            }
        }
    }
}

/// Whether somebody may read entities of a type.
pub open spec fn may_read(capabilities: Seq<Seq<char>>, entity: Seq<char>) -> bool {
    capabilities.contains("admin"@) || capabilities.contains("read:"@ + entity)
        || capabilities.contains("read:*"@)
}

proof fn lemma_deepest(asked: Seq<AskedView>, limit: nat)
    ensures
        deepest(asked) <= limit <==> forall|i: int|
            0 <= i < asked.len() ==> dots((#[trigger] asked[i]).path) < limit,
    decreases asked.len(),
{
    if asked.len() > 0 {
        let init = asked.drop_last();
        let last = asked[asked.len() - 1];
        assert(last == asked.last());
        lemma_deepest(init, limit);
        if forall|i: int| 0 <= i < init.len() ==> dots((#[trigger] init[i]).path) < limit {
            if dots(last.path) < limit {
                assert forall|i: int| 0 <= i < asked.len() implies dots((#[trigger] asked[i]).path)
                    < limit by {
                    if i < init.len() {
                        assert(init[i] == asked[i]);
                    }
                }
            }
        }
        if forall|i: int| 0 <= i < asked.len() ==> dots((#[trigger] asked[i]).path) < limit {
            assert forall|i: int| 0 <= i < init.len() implies dots((#[trigger] init[i]).path)
                < limit by {
                assert(init[i] == asked[i]);
            }
        }
    }
}

/// A query, and the explanation of one, is let through for those who may read its root
/// type, as long as no relation that it follows is deeper than they may go: a relation of
/// the root takes one step, and each dot in its path one more, after the root itself.
pub proof fn law_queries_need_rights(c: ContextView, q: QueryView)
    ensures
        query_allowed(c, q) is Ok <==> may_read(c.capabilities, q.root_entity)
            && c.budget.max_depth >= 1 && forall|i: int|
            0 <= i < q.includes.len() ==> dots((#[trigger] q.includes[i]).path) + 2
                <= c.budget.max_depth,
        query_allowed(c, q) is Err && may_read(c.capabilities, q.root_entity) ==> (query_allowed(
            c,
            q,
        )->Err_0 matches ServerErrorView::Security(e) && e is BudgetExceeded),
        !may_read(c.capabilities, q.root_entity) ==> (query_allowed(c, q)
            matches Err(ServerErrorView::Security(e)) && e is PermissionDenied),
{
    law_words_permit(c.capabilities, q.root_entity);
    let max = c.budget.max_depth as int;
    if max >= 1 {
        lemma_deepest(q.includes, (max - 1) as nat);
        if forall|i: int| 0 <= i < q.includes.len() ==> dots((#[trigger] q.includes[i]).path) < max
            - 1 {
            assert forall|i: int| 0 <= i < q.includes.len() implies dots(
                (#[trigger] q.includes[i]).path,
            ) + 2 <= max by {}
        }
    }
}

/// Only those who administer may see the metrics and the changes of all types, ask how
/// replication goes, and change the schema; anyone may ask for the schema and for a sign
/// of life.
pub proof fn law_administration_needs_rights(c: ContextView, op: Operation)
    ensures
        op is GetMetrics || op is StreamChanges || op is GetReplicationStatus || op is ApplySchema
            ==> (allowed(c, op) is Ok <==> c.capabilities.contains("admin"@)),
        op is GetSchema || op is Ping ==> allowed(c, op) is Ok,
        op matches Operation::Aggregate(q) ==> (allowed(c, op) is Ok <==> may_read(
            c.capabilities,
            q.root_entity@,
        )),
        op matches Operation::Query(q) ==> (allowed(c, op) is Ok <==> query_allowed(c, q@) is Ok),
        op matches Operation::Explain(q) ==> (allowed(c, op) is Ok <==> query_allowed(c, q@) is Ok),
        op matches Operation::Mutate(m) ==> (allowed(c, op) is Ok <==> may_make(
            c.capabilities,
            m@,
        )),
{
    if c.capabilities.contains("admin"@) {
        let i = choose|i: int| 0 <= i < c.capabilities.len() && c.capabilities[i] == "admin"@;
        assert(is_admin_word(c.capabilities[i]));
    }
    if let Operation::Aggregate(q) = op {
        law_words_permit(c.capabilities, q.root_entity@);
    }
    if let Operation::Mutate(m) = op {
        law_mutations_need_rights(c, Seq::empty(), m@);
    }
}

/// Where keys are asked for, whoever brings one of them gets what the key stands for, and
/// whoever brings none of them is turned away.
pub proof fn law_keys_open(keys: Seq<ApiKeyView>, credentials: Option<Seq<char>>)
    ensures
        ({
            let r = authenticated(AuthView::ApiKeys(keys), credentials);
            &&& r is Ok <==> credentials is Some && exists|i: int|
                0 <= i < keys.len() && (#[trigger] keys[i]).0 == credentials->0
            &&& r matches Ok(capabilities) ==> keys.contains((credentials->0, capabilities))
            &&& r matches Err(e) ==> e is AuthenticationFailed
        }),
    decreases keys.len(),
{
    if keys.len() > 0 {
        let init = keys.drop_last();
        let last = keys[keys.len() - 1];
        assert(last == keys.last());
        law_keys_open(init, credentials);
        if let Some(key) = credentials {
            if last.0 != key {
                if exists|i: int| 0 <= i < init.len() && (#[trigger] init[i]).0 == key {
                    let i = choose|i: int| 0 <= i < init.len() && (#[trigger] init[i]).0 == key;
                    assert(keys[i].0 == key);
                }
                if exists|i: int| 0 <= i < keys.len() && (#[trigger] keys[i]).0 == key {
                    let i = choose|i: int| 0 <= i < keys.len() && (#[trigger] keys[i]).0 == key;
                    assert(init[i].0 == key);
                }
                if let Some(capabilities) = key_capabilities(init, key) {
                    let i = choose|i: int| 0 <= i < init.len() && init[i] == (key, capabilities);
                    assert(keys[i] == (key, capabilities));
                }
            }
        }
    }
}

/// A request that speaks of another version of the schema than the server's is turned
/// away where it depends on the schema, and no other is.
pub proof fn law_versions_have_to_match(request: Request, version: u64)
    ensures
        mismatched(request, version) ==> request.schema_version != version,
        request.schema_version == 0 || request.schema_version == version ==> !mismatched(
            request,
            version,
        ),
        request.schema_version != 0 && request.schema_version != version && (
        request.operation is Query || request.operation is Mutate
            || request.operation is MutateBatch) ==> mismatched(request, version),
        request.operation is Ping || request.operation is GetSchema
            || request.operation is ApplySchema ==> !mismatched(request, version),
{
}

/// A count goes over the entities of the type that meet the condition, each once.
pub proof fn law_count_goes_over_what_passes(
    store: StoreView,
    entity: Seq<char>,
    filter: Option<FilterView>,
    id: Seq<u8>,
)
    requires
        faithful(store, entity),
        id.len() == 16,
        counted_rows(row_items(store.columnar, entity), filter) is Ok,
    ensures
        ({
            let ids = counted_rows(row_items(store.columnar, entity), filter)->Ok_0;
            ids.contains(id) <==> is_there(store, entity, id) && passes(
                filter,
                fields_now(store, id)->0,
            ) == Ok::<bool, ErrorView>(true)
        }),
        counted_rows(row_items(store.columnar, entity), filter)->Ok_0.no_duplicates(),
{
    let held = row_items(store.columnar, entity);
    let items = held.map_values(|i: RowItemView| counted_row(i, filter));
    let ids = counted_rows(held, filter)->Ok_0;
    if ids.contains(id) {
        lemma_gathered_were_there(items, Seq::empty(), None, id);
        let i = choose|i: int|
            0 <= i < items.len() && #[trigger] items[i] == Ok::<Option<Seq<u8>>, ErrorView>(
                Some(id),
            );
        let item = held[i]->Ok_0;
        assert(held.contains(held[i]));
        law_rows_are_those_held(store.columnar, entity, item.0, item.1);
        assert(store.columnar.contains_key(type_key(entity, id)));
        assert(is_there(store, entity, id));
    }
    if is_there(store, entity, id) && passes(filter, fields_now(store, id)->0) == Ok::<
        bool,
        ErrorView,
    >(true) {
        let now = fields_now(store, id)->0;
        assert(store.columnar.contains_key(type_key(entity, id)));
        law_rows_are_those_held(store.columnar, entity, id, now);
        let i = choose|i: int|
            0 <= i < held.len() && held[i] == Ok::<(Seq<u8>, Seq<FieldView>), ErrorView>((id, now));
        assert(items[i] == Ok::<Option<Seq<u8>>, ErrorView>(Some(id)));
        lemma_all_are_gathered(items, Seq::empty(), id);
    }
    let prefix = type_prefix(entity);
    let l = prefix_listing(store.columnar, prefix);
    lemma_prefix_is_listed(store.columnar, prefix);
    assert forall|i: int, j: int|
        0 <= i < j < items.len() && names_one(#[trigger] items[i]) implies items[i]
        != #[trigger] items[j] by {
        if items[i] == items[j] {
            let x = items[i]->Ok_0->0;
            assert(held[i] == row_item(l[i], prefix.len()));
            assert(held[j] == row_item(l[j], prefix.len()));
            assert(prefix_keys(prefix).contains(l[i].0));
            assert(prefix_keys(prefix).contains(l[j].0));
            assert(l[i].0 =~= prefix + x);
            assert(l[j].0 =~= prefix + x);
            assert(lex_lt(l[i].0, l[j].0));
            lemma_lex_antisymmetric(l[i].0, l[j].0);
        }
    }
    lemma_gathered_once(items, Seq::empty());
}

/// Whether a result names an entity.
spec fn names_one(item: Result<Option<Seq<u8>>, ErrorView>) -> bool {
    item matches Ok(Some(_))
}

proof fn lemma_gathered_once(items: Seq<Result<Option<Seq<u8>>, ErrorView>>, got: Seq<Seq<u8>>)
    requires
        gather(items, got, None) is Ok,
        got.no_duplicates(),
        forall|i: int, j: int|
            0 <= i < j < items.len() && names_one(#[trigger] items[i]) ==> items[i]
                != #[trigger] items[j],
        forall|i: int|
            0 <= i < items.len() && names_one(#[trigger] items[i]) ==> !got.contains(
                items[i]->Ok_0->0,
            ),
    ensures
        gather(items, got, None)->Ok_0.no_duplicates(),
    decreases items.len(),
{
    if items.len() > 0 {
        let rest = items.drop_first();
        assert forall|i: int, j: int|
            0 <= i < j < rest.len() && names_one(#[trigger] rest[i]) implies rest[i]
            != #[trigger] rest[j] by {
            assert(items[i + 1] != items[j + 1]);
        }
        match items[0] {
            Err(_) => {},
            Ok(None) => {
                assert forall|i: int|
                    0 <= i < rest.len() && names_one(#[trigger] rest[i]) implies !got.contains(
                    rest[i]->Ok_0->0,
                ) by {
                    assert(items[i + 1] == rest[i]);
                }
                lemma_gathered_once(rest, got);
            },
            Ok(Some(t)) => {
                let more = got.push(t);
                assert(names_one(items[0]));
                assert forall|i: int|
                    0 <= i < rest.len() && names_one(#[trigger] rest[i]) implies !more.contains(
                    rest[i]->Ok_0->0,
                ) by {
                    let x = rest[i]->Ok_0->0;
                    assert(items[i + 1] == rest[i]);
                    assert(items[0] != items[i + 1]);
                    if more.contains(x) {
                        let k = choose|k: int| 0 <= k < more.len() && more[k] == x;
                        if k < got.len() {
                            assert(got[k] == x);
                        }
                    }
                }
                lemma_gathered_once(rest, more);
            },
        }
    }
}

/// The number of all entities is what the numbers of the types add up to: where one
/// number is set, the sum changes by as much.
pub proof fn law_total_follows_counts(s: Seq<(Seq<char>, u64)>, i: int, n: (Seq<char>, u64))
    ensures
        sum_counts(s.push(n)) == sum_counts(s) + n.1,
        0 <= i < s.len() ==> sum_counts(s.update(i, n)) + s[i].1 == sum_counts(s) + n.1,
    decreases s.len(),
{
    assert(s.push(n).drop_last() =~= s);
    if 0 <= i < s.len() {
        let init = s.drop_last();
        if i < init.len() {
            law_total_follows_counts(init, i, n);
            assert(s.update(i, n).drop_last() =~= init.update(i, n));
        } else {
            assert(s.update(i, n).drop_last() =~= init);
        }
    }
}

/// Whoever is refused for lack of rights is told so, and so is whoever could not be
/// recognised; nobody is told of it as of a failure of the server.
pub proof fn law_refusals_are_told(e: SecurityErrorView, id: u64)
    ensures
        e is PermissionDenied || e is CapabilityNotGranted || e is RlsViolation
            || e is FieldAccessDenied <==> told(ServerErrorView::Security(e)).0
            == ErrorCode::PermissionDenied,
        e is AuthenticationFailed <==> told(ServerErrorView::Security(e)).0
            == ErrorCode::AuthenticationFailed,
        e is BudgetExceeded <==> told(ServerErrorView::Security(e)).0 == ErrorCode::BudgetExceeded,
{
}

} // verus!

//! What the trees and indexes of a store say together of the entities of a type: which
//! there are, and which fields they have.

use vstd::prelude::*;

use crate::bytes::lemma_be_limit_u64;
use crate::codec::{
    entity_outcome, fields_holdable, law_entity_round_trip, lemma_parse_value, value_bytes,
    value_holdable, FieldView,
};
use crate::error::{collect, lemma_collect_ok, ErrorView};
use crate::storage::btree_index::{
    goes_after, holds_entry, in_column, insert_pos, meets, same_entry, scan_ids, with_entry,
    without_column, without_entry, BoundView, IndexEntryView,
};
use crate::storage::columnar::{last_value, row_item, row_items};
use crate::storage::engine::ensured;
use crate::storage::hash_index::{index_key, lookup_outcome};
use crate::storage::index_laws::{
    countable, hash_after, law_index_leaves_others, law_index_stays_exact,
    law_lookup_finds_what_is_held, lemma_distinct_names, lemma_following_is_finite,
};
use crate::storage::index_ops::{
    change_ops, column_ops, distinct, indexable, optional_equal, IndexOpView,
};
use crate::storage::kv::{has_prefix, lemma_prefix_is_listed, prefix_keys, prefix_listing};
use crate::storage::layout::{type_key, type_prefix};
use crate::storage::model::{
    apply_btree, indexed_items, indexed_rows, latest_outcome, or_none, read_outcome, scan_outcome,
    with_row, Bytes, StoreView, When,
};
use crate::storage::record::RecordView;
use crate::value::ValueView;

verus! {

/// Whether an entity is noted under a type.
pub open spec fn listed(store: StoreView, entity: Seq<char>, id: Seq<u8>) -> bool {
    id.len() == 16 && store.types.contains_key(type_key(entity, id))
}

/// The fields that an entity has now; none where it is not there.
pub open spec fn fields_now(store: StoreView, id: Seq<u8>) -> Option<Seq<FieldView>> {
    match latest_outcome(store, id) {
        Ok(Some(v)) => match entity_outcome(v.1.data) {
            Ok(fs) => Some(fs),
            Err(_) => None,
        },
        _ => None,
    }
}

/// Whether there is an entity of a type now.
pub open spec fn is_there(store: StoreView, entity: Seq<char>, id: Seq<u8>) -> bool {
    listed(store, entity, id) && fields_now(store, id) is Some
}

/// The keys of a type are keys of entities.
pub open spec fn keys_true(m: Bytes, entity: Seq<char>) -> bool {
    &&& m.dom().finite()
    &&& forall|k: Seq<u8>| #[trigger]
        m.contains_key(k) && has_prefix(k, type_prefix(entity)) ==> k.len() == type_prefix(
            entity,
        ).len() + 16
}

/// Whether the entities of a type can be read, and have each field once.
pub open spec fn readable_type(store: StoreView, entity: Seq<char>) -> bool {
    &&& keys_true(store.types, entity)
    &&& forall|id: Seq<u8>| #[trigger]
        listed(store, entity, id) ==> latest_outcome(store, id) is Ok && (latest_outcome(
            store,
            id,
        )->Ok_0 matches Some(v) ==> entity_outcome(v.1.data) is Ok)
    &&& forall|id: Seq<u8>| #[trigger]
        is_there(store, entity, id) ==> named_once(fields_now(store, id)->0) && fields_holdable(
            fields_now(store, id)->0,
        )
}

/// Whether no two fields have the same name.
pub open spec fn named_once(fs: Seq<FieldView>) -> bool {
    forall|i: int, j: int|
        0 <= i < j < fs.len() ==> (#[trigger] fs[i]).0 != (#[trigger] fs[j]).0
}

/// Whether the row projection holds the entities of a type with the fields that they
/// have, and nothing else.
pub open spec fn projection_true(store: StoreView, entity: Seq<char>) -> bool {
    &&& keys_true(store.columnar, entity)
    &&& forall|id: Seq<u8>|
        id.len() == 16 ==> (#[trigger] store.columnar.contains_key(type_key(entity, id)) <==> is_there(
            store,
            entity,
            id,
        ))
    &&& forall|id: Seq<u8>| #[trigger]
        is_there(store, entity, id) ==> entity_outcome(store.columnar[type_key(entity, id)]) == Ok::<
            Seq<FieldView>,
            ErrorView,
        >(fields_now(store, id)->0)
}

/// Whether the equality index holds the values that entities of a type have, and
/// nothing else.
pub open spec fn hash_true(store: StoreView, entity: Seq<char>) -> bool {
    &&& store.hash.dom().finite()
    &&& forall|column: Seq<char>, v: ValueView, id: Seq<u8>|
        countable(column) && id.len() == 16 ==> (#[trigger] store.hash.contains_key(index_key(entity, column, v, id))
            <==> has_value(store, entity, column, v, id))
}

/// Whether an entity has a value in a column, written as the value given is.
pub open spec fn has_value(
    store: StoreView,
    entity: Seq<char>,
    column: Seq<char>,
    v: ValueView,
    id: Seq<u8>,
) -> bool {
    &&& is_there(store, entity, id)
    &&& indexable(last_value(fields_now(store, id)->0, column))
    &&& value_bytes(last_value(fields_now(store, id)->0, column)->0) == value_bytes(v)
}

/// Whether a column of the ordered index holds the values that entities of a type have,
/// and nothing else.
pub open spec fn column_true(
    store: StoreView,
    s: Seq<IndexEntryView>,
    entity: Seq<char>,
    column: Seq<char>,
) -> bool {
    &&& forall|e: IndexEntryView| #[trigger]
        s.contains(e) && in_column(e, entity, column) ==> is_there(store, entity, e.id) && last_value(
            fields_now(store, e.id)->0,
            column,
        ) == Some(e.value) && !(e.value is Null)
    &&& forall|id: Seq<u8>| #[trigger]
        is_there(store, entity, id) && indexable(last_value(fields_now(store, id)->0, column)) ==> (
        exists|e: IndexEntryView| #[trigger]
            s.contains(e) && in_column(e, entity, column) && e.id == id)
}

/// Whether all columns of a type that the ordered index covers are true.
pub open spec fn ordered_true(store: StoreView, entity: Seq<char>) -> bool {
    store.btree matches Some(s) ==> forall|column: Seq<char>|
        #[trigger] store.btree_columns.contains((entity, column)) ==> column_true(
            store,
            s,
            entity,
            column,
        )
}

/// Whether all that a store says of a type is true.
pub open spec fn faithful(store: StoreView, entity: Seq<char>) -> bool {
    &&& readable_type(store, entity)
    &&& projection_true(store, entity)
    &&& hash_true(store, entity)
    &&& ordered_true(store, entity)
}

proof fn lemma_items_of(
    store: StoreView,
    l: Seq<(Seq<u8>, Seq<u8>)>,
    n: nat,
    when: When,
    id: Seq<u8>,
    v: (u64, RecordView),
)
    ensures
        indexed_items(store, l, n, when).contains(
            Ok::<(Seq<u8>, u64, RecordView), ErrorView>((id, v.0, v.1)),
        ) <==> exists|i: int|
            0 <= i < l.len() && (#[trigger] l[i]).0.len() == n + 16 && l[i].0.skip(n as int) == id
                && read_outcome(store, id, when) == Ok::<Option<(u64, RecordView)>, ErrorView>(
                Some(v),
            ),
    decreases l.len(),
{
    let item = Ok::<(Seq<u8>, u64, RecordView), ErrorView>((id, v.0, v.1));
    let all = indexed_items(store, l, n, when);
    if l.len() > 0 {
        let init = l.drop_last();
        let before = indexed_items(store, init, n, when);
        lemma_items_of(store, init, n, when, id, v);
        let last = l[l.len() - 1];
        assert(last == l.last());
        if all.contains(item) {
            let k = choose|k: int| 0 <= k < all.len() && all[k] == item;
            if k < before.len() {
                assert(before[k] == item);
                assert(before.contains(item));
                let i = choose|i: int|
                    0 <= i < init.len() && (#[trigger] init[i]).0.len() == n + 16
                        && init[i].0.skip(n as int) == id && read_outcome(store, id, when) == Ok::<
                        Option<(u64, RecordView)>,
                        ErrorView,
                    >(Some(v));
                assert(l[i] == init[i]);
            } else {
                assert(last.0.len() == n + 16);
            }
        }
        if exists|i: int|
            0 <= i < l.len() && (#[trigger] l[i]).0.len() == n + 16 && l[i].0.skip(n as int) == id
                && read_outcome(store, id, when) == Ok::<Option<(u64, RecordView)>, ErrorView>(
                Some(v),
            ) {
            let i = choose|i: int|
                0 <= i < l.len() && (#[trigger] l[i]).0.len() == n + 16 && l[i].0.skip(n as int)
                    == id && read_outcome(store, id, when) == Ok::<
                    Option<(u64, RecordView)>,
                    ErrorView,
                >(Some(v));
            if i < init.len() {
                assert(init[i] == l[i]);
                assert(before.contains(item));
                let k = choose|k: int| 0 <= k < before.len() && before[k] == item;
                assert(all[k] == item);
            } else {
                assert(all.last() == item);
                assert(all[all.len() - 1] == item);
            }
        }
    }
}

/// A scan of a type shows an entity with a version exactly where the entity is noted
/// under the type and reading it gives that version.
pub proof fn law_scan_shows_members(
    store: StoreView,
    entity: Seq<char>,
    when: When,
    id: Seq<u8>,
    v: (u64, RecordView),
)
    requires
        store.types.dom().finite(),
        id.len() == 16,
    ensures
        scan_outcome(store, entity, when).contains(
            Ok::<(Seq<u8>, u64, RecordView), ErrorView>((id, v.0, v.1)),
        ) <==> listed(store, entity, id) && read_outcome(store, id, when) == Ok::<
            Option<(u64, RecordView)>,
            ErrorView,
        >(Some(v)),
{
    let prefix = type_prefix(entity);
    let l = prefix_listing(store.types, prefix);
    lemma_prefix_is_listed(store.types, prefix);
    lemma_items_of(store, l, prefix.len(), when, id, v);
    lemma_type_key(entity, id);
    if listed(store, entity, id) {
        assert(prefix_keys(prefix).contains(type_key(entity, id)));
        let i = choose|i: int| 0 <= i < l.len() && (#[trigger] l[i]).0 == type_key(entity, id);
        assert(l[i].0.skip(prefix.len() as int) == id);
    }
    if exists|i: int|
        0 <= i < l.len() && (#[trigger] l[i]).0.len() == prefix.len() + 16 && l[i].0.skip(
            prefix.len() as int,
        ) == id && read_outcome(store, id, when) == Ok::<Option<(u64, RecordView)>, ErrorView>(
            Some(v),
        ) {
        let i = choose|i: int|
            0 <= i < l.len() && (#[trigger] l[i]).0.len() == prefix.len() + 16 && l[i].0.skip(
                prefix.len() as int,
            ) == id && read_outcome(store, id, when) == Ok::<Option<(u64, RecordView)>, ErrorView>(
                Some(v),
            );
        assert(prefix_keys(prefix).contains(l[i].0));
        assert(l[i].0 =~= type_key(entity, id));
    }
}

/// The key of an entity of a type begins with the type and ends with the entity.
pub proof fn lemma_type_key(entity: Seq<char>, id: Seq<u8>)
    ensures
        has_prefix(type_key(entity, id), type_prefix(entity)),
        type_key(entity, id).skip(type_prefix(entity).len() as int) == id,
        type_key(entity, id).len() == type_prefix(entity).len() + id.len(),
{
    assert(type_key(entity, id).take(type_prefix(entity).len() as int) =~= type_prefix(entity));
    assert(type_key(entity, id).skip(type_prefix(entity).len() as int) =~= id);
}

/// The rows of a type in the row projection are those that are held under the keys of
/// its entities.
pub proof fn law_rows_are_those_held(m: Bytes, entity: Seq<char>, id: Seq<u8>, fs: Seq<FieldView>)
    requires
        m.dom().finite(),
        id.len() == 16,
    ensures
        row_items(m, entity).contains(Ok::<(Seq<u8>, Seq<FieldView>), ErrorView>((id, fs)))
            <==> m.contains_key(type_key(entity, id)) && entity_outcome(m[type_key(entity, id)])
            == Ok::<Seq<FieldView>, ErrorView>(fs),
{
    let prefix = type_prefix(entity);
    let l = prefix_listing(m, prefix);
    let rows = row_items(m, entity);
    let item = Ok::<(Seq<u8>, Seq<FieldView>), ErrorView>((id, fs));
    let k = type_key(entity, id);
    lemma_prefix_is_listed(m, prefix);
    lemma_type_key(entity, id);
    if m.contains_key(k) && entity_outcome(m[k]) == Ok::<Seq<FieldView>, ErrorView>(fs) {
        assert(prefix_keys(prefix).contains(k));
        let i = choose|i: int| 0 <= i < l.len() && (#[trigger] l[i]).0 == k;
        assert(rows[i] == item);
    }
    if rows.contains(item) {
        let i = choose|i: int| 0 <= i < rows.len() && rows[i] == item;
        assert(rows[i] == row_item(l[i], prefix.len()));
        assert(prefix_keys(prefix).contains(l[i].0));
        assert(l[i].0 =~= k);
    }
}

/// No row in the row projection is of an entity under whose key nothing is held.
pub proof fn law_no_row_without_a_key(m: Bytes, entity: Seq<char>, id: Seq<u8>)
    requires
        m.dom().finite(),
        id.len() == 16,
        !m.contains_key(type_key(entity, id)),
    ensures
        forall|i: int|
            0 <= i < row_items(m, entity).len() ==> !((#[trigger] row_items(m, entity)[i]) matches Ok(
                row,
            ) && row.0 == id),
{
    let rows = row_items(m, entity);
    assert forall|i: int| 0 <= i < rows.len() implies !((#[trigger] rows[i]) matches Ok(row) && row.0
        == id) by {
        if let Ok(row) = rows[i] {
            if row.0 == id {
                assert(rows.contains(rows[i]));
                law_rows_are_those_held(m, entity, id, row.1);
            }
        }
    }
}

/// The equality index of a true type finds the entities that have the value, and no
/// others.
pub proof fn law_lookup_is_true(
    store: StoreView,
    entity: Seq<char>,
    column: Seq<char>,
    v: ValueView,
    id: Seq<u8>,
)
    requires
        faithful(store, entity),
        countable(column),
        value_holdable(v),
        id.len() == 16,
        lookup_outcome(store.hash, entity, column, v) is Ok,
    ensures
        lookup_outcome(store.hash, entity, column, v)->Ok_0.contains(id) <==> is_there(
            store,
            entity,
            id,
        ) && !(v is Null) && last_value(fields_now(store, id)->0, column) == Some(v),
{
    law_lookup_finds_what_is_held(store.hash, entity, column, v, id);
    assert(store.hash.contains_key(index_key(entity, column, v, id)) <==> has_value(
        store,
        entity,
        column,
        v,
        id,
    ));
    if is_there(store, entity, id) {
        let fs = fields_now(store, id)->0;
        lemma_last_is_there(fs, column);
        if let Some(x) = last_value(fs, column) {
            lemma_parse_value(x);
            lemma_parse_value(v);
        }
    }
}

/// The last value of a name is that of a field.
pub proof fn lemma_last_is_there(fs: Seq<FieldView>, name: Seq<char>)
    ensures
        last_value(fs, name) matches Some(v) ==> exists|i: int|
            0 <= i < fs.len() && #[trigger] fs[i] == (name, v),
        last_value(fs, name) is None ==> forall|i: int|
            0 <= i < fs.len() ==> (#[trigger] fs[i]).0 != name,
    decreases fs.len(),
{
    if fs.len() > 0 {
        let init = fs.drop_last();
        lemma_last_is_there(init, name);
        if fs.last().0 == name {
            assert(fs[fs.len() - 1] == (name, fs.last().1));
        } else {
            if let Some(v) = last_value(init, name) {
                let i = choose|i: int| 0 <= i < init.len() && #[trigger] init[i] == (name, v);
                assert(fs[i] == (name, v));
            } else {
                assert forall|i: int| 0 <= i < fs.len() implies (#[trigger] fs[i]).0 != name by {
                    if i < init.len() {
                        assert(init[i].0 != name);
                    }
                }
            }
        }
    }
}

/// A column of the ordered index gives the entities whose values meet a bound.
pub proof fn lemma_scanned_ids(
    s: Seq<IndexEntryView>,
    entity: Seq<char>,
    column: Seq<char>,
    bound: BoundView,
    id: Seq<u8>,
)
    ensures
        scan_ids(s, entity, column, bound).contains(id) <==> exists|e: IndexEntryView| #[trigger]
            s.contains(e) && in_column(e, entity, column) && e.id == id && meets(e.value, bound),
    decreases s.len(),
{
    if s.len() > 0 {
        let init = s.drop_last();
        let before = scan_ids(init, entity, column, bound);
        let ids = scan_ids(s, entity, column, bound);
        lemma_scanned_ids(init, entity, column, bound, id);
        if ids.contains(id) {
            let k = choose|k: int| 0 <= k < ids.len() && ids[k] == id;
            if k < before.len() {
                assert(before[k] == id);
                assert(before.contains(id));
                let e = choose|e: IndexEntryView| #[trigger]
                    init.contains(e) && in_column(e, entity, column) && e.id == id && meets(
                        e.value,
                        bound,
                    );
                let i = choose|i: int| 0 <= i < init.len() && init[i] == e;
                assert(s[i] == e);
                assert(s.contains(e));
            } else {
                assert(s[s.len() - 1] == s.last());
                assert(s.contains(s.last()));
            }
        }
        if exists|e: IndexEntryView| #[trigger]
            s.contains(e) && in_column(e, entity, column) && e.id == id && meets(e.value, bound) {
            let e = choose|e: IndexEntryView| #[trigger]
                s.contains(e) && in_column(e, entity, column) && e.id == id && meets(e.value, bound);
            let i = choose|i: int| 0 <= i < s.len() && s[i] == e;
            if i < init.len() {
                assert(init[i] == e);
                assert(init.contains(e));
                let k = choose|k: int| 0 <= k < before.len() && before[k] == id;
                assert(ids[k] == id);
            } else {
                assert(ids[ids.len() - 1] == id);
            }
        }
    }
}

/// A column of the ordered index that is true gives the entities whose values meet a
/// bound, and no others.
pub proof fn law_ordered_scan_is_true(
    store: StoreView,
    s: Seq<IndexEntryView>,
    entity: Seq<char>,
    column: Seq<char>,
    bound: BoundView,
    id: Seq<u8>,
)
    requires
        column_true(store, s, entity, column),
    ensures
        scan_ids(s, entity, column, bound).contains(id) <==> is_there(store, entity, id) && indexable(
            last_value(fields_now(store, id)->0, column),
        ) && meets(last_value(fields_now(store, id)->0, column)->0, bound),
{
    lemma_scanned_ids(s, entity, column, bound, id);
    if is_there(store, entity, id) && indexable(last_value(fields_now(store, id)->0, column)) {
        let e = choose|e: IndexEntryView| #[trigger]
            s.contains(e) && in_column(e, entity, column) && e.id == id;
        assert(last_value(fields_now(store, e.id)->0, column) == Some(e.value));
    }
}

proof fn lemma_insert_pos_within(s: Seq<IndexEntryView>, e: IndexEntryView)
    ensures
        0 <= insert_pos(s, e) <= s.len(),
    decreases s.len(),
{
    if s.len() > 0 && !goes_after(s[0], e) {
        lemma_insert_pos_within(s.drop_first(), e);
    }
}

/// The index with an entry more holds what it held, and an entry that says the same.
pub proof fn lemma_one_entry_more(s: Seq<IndexEntryView>, e: IndexEntryView, f: IndexEntryView)
    ensures
        with_entry(s, e).contains(f) <==> s.contains(f) || (f == e && !holds_entry(s, e)),
{
    let p = insert_pos(s, e);
    let t = s.insert(p, e);
    lemma_insert_pos_within(s, e);
    if !holds_entry(s, e) {
        assert(t[p] == e);
        if s.contains(f) {
            let i = choose|i: int| 0 <= i < s.len() && s[i] == f;
            if i < p {
                assert(t[i] == f);
            } else {
                assert(t[i + 1] == f);
            }
        }
        if t.contains(f) {
            let i = choose|i: int| 0 <= i < t.len() && t[i] == f;
            if i < p {
                assert(s[i] == f);
            } else if i > p {
                assert(s[i - 1] == f);
            }
        }
    }
}

/// Whether a row gives an entry of a column.
pub open spec fn gives(row: (Seq<u8>, Seq<FieldView>), e: IndexEntryView) -> bool {
    row.0 == e.id && last_value(row.1, e.column) == Some(e.value) && !(e.value is Null)
}

proof fn lemma_rows_indexed(
    s: Seq<IndexEntryView>,
    entity: Seq<char>,
    column: Seq<char>,
    rows: Seq<(Seq<u8>, Seq<FieldView>)>,
    f: IndexEntryView,
)
    requires
        forall|e: IndexEntryView| #[trigger] s.contains(e) ==> !in_column(e, entity, column),
        forall|i: int, j: int|
            0 <= i < j < rows.len() && (#[trigger] rows[i]).0 == (#[trigger] rows[j]).0 ==> rows[i]
                == rows[j],
    ensures
        indexed_rows(s, entity, column, rows).contains(f) <==> s.contains(f) || (in_column(
            f,
            entity,
            column,
        ) && exists|i: int| 0 <= i < rows.len() && gives(#[trigger] rows[i], f)),
    decreases rows.len(),
{
    if rows.len() > 0 {
        let init = rows.drop_last();
        let before = indexed_rows(s, entity, column, init);
        let last = rows[rows.len() - 1];
        assert(last == rows.last());
        assert forall|i: int, j: int|
            0 <= i < j < init.len() && (#[trigger] init[i]).0 == (#[trigger] init[j]).0 implies init[i]
            == init[j] by {
            assert(rows[i] == init[i] && rows[j] == init[j]);
        }
        lemma_rows_indexed(s, entity, column, init, f);
        if exists|i: int| 0 <= i < init.len() && gives(#[trigger] init[i], f) {
            let i = choose|i: int| 0 <= i < init.len() && gives(#[trigger] init[i], f);
            assert(gives(rows[i], f));
        }
        if exists|i: int| 0 <= i < rows.len() && gives(#[trigger] rows[i], f) {
            let i = choose|i: int| 0 <= i < rows.len() && gives(#[trigger] rows[i], f);
            if i < init.len() {
                assert(gives(init[i], f));
            }
        }
        let value = last_value(last.1, column);
        if indexable(value) {
            let e = IndexEntryView { entity_type: entity, column, value: value->0, id: last.0 };
            lemma_one_entry_more(before, e, f);
            assert(gives(last, e));
            if f == e && holds_entry(before, e) {
                let k = choose|k: int| 0 <= k < before.len() && same_entry(#[trigger] before[k], e);
                let g = before[k];
                assert(before.contains(g));
                lemma_rows_indexed(s, entity, column, init, g);
                let i = choose|i: int| 0 <= i < init.len() && gives(#[trigger] init[i], g);
                assert(rows[i] == init[i]);
                assert(rows[i].0 == last.0);
                assert(rows[i] == last);
                assert(g == e);
            }
            if gives(last, f) && in_column(f, entity, column) {
                assert(f == e);
            }
        }
    }
}

/// Once a column is covered by the ordered index it is true, and all that was true
/// stays true.
pub proof fn law_covering_is_true(store: StoreView, entity: Seq<char>, column: Seq<char>)
    requires
        faithful(store, entity),
        store.btree is Some,
        ensured(store, entity, column) is Ok,
    ensures
        ({
            let after = ensured(store, entity, column)->Ok_0;
            &&& faithful(after, entity)
            &&& after.btree is Some
            &&& after.btree_columns.contains((entity, column))
            &&& column_true(after, after.btree->0, entity, column)
            &&& forall|id: Seq<u8>| #[trigger]
                is_there(after, entity, id) <==> is_there(store, entity, id)
            &&& forall|id: Seq<u8>| #[trigger] fields_now(after, id) == fields_now(store, id)
        }),
{
    let after = ensured(store, entity, column)->Ok_0;
    assert forall|id: Seq<u8>| #[trigger] latest_outcome(after, id) == latest_outcome(store, id) by {}
    assert forall|id: Seq<u8>| #[trigger] fields_now(after, id) == fields_now(store, id) by {
        assert(latest_outcome(after, id) == latest_outcome(store, id));
    }
    assert forall|id: Seq<u8>| #[trigger] listed(after, entity, id) == listed(
        store,
        entity,
        id,
    ) by {}
    assert forall|id: Seq<u8>| #[trigger] is_there(after, entity, id) <==> is_there(
        store,
        entity,
        id,
    ) by {
        assert(fields_now(after, id) == fields_now(store, id));
        assert(listed(after, entity, id) == listed(store, entity, id));
    }
    if !store.btree_columns.contains((entity, column)) {
        lemma_covered_now(store, entity, column);
        let n = store.btree_columns.len() as int;
        assert(after.btree_columns[n] == (entity, column));
    }
    lemma_still_true(store, after, entity);
}

proof fn lemma_still_true(store: StoreView, after: StoreView, entity: Seq<char>)
    requires
        faithful(store, entity),
        after.data == store.data,
        after.meta == store.meta,
        after.types == store.types,
        after.columnar == store.columnar,
        after.hash == store.hash,
        ordered_true(after, entity),
        forall|id: Seq<u8>| #[trigger] latest_outcome(after, id) == latest_outcome(store, id),
        forall|id: Seq<u8>| #[trigger] fields_now(after, id) == fields_now(store, id),
        forall|id: Seq<u8>| #[trigger] listed(after, entity, id) == listed(store, entity, id),
        forall|id: Seq<u8>| #[trigger]
            is_there(after, entity, id) <==> is_there(store, entity, id),
    ensures
        faithful(after, entity),
{
    assert forall|id: Seq<u8>| #[trigger] listed(after, entity, id) implies latest_outcome(
        after,
        id,
    ) is Ok && (latest_outcome(after, id)->Ok_0 matches Some(v) ==> entity_outcome(
        v.1.data,
    ) is Ok) by {
        assert(listed(store, entity, id));
        assert(latest_outcome(after, id) == latest_outcome(store, id));
    }
    assert(readable_type(after, entity));
    assert(projection_true(after, entity));
    assert forall|column: Seq<char>, v: ValueView, id: Seq<u8>|
        countable(column) && id.len() == 16 implies (#[trigger] after.hash.contains_key(
        index_key(entity, column, v, id),
    ) <==> has_value(after, entity, column, v, id)) by {
        assert(store.hash.contains_key(index_key(entity, column, v, id)) <==> has_value(
            store,
            entity,
            column,
            v,
            id,
        ));
        assert(is_there(after, entity, id) <==> is_there(store, entity, id));
        assert(fields_now(after, id) == fields_now(store, id));
    }
    assert(hash_true(after, entity));
}

proof fn lemma_covered_now(store: StoreView, entity: Seq<char>, column: Seq<char>)
    requires
        faithful(store, entity),
        store.btree is Some,
        ensured(store, entity, column) is Ok,
        !store.btree_columns.contains((entity, column)),
    ensures
        ({
            let after = ensured(store, entity, column)->Ok_0;
            ordered_true(after, entity) && column_true(after, after.btree->0, entity, column)
        }),
{
    let after = ensured(store, entity, column)->Ok_0;
    let old_s = store.btree->0;
    let s = after.btree->0;
    let kept = without_column(old_s, entity, column);
    let items = row_items(store.columnar, entity);
    let rows = collect(items)->Ok_0;
    lemma_collect_ok(items);
    assert forall|id: Seq<u8>| #[trigger] fields_now(after, id) == fields_now(store, id) by {
        assert(latest_outcome(after, id) == latest_outcome(store, id));
    }
    assert forall|e: IndexEntryView| #[trigger] kept.contains(e) <==> old_s.contains(e)
        && !in_column(e, entity, column) by {
        let keep = |f: IndexEntryView| !in_column(f, entity, column);
        if kept.contains(e) {
            old_s.lemma_filter_contains_rev(keep, e);
            let k = choose|k: int| 0 <= k < kept.len() && kept[k] == e;
            old_s.lemma_filter_pred(keep, k);
        }
        if old_s.contains(e) && keep(e) {
            let k = choose|k: int| 0 <= k < old_s.len() && old_s[k] == e;
            old_s.lemma_filter_contains(keep, k);
        }
    }
    assert forall|i: int| 0 <= i < rows.len() implies is_there(store, entity, (#[trigger] rows[i]).0)
        && rows[i].1 == fields_now(store, rows[i].0)->0 by {
        assert(items[i] == Ok::<(Seq<u8>, Seq<FieldView>), ErrorView>((rows[i].0, rows[i].1)));
        assert(items.contains(items[i]));
        lemma_row_len(store.columnar, entity, i);
        law_rows_are_those_held(store.columnar, entity, rows[i].0, rows[i].1);
        assert(store.columnar.contains_key(type_key(entity, rows[i].0)));
    }
    assert forall|id: Seq<u8>| #[trigger] is_there(store, entity, id) implies exists|i: int|
        0 <= i < rows.len() && #[trigger] rows[i] == (id, fields_now(store, id)->0) by {
        assert(store.columnar.contains_key(type_key(entity, id)));
        let row = (id, fields_now(store, id)->0);
        law_rows_are_those_held(store.columnar, entity, id, row.1);
        let i = choose|i: int|
            0 <= i < items.len() && items[i] == Ok::<(Seq<u8>, Seq<FieldView>), ErrorView>(row);
        assert(rows[i] == row);
    }
    assert forall|f: IndexEntryView| #[trigger] s.contains(f) <==> kept.contains(f) || (in_column(
        f,
        entity,
        column,
    ) && exists|i: int| 0 <= i < rows.len() && gives(#[trigger] rows[i], f)) by {
        lemma_rows_indexed(kept, entity, column, rows, f);
    }
    assert(column_true(after, s, entity, column)) by {
        assert forall|id: Seq<u8>| #[trigger]
            is_there(after, entity, id) && indexable(
                last_value(fields_now(after, id)->0, column),
            ) implies (exists|e: IndexEntryView| #[trigger]
            s.contains(e) && in_column(e, entity, column) && e.id == id) by {
            assert(is_there(store, entity, id));
            let e = IndexEntryView {
                entity_type: entity,
                column,
                value: last_value(fields_now(store, id)->0, column)->0,
                id,
            };
            let i = choose|i: int|
                0 <= i < rows.len() && #[trigger] rows[i] == (id, fields_now(store, id)->0);
            assert(gives(rows[i], e));
            assert(s.contains(e));
        }
        assert forall|e: IndexEntryView| #[trigger]
            s.contains(e) && in_column(e, entity, column) implies is_there(after, entity, e.id)
            && last_value(fields_now(after, e.id)->0, column) == Some(e.value) && !(
        e.value is Null) by {
            let i = choose|i: int| 0 <= i < rows.len() && gives(#[trigger] rows[i], e);
            assert(is_there(store, entity, rows[i].0));
        }
    }
    assert forall|other: Seq<char>| #[trigger]
        after.btree_columns.contains((entity, other)) implies column_true(
        after,
        s,
        entity,
        other,
    ) by {
        if other != column {
            let k = choose|k: int|
                0 <= k < after.btree_columns.len() && after.btree_columns[k] == (entity, other);
            assert(store.btree_columns[k] == (entity, other));
            assert(store.btree_columns.contains((entity, other)));
            assert(column_true(store, old_s, entity, other));
            assert forall|e: IndexEntryView| in_column(e, entity, other) implies (
            #[trigger] s.contains(e) <==> old_s.contains(e)) by {}
            assert forall|id: Seq<u8>| #[trigger]
                is_there(after, entity, id) && indexable(
                    last_value(fields_now(after, id)->0, other),
                ) implies (exists|e: IndexEntryView| #[trigger]
                s.contains(e) && in_column(e, entity, other) && e.id == id) by {
                assert(is_there(store, entity, id));
                let e = choose|e: IndexEntryView| #[trigger]
                    old_s.contains(e) && in_column(e, entity, other) && e.id == id;
                assert(s.contains(e));
            }
            assert forall|e: IndexEntryView| #[trigger]
                s.contains(e) && in_column(e, entity, other) implies is_there(after, entity, e.id)
                && last_value(fields_now(after, e.id)->0, other) == Some(e.value) && !(
            e.value is Null) by {
                assert(old_s.contains(e));
                assert(is_there(store, entity, e.id));
            }
        }
    }
}

proof fn lemma_rows_indexed_apart(
    s: Seq<IndexEntryView>,
    entity: Seq<char>,
    column: Seq<char>,
    rows: Seq<(Seq<u8>, Seq<FieldView>)>,
    f: IndexEntryView,
)
    requires
        !in_column(f, entity, column),
    ensures
        indexed_rows(s, entity, column, rows).contains(f) <==> s.contains(f),
    decreases rows.len(),
{
    if rows.len() > 0 {
        let init = rows.drop_last();
        lemma_rows_indexed_apart(s, entity, column, init, f);
        let value = last_value(rows.last().1, column);
        if indexable(value) {
            let e = IndexEntryView {
                entity_type: entity,
                column,
                value: value->0,
                id: rows.last().0,
            };
            lemma_one_entry_more(indexed_rows(s, entity, column, init), e, f);
        }
    }
}

/// Covering a column of a type leaves all that is true of another type true.
pub proof fn law_covering_leaves_others(
    store: StoreView,
    entity: Seq<char>,
    column: Seq<char>,
    other: Seq<char>,
)
    requires
        faithful(store, other),
        other != entity,
        ensured(store, entity, column) is Ok,
    ensures
        faithful(ensured(store, entity, column)->Ok_0, other),
{
    let after = ensured(store, entity, column)->Ok_0;
    assert forall|id: Seq<u8>| #[trigger] latest_outcome(after, id) == latest_outcome(store, id) by {}
    assert forall|id: Seq<u8>| #[trigger] fields_now(after, id) == fields_now(store, id) by {
        assert(latest_outcome(after, id) == latest_outcome(store, id));
    }
    assert forall|id: Seq<u8>| #[trigger] listed(after, other, id) == listed(store, other, id) by {}
    assert forall|id: Seq<u8>| #[trigger] is_there(after, other, id) <==> is_there(
        store,
        other,
        id,
    ) by {
        assert(fields_now(after, id) == fields_now(store, id));
        assert(listed(after, other, id) == listed(store, other, id));
    }
    if store.btree is Some && !store.btree_columns.contains((entity, column)) {
        let old_s = store.btree->0;
        let s = after.btree->0;
        let kept = without_column(old_s, entity, column);
        let rows = collect(row_items(store.columnar, entity))->Ok_0;
        assert forall|e: IndexEntryView| e.entity_type == other implies (#[trigger] s.contains(e)
            <==> old_s.contains(e)) by {
            let keep = |f: IndexEntryView| !in_column(f, entity, column);
            lemma_rows_indexed_apart(kept, entity, column, rows, e);
            if kept.contains(e) {
                old_s.lemma_filter_contains_rev(keep, e);
            }
            if old_s.contains(e) {
                let k = choose|k: int| 0 <= k < old_s.len() && old_s[k] == e;
                old_s.lemma_filter_contains(keep, k);
            }
        }
        assert forall|c: Seq<char>| #[trigger]
            after.btree_columns.contains((other, c)) implies column_true(after, s, other, c) by {
            let k = choose|k: int|
                0 <= k < after.btree_columns.len() && after.btree_columns[k] == (other, c);
            assert(store.btree_columns[k] == (other, c));
            assert(store.btree_columns.contains((other, c)));
            assert(column_true(store, old_s, other, c));
            lemma_same_column(store, old_s, after, s, other, c);
        }
    }
    lemma_still_true(store, after, other);
}

proof fn lemma_same_column(
    store: StoreView,
    old_s: Seq<IndexEntryView>,
    after: StoreView,
    s: Seq<IndexEntryView>,
    entity: Seq<char>,
    column: Seq<char>,
)
    requires
        column_true(store, old_s, entity, column),
        forall|e: IndexEntryView|
            in_column(e, entity, column) ==> (#[trigger] s.contains(e) <==> old_s.contains(e)),
        forall|id: Seq<u8>| #[trigger] fields_now(after, id) == fields_now(store, id),
        forall|id: Seq<u8>| #[trigger]
            is_there(after, entity, id) <==> is_there(store, entity, id),
    ensures
        column_true(after, s, entity, column),
{
    assert forall|id: Seq<u8>| #[trigger]
        is_there(after, entity, id) && indexable(
            last_value(fields_now(after, id)->0, column),
        ) implies (exists|e: IndexEntryView| #[trigger]
        s.contains(e) && in_column(e, entity, column) && e.id == id) by {
        assert(is_there(store, entity, id));
        assert(fields_now(after, id) == fields_now(store, id));
        let e = choose|e: IndexEntryView| #[trigger]
            old_s.contains(e) && in_column(e, entity, column) && e.id == id;
        assert(s.contains(e));
    }
    assert forall|e: IndexEntryView| #[trigger]
        s.contains(e) && in_column(e, entity, column) implies is_there(after, entity, e.id)
        && last_value(fields_now(after, e.id)->0, column) == Some(e.value) && !(
    e.value is Null) by {
        assert(old_s.contains(e));
        assert(is_there(store, entity, e.id));
        assert(fields_now(after, e.id) == fields_now(store, e.id));
    }
}

/// The rows of the row projection are of entities.
pub proof fn lemma_row_len(m: Bytes, entity: Seq<char>, i: int)
    requires
        m.dom().finite(),
        0 <= i < row_items(m, entity).len(),
        row_items(m, entity)[i] is Ok,
    ensures
        row_items(m, entity)[i]->Ok_0.0.len() == 16,
{
    let prefix = type_prefix(entity);
    let l = prefix_listing(m, prefix);
    assert(row_items(m, entity)[i] == row_item(l[i], prefix.len()));
}

proof fn lemma_btree_in_turn(
    s: Seq<IndexEntryView>,
    entity: Seq<char>,
    id: Seq<u8>,
    first: Seq<IndexOpView>,
    second: Seq<IndexOpView>,
)
    ensures
        apply_btree(s, entity, id, first + second) == apply_btree(
            apply_btree(s, entity, id, first),
            entity,
            id,
            second,
        ),
    decreases second.len(),
{
    if second.len() == 0 {
        assert(first + second =~= first);
    } else {
        lemma_btree_in_turn(s, entity, id, first, second.drop_last());
        assert((first + second).drop_last() =~= first + second.drop_last());
    }
}

/// The index without an entry holds the entries that do not say the same.
proof fn lemma_one_entry_less(s: Seq<IndexEntryView>, e: IndexEntryView, f: IndexEntryView)
    ensures
        without_entry(s, e).contains(f) <==> s.contains(f) && !same_entry(f, e),
{
    let keep = |f: IndexEntryView| !same_entry(f, e);
    let t = without_entry(s, e);
    if t.contains(f) {
        s.lemma_filter_contains_rev(keep, f);
        let k = choose|k: int| 0 <= k < t.len() && t[k] == f;
        s.lemma_filter_pred(keep, k);
    }
    if s.contains(f) && keep(f) {
        let k = choose|k: int| 0 <= k < s.len() && s[k] == f;
        s.lemma_filter_contains(keep, k);
    }
}

/// The column of a change.
spec fn column_of(op: IndexOpView) -> Seq<char> {
    match op {
        IndexOpView::Remove(c, _) => c,
        IndexOpView::Insert(c, _) => c,
    }
}

proof fn lemma_entry_untouched(
    s: Seq<IndexEntryView>,
    entity: Seq<char>,
    id: Seq<u8>,
    ops: Seq<IndexOpView>,
    f: IndexEntryView,
)
    requires
        forall|i: int|
            0 <= i < ops.len() ==> f.id != id || f.entity_type != entity || column_of(
                #[trigger] ops[i],
            ) != f.column,
    ensures
        apply_btree(s, entity, id, ops).contains(f) <==> s.contains(f),
    decreases ops.len(),
{
    if ops.len() > 0 {
        let init = ops.drop_last();
        assert forall|i: int| 0 <= i < init.len() implies f.id != id || f.entity_type != entity
            || column_of(#[trigger] init[i]) != f.column by {
            assert(init[i] == ops[i]);
        }
        lemma_entry_untouched(s, entity, id, init, f);
        let sofar = apply_btree(s, entity, id, init);
        assert(column_of(ops[ops.len() - 1]) == column_of(ops.last()));
        match ops.last() {
            IndexOpView::Remove(column, value) => {
                lemma_one_entry_less(
                    sofar,
                    IndexEntryView { entity_type: entity, column, value, id },
                    f,
                );
            },
            IndexOpView::Insert(column, value) => {
                lemma_one_entry_more(
                    sofar,
                    IndexEntryView { entity_type: entity, column, value, id },
                    f,
                );
            },
        }
    }
}

/// What a column of the ordered index holds of an entity: its value, and nothing else.
pub open spec fn entry_is(
    s: Seq<IndexEntryView>,
    entity: Seq<char>,
    column: Seq<char>,
    id: Seq<u8>,
    v: Option<ValueView>,
) -> bool {
    forall|f: IndexEntryView|
        in_column(f, entity, column) && f.id == id ==> (#[trigger] s.contains(f) <==> indexable(v)
            && f.value == v->0)
}

proof fn lemma_own_column(
    s: Seq<IndexEntryView>,
    entity: Seq<char>,
    column: Seq<char>,
    id: Seq<u8>,
    was: Option<ValueView>,
    is_now: Option<ValueView>,
)
    requires
        entry_is(s, entity, column, id, was),
        was is Some ==> value_holdable(was->0),
        is_now is Some ==> value_holdable(is_now->0),
        optional_equal(was, is_now) ==> was == is_now,
    ensures
        entry_is(
            apply_btree(s, entity, id, column_ops(column, was, is_now)),
            entity,
            column,
            id,
            is_now,
        ),
{
    let ops = column_ops(column, was, is_now);
    if !optional_equal(was, is_now) {
        let out = IndexEntryView { entity_type: entity, column, value: was->0, id };
        let new = IndexEntryView { entity_type: entity, column, value: is_now->0, id };
        let less = if indexable(was) {
            without_entry(s, out)
        } else {
            s
        };
        let next = apply_btree(s, entity, id, ops);
        reveal_with_fuel(apply_btree, 3);
        if indexable(was) {
            lemma_parse_value(was->0);
            if indexable(is_now) {
                assert(ops.drop_last() =~= seq![IndexOpView::Remove(column, was->0)]);
                assert(ops.drop_last().drop_last() =~= Seq::<IndexOpView>::empty());
                assert(apply_btree(s, entity, id, ops.drop_last()) == less);
                assert(next == with_entry(less, new));
            } else {
                assert(ops =~= seq![IndexOpView::Remove(column, was->0)]);
                assert(ops.drop_last() =~= Seq::<IndexOpView>::empty());
                assert(next == less);
            }
        } else if indexable(is_now) {
            assert(ops =~= seq![IndexOpView::Insert(column, is_now->0)]);
            assert(ops.drop_last() =~= Seq::<IndexOpView>::empty());
            assert(next == with_entry(less, new));
        }
        assert forall|f: IndexEntryView|
            in_column(f, entity, column) && f.id == id implies !less.contains(f) by {
            if indexable(was) {
                lemma_one_entry_less(s, out, f);
            }
            if s.contains(f) {
                assert(f.value == was->0);
            }
        }
        if indexable(is_now) {
            assert(!holds_entry(less, new)) by {
                if holds_entry(less, new) {
                    let k = choose|k: int| 0 <= k < less.len() && same_entry(#[trigger] less[k], new);
                    assert(less.contains(less[k]));
                }
            }
            assert forall|f: IndexEntryView|
                in_column(f, entity, column) && f.id == id implies (#[trigger] next.contains(f)
                <==> f.value == is_now->0) by {
                lemma_one_entry_more(less, new, f);
            }
        }
    }
}

proof fn lemma_column_followed(
    s: Seq<IndexEntryView>,
    entity: Seq<char>,
    id: Seq<u8>,
    names: Seq<Seq<char>>,
    before: Seq<FieldView>,
    after: Seq<FieldView>,
    column: Seq<char>,
)
    requires
        names.no_duplicates(),
        entry_is(s, entity, column, id, last_value(before, column)),
        fields_holdable(before),
        fields_holdable(after),
        optional_equal(last_value(before, column), last_value(after, column)) ==> last_value(
            before,
            column,
        ) == last_value(after, column),
    ensures
        entry_is(
            apply_btree(s, entity, id, change_ops(names, before, after)),
            entity,
            column,
            id,
            if names.contains(column) {
                last_value(after, column)
            } else {
                last_value(before, column)
            },
        ),
    decreases names.len(),
{
    if names.len() > 0 {
        let init = names.drop_last();
        let name = names[names.len() - 1];
        assert(name == names.last());
        lemma_column_followed(s, entity, id, init, before, after, column);
        let sofar = apply_btree(s, entity, id, change_ops(init, before, after));
        let ops = column_ops(name, last_value(before, name), last_value(after, name));
        lemma_btree_in_turn(s, entity, id, change_ops(init, before, after), ops);
        if name == column {
            if init.contains(column) {
                let i = choose|i: int| 0 <= i < init.len() && init[i] == column;
                assert(names[i] == names[names.len() - 1]);
            }
            lemma_last_is_there(before, column);
            lemma_last_is_there(after, column);
            lemma_own_column(
                sofar,
                entity,
                column,
                id,
                last_value(before, column),
                last_value(after, column),
            );
        } else {
            assert forall|f: IndexEntryView|
                in_column(f, entity, column) && f.id == id implies (#[trigger] apply_btree(
                sofar,
                entity,
                id,
                ops,
            ).contains(f) <==> sofar.contains(f)) by {
                lemma_entry_untouched(sofar, entity, id, ops, f);
            }
            if names.contains(column) {
                let i = choose|i: int| 0 <= i < names.len() && names[i] == column;
                assert(init[i] == column);
            } else if init.contains(column) {
                let i = choose|i: int| 0 <= i < init.len() && init[i] == column;
                assert(names[i] == column);
            }
        }
    }
}

/// Whether no value is replaced by one that counts as equal and is written otherwise, as
/// a zero by a negative zero.
pub open spec fn replaced_plainly(before: Seq<FieldView>, after: Seq<FieldView>) -> bool {
    forall|column: Seq<char>|
        optional_equal(#[trigger] last_value(before, column), last_value(after, column))
            ==> last_value(before, column) == last_value(after, column)
}

/// Whether a store is the one that a change of an entity's fields leads to: the entity
/// has the fields, the other entities have what they had, and the type index, the
/// row projection and the indexes follow.
pub open spec fn follows_change(
    store: StoreView,
    after: StoreView,
    entity: Seq<char>,
    id: Seq<u8>,
    before: Option<Seq<FieldView>>,
    now: Option<Seq<FieldView>>,
    columns: Seq<Seq<char>>,
) -> bool {
    let b = or_none(before);
    let a = or_none(now);
    &&& fields_now(after, id) == now
    &&& latest_outcome(after, id) is Ok
    &&& now is None ==> latest_outcome(after, id)->Ok_0 is None
    &&& forall|other: Seq<u8>|
        other.len() == 16 && other != id ==> #[trigger] latest_outcome(after, other)
            == latest_outcome(store, other)
    &&& after.types == match now {
        Some(_) => store.types.insert(type_key(entity, id), Seq::empty()),
        None => store.types,
    }
    &&& after.columnar == match now {
        Some(fs) => with_row(store.columnar, entity, id, fs),
        None => store.columnar.remove(type_key(entity, id)),
    }
    &&& after.hash == hash_after(store.hash, entity, id, b, a)
    &&& after.btree_columns == store.btree_columns
    &&& after.btree == match store.btree {
        Some(s) => Some(apply_btree(s, entity, id, change_ops(distinct(columns), b, a))),
        None => None,
    }
}

/// A change that the type index, the row projection and the indexes follow keeps
/// everything true that a store says of a type.
pub proof fn law_following_keeps_truth(
    store: StoreView,
    after: StoreView,
    entity: Seq<char>,
    id: Seq<u8>,
    before: Option<Seq<FieldView>>,
    now: Option<Seq<FieldView>>,
    columns: Seq<Seq<char>>,
)
    requires
        faithful(store, entity),
        id.len() == 16,
        follows_change(store, after, entity, id, before, now, columns),
        before is None ==> fields_now(store, id) is None,
        before is Some ==> is_there(store, entity, id) && fields_now(store, id) == before,
        now matches Some(fs) ==> named_once(fs) && fields_holdable(fs),
        replaced_plainly(or_none(before), or_none(now)),
        forall|c: Seq<char>| #[trigger]
            store.btree_columns.contains((entity, c)) ==> columns.contains(c),
    ensures
        faithful(after, entity),
        is_there(after, entity, id) <==> now is Some,
        forall|other: Seq<u8>|
            other != id ==> (#[trigger] is_there(after, entity, other) <==> is_there(
                store,
                entity,
                other,
            )),
{
    let b = or_none(before);
    let a = or_none(now);
    lemma_type_key(entity, id);
    assert forall|other: Seq<u8>| other.len() == 16 && other != id implies #[trigger] fields_now(
        after,
        other,
    ) == fields_now(store, other) && (listed(after, entity, other) <==> listed(
        store,
        entity,
        other,
    )) && (store.columnar.contains_key(type_key(entity, other)) <==> after.columnar.contains_key(
        type_key(entity, other),
    )) && (store.columnar.contains_key(type_key(entity, other)) ==> store.columnar[type_key(
        entity,
        other,
    )] == after.columnar[type_key(entity, other)]) by {
        assert(latest_outcome(after, other) == latest_outcome(store, other));
        lemma_type_key(entity, other);
        assert(type_key(entity, other) != type_key(entity, id));
    }
    assert forall|other: Seq<u8>| other != id implies (#[trigger] is_there(after, entity, other)
        <==> is_there(store, entity, other)) by {
        if other.len() == 16 {
            assert(fields_now(after, other) == fields_now(store, other));
        }
    }
    if let Some(fs) = now {
        law_entity_round_trip(fs);
    }
    assert(fields_holdable(Seq::<FieldView>::empty())) by {
        lemma_be_limit_u64();
    }
    assert(readable_type(after, entity)) by {
        assert forall|k: Seq<u8>| #[trigger]
            after.types.contains_key(k) && has_prefix(k, type_prefix(entity)) implies k.len()
            == type_prefix(entity).len() + 16 by {
            if k != type_key(entity, id) {
                assert(store.types.contains_key(k));
            }
        }
        assert forall|x: Seq<u8>| #[trigger] listed(after, entity, x) implies latest_outcome(
            after,
            x,
        ) is Ok && (latest_outcome(after, x)->Ok_0 matches Some(v) ==> entity_outcome(
            v.1.data,
        ) is Ok) by {
            if x != id {
                assert(fields_now(after, x) == fields_now(store, x));
                assert(listed(store, entity, x));
                assert(latest_outcome(after, x) == latest_outcome(store, x));
            }
        }
        assert forall|x: Seq<u8>| #[trigger] is_there(after, entity, x) implies named_once(
            fields_now(after, x)->0,
        ) && fields_holdable(fields_now(after, x)->0) by {
            if x != id {
                assert(is_there(store, entity, x));
                assert(fields_now(after, x) == fields_now(store, x));
            }
        }
    }
    assert(projection_true(after, entity)) by {
        assert forall|k: Seq<u8>| #[trigger]
            after.columnar.contains_key(k) && has_prefix(k, type_prefix(entity)) implies k.len()
            == type_prefix(entity).len() + 16 by {
            if k != type_key(entity, id) {
                assert(store.columnar.contains_key(k));
            }
        }
        assert forall|x: Seq<u8>| x.len() == 16 implies (#[trigger] after.columnar.contains_key(
            type_key(entity, x),
        ) <==> is_there(after, entity, x)) by {
            if x != id {
                assert(fields_now(after, x) == fields_now(store, x));
                assert(store.columnar.contains_key(type_key(entity, x)) <==> is_there(
                    store,
                    entity,
                    x,
                ));
            }
        }
        assert forall|x: Seq<u8>| #[trigger] is_there(after, entity, x) implies entity_outcome(
            after.columnar[type_key(entity, x)],
        ) == Ok::<Seq<FieldView>, ErrorView>(fields_now(after, x)->0) by {
            if x != id {
                assert(is_there(store, entity, x));
                assert(fields_now(after, x) == fields_now(store, x));
                assert(store.columnar.contains_key(type_key(entity, x)));
            }
        }
    }
    assert(hash_true(after, entity)) by {
        lemma_hash_follows(store, after, entity, id, before, now, columns);
    }
    assert(ordered_true(after, entity)) by {
        lemma_order_follows(store, after, entity, id, before, now, columns);
    }
}

proof fn lemma_hash_follows(
    store: StoreView,
    after: StoreView,
    entity: Seq<char>,
    id: Seq<u8>,
    before: Option<Seq<FieldView>>,
    now: Option<Seq<FieldView>>,
    columns: Seq<Seq<char>>,
)
    requires
        faithful(store, entity),
        id.len() == 16,
        follows_change(store, after, entity, id, before, now, columns),
        before is None ==> fields_now(store, id) is None,
        before is Some ==> is_there(store, entity, id) && fields_now(store, id) == before,
        now matches Some(fs) ==> named_once(fs) && fields_holdable(fs),
        replaced_plainly(or_none(before), or_none(now)),
        is_there(after, entity, id) <==> now is Some,
        forall|other: Seq<u8>|
            other != id ==> (#[trigger] is_there(after, entity, other) <==> is_there(
                store,
                entity,
                other,
            )),
    ensures
        hash_true(after, entity),
{
    let b = or_none(before);
    let a = or_none(now);
    lemma_following_is_finite(store.hash, entity, id, b, a);
    assert forall|i: int| 0 <= i < b.len() implies countable((#[trigger] b[i]).0) by {
        assert(value_holdable(b[i].1));
    }
    assert forall|i: int| 0 <= i < a.len() implies countable((#[trigger] a[i]).0) by {
        assert(value_holdable(a[i].1));
    }
    assert forall|column: Seq<char>, v: ValueView, x: Seq<u8>|
        countable(column) && x.len() == 16 implies (#[trigger] after.hash.contains_key(
        index_key(entity, column, v, x),
    ) <==> has_value(after, entity, column, v, x)) by {
        assert(store.hash.contains_key(index_key(entity, column, v, x)) <==> has_value(
            store,
            entity,
            column,
            v,
            x,
        ));
        if x == id {
            lemma_last_is_there(b, column);
            law_index_stays_exact(store.hash, entity, id, b, a, column, v);
        } else {
            law_index_leaves_others(store.hash, entity, id, b, a, column, v, x);
            assert(latest_outcome(after, x) == latest_outcome(store, x));
            assert(is_there(after, entity, x) <==> is_there(store, entity, x));
        }
    }
}

proof fn lemma_order_follows(
    store: StoreView,
    after: StoreView,
    entity: Seq<char>,
    id: Seq<u8>,
    before: Option<Seq<FieldView>>,
    now: Option<Seq<FieldView>>,
    columns: Seq<Seq<char>>,
)
    requires
        faithful(store, entity),
        id.len() == 16,
        follows_change(store, after, entity, id, before, now, columns),
        before is None ==> fields_now(store, id) is None,
        before is Some ==> is_there(store, entity, id) && fields_now(store, id) == before,
        now matches Some(fs) ==> named_once(fs) && fields_holdable(fs),
        replaced_plainly(or_none(before), or_none(now)),
        fields_holdable(Seq::<FieldView>::empty()),
        forall|c: Seq<char>| #[trigger]
            store.btree_columns.contains((entity, c)) ==> columns.contains(c),
        is_there(after, entity, id) <==> now is Some,
        forall|other: Seq<u8>|
            other != id ==> (#[trigger] is_there(after, entity, other) <==> is_there(
                store,
                entity,
                other,
            )),
    ensures
        ordered_true(after, entity),
{
    let b = or_none(before);
    let a = or_none(now);
    if let Some(old_s) = store.btree {
        let ops = change_ops(distinct(columns), b, a);
        let s = apply_btree(old_s, entity, id, ops);
        lemma_distinct_names(columns);
        assert forall|column: Seq<char>| #[trigger]
            after.btree_columns.contains((entity, column)) implies column_true(
            after,
            s,
            entity,
            column,
        ) by {
            assert(store.btree_columns.contains((entity, column)));
            assert(columns.contains(column));
            assert(distinct(columns).contains(column));
            assert(column_true(store, old_s, entity, column));
            let was = last_value(b, column);
            assert(entry_is(old_s, entity, column, id, was)) by {
                assert forall|f: IndexEntryView|
                    in_column(f, entity, column) && f.id == id implies (#[trigger] old_s.contains(f)
                    <==> indexable(was) && f.value == was->0) by {
                    if indexable(was) {
                        assert(is_there(store, entity, id));
                        let e = choose|e: IndexEntryView| #[trigger]
                            old_s.contains(e) && in_column(e, entity, column) && e.id == id;
                        assert(last_value(fields_now(store, e.id)->0, column) == Some(e.value));
                        if f.value == was->0 {
                            assert(f == e);
                        }
                    }
                }
            }
            lemma_column_followed(old_s, entity, id, distinct(columns), b, a, column);
            assert forall|f: IndexEntryView| f.id != id implies (#[trigger] s.contains(f)
                <==> old_s.contains(f)) by {
                lemma_entry_untouched(old_s, entity, id, ops, f);
            }
            lemma_column_stays_true(store, old_s, after, s, entity, column, id);
        }
    }
}

proof fn lemma_column_stays_true(
    store: StoreView,
    old_s: Seq<IndexEntryView>,
    after: StoreView,
    s: Seq<IndexEntryView>,
    entity: Seq<char>,
    column: Seq<char>,
    id: Seq<u8>,
)
    requires
        column_true(store, old_s, entity, column),
        entry_is(
            s,
            entity,
            column,
            id,
            last_value(or_none(fields_now(after, id)), column),
        ),
        is_there(after, entity, id) <==> fields_now(after, id) is Some,
        forall|f: IndexEntryView|
            f.id != id ==> (#[trigger] s.contains(f) <==> old_s.contains(f)),
        forall|other: Seq<u8>|
            other.len() == 16 && other != id ==> #[trigger] latest_outcome(after, other)
                == latest_outcome(store, other),
        forall|other: Seq<u8>|
            other != id ==> (#[trigger] is_there(after, entity, other) <==> is_there(
                store,
                entity,
                other,
            )),
    ensures
        column_true(after, s, entity, column),
{
    assert forall|e: IndexEntryView| #[trigger]
        s.contains(e) && in_column(e, entity, column) implies is_there(after, entity, e.id)
        && last_value(fields_now(after, e.id)->0, column) == Some(e.value) && !(
    e.value is Null) by {
        if e.id != id {
            assert(old_s.contains(e));
            assert(is_there(store, entity, e.id));
            assert(is_there(after, entity, e.id));
            assert(latest_outcome(after, e.id) == latest_outcome(store, e.id));
        }
    }
    assert forall|x: Seq<u8>| #[trigger]
        is_there(after, entity, x) && indexable(
            last_value(fields_now(after, x)->0, column),
        ) implies (exists|e: IndexEntryView| #[trigger]
        s.contains(e) && in_column(e, entity, column) && e.id == x) by {
        if x == id {
            let e = IndexEntryView {
                entity_type: entity,
                column,
                value: last_value(fields_now(after, id)->0, column)->0,
                id,
            };
            assert(s.contains(e));
        } else {
            assert(is_there(store, entity, x));
            assert(latest_outcome(after, x) == latest_outcome(store, x));
            let e = choose|e: IndexEntryView| #[trigger]
                old_s.contains(e) && in_column(e, entity, column) && e.id == x;
            assert(s.contains(e));
        }
    }
}

} // verus!

//! What holds of the equality index: it follows the fields of entities, and
//! finds what it holds.

use vstd::prelude::*;
use vstd::utf8::encode_utf8;

use crate::bytes::{be_limit, lemma_be_bytes_len, lemma_be_round_trip};
use crate::codec::{chunk_bytes, number, value_bytes, FieldView};
use crate::storage::columnar::last_value;
use crate::storage::hash_index::{index_key, listed_ids, lookup_outcome, value_prefix};
use crate::storage::index_ops::{
    change_ops, column_ops, distinct, field_names, indexable, optional_equal, touched_names,
    IndexOpView,
};
use crate::storage::kv::{lemma_prefix_is_listed, prefix_keys, prefix_listing};
use crate::storage::model::{apply_hash, Bytes};
use crate::text::lemma_utf8_injective;
use crate::value::ValueView;

verus! {

/// Whether a name is short enough to be counted.
pub open spec fn countable(name: Seq<char>) -> bool {
    encode_utf8(name).len() < be_limit(8)
}

proof fn lemma_key_parts(entity_type: Seq<char>, column: Seq<char>, v: ValueView, id: Seq<u8>)
    requires
        countable(column),
    ensures
        ({
            let t = encode_utf8(entity_type);
            let c = encode_utf8(column);
            let k = index_key(entity_type, column, v, id);
            &&& k.len() >= 16 + t.len() + c.len()
            &&& k.subrange(8 + t.len() as int, 16 + t.len() as int) == number(c.len())
            &&& k.subrange(16 + t.len() as int, (16 + t.len() + c.len()) as int) == c
        }),
{
    let t = encode_utf8(entity_type);
    let c = encode_utf8(column);
    let b = value_bytes(v);
    reveal_with_fuel(chunk_bytes, 4);
    lemma_be_bytes_len(t.len(), 8);
    lemma_be_bytes_len(c.len(), 8);
    let cs = seq![t, c, b];
    assert(cs.drop_first() =~= seq![c, b]);
    assert(cs.drop_first().drop_first() =~= seq![b]);
    let rest = chunk_bytes(seq![b]);
    let k = index_key(entity_type, column, v, id);
    assert(k =~= number(t.len()) + t + (number(c.len()) + c + rest) + id);
    assert(k.subrange(8 + t.len() as int, 16 + t.len() as int) =~= number(c.len()));
    assert(k.subrange(16 + t.len() as int, (16 + t.len() + c.len()) as int) =~= c);
}

/// Keys of different columns are different.
proof fn lemma_columns_apart(
    entity_type: Seq<char>,
    a: Seq<char>,
    v: ValueView,
    b: Seq<char>,
    w: ValueView,
    id: Seq<u8>,
)
    requires
        countable(a),
        countable(b),
        a != b,
    ensures
        index_key(entity_type, a, v, id) != index_key(entity_type, b, w, id),
{
    if index_key(entity_type, a, v, id) == index_key(entity_type, b, w, id) {
        lemma_key_parts(entity_type, a, v, id);
        lemma_key_parts(entity_type, b, w, id);
        lemma_be_round_trip(encode_utf8(a).len(), 8);
        lemma_be_round_trip(encode_utf8(b).len(), 8);
        lemma_utf8_injective(a, b);
    }
}

/// The key that a change sets or takes out.
spec fn op_key(entity_type: Seq<char>, id: Seq<u8>, op: IndexOpView) -> Seq<u8> {
    match op {
        IndexOpView::Remove(c, v) => index_key(entity_type, c, v, id),
        IndexOpView::Insert(c, v) => index_key(entity_type, c, v, id),
    }
}

proof fn lemma_ops_in_turn(
    m: Bytes,
    entity_type: Seq<char>,
    id: Seq<u8>,
    first: Seq<IndexOpView>,
    second: Seq<IndexOpView>,
)
    ensures
        apply_hash(m, entity_type, id, first + second) == apply_hash(
            apply_hash(m, entity_type, id, first),
            entity_type,
            id,
            second,
        ),
    decreases second.len(),
{
    if second.len() == 0 {
        assert(first + second =~= first);
    } else {
        lemma_ops_in_turn(m, entity_type, id, first, second.drop_last());
        assert((first + second).drop_last() =~= first + second.drop_last());
    }
}

proof fn lemma_untouched(
    m: Bytes,
    entity_type: Seq<char>,
    id: Seq<u8>,
    ops: Seq<IndexOpView>,
    k: Seq<u8>,
)
    requires
        forall|i: int| 0 <= i < ops.len() ==> op_key(entity_type, id, #[trigger] ops[i]) != k,
    ensures
        apply_hash(m, entity_type, id, ops).contains_key(k) == m.contains_key(k),
    decreases ops.len(),
{
    if ops.len() > 0 {
        let init = ops.drop_last();
        assert forall|i: int| 0 <= i < init.len() implies op_key(
            entity_type,
            id,
            #[trigger] init[i],
        ) != k by {
            assert(init[i] == ops[i]);
        }
        lemma_untouched(m, entity_type, id, init, k);
        assert(op_key(entity_type, id, ops[ops.len() - 1]) != k);
    }
}

proof fn lemma_same_membership(
    m: Bytes,
    n: Bytes,
    entity_type: Seq<char>,
    id: Seq<u8>,
    ops: Seq<IndexOpView>,
    k: Seq<u8>,
)
    requires
        m.contains_key(k) == n.contains_key(k),
    ensures
        apply_hash(m, entity_type, id, ops).contains_key(k) == apply_hash(
            n,
            entity_type,
            id,
            ops,
        ).contains_key(k),
    decreases ops.len(),
{
    if ops.len() > 0 {
        lemma_same_membership(m, n, entity_type, id, ops.drop_last(), k);
    }
}

proof fn lemma_column_in_turn(
    m: Bytes,
    entity_type: Seq<char>,
    id: Seq<u8>,
    names: Seq<Seq<char>>,
    before: Seq<FieldView>,
    after: Seq<FieldView>,
    column: Seq<char>,
    v: ValueView,
)
    requires
        countable(column),
        forall|i: int| 0 <= i < names.len() ==> countable(#[trigger] names[i]),
        names.no_duplicates(),
    ensures
        ({
            let k = index_key(entity_type, column, v, id);
            let own = column_ops(column, last_value(before, column), last_value(after, column));
            apply_hash(m, entity_type, id, change_ops(names, before, after)).contains_key(k)
                == if names.contains(column) {
                apply_hash(m, entity_type, id, own).contains_key(k)
            } else {
                m.contains_key(k)
            }
        }),
    decreases names.len(),
{
    if names.len() > 0 {
        let k = index_key(entity_type, column, v, id);
        let init = names.drop_last();
        let name = names[names.len() - 1];
        assert(name == names.last());
        assert forall|i: int| 0 <= i < init.len() implies countable(#[trigger] init[i]) by {
            assert(init[i] == names[i]);
        }
        lemma_column_in_turn(m, entity_type, id, init, before, after, column, v);
        let sofar = apply_hash(m, entity_type, id, change_ops(init, before, after));
        let ops = column_ops(name, last_value(before, name), last_value(after, name));
        lemma_ops_in_turn(m, entity_type, id, change_ops(init, before, after), ops);
        if name == column {
            if init.contains(column) {
                let i = choose|i: int| 0 <= i < init.len() && init[i] == column;
                assert(names[i] == names[names.len() - 1]);
            }
            lemma_same_membership(sofar, m, entity_type, id, ops, k);
        } else {
            assert forall|i: int| 0 <= i < ops.len() implies op_key(
                entity_type,
                id,
                #[trigger] ops[i],
            ) != k by {
                match ops[i] {
                    IndexOpView::Remove(c, w) => {
                        lemma_columns_apart(entity_type, c, w, column, v, id);
                    },
                    IndexOpView::Insert(c, w) => {
                        lemma_columns_apart(entity_type, c, w, column, v, id);
                    },
                }
            }
            lemma_untouched(sofar, entity_type, id, ops, k);
            if names.contains(column) {
                let i = choose|i: int| 0 <= i < names.len() && names[i] == column;
                assert(init[i] == column);
            } else if init.contains(column) {
                let i = choose|i: int| 0 <= i < init.len() && init[i] == column;
                assert(names[i] == column);
            }
        }
    }
}

proof fn lemma_distinct(names: Seq<Seq<char>>)
    ensures
        distinct(names).no_duplicates(),
        forall|n: Seq<char>|
            #![trigger distinct(names).contains(n)]
            #![trigger names.contains(n)]
            distinct(names).contains(n) <==> names.contains(n),
    decreases names.len(),
{
    if names.len() > 0 {
        let init = names.drop_last();
        lemma_distinct(init);
        let d = distinct(names);
        let e = distinct(init);
        assert forall|n: Seq<char>|
            #![trigger d.contains(n)]
            #![trigger names.contains(n)]
            d.contains(n) <==> names.contains(n) by {
            if names.contains(n) {
                let i = choose|i: int| 0 <= i < names.len() && names[i] == n;
                if i < init.len() {
                    assert(init[i] == n);
                    assert(init.contains(n));
                    let j = choose|j: int| 0 <= j < e.len() && e[j] == n;
                    assert(d[j] == n);
                } else if !e.contains(n) {
                    assert(d[e.len() as int] == n);
                }
            }
            if d.contains(n) {
                let j = choose|j: int| 0 <= j < d.len() && d[j] == n;
                if j < e.len() {
                    assert(e[j] == n);
                    assert(init.contains(n));
                    let i = choose|i: int| 0 <= i < init.len() && init[i] == n;
                    assert(names[i] == n);
                } else {
                    assert(names[names.len() - 1] == n);
                }
            }
        }
    }
}

proof fn lemma_value_has_name(fs: Seq<FieldView>, name: Seq<char>)
    requires
        last_value(fs, name) is Some,
    ensures
        field_names(fs).contains(name),
    decreases fs.len(),
{
    if fs.len() > 0 {
        if fs.last().0 == name {
            assert(field_names(fs)[fs.len() - 1] == name);
        } else {
            lemma_value_has_name(fs.drop_last(), name);
            let i = choose|i: int|
                0 <= i < fs.drop_last().len() && field_names(fs.drop_last())[i] == name;
            assert(field_names(fs)[i] == name);
        }
    }
}

/// The equality index after it has followed a change of an entity's fields.
pub open spec fn hash_after(
    hash: Bytes,
    entity_type: Seq<char>,
    id: Seq<u8>,
    before: Seq<FieldView>,
    after: Seq<FieldView>,
) -> Bytes {
    apply_hash(hash, entity_type, id, change_ops(touched_names(before, after), before, after))
}

/// Whether an index holds that an entity has a value in a column.
pub open spec fn holds(
    hash: Bytes,
    entity_type: Seq<char>,
    column: Seq<char>,
    v: ValueView,
    id: Seq<u8>,
) -> bool {
    hash.contains_key(index_key(entity_type, column, v, id))
}

/// The equality index follows the fields of an entity: where a column's value
/// changes, the new value is held and the old one is not, and where it does not
/// change, nothing changes for the column.
pub proof fn law_index_follows_fields(
    hash: Bytes,
    entity_type: Seq<char>,
    id: Seq<u8>,
    before: Seq<FieldView>,
    after: Seq<FieldView>,
    column: Seq<char>,
    v: ValueView,
)
    requires
        countable(column),
        forall|i: int| 0 <= i < before.len() ==> countable((#[trigger] before[i]).0),
        forall|i: int| 0 <= i < after.len() ==> countable((#[trigger] after[i]).0),
    ensures
        ({
            let was = last_value(before, column);
            let is_now = last_value(after, column);
            let next = hash_after(hash, entity_type, id, before, after);
            if optional_equal(was, is_now) {
                holds(next, entity_type, column, v, id) == holds(hash, entity_type, column, v, id)
            } else {
                &&& indexable(is_now) ==> holds(next, entity_type, column, is_now->0, id)
                &&& indexable(was) && (indexable(is_now) ==> value_bytes(was->0) != value_bytes(
                    is_now->0,
                )) ==> !holds(next, entity_type, column, was->0, id)
            }
        }),
{
    let all = field_names(before) + field_names(after);
    let names = touched_names(before, after);
    let was = last_value(before, column);
    let is_now = last_value(after, column);
    lemma_distinct(all);
    assert forall|i: int| 0 <= i < names.len() implies countable(#[trigger] names[i]) by {
        assert(names.contains(names[i]));
        assert(all.contains(names[i]));
        let j = choose|j: int| 0 <= j < all.len() && all[j] == names[i];
        if j < before.len() {
            assert(all[j] == before[j].0);
        } else {
            assert(all[j] == after[j - before.len()].0);
        }
    }
    if was is Some {
        lemma_value_has_name(before, column);
        let i = choose|i: int| 0 <= i < before.len() && field_names(before)[i] == column;
        assert(all[i] == column);
        assert(all.contains(column));
    }
    if is_now is Some {
        lemma_value_has_name(after, column);
        let i = choose|i: int| 0 <= i < after.len() && field_names(after)[i] == column;
        assert(all[before.len() + i] == column);
        assert(all.contains(column));
    }
    let own = column_ops(column, was, is_now);
    if optional_equal(was, is_now) {
        lemma_column_in_turn(hash, entity_type, id, names, before, after, column, v);
    } else {
        reveal_with_fuel(apply_hash, 3);
        assert(names.contains(column));
        if indexable(is_now) {
            let w = is_now->0;
            lemma_column_in_turn(hash, entity_type, id, names, before, after, column, w);
            assert(own.last() == IndexOpView::Insert(column, w));
        }
        if indexable(was) && (indexable(is_now) ==> value_bytes(was->0) != value_bytes(is_now->0)) {
            let w = was->0;
            lemma_column_in_turn(hash, entity_type, id, names, before, after, column, w);
            assert(own[0] == IndexOpView::Remove(column, w));
            let k = index_key(entity_type, column, w, id);
            let gone = seq![IndexOpView::Remove(column, w)];
            assert(gone.drop_last() =~= Seq::<IndexOpView>::empty());
            assert(!apply_hash(hash, entity_type, id, gone).contains_key(k));
            if indexable(is_now) {
                let set = seq![IndexOpView::Insert(column, is_now->0)];
                assert(own =~= gone + set);
                lemma_ops_in_turn(hash, entity_type, id, gone, set);
                assert forall|i: int| 0 <= i < set.len() implies op_key(
                    entity_type,
                    id,
                    #[trigger] set[i],
                ) != k by {
                    lemma_values_apart(entity_type, column, w, is_now->0, id);
                }
                lemma_untouched(
                    apply_hash(hash, entity_type, id, gone),
                    entity_type,
                    id,
                    set,
                    k,
                );
            } else {
                assert(own =~= gone);
            }
        }
    }
}

/// Keys of values that are written differently are different.
proof fn lemma_values_apart(
    entity_type: Seq<char>,
    column: Seq<char>,
    v: ValueView,
    w: ValueView,
    id: Seq<u8>,
)
    requires
        countable(column),
        value_bytes(v) != value_bytes(w),
    ensures
        index_key(entity_type, column, v, id) != index_key(entity_type, column, w, id),
{
    let t = encode_utf8(entity_type);
    let c = encode_utf8(column);
    let a = value_bytes(v);
    let b = value_bytes(w);
    reveal_with_fuel(chunk_bytes, 4);
    assert(seq![t, c, a].drop_first() =~= seq![c, a]);
    assert(seq![c, a].drop_first() =~= seq![a]);
    assert(seq![t, c, b].drop_first() =~= seq![c, b]);
    assert(seq![c, b].drop_first() =~= seq![b]);
    assert(seq![a].drop_first() =~= Seq::<Seq<u8>>::empty());
    assert(seq![b].drop_first() =~= Seq::<Seq<u8>>::empty());
    let head = number(t.len()) + t + (number(c.len()) + c);
    let k = index_key(entity_type, column, v, id);
    let l = index_key(entity_type, column, w, id);
    lemma_be_bytes_len(a.len(), 8);
    lemma_be_bytes_len(b.len(), 8);
    assert(k =~= head + number(a.len()) + a + id);
    assert(l =~= head + number(b.len()) + b + id);
    if k == l {
        let n = head.len() as int;
        assert(a.len() == b.len());
        assert(k.subrange(n + 8, n + 8 + a.len()) =~= a);
        assert(l.subrange(n + 8, n + 8 + b.len()) =~= b);
    }
}

proof fn lemma_listed_ids(s: Seq<(Seq<u8>, Seq<u8>)>, n: nat, id: Seq<u8>)
    requires
        listed_ids(s, n) is Ok,
    ensures
        listed_ids(s, n)->Ok_0.contains(id) <==> exists|i: int|
            0 <= i < s.len() && (#[trigger] s[i]).0.len() == n + 16 && s[i].0.skip(n as int) == id,
    decreases s.len(),
{
    let ids = listed_ids(s, n)->Ok_0;
    if s.len() > 0 {
        let init = s.drop_last();
        lemma_listed_ids(init, n, id);
        let before = listed_ids(init, n)->Ok_0;
        let last = s[s.len() - 1];
        assert(last == s.last());
        assert(ids == before.push(last.0.skip(n as int)));
        if ids.contains(id) {
            let j = choose|j: int| 0 <= j < ids.len() && ids[j] == id;
            if j < before.len() {
                assert(before[j] == id);
                assert(before.contains(id));
                let i = choose|i: int|
                    0 <= i < init.len() && (#[trigger] init[i]).0.len() == n + 16
                        && init[i].0.skip(n as int) == id;
                assert(s[i] == init[i]);
            }
        }
        if exists|i: int|
            0 <= i < s.len() && (#[trigger] s[i]).0.len() == n + 16 && s[i].0.skip(n as int) == id {
            let i = choose|i: int|
                0 <= i < s.len() && (#[trigger] s[i]).0.len() == n + 16 && s[i].0.skip(n as int)
                    == id;
            if i < init.len() {
                assert(init[i] == s[i]);
                assert(before.contains(id));
                let j = choose|j: int| 0 <= j < before.len() && before[j] == id;
                assert(ids[j] == id);
            } else {
                assert(ids[before.len() as int] == id);
            }
        }
    }
}

/// A lookup finds exactly the entities that the index holds for a value.
pub proof fn law_lookup_finds_what_is_held(
    hash: Bytes,
    entity_type: Seq<char>,
    column: Seq<char>,
    v: ValueView,
    id: Seq<u8>,
)
    requires
        hash.dom().finite(),
        id.len() == 16,
        lookup_outcome(hash, entity_type, column, v) is Ok,
    ensures
        lookup_outcome(hash, entity_type, column, v)->Ok_0.contains(id) <==> holds(
            hash,
            entity_type,
            column,
            v,
            id,
        ),
{
    let prefix = value_prefix(entity_type, column, v);
    let k = index_key(entity_type, column, v, id);
    let l = prefix_listing(hash, prefix);
    lemma_prefix_is_listed(hash, prefix);
    lemma_listed_ids(l, prefix.len(), id);
    assert(k.take(prefix.len() as int) =~= prefix);
    assert(k.skip(prefix.len() as int) =~= id);
    assert(prefix_keys(prefix).contains(k));
    if hash.contains_key(k) {
        let i = choose|i: int| 0 <= i < l.len() && (#[trigger] l[i]).0 == k;
        assert(l[i].0.len() == prefix.len() + 16);
    }
    if lookup_outcome(hash, entity_type, column, v)->Ok_0.contains(id) {
        let i = choose|i: int|
            0 <= i < l.len() && (#[trigger] l[i]).0.len() == prefix.len() + 16 && l[i].0.skip(
                prefix.len() as int,
            ) == id;
        assert(prefix_keys(prefix).contains(l[i].0));
        assert(l[i].0 =~= prefix + id);
    }
}

/// Where the equality index holds of an entity exactly the values that it had, it holds
/// exactly the values that it has after it has followed a change of the entity's fields.
pub proof fn law_index_stays_exact(
    hash: Bytes,
    entity_type: Seq<char>,
    id: Seq<u8>,
    before: Seq<FieldView>,
    after: Seq<FieldView>,
    column: Seq<char>,
    v: ValueView,
)
    requires
        countable(column),
        forall|i: int| 0 <= i < before.len() ==> countable((#[trigger] before[i]).0),
        forall|i: int| 0 <= i < after.len() ==> countable((#[trigger] after[i]).0),
        optional_equal(last_value(before, column), last_value(after, column)) ==> last_value(
            before,
            column,
        ) == last_value(after, column),
        holds(hash, entity_type, column, v, id) <==> indexable(last_value(before, column))
            && value_bytes(last_value(before, column)->0) == value_bytes(v),
    ensures
        holds(hash_after(hash, entity_type, id, before, after), entity_type, column, v, id)
            <==> indexable(last_value(after, column)) && value_bytes(last_value(after, column)->0)
            == value_bytes(v),
{
    let was = last_value(before, column);
    let is_now = last_value(after, column);
    law_index_follows_fields(hash, entity_type, id, before, after, column, v);
    if !optional_equal(was, is_now) {
        let next = hash_after(hash, entity_type, id, before, after);
        let k = index_key(entity_type, column, v, id);
        let all = field_names(before) + field_names(after);
        let names = touched_names(before, after);
        lemma_distinct(all);
        assert forall|i: int| 0 <= i < names.len() implies countable(#[trigger] names[i]) by {
            assert(names.contains(names[i]));
            assert(all.contains(names[i]));
            let j = choose|j: int| 0 <= j < all.len() && all[j] == names[i];
            if j < before.len() {
                assert(all[j] == before[j].0);
            } else {
                assert(all[j] == after[j - before.len()].0);
            }
        }
        lemma_column_in_turn(hash, entity_type, id, names, before, after, column, v);
        if indexable(was) && value_bytes(was->0) == value_bytes(v) {
            assert(index_key(entity_type, column, was->0, id) == k);
        }
        if indexable(is_now) && value_bytes(is_now->0) == value_bytes(v) {
            assert(index_key(entity_type, column, is_now->0, id) == k);
        } else {
            if !(indexable(was) && value_bytes(was->0) == value_bytes(v)) {
                let own = column_ops(column, was, is_now);
                assert forall|i: int| 0 <= i < own.len() implies op_key(
                    entity_type,
                    id,
                    #[trigger] own[i],
                ) != k by {
                    match own[i] {
                        IndexOpView::Remove(c, w) => {
                            lemma_values_apart(entity_type, column, w, v, id);
                        },
                        IndexOpView::Insert(c, w) => {
                            lemma_values_apart(entity_type, column, w, v, id);
                        },
                    }
                }
                lemma_untouched(hash, entity_type, id, own, k);
            }
        }
    }
}

/// The equality index says of another entity what it said.
pub proof fn law_index_leaves_others(
    hash: Bytes,
    entity_type: Seq<char>,
    id: Seq<u8>,
    before: Seq<FieldView>,
    after: Seq<FieldView>,
    column: Seq<char>,
    v: ValueView,
    other: Seq<u8>,
)
    requires
        id.len() == 16,
        other.len() == 16,
        other != id,
    ensures
        holds(hash_after(hash, entity_type, id, before, after), entity_type, column, v, other)
            == holds(hash, entity_type, column, v, other),
{
    let k = index_key(entity_type, column, v, other);
    let ops = change_ops(touched_names(before, after), before, after);
    assert forall|i: int| 0 <= i < ops.len() implies op_key(entity_type, id, #[trigger] ops[i])
        != k by {
        let key = op_key(entity_type, id, ops[i]);
        assert(key.skip(key.len() - 16) =~= id);
        assert(k.skip(k.len() - 16) =~= other);
    }
    lemma_untouched(hash, entity_type, id, ops, k);
}

proof fn lemma_hash_stays_finite(hash: Bytes, entity_type: Seq<char>, id: Seq<u8>, ops: Seq<IndexOpView>)
    requires
        hash.dom().finite(),
    ensures
        apply_hash(hash, entity_type, id, ops).dom().finite(),
    decreases ops.len(),
{
    if ops.len() > 0 {
        lemma_hash_stays_finite(hash, entity_type, id, ops.drop_last());
    }
}

/// Following a change leaves the equality index finite.
pub proof fn lemma_following_is_finite(
    hash: Bytes,
    entity_type: Seq<char>,
    id: Seq<u8>,
    before: Seq<FieldView>,
    after: Seq<FieldView>,
)
    requires
        hash.dom().finite(),
    ensures
        hash_after(hash, entity_type, id, before, after).dom().finite(),
{
    lemma_hash_stays_finite(
        hash,
        entity_type,
        id,
        change_ops(touched_names(before, after), before, after),
    );
}

/// The names, each once, are the names.
pub proof fn lemma_distinct_names(names: Seq<Seq<char>>)
    ensures
        distinct(names).no_duplicates(),
        forall|n: Seq<char>| #[trigger] distinct(names).contains(n) <==> names.contains(n),
{
    lemma_distinct(names);
}

} // verus!

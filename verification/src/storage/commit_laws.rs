//! What committing a transaction makes of what the store says of a type.

use vstd::prelude::*;

use crate::codec::{entity_outcome, fields_holdable, FieldView};
use crate::error::ErrorView;
use crate::storage::laws::law_put_then_latest;
use crate::storage::model::{covered_columns, latest_outcome, or_none, put_view, StoreView};
use crate::storage::record::RecordView;
use crate::storage::transaction::{
    all_work_applied, commit_outcome, op_applied, ops_applied, stamp_of, work_applied, work_outcome,
    OpView, Stamp, WorkView,
};
use crate::storage::truth::{
    faithful, fields_now, follows_change, is_there, law_following_keeps_truth, named_once,
    replaced_plainly,
};

verus! {

/// A column that the ordered index covers is among those covered of its type.
pub proof fn lemma_column_covered(columns: Seq<(Seq<char>, Seq<char>)>, entity: Seq<char>, c: Seq<char>)
    requires
        columns.contains((entity, c)),
    ensures
        covered_columns(columns, entity).contains(c),
    decreases columns.len(),
{
    let i = choose|i: int| 0 <= i < columns.len() && columns[i] == (entity, c);
    let init = columns.drop_last();
    let all = covered_columns(columns, entity);
    let before = covered_columns(init, entity);
    if i < init.len() {
        assert(init[i] == (entity, c));
        lemma_column_covered(init, entity, c);
        let k = choose|k: int| 0 <= k < before.len() && before[k] == c;
        assert(all[k] == c);
    } else {
        assert(all[before.len() as int] == c);
    }
}

/// The fields that an operation gives an entity; none where it deletes the entity.
pub open spec fn fields_of(op: OpView) -> Option<Seq<FieldView>> {
    match op.after() {
        Some(data) => match entity_outcome(data) {
            Ok(fs) => Some(fs),
            Err(_) => None,
        },
        None => None,
    }
}

proof fn lemma_one_commit(
    store: StoreView,
    op: OpView,
    expected: Seq<(Seq<u8>, u64)>,
    stamp: Stamp,
)
    requires
        op.entity_type().len() > 0,
        commit_outcome(store, seq![op], expected, stamp) is Ok,
    ensures
        latest_outcome(store, op.id()) is Ok,
        commit_outcome(store, seq![op], expected, stamp)->Ok_0 == work_applied(
            op_applied(store, op, stamp),
            op.id(),
            WorkView {
                entity_type: op.entity_type(),
                before: match latest_outcome(store, op.id())->Ok_0 {
                    Some(v) => Some(v.1.data),
                    None => None,
                },
                after: op.after(),
            },
        ),
{
    let ops = seq![op];
    assert(ops.drop_last() =~= Seq::<OpView>::empty());
    assert(ops.last() == op);
    reveal_with_fuel(ops_applied, 2);
    reveal_with_fuel(work_outcome, 2);
    reveal_with_fuel(all_work_applied, 2);
    let work = work_outcome(store, ops)->Ok_0;
    assert(work.len() == 1);
    assert(work.drop_last() =~= Seq::<(Seq<u8>, WorkView)>::empty());
}

/// Committing that an entity is written or deleted keeps everything true that the store
/// says of its type, and the entity is there afterwards with the fields written, or not at
/// all.
pub proof fn law_commit_keeps_truth(
    store: StoreView,
    op: OpView,
    expected: Seq<(Seq<u8>, u64)>,
    stamp: Stamp,
)
    requires
        faithful(store, op.entity_type()),
        op.entity_type().len() > 0,
        op.id().len() == 16,
        !(op is Delete) ==> !op.record().deleted && fields_of(op) is Some && named_once(
            fields_of(op)->0,
        ) && fields_holdable(fields_of(op)->0),
        op is Delete ==> is_there(store, op.entity_type(), op.id()),
        is_there(store, op.entity_type(), op.id()) || latest_outcome(store, op.id()) == Ok::<
            Option<(u64, RecordView)>,
            ErrorView,
        >(None),
        replaced_plainly(or_none(fields_now(store, op.id())), or_none(fields_of(op))),
        commit_outcome(store, seq![op], expected, stamp) is Ok,
    ensures
        ({
            let after = commit_outcome(store, seq![op], expected, stamp)->Ok_0;
            &&& faithful(after, op.entity_type())
            &&& fields_now(after, op.id()) == fields_of(op)
            &&& is_there(after, op.entity_type(), op.id()) <==> !(op is Delete)
        }),
{
    let entity = op.entity_type();
    let id = op.id();
    let ts = stamp_of(op, stamp);
    let before = fields_now(store, id);
    let now = fields_of(op);
    let put = put_view(store, id, ts, op.record());
    let after = commit_outcome(store, seq![op], expected, stamp)->Ok_0;
    let columns = covered_columns(store.btree_columns, entity);
    lemma_one_commit(store, op, expected, stamp);
    assert(after.data == put.data && after.meta == put.meta);
    law_put_then_latest(store, id, ts, op.record(), id);
    assert(latest_outcome(after, id) == latest_outcome(put, id));
    assert forall|other: Seq<u8>| other.len() == 16 && other != id implies #[trigger] latest_outcome(
        after,
        other,
    ) == latest_outcome(store, other) by {
        law_put_then_latest(store, id, ts, op.record(), other);
        assert(latest_outcome(after, other) == latest_outcome(put, other));
    }
    assert(follows_change(store, after, entity, id, before, now, columns));
    assert forall|c: Seq<char>| #[trigger]
        store.btree_columns.contains((entity, c)) implies columns.contains(c) by {
        lemma_column_covered(store.btree_columns, entity, c);
    }
    law_following_keeps_truth(store, after, entity, id, before, now, columns);
}

} // verus!

//! What holds of the store as a whole.

use vstd::prelude::*;

use crate::bytes::{be_limit, lemma_be_limit_u64, lex_lt};
use crate::error::{collect, lemma_collect_ok, ErrorView};
use crate::storage::engine::partly_written;
use crate::storage::id_map::{first_pos, law_value_set, lemma_first_pos_is, value_of};
use crate::storage::key::{
    key_bytes, law_key_between, law_key_of_bytes, law_key_order, law_key_round_trip, lemma_ts_bytes,
    parse_key,
};
use crate::storage::kv::{
    has_prefix, lemma_listing_insert, lemma_listing_outside, lemma_listing_replace,
    lemma_prefix_is_listed, lemma_prefix_listing, lemma_range_is_listed, lemma_range_listing, lists,
    prefix_keys, prefix_listing, range_keys, range_listing,
};
use crate::storage::layout::{latest_key_bytes, lemma_latest_key_injective, type_key, type_prefix};
use crate::storage::model::{
    as_of_outcome, at_outcome, get_outcome, id_of, indexed_item, indexed_items,
    latest_batch_outcome, latest_outcome, le_byte, live, newest_live, next_ts, own_places,
    past_kept, pointed_outcome, pointer_outcome, pointers_outcome, put_outcome, put_typed_view,
    put_view, scan_outcome, schema_key, EntryView, StoreView, When,
};
use crate::storage::record::{
    law_record_round_trip, record_bytes, record_outcome, tombstone, RecordView,
};
use crate::storage::transaction::{
    all_work_applied, commit_outcome, conflict_outcome, ops_applied, partly_committed, queued,
    stamp_of, tx_after_read, tx_read_outcome, version_or_zero, work_outcome, OpView, Stamp, TxView,
    WorkView,
};

verus! {

/// Whether the store holds finitely many things, and its versions are under
/// keys that have the form of versioned keys.
pub open spec fn sound(store: StoreView) -> bool {
    &&& store.data.dom().finite()
    &&& store.types.dom().finite()
    &&& forall|k: Seq<u8>| #[trigger] store.data.contains_key(k) ==> parse_key(k) is Some
}

/// Writing a version keeps the store sound.
pub proof fn law_put_sound(store: StoreView, id: Seq<u8>, ts: u64, r: RecordView)
    requires
        sound(store),
        id.len() == 16,
    ensures
        sound(put_view(store, id, ts, r)),
{
    law_key_round_trip(id, ts);
}

/// Putting a version never overwrites one that is there: it stays where the put
/// succeeds, and where the database fails in the middle of it.
pub proof fn law_put_keeps_versions(
    store: StoreView,
    id: Seq<u8>,
    ts: u64,
    r: RecordView,
    after: StoreView,
    other: Seq<u8>,
    other_ts: u64,
)
    requires
        store.data.contains_key(key_bytes(other, other_ts)),
        put_outcome(store, id, ts, r) matches Ok(done) && (after == done || partly_written(
            store,
            done,
            after,
        )),
    ensures
        after.data.contains_key(key_bytes(other, other_ts)),
        after.data[key_bytes(other, other_ts)] == store.data[key_bytes(other, other_ts)],
{
    let k = key_bytes(other, other_ts);
    assert(after.data.get(k) == store.data.get(k));
    assert(after.data.get(k) is Some);
}

/// A version that has been written can be read, and no other version is
/// touched: versions are never overwritten by others.
pub proof fn law_put_then_get(
    store: StoreView,
    id: Seq<u8>,
    ts: u64,
    r: RecordView,
    other_id: Seq<u8>,
    other_ts: u64,
)
    requires
        id.len() == 16,
        other_id.len() == 16,
    ensures
        get_outcome(put_view(store, id, ts, r).data, id, ts) == Ok::<
            Option<RecordView>,
            ErrorView,
        >(live(r)),
        (other_id != id || other_ts != ts) ==> get_outcome(
            put_view(store, id, ts, r).data,
            other_id,
            other_ts,
        ) == get_outcome(store.data, other_id, other_ts),
{
    law_record_round_trip(r);
    law_key_round_trip(id, ts);
    law_key_round_trip(other_id, other_ts);
}

/// The latest version of an entity is the one written last; those of other
/// entities stay.
pub proof fn law_put_then_latest(
    store: StoreView,
    id: Seq<u8>,
    ts: u64,
    r: RecordView,
    other: Seq<u8>,
)
    requires
        id.len() == 16,
        other.len() == 16,
    ensures
        latest_outcome(put_view(store, id, ts, r), id) == Ok::<
            Option<(u64, RecordView)>,
            ErrorView,
        >(
            if r.deleted {
                None
            } else {
                Some((ts, r))
            },
        ),
        other != id ==> latest_outcome(put_view(store, id, ts, r), other) == latest_outcome(
            store,
            other,
        ),
{
    lemma_ts_bytes(ts);
    law_put_then_get(store, id, ts, r, id, ts);
    if other != id {
        if latest_key_bytes(other) == latest_key_bytes(id) {
            lemma_latest_key_injective(other, id);
        }
        let pointer = pointer_outcome(store.meta.get(latest_key_bytes(other)));
        match pointer {
            Ok(Some(at)) => {
                law_put_then_get(store, id, ts, r, other, at);
            },
            _ => {},
        }
    }
}

/// A deletion hides the latest version, and only that: older versions can still
/// be read.
pub proof fn law_delete_keeps_history(store: StoreView, id: Seq<u8>, ts: u64, older: u64)
    requires
        id.len() == 16,
        older != ts,
    ensures
        latest_outcome(put_view(store, id, ts, tombstone()), id) == Ok::<
            Option<(u64, RecordView)>,
            ErrorView,
        >(None),
        get_outcome(put_view(store, id, ts, tombstone()).data, id, older) == get_outcome(
            store.data,
            id,
            older,
        ),
{
    law_put_then_latest(store, id, ts, tombstone(), id);
    law_put_then_get(store, id, ts, tombstone(), id, older);
}

/// The keys of an entity's versions up to a time are those in the range.
proof fn lemma_version_in_range(id: Seq<u8>, t: u64, ts: u64)
    requires
        t <= ts,
    ensures
        range_keys(key_bytes(id, 0), key_bytes(id, ts)).contains(key_bytes(id, t)),
{
    law_key_order(id, 0, t);
    law_key_order(id, t, ts);
}

/// The state of an entity as of a timestamp is its newest version at or before
/// the timestamp.
pub proof fn law_as_of_is_newest(store: StoreView, id: Seq<u8>, t: u64, read_ts: u64)
    requires
        sound(store),
        id.len() == 16,
        t <= read_ts,
        store.data.contains_key(key_bytes(id, t)),
        forall|u: u64| t < u <= read_ts ==> !(#[trigger] store.data.contains_key(key_bytes(id, u))),
    ensures
        as_of_outcome(store.data, id, read_ts) == match record_outcome(
            store.data[key_bytes(id, t)],
        ) {
            Ok(r) => Ok(
                if r.deleted {
                    None
                } else {
                    Some((t, r))
                },
            ),
            Err(e) => Err(e),
        },
{
    let lo = key_bytes(id, 0);
    let hi = key_bytes(id, read_ts);
    let l = range_listing(store.data, lo, hi);
    lemma_range_is_listed(store.data, lo, hi);
    lemma_version_in_range(id, t, read_ts);
    let k = key_bytes(id, t);
    assert(store.data.contains_key(k));
    let i = choose|i: int| 0 <= i < l.len() && (#[trigger] l[i]).0 == k;
    let last = l[l.len() - 1].0;
    assert(range_keys(lo, hi).contains(last));
    assert(store.data.contains_key(last));
    law_key_between(id, 0, read_ts, last);
    law_key_of_bytes(last);
    let u = parse_key(last)->Some_0.1;
    if i < l.len() - 1 {
        assert(lex_lt(l[i].0, l[l.len() - 1].0));
        law_key_order(id, t, u);
        assert(store.data.contains_key(key_bytes(id, u)));
        assert(false);
    }
    law_key_round_trip(id, t);
}

/// As of a timestamp before all its versions an entity is not there.
pub proof fn law_as_of_before_all(store: StoreView, id: Seq<u8>, read_ts: u64)
    requires
        sound(store),
        id.len() == 16,
        forall|u: u64| u <= read_ts ==> !(#[trigger] store.data.contains_key(key_bytes(id, u))),
    ensures
        as_of_outcome(store.data, id, read_ts) == Ok::<Option<(u64, RecordView)>, ErrorView>(None),
        at_outcome(store.data, id, read_ts) == Ok::<Option<(u64, RecordView)>, ErrorView>(None),
{
    let lo = key_bytes(id, 0);
    let hi = key_bytes(id, read_ts);
    let l = range_listing(store.data, lo, hi);
    lemma_range_is_listed(store.data, lo, hi);
    if l.len() > 0 {
        let last = l[l.len() - 1].0;
        assert(range_keys(lo, hi).contains(last));
        assert(store.data.contains_key(last));
        law_key_between(id, 0, read_ts, last);
        law_key_of_bytes(last);
        assert(false);
    }
}

/// A point-in-time read gives the newest live version at or before the time: it
/// looks past versions that mark deletions.
pub proof fn law_at_is_newest_live(store: StoreView, id: Seq<u8>, t: u64, r: RecordView, at_ts: u64)
    requires
        sound(store),
        id.len() == 16,
        t <= at_ts,
        store.data.contains_key(key_bytes(id, t)),
        record_outcome(store.data[key_bytes(id, t)]) == Ok::<RecordView, ErrorView>(r),
        !r.deleted,
        forall|u: u64|
            t < u <= at_ts && #[trigger] store.data.contains_key(key_bytes(id, u)) ==> (
            record_outcome(store.data[key_bytes(id, u)]) matches Ok(s) && s.deleted),
    ensures
        at_outcome(store.data, id, at_ts) == Ok::<Option<(u64, RecordView)>, ErrorView>(
            Some((t, r)),
        ),
{
    let lo = key_bytes(id, 0);
    let hi = key_bytes(id, at_ts);
    let l = range_listing(store.data, lo, hi);
    lemma_range_is_listed(store.data, lo, hi);
    lemma_version_in_range(id, t, at_ts);
    let k = key_bytes(id, t);
    assert(store.data.contains_key(k));
    let i = choose|i: int| 0 <= i < l.len() && (#[trigger] l[i]).0 == k;
    assert(range_keys(lo, hi).contains(l[i].0));
    lemma_newest_live_at(store, id, t, r, at_ts, l, i, l.len() as int);
    assert(l.take(l.len() as int) =~= l);
}

proof fn lemma_newest_live_at(
    store: StoreView,
    id: Seq<u8>,
    t: u64,
    r: RecordView,
    at_ts: u64,
    l: Seq<EntryView>,
    i: int,
    n: int,
)
    requires
        sound(store),
        id.len() == 16,
        t <= at_ts,
        lists(l, store.data, range_keys(key_bytes(id, 0), key_bytes(id, at_ts))),
        0 <= i < n <= l.len(),
        l[i].0 == key_bytes(id, t),
        record_outcome(store.data[key_bytes(id, t)]) == Ok::<RecordView, ErrorView>(r),
        !r.deleted,
        forall|u: u64|
            t < u <= at_ts && #[trigger] store.data.contains_key(key_bytes(id, u)) ==> (
            record_outcome(store.data[key_bytes(id, u)]) matches Ok(s) && s.deleted),
    ensures
        newest_live(l.take(n), id) == Ok::<Option<(u64, RecordView)>, ErrorView>(Some((t, r))),
    decreases n,
{
    let lo = key_bytes(id, 0);
    let hi = key_bytes(id, at_ts);
    let part = l.take(n);
    assert(part.last() == l[n - 1]);
    assert(part.drop_last() =~= l.take(n - 1));
    let k = l[n - 1].0;
    assert(range_keys(lo, hi).contains(k));
    assert(store.data.contains_key(k));
    law_key_between(id, 0, at_ts, k);
    law_key_of_bytes(k);
    law_key_round_trip(id, t);
    if i < n - 1 {
        assert(lex_lt(l[i].0, l[n - 1].0));
        law_key_order(id, t, parse_key(k)->Some_0.1);
        assert(store.data.contains_key(key_bytes(id, parse_key(k)->Some_0.1)));
        lemma_newest_live_at(store, id, t, r, at_ts, l, i, n - 1);
    }
}

/// A write does not change how an entity was before the write's timestamp, nor
/// how any other entity ever was.
pub proof fn law_as_of_ignores_later(
    store: StoreView,
    id: Seq<u8>,
    ts: u64,
    r: RecordView,
    other: Seq<u8>,
    read_ts: u64,
)
    requires
        sound(store),
        id.len() == 16,
        other.len() == 16,
        other != id || read_ts < ts,
    ensures
        as_of_outcome(put_view(store, id, ts, r).data, other, read_ts) == as_of_outcome(
            store.data,
            other,
            read_ts,
        ),
        at_outcome(put_view(store, id, ts, r).data, other, read_ts) == at_outcome(
            store.data,
            other,
            read_ts,
        ),
{
    let lo = key_bytes(other, 0);
    let hi = key_bytes(other, read_ts);
    let k = key_bytes(id, ts);
    let v = record_bytes(r);
    let l = range_listing(store.data, lo, hi);
    lemma_range_is_listed(store.data, lo, hi);
    law_key_round_trip(id, ts);
    if range_keys(lo, hi).contains(k) {
        law_key_between(other, 0, read_ts, k);
        assert(false);
    }
    lemma_listing_outside(l, store.data, range_keys(lo, hi), k, v);
    lemma_range_listing(l, store.data.insert(k, v), lo, hi);
}

/// A write is seen as of its timestamp and from then on, until a newer version
/// is there.
pub proof fn law_as_of_sees_write(store: StoreView, id: Seq<u8>, ts: u64, r: RecordView, read_ts: u64)
    requires
        sound(store),
        id.len() == 16,
        ts <= read_ts,
        forall|u: u64| ts < u <= read_ts ==> !(#[trigger] store.data.contains_key(key_bytes(id, u))),
    ensures
        as_of_outcome(put_view(store, id, ts, r).data, id, read_ts) == Ok::<
            Option<(u64, RecordView)>,
            ErrorView,
        >(
            if r.deleted {
                None
            } else {
                Some((ts, r))
            },
        ),
{
    let after = put_view(store, id, ts, r);
    law_put_sound(store, id, ts, r);
    law_record_round_trip(r);
    assert forall|u: u64| ts < u <= read_ts implies !(#[trigger] after.data.contains_key(
        key_bytes(id, u),
    )) by {
        law_key_round_trip(id, u);
        law_key_round_trip(id, ts);
    }
    law_as_of_is_newest(after, id, ts, read_ts);
}

/// Reading several entities at once gives what reading each would give.
pub proof fn law_batch_is_each(store: StoreView, ids: Seq<Seq<u8>>)
    requires
        pointers_outcome(store, ids) is Ok,
    ensures
        latest_batch_outcome(store, ids) == collect(
            ids.map_values(|id: Seq<u8>| latest_outcome(store, id)),
        ),
{
    let pointers = pointers_outcome(store, ids)->Ok_0;
    let wanted = ids.map_values(
        |id: Seq<u8>| pointer_outcome(store.meta.get(latest_key_bytes(id))),
    );
    lemma_collect_ok(wanted);
    let second = Seq::new(ids.len(), |i: int| pointed_outcome(store.data, ids[i], pointers[i]));
    let each = ids.map_values(|id: Seq<u8>| latest_outcome(store, id));
    assert forall|i: int| 0 <= i < ids.len() implies second[i] == each[i] by {
        assert(wanted[i] == Ok::<Option<u64>, ErrorView>(pointers[i]));
    }
    assert(second =~= each);
}

/// The next commit timestamp is later than the last, and not before now.
pub proof fn law_commit_time_advances(watermark: u64, now: u64)
    requires
        watermark < u64::MAX,
    ensures
        next_ts(watermark, now) > watermark,
        next_ts(watermark, now) >= now,
        next_ts(watermark, now) == now || next_ts(watermark, now) == watermark + 1,
{
}

proof fn lemma_items_same(
    a: StoreView,
    b: StoreView,
    l: Seq<EntryView>,
    m: Seq<EntryView>,
    n: nat,
    when: When,
)
    requires
        l.len() == m.len(),
        forall|i: int|
            0 <= i < l.len() ==> (#[trigger] l[i]).0 == m[i].0 && indexed_item(a, l[i].0, n, when)
                == indexed_item(b, l[i].0, n, when),
    ensures
        indexed_items(a, l, n, when) == indexed_items(b, m, n, when),
    decreases l.len(),
{
    if l.len() > 0 {
        assert forall|i: int| 0 <= i < l.drop_last().len() implies (#[trigger] l.drop_last()[i]).0
            == m.drop_last()[i].0 && indexed_item(a, l.drop_last()[i].0, n, when) == indexed_item(
            b,
            l.drop_last()[i].0,
            n,
            when,
        ) by {
            assert(l.drop_last()[i] == l[i]);
        }
        lemma_items_same(a, b, l.drop_last(), m.drop_last(), n, when);
        assert(l[l.len() - 1].0 == m[l.len() - 1].0);
    }
}

proof fn lemma_items_insert(
    a: StoreView,
    l: Seq<EntryView>,
    p: int,
    e: EntryView,
    n: nat,
    when: When,
)
    requires
        0 <= p <= l.len(),
        indexed_item(a, e.0, n, when) is None,
    ensures
        indexed_items(a, l.insert(p, e), n, when) == indexed_items(a, l, n, when),
    decreases l.len(),
{
    let m = l.insert(p, e);
    if p == l.len() {
        assert(m.drop_last() =~= l);
        assert(m.last() == e);
    } else {
        assert(m.drop_last() =~= l.drop_last().insert(p, e));
        assert(m.last() == l.last());
        lemma_items_insert(a, l.drop_last(), p, e, n, when);
    }
}

/// Whether a write of an entity of one type stays out of sight of a scan of a
/// type as of an earlier time: the scan does not come across the entity, or it
/// did so before, or the entity was not there at the time.
pub open spec fn out_of_sight(
    store: StoreView,
    scanned: Seq<char>,
    entity_type: Seq<char>,
    id: Seq<u8>,
    read_ts: u64,
) -> bool {
    let k = type_key(entity_type, id);
    ||| !has_prefix(k, type_prefix(scanned))
    ||| store.types.contains_key(k)
    ||| entity_type == scanned && as_of_outcome(store.data, id, read_ts) == Ok::<
        Option<(u64, RecordView)>,
        ErrorView,
    >(None)
}

/// A scan as of a timestamp does not see what is written later: new versions,
/// deletions and new entities leave it as it is.
pub proof fn law_scan_as_of_ignores_later(
    store: StoreView,
    scanned: Seq<char>,
    entity_type: Seq<char>,
    id: Seq<u8>,
    ts: u64,
    r: RecordView,
    read_ts: u64,
)
    requires
        sound(store),
        id.len() == 16,
        read_ts < ts,
        out_of_sight(store, scanned, entity_type, id, read_ts),
    ensures
        scan_outcome(
            put_typed_view(store, entity_type, id, ts, r),
            scanned,
            When::AsOf(read_ts),
        ) == scan_outcome(store, scanned, When::AsOf(read_ts)),
        scan_outcome(put_view(store, id, ts, r), scanned, When::AsOf(read_ts)) == scan_outcome(
            store,
            scanned,
            When::AsOf(read_ts),
        ),
{
    let when = When::AsOf(read_ts);
    let prefix = type_prefix(scanned);
    let n = prefix.len();
    let after = put_typed_view(store, entity_type, id, ts, r);
    let untyped = put_view(store, id, ts, r);
    let k = type_key(entity_type, id);
    let keys = prefix_keys(prefix);
    let l = prefix_listing(store.types, prefix);
    lemma_prefix_is_listed(store.types, prefix);
    assert forall|key: Seq<u8>| #[trigger] indexed_item(store, key, n, when) == indexed_item(
        after,
        key,
        n,
        when,
    ) && indexed_item(store, key, n, when) == indexed_item(untyped, key, n, when) by {
        if key.len() == n + 16 {
            law_as_of_ignores_later(store, id, ts, r, key.skip(n as int), read_ts);
        }
    }
    lemma_items_same(store, untyped, l, l, n, when);
    lemma_items_same(store, after, l, l, n, when);
    if !keys.contains(k) {
        lemma_listing_outside(l, store.types, keys, k, Seq::empty());
        lemma_prefix_listing(l, after.types, prefix);
    } else if store.types.contains_key(k) {
        let p = lemma_listing_replace(l, store.types, keys, k, Seq::empty());
        let m = l.update(p, (k, Seq::empty()));
        lemma_prefix_listing(m, after.types, prefix);
        assert forall|i: int| 0 <= i < l.len() implies (#[trigger] l[i]).0 == m[i].0 by {}
        lemma_items_same(store, after, l, m, n, when);
    } else {
        let p = lemma_listing_insert(l, store.types, keys, k, Seq::empty());
        lemma_prefix_listing(l.insert(p, (k, Seq::empty())), after.types, prefix);
        assert(k.skip(n as int) =~= id);
        assert(indexed_item(store, k, n, when) is None);
        lemma_items_insert(after, l, p, (k, Seq::empty()), n, when);
    }
}

/// The identifiers that a time and a counter give are marked as random UUIDs.
pub proof fn law_id_marks(now: u64, counter: u64)
    ensures
        id_of(now, counter).len() == 16,
        id_of(now, counter)[6] / 16 == 4,
        id_of(now, counter)[8] / 64 == 2,
{
}

proof fn lemma_le_byte_step(n: u64, i: int)
    requires
        i > 0,
    ensures
        le_byte(n, i) == le_byte(n / 256, i - 1),
{
}

proof fn lemma_le_bytes_determine(a: u64, b: u64, count: int)
    requires
        0 <= count <= 8,
        forall|i: int| 0 <= i < count ==> #[trigger] le_byte(a, i) == le_byte(b, i),
        a < be_limit(count as nat),
        b < be_limit(count as nat),
    ensures
        a == b,
    decreases count,
{
    if count > 0 {
        assert(le_byte(a, 0) == le_byte(b, 0));
        assert forall|i: int| 0 <= i < count - 1 implies #[trigger] le_byte(a / 256, i) == le_byte(
            b / 256,
            i,
        ) by {
            assert(le_byte(a, i + 1) == le_byte(b, i + 1));
        }
        lemma_le_bytes_determine(a / 256, b / 256, count - 1);
    }
}

proof fn lemma_id_low_byte(at: u64, a: u64, then: u64, b: u64)
    requires
        id_of(at, a)[7] == id_of(then, b)[7],
        id_of(at, a)[8] == id_of(then, b)[8],
    ensures
        a % 256 == b % 256,
{
    assert(le_byte(a, 0) == a % 256);
    assert(le_byte(b, 0) == b % 256);
}

proof fn lemma_id_high_bytes(at: u64, a: u64, then: u64, b: u64)
    requires
        id_of(at, a) == id_of(then, b),
    ensures
        forall|i: int| 0 <= i < 7 ==> #[trigger] le_byte(a / 256, i) == le_byte(b / 256, i),
{
    assert forall|i: int| 0 <= i < 7 implies #[trigger] le_byte(a / 256, i) == le_byte(
        b / 256,
        i,
    ) by {
        assert(id_of(at, a)[9 + i] == le_byte(a, 9 + i - 8));
        assert(id_of(then, b)[9 + i] == le_byte(b, 9 + i - 8));
        lemma_le_byte_step(a, i + 1);
        lemma_le_byte_step(b, i + 1);
    }
}

proof fn lemma_seven_bytes_determine(a: u64, b: u64)
    requires
        forall|i: int| 0 <= i < 7 ==> #[trigger] le_byte(a / 256, i) == le_byte(b / 256, i),
    ensures
        a / 256 == b / 256,
{
    lemma_be_limit_u64();
    assert(be_limit(8) == 256 * be_limit(7));
    lemma_le_bytes_determine(a / 256, b / 256, 7);
}

/// Two counters give different identifiers, at one time and at different ones.
pub proof fn law_id_unique(at: u64, a: u64, then: u64, b: u64)
    requires
        a != b,
    ensures
        id_of(at, a) != id_of(then, b),
{
    if id_of(at, a) == id_of(then, b) {
        lemma_id_low_byte(at, a, then, b);
        lemma_id_high_bytes(at, a, then, b);
        lemma_seven_bytes_determine(a, b);
    }
}

/// What a transaction has written, it reads.
pub proof fn law_read_your_writes(tx: TxView, store: StoreView, op: OpView, other: Seq<u8>)
    ensures
        tx_read_outcome(queued(tx, op), store, op.id()) == Ok::<Option<RecordView>, ErrorView>(
            if op is Delete {
                None
            } else {
                Some(op.record())
            },
        ),
        other != op.id() ==> tx_read_outcome(queued(tx, op), store, other) == tx_read_outcome(
            tx,
            store,
            other,
        ),
{
    law_value_set(
        tx.cache,
        op.id(),
        if op is Delete {
            None
        } else {
            Some(op.record())
        },
        other,
    );
}

/// Whether all operations are on well-formed identifiers.
pub open spec fn ops_sound(ops: Seq<OpView>) -> bool {
    forall|i: int| 0 <= i < ops.len() ==> (#[trigger] ops[i]).id().len() == 16
}

/// Making operations keeps the store sound.
pub proof fn law_ops_sound(store: StoreView, ops: Seq<OpView>, stamp: Stamp)
    requires
        sound(store),
        ops_sound(ops),
    ensures
        sound(ops_applied(store, ops, stamp)),
    decreases ops.len(),
{
    if ops.len() > 0 {
        let init = ops.drop_last();
        assert(ops_sound(init)) by {
            assert forall|i: int| 0 <= i < init.len() implies (#[trigger] init[i]).id().len() == 16 by {
                assert(init[i] == ops[i]);
            }
        }
        law_ops_sound(store, init, stamp);
        assert(ops.last() == ops[ops.len() - 1]);
        law_put_sound(
            ops_applied(store, init, stamp),
            ops.last().id(),
            stamp_of(ops.last(), stamp),
            ops.last().record(),
        );
    }
}

/// The indexes follow a transaction; the versions do not change thereby.
pub proof fn lemma_work_keeps_versions(store: StoreView, work: Seq<(Seq<u8>, WorkView)>)
    ensures
        all_work_applied(store, work).data == store.data,
        all_work_applied(store, work).meta == store.meta,
        all_work_applied(store, work).types == store.types,
        all_work_applied(store, work).watermark == store.watermark,
    decreases work.len(),
{
    if work.len() > 0 {
        lemma_work_keeps_versions(store, work.drop_last());
    }
}

/// A snapshot taken before a commit sees nothing of it.
pub proof fn law_commit_invisible_before(
    store: StoreView,
    ops: Seq<OpView>,
    ts: u64,
    id: Seq<u8>,
    read_ts: u64,
)
    requires
        sound(store),
        ops_sound(ops),
        id.len() == 16,
        read_ts < ts,
    ensures
        as_of_outcome(ops_applied(store, ops, Stamp::All(ts)).data, id, read_ts) == as_of_outcome(
            store.data,
            id,
            read_ts,
        ),
    decreases ops.len(),
{
    if ops.len() > 0 {
        let init = ops.drop_last();
        assert(ops_sound(init)) by {
            assert forall|i: int| 0 <= i < init.len() implies (#[trigger] init[i]).id().len() == 16 by {
                assert(init[i] == ops[i]);
            }
        }
        assert(ops.last() == ops[ops.len() - 1]);
        law_commit_invisible_before(store, init, ts, id, read_ts);
        law_ops_sound(store, init, Stamp::All(ts));
        law_as_of_ignores_later(
            ops_applied(store, init, Stamp::All(ts)),
            ops.last().id(),
            ts,
            ops.last().record(),
            id,
            read_ts,
        );
    }
}

/// The last operation on an entity, where there is one.
pub open spec fn last_op(ops: Seq<OpView>, id: Seq<u8>) -> Option<OpView>
    decreases ops.len(),
{
    if ops.len() == 0 {
        None
    } else if ops.last().id() == id {
        Some(ops.last())
    } else {
        last_op(ops.drop_last(), id)
    }
}

/// A snapshot taken at a commit or later, before anything newer, sees all of
/// it: for each entity that the commit wrote, its last write.
pub proof fn law_commit_visible_after(
    store: StoreView,
    ops: Seq<OpView>,
    ts: u64,
    id: Seq<u8>,
    read_ts: u64,
)
    requires
        sound(store),
        ops_sound(ops),
        id.len() == 16,
        ts <= read_ts,
        forall|u: u64| ts < u <= read_ts ==> !(#[trigger] store.data.contains_key(key_bytes(id, u))),
    ensures
        as_of_outcome(ops_applied(store, ops, Stamp::All(ts)).data, id, read_ts) == match last_op(
            ops,
            id,
        ) {
            Some(op) => Ok(
                if op.record().deleted {
                    None
                } else {
                    Some((ts, op.record()))
                },
            ),
            None => as_of_outcome(store.data, id, read_ts),
        },
        forall|u: u64|
            ts < u <= read_ts ==> !(#[trigger] ops_applied(
                store,
                ops,
                Stamp::All(ts),
            ).data.contains_key(key_bytes(id, u))),
    decreases ops.len(),
{
    if ops.len() > 0 {
        let init = ops.drop_last();
        let op = ops.last();
        assert(ops_sound(init)) by {
            assert forall|i: int| 0 <= i < init.len() implies (#[trigger] init[i]).id().len() == 16 by {
                assert(init[i] == ops[i]);
            }
        }
        assert(op == ops[ops.len() - 1]);
        law_commit_visible_after(store, init, ts, id, read_ts);
        law_ops_sound(store, init, Stamp::All(ts));
        let before = ops_applied(store, init, Stamp::All(ts));
        let after = ops_applied(store, ops, Stamp::All(ts));
        if op.id() == id {
            law_as_of_sees_write(before, id, ts, op.record(), read_ts);
        } else {
            law_as_of_ignores_later(before, op.id(), ts, op.record(), id, read_ts);
        }
        assert forall|u: u64| ts < u <= read_ts implies !(#[trigger] after.data.contains_key(
            key_bytes(id, u),
        )) by {
            law_key_round_trip(id, u);
            law_key_round_trip(op.id(), ts);
            assert(!before.data.contains_key(key_bytes(id, u)));
        }
    }
}

/// Whether no version is later than the watermark.
pub open spec fn nothing_pending(store: StoreView) -> bool {
    forall|id: Seq<u8>, u: u64|
        id.len() == 16 && u > store.watermark ==> !(#[trigger] store.data.contains_key(
            key_bytes(id, u),
        ))
}

/// A commit with one timestamp is seen whole or not at all: a snapshot at or
/// before the old watermark sees nothing of it, one at the new watermark sees
/// all of it, and nothing is later than the new watermark.
pub proof fn law_commit_is_atomic(
    store: StoreView,
    ops: Seq<OpView>,
    expected: Seq<(Seq<u8>, u64)>,
    ts: u64,
    id: Seq<u8>,
    read_ts: u64,
)
    requires
        sound(store),
        nothing_pending(store),
        ops_sound(ops),
        id.len() == 16,
        ts > store.watermark,
        commit_outcome(store, ops, expected, Stamp::All(ts)) is Ok,
    ensures
        ({
            let after = StoreView {
                watermark: ts,
                ..commit_outcome(store, ops, expected, Stamp::All(ts))->Ok_0
            };
            &&& nothing_pending(after)
            &&& read_ts < ts ==> as_of_outcome(after.data, id, read_ts) == as_of_outcome(
                store.data,
                id,
                read_ts,
            )
            &&& read_ts >= ts ==> as_of_outcome(after.data, id, read_ts) == match last_op(ops, id) {
                Some(op) => Ok(
                    if op.record().deleted {
                        None
                    } else {
                        Some((ts, op.record()))
                    },
                ),
                None => as_of_outcome(store.data, id, read_ts),
            }
        }),
{
    let work = work_outcome(store, ops)->Ok_0;
    let written = ops_applied(store, ops, Stamp::All(ts));
    lemma_work_keeps_versions(written, work);
    let after = StoreView {
        watermark: ts,
        ..commit_outcome(store, ops, expected, Stamp::All(ts))->Ok_0
    };
    if read_ts < ts {
        law_commit_invisible_before(store, ops, ts, id, read_ts);
    } else {
        law_commit_visible_after(store, ops, ts, id, read_ts);
    }
    assert forall|i: Seq<u8>, u: u64| i.len() == 16 && u > ts implies !(
    #[trigger] after.data.contains_key(key_bytes(i, u))) by {
        law_commit_visible_after(store, ops, ts, i, u);
        assert(!written.data.contains_key(key_bytes(i, u)));
    }
}

/// A schema that was written down is the one that is read.
pub proof fn law_kept_schema_is_read(store: StoreView, schema: Seq<u8>)
    ensures
        (StoreView {
            catalog: store.catalog.insert(schema_key(), schema),
            ..store
        }).catalog.get(schema_key()) == Some(schema),
{
}

proof fn lemma_relied_on_is_current(
    store: StoreView,
    expected: Seq<(Seq<u8>, u64)>,
    i: int,
)
    requires
        0 <= i < expected.len(),
        conflict_outcome(store, expected) is Ok,
    ensures
        latest_outcome(store, expected[i].0) matches Ok(latest) && version_or_zero(latest)
            == expected[i].1,
    decreases expected.len(),
{
    if i < expected.len() - 1 {
        lemma_relied_on_is_current(store, expected.drop_last(), i);
        assert(expected.drop_last()[i] == expected[i]);
    }
}

/// Whether an entity has the version that a transaction relies on.
pub open spec fn is_current(store: StoreView, relied: (Seq<u8>, u64)) -> bool {
    latest_outcome(store, relied.0) matches Ok(latest) && version_or_zero(latest) == relied.1
}

proof fn lemma_all_current(store: StoreView, expected: Seq<(Seq<u8>, u64)>)
    requires
        forall|i: int| 0 <= i < expected.len() ==> is_current(store, #[trigger] expected[i]),
    ensures
        conflict_outcome(store, expected) is Ok,
    decreases expected.len(),
{
    if expected.len() > 0 {
        let init = expected.drop_last();
        assert forall|i: int| 0 <= i < init.len() implies is_current(store, #[trigger] init[i]) by {
            assert(is_current(store, expected[i]));
        }
        lemma_all_current(store, init);
        assert(is_current(store, expected[expected.len() - 1]));
    }
}

proof fn lemma_first_conflict(store: StoreView, expected: Seq<(Seq<u8>, u64)>, k: int)
    requires
        0 <= k < expected.len(),
        forall|i: int| 0 <= i < k ==> is_current(store, #[trigger] expected[i]),
        latest_outcome(store, expected[k].0) is Ok,
        !is_current(store, expected[k]),
    ensures
        conflict_outcome(store, expected) == Err::<(), ErrorView>(
            ErrorView::TransactionConflict(
                expected[k].0,
                expected[k].1,
                version_or_zero(latest_outcome(store, expected[k].0)->Ok_0),
            ),
        ),
    decreases expected.len(),
{
    let init = expected.drop_last();
    if k == expected.len() - 1 {
        assert forall|i: int| 0 <= i < init.len() implies is_current(store, #[trigger] init[i]) by {
            assert(is_current(store, expected[i]));
        }
        lemma_all_current(store, init);
    } else {
        assert forall|i: int| 0 <= i < k implies is_current(store, #[trigger] init[i]) by {
            assert(is_current(store, expected[i]));
        }
        lemma_first_conflict(store, init, k);
    }
}

/// A transaction that has read an entity is refused where the entity has another
/// version when it is committed, whatever it writes. Where all else that it relies on
/// is as it was, the refusal names the entity, the version that was read and the one
/// that is there.
pub proof fn law_outdated_read_is_refused(
    tx: TxView,
    store: StoreView,
    id: Seq<u8>,
    later: StoreView,
    stamp: Stamp,
)
    requires
        value_of(tx.cache, id) is None,
        latest_outcome(store, id) is Ok,
        latest_outcome(later, id) is Ok,
        version_or_zero(latest_outcome(later, id)->Ok_0) != version_or_zero(
            latest_outcome(store, id)->Ok_0,
        ),
    ensures
        ({
            let after = tx_after_read(tx, store, id);
            let outcome = commit_outcome(later, after.ops, after.relied_on(), stamp);
            &&& outcome is Err
            &&& value_of(tx.expected, id) is None && (forall|i: int|
                0 <= i < after.relied_on().len() && (#[trigger] after.relied_on()[i]).0 != id
                    ==> is_current(later, after.relied_on()[i])) ==> outcome == Err::<
                StoreView,
                ErrorView,
            >(
                ErrorView::TransactionConflict(
                    id,
                    version_or_zero(latest_outcome(store, id)->Ok_0),
                    version_or_zero(latest_outcome(later, id)->Ok_0),
                ),
            )
        }),
{
    let after = tx_after_read(tx, store, id);
    let v = version_or_zero(latest_outcome(store, id)->Ok_0);
    law_value_set(tx.read_set, id, v, id);
    let n = first_pos(after.read_set, id);
    lemma_first_pos_is(after.read_set, id);
    lemma_first_pos_is(tx.expected, id);
    let k = after.expected.len() + n;
    let all = after.relied_on();
    assert(all[k] == after.read_set[n]);
    if conflict_outcome(later, all) is Ok {
        lemma_relied_on_is_current(later, all, k);
    }
    if value_of(tx.expected, id) is None && (forall|i: int|
        0 <= i < all.len() && (#[trigger] all[i]).0 != id ==> is_current(later, all[i])) {
        assert forall|i: int| 0 <= i < k implies is_current(later, #[trigger] all[i]) by {
            if i < tx.expected.len() {
                assert(all[i] == tx.expected[i]);
            } else {
                assert(all[i] == after.read_set[i - tx.expected.len()]);
            }
        }
        lemma_first_conflict(later, all, k);
    }
}

proof fn lemma_commit_leaves_the_past(store: StoreView, ops: Seq<OpView>, ts: u64)
    requires
        ops_sound(ops),
    ensures
        past_kept(ops_applied(store, ops, Stamp::All(ts)).data, store.data, ts),
    decreases ops.len(),
{
    if ops.len() > 0 {
        let init = ops.drop_last();
        assert(ops_sound(init)) by {
            assert forall|i: int| 0 <= i < init.len() implies (#[trigger] init[i]).id().len() == 16 by {
                assert(init[i] == ops[i]);
            }
        }
        lemma_commit_leaves_the_past(store, init, ts);
        let op = ops[ops.len() - 1];
        assert(op == ops.last());
        law_key_round_trip(op.id(), ts);
        let before = ops_applied(store, init, Stamp::All(ts)).data;
        let after = ops_applied(store, ops, Stamp::All(ts)).data;
        assert forall|k: Seq<u8>| #[trigger] after.get(k) == store.data.get(k) || (parse_key(
            k,
        ) matches Some(version) && version.1 >= ts) by {
            assert(before.get(k) == store.data.get(k) || (parse_key(k) matches Some(version)
                && version.1 >= ts));
        }
    }
}

/// A commit with one timestamp in the middle of which the database failed is not seen
/// by snapshots taken before that timestamp: what they show of each entity is what
/// they showed before.
pub proof fn law_failed_commit_is_unseen(
    store: StoreView,
    ops: Seq<OpView>,
    expected: Seq<(Seq<u8>, u64)>,
    ts: u64,
    after: StoreView,
    id: Seq<u8>,
    read_ts: u64,
)
    requires
        sound(store),
        ops_sound(ops),
        id.len() == 16,
        read_ts < ts,
        commit_outcome(store, ops, expected, Stamp::All(ts)) matches Ok(done)
            && partly_committed(store, done, after),
    ensures
        as_of_outcome(after.data, id, read_ts) == as_of_outcome(store.data, id, read_ts),
        after.watermark == store.watermark,
{
    let written = ops_applied(store, ops, Stamp::All(ts));
    lemma_work_keeps_versions(written, work_outcome(store, ops)->Ok_0);
    lemma_commit_leaves_the_past(store, ops, ts);
    assert forall|k: Seq<u8>| #[trigger] after.data.get(k) == store.data.get(k) || (parse_key(
        k,
    ) matches Some(version) && version.1 >= ts) by {
        assert(written.data.get(k) == store.data.get(k) || (parse_key(k) matches Some(version)
            && version.1 >= ts));
    }
    law_kept_past_reads_alike(store, after, ts, id, read_ts);
}

/// Where the versions before a timestamp are kept, every snapshot before it shows of
/// each entity what it showed, whatever became of the later versions.
pub proof fn law_kept_past_reads_alike(
    before: StoreView,
    after: StoreView,
    ts: u64,
    id: Seq<u8>,
    read_ts: u64,
)
    requires
        sound(before),
        past_kept(after.data, before.data, ts),
        id.len() == 16,
        read_ts < ts,
    ensures
        as_of_outcome(after.data, id, read_ts) == as_of_outcome(before.data, id, read_ts),
        at_outcome(after.data, id, read_ts) == at_outcome(before.data, id, read_ts),
{
    let lo = key_bytes(id, 0);
    let hi = key_bytes(id, read_ts);
    let keys = range_keys(lo, hi);
    let l = range_listing(before.data, lo, hi);
    lemma_range_is_listed(before.data, lo, hi);
    assert forall|k: Seq<u8>| keys.contains(k) implies #[trigger] after.data.get(k)
        == before.data.get(k) by {
        if parse_key(k) is Some {
            law_key_between(id, 0, read_ts, k);
        }
    }
    assert(lists(l, after.data, keys)) by {
        assert forall|i: int| 0 <= i < l.len() implies keys.contains(#[trigger] l[i].0)
            && after.data.contains_key(l[i].0) && after.data[l[i].0] == l[i].1 by {
            assert(after.data.get(l[i].0) == before.data.get(l[i].0));
        }
        assert forall|k: Seq<u8>| keys.contains(k) && #[trigger] after.data.contains_key(
            k,
        ) implies exists|i: int| 0 <= i < l.len() && (#[trigger] l[i]).0 == k by {
            assert(after.data.get(k) == before.data.get(k));
            assert(before.data.contains_key(k));
        }
    }
    lemma_range_listing(l, after.data, lo, hi);
}

/// The trees of a database are apart: no two have the same name.
pub proof fn law_trees_are_apart(path: Option<Seq<char>>, i: int, j: int)
    requires
        0 <= i < j < own_places(path).len(),
    ensures
        own_places(path)[i] != own_places(path)[j],
{
    reveal_strlit("data");
    reveal_strlit("meta");
    reveal_strlit("index:entity_type");
    reveal_strlit("columnar");
    reveal_strlit("index:hash");
    reveal_strlit("catalog");
    reveal_strlit("raft_sm_state");
    assert("data"@[0] != "meta"@[0]);
    assert("data"@.len() == 4 && "meta"@.len() == 4 && "index:entity_type"@.len() == 17);
    assert("columnar"@.len() == 8 && "index:hash"@.len() == 10 && "catalog"@.len() == 7);
    assert("raft_sm_state"@.len() == 13);
    let names = own_places(path);
    assert(names[i].1 != names[j].1);
}

/// Nothing that was relied on has changed exactly where each entity is still at the version
/// that it was seen at; an entity that was not there is seen at zero.
pub proof fn law_conflict_is_a_change(store: StoreView, expected: Seq<(Seq<u8>, u64)>)
    ensures
        conflict_outcome(store, expected) is Ok <==> forall|i: int|
            0 <= i < expected.len() ==> (latest_outcome(store, (#[trigger] expected[i]).0)
                matches Ok(seen) && expected[i].1 == match seen {
                Some(v) => v.0,
                None => 0,
            }),
    decreases expected.len(),
{
    if expected.len() > 0 {
        let init = expected.drop_last();
        let last = expected[expected.len() - 1];
        assert(last == expected.last());
        law_conflict_is_a_change(store, init);
        if conflict_outcome(store, expected) is Ok {
            assert forall|i: int| 0 <= i < expected.len() implies (latest_outcome(
                store,
                (#[trigger] expected[i]).0,
            ) matches Ok(seen) && expected[i].1 == match seen {
                Some(v) => v.0,
                None => 0,
            }) by {
                if i < init.len() {
                    assert(init[i] == expected[i]);
                }
            }
        }
        if forall|i: int|
            0 <= i < expected.len() ==> (latest_outcome(store, (#[trigger] expected[i]).0)
                matches Ok(seen) && expected[i].1 == match seen {
                Some(v) => v.0,
                None => 0,
            }) {
            assert forall|i: int| 0 <= i < init.len() implies (latest_outcome(
                store,
                (#[trigger] init[i]).0,
            ) matches Ok(seen) && init[i].1 == match seen {
                Some(v) => v.0,
                None => 0,
            }) by {
                assert(init[i] == expected[i]);
            }
        }
    }
}

} // verus!

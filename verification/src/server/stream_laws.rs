//! What holds of the log of changes and of those who follow it.

use vstd::prelude::*;

use crate::server::changelog::{changes_from, logged, ChangeView};
use crate::server::handler::stream_view;
use crate::server::protocol::{PayloadView, StreamChangesRequest};
use crate::text::texts;

verus! {

/// Whether the changes of a log are numbered from 1 on, without a gap.
pub open spec fn numbered(log: Seq<ChangeView>) -> bool {
    &&& log.len() < u64::MAX
    &&& forall|i: int| 0 <= i < log.len() ==> (#[trigger] log[i]).lsn == i + 1
}

/// A log stays numbered, and a change that is logged comes last with all that it says.
pub proof fn law_logging_adds_one(log: Seq<ChangeView>, change: ChangeView)
    requires
        numbered(log),
        log.len() + 1 < u64::MAX,
    ensures
        ({
            let after = logged(log, change);
            &&& numbered(after)
            &&& after.len() == log.len() + 1
            &&& forall|i: int| 0 <= i < log.len() ==> #[trigger] after[i] == log[i]
            &&& after.last().lsn == log.len() + 1
            &&& after.last().timestamp == change.timestamp
            &&& after.last().entity_type == change.entity_type
            &&& after.last().entity_id == change.entity_id
            &&& after.last().change_type == change.change_type
            &&& after.last().before_data == change.before_data
            &&& after.last().after_data == change.after_data
            &&& after.last().changed_fields == change.changed_fields
            &&& after.last().schema_version == change.schema_version
        }),
{
}

/// Whether a follower that asks from a place on for types wants a change.
pub open spec fn is_wanted(c: ChangeView, from_lsn: u64, types: Option<Seq<Seq<char>>>) -> bool {
    c.lsn >= from_lsn && (types matches Some(t) ==> t.contains(c.entity_type))
}

/// The changes from a place on are those of the log that are wanted, each once, in the
/// order of the log.
pub proof fn law_changes_are_the_wanted(
    log: Seq<ChangeView>,
    from_lsn: u64,
    types: Option<Seq<Seq<char>>>,
    c: ChangeView,
    i: int,
    j: int,
)
    requires
        numbered(log),
    ensures
        ({
            let all = changes_from(log, from_lsn, types);
            &&& all.contains(c) <==> log.contains(c) && is_wanted(c, from_lsn, types)
            &&& 0 <= i < j < all.len() ==> all[i].lsn < all[j].lsn
        }),
    decreases log.len(),
{
    reveal(Seq::filter);
    let all = changes_from(log, from_lsn, types);
    if log.len() > 0 {
        let init = log.drop_last();
        let last = log.last();
        let before = changes_from(init, from_lsn, types);
        law_changes_are_the_wanted(init, from_lsn, types, c, i, j);
        assert(log[log.len() - 1] == last);
        assert(all == if is_wanted(last, from_lsn, types) {
            before.push(last)
        } else {
            before
        });
        assert(log.contains(c) <==> init.contains(c) || c == last) by {
            if log.contains(c) {
                let k = choose|k: int| 0 <= k < log.len() && log[k] == c;
                if k < init.len() {
                    assert(init[k] == c);
                }
            }
            if init.contains(c) {
                let k = choose|k: int| 0 <= k < init.len() && init[k] == c;
                assert(log[k] == c);
            }
        }
        if is_wanted(last, from_lsn, types) {
            assert(before.push(last)[before.len() as int] == last);
            assert(all.contains(c) <==> before.contains(c) || c == last) by {
                if all.contains(c) {
                    let k = choose|k: int| 0 <= k < all.len() && all[k] == c;
                    if k < before.len() {
                        assert(before[k] == c);
                    }
                }
                if before.contains(c) {
                    let k = choose|k: int| 0 <= k < before.len() && before[k] == c;
                    assert(all[k] == c);
                }
            }
            if 0 <= i < j && j == before.len() {
                assert(before.contains(before[i]));
                law_changes_are_the_wanted(init, from_lsn, types, before[i], i, j);
                let k = choose|k: int| 0 <= k < init.len() && init[k] == before[i];
                assert(log[k].lsn == k + 1);
            }
        }
    }
}

proof fn lemma_later(
    log: Seq<ChangeView>,
    from_lsn: u64,
    then: u64,
    types: Option<Seq<Seq<char>>>,
)
    requires
        from_lsn <= then,
    ensures
        changes_from(log, then, types) == changes_from(log, from_lsn, types).filter(
            |c: ChangeView| c.lsn >= then,
        ),
    decreases log.len(),
{
    reveal(Seq::filter);
    let late = |c: ChangeView| c.lsn >= then;
    if log.len() > 0 {
        let init = log.drop_last();
        let before = changes_from(init, from_lsn, types);
        lemma_later(init, from_lsn, then, types);
        assert(before.push(log.last()).drop_last() =~= before);
    }
}

proof fn lemma_late_are_last(all: Seq<ChangeView>, n: int, then: u64)
    requires
        0 <= n <= all.len(),
        forall|k: int| 0 <= k < n ==> (#[trigger] all[k]).lsn < then,
        forall|k: int| n <= k < all.len() ==> (#[trigger] all[k]).lsn >= then,
    ensures
        all.filter(|c: ChangeView| c.lsn >= then) == all.skip(n),
    decreases all.len(),
{
    reveal(Seq::filter);
    if all.len() > 0 {
        let init = all.drop_last();
        if n == all.len() {
            assert(all[n - 1].lsn < then);
            lemma_late_are_last(init, n - 1, then);
            assert(init.skip(n - 1) =~= all.skip(n));
        } else {
            assert(all[all.len() - 1].lsn >= then);
            lemma_late_are_last(init, n, then);
            assert(init.skip(n).push(all.last()) =~= all.skip(n));
        }
    } else {
        assert(all.skip(n) =~= all);
    }
}

/// Going on where a batch says so loses nothing and repeats nothing: the changes of the
/// batch and those from the place that it names are the changes that were asked for. A
/// batch holds no more than were asked for, and says that there are more exactly where
/// some are left.
pub proof fn law_batches_follow_each_other(log: Seq<ChangeView>, req: StreamChangesRequest)
    requires
        numbered(log),
    ensures
        ({
            let types = match req.entity_filter {
                Some(t) => Some(texts(t@)),
                None => None,
            };
            let asked = changes_from(log, req.from_lsn, types);
            stream_view(log, req) matches PayloadView::StreamChanges(batch, next, more) && {
                let rest = changes_from(log, next, types);
                &&& req.batch_size > 0 ==> batch + rest == asked
                &&& batch.len() <= req.batch_size
                &&& batch.len() == asked.len() || batch.len() == req.batch_size
                &&& more <==> batch.len() < asked.len()
                &&& next >= req.from_lsn
                &&& forall|i: int| 0 <= i < batch.len() ==> (#[trigger] batch[i]).lsn < next
                &&& forall|i: int| 0 <= i < batch.len() ==> is_wanted(
                    #[trigger] batch[i],
                    req.from_lsn,
                    types,
                )
            }
        }),
{
    let types = match req.entity_filter {
        Some(t) => Some(texts(t@)),
        None => None,
    };
    let asked = changes_from(log, req.from_lsn, types);
    let batch = stream_view(log, req)->StreamChanges_0;
    let next = stream_view(log, req)->StreamChanges_1;
    let n = batch.len() as int;
    assert(batch =~= asked.take(n));
    assert forall|i: int| 0 <= i < asked.len() implies is_wanted(
        #[trigger] asked[i],
        req.from_lsn,
        types,
    ) && asked[i].lsn <= log.len() by {
        assert(asked.contains(asked[i]));
        law_changes_are_the_wanted(log, req.from_lsn, types, asked[i], 0, 0);
        let k = choose|k: int| 0 <= k < log.len() && log[k] == asked[i];
        assert(log[k].lsn == k + 1);
    }
    assert forall|i: int| 0 <= i < n implies is_wanted(
        #[trigger] batch[i],
        req.from_lsn,
        types,
    ) by {
        assert(batch[i] == asked[i]);
        assert(is_wanted(asked[i], req.from_lsn, types));
    }
    if n > 0 {
        assert(batch.last() == asked[n - 1]);
        assert(is_wanted(asked[n - 1], req.from_lsn, types));
        assert(next == asked[n - 1].lsn + 1);
        assert forall|k: int| 0 <= k < n implies (#[trigger] asked[k]).lsn < next by {
            law_changes_are_the_wanted(log, req.from_lsn, types, asked[k], k, n - 1);
        }
        assert forall|k: int| n <= k < asked.len() implies (#[trigger] asked[k]).lsn >= next by {
            law_changes_are_the_wanted(log, req.from_lsn, types, asked[k], n - 1, k);
        }
        assert forall|i: int| 0 <= i < n implies (#[trigger] batch[i]).lsn < next by {
            assert(batch[i] == asked[i]);
        }
        lemma_late_are_last(asked, n, next);
        lemma_later(log, req.from_lsn, next, types);
        assert(asked.take(n) + asked.skip(n) =~= asked);
    } else {
        assert(batch + asked =~= asked);
    }
}

} // verus!

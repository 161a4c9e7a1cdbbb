//! The mark & sweep engine.
//!
//! A collection pass runs in phases, all under the collector's exclusive
//! borrow (the analogue of holding the GC lock and the registry write lock):
//!
//! 1. *In-use detection.*  Every allocation whose lockout grants an
//!    exclusive warrant is scanned: the handles its value owns are stamped
//!    as non-rooted.  An allocation in use cannot be scanned and is
//!    conservatively stamped live.
//! 2. *Root set.*  Every handle not stamped in phase 1 must be held by a
//!    mutator (or be unreachable through scannable values): it is a root.
//! 3. *Mark.*  Depth-first traversal from the roots stamps every reachable
//!    allocation, skipping allocations already stamped.
//! 4. *Sweep.*  Unstamped allocations are removed, the handles their values
//!    own are unregistered, and the values are queued for destruction.
//! 5. *Trigger update.*  The trigger's baseline becomes the survivor count.

use vstd::prelude::*;

use crate::collector::{Collector, GcData, GcHandle, QueuedDrop};
use crate::heap::{HandleView, HeapView};

verus! {

/// The handle occurs as an edge of a scannable allocation among the first
/// `n` allocation records: the part of the in-use detection phase that has
/// already run.
pub open spec fn observed_in_first<T>(c: Collector<T>, n: int, hid: u64) -> bool {
    exists|i: int, k: int|
        0 <= i < n && i < c.data@.len() && c.data@[i].lockout.shared_count == 0 && 0 <= k
            < c.data@[i].edges@.len() && #[trigger] c.data@[i].edges@[k] == hid
}

/// The handle occurs in the edge list of a dead (unstamped) allocation
/// record whose index is at least `r`: the part of the sweep that has
/// already run when `r` records remain unprocessed.
#[verifier::opaque]
pub open spec fn dead_edge_in_suffix(h: HeapView, c: u64, r: int, hid: u64) -> bool {
    exists|w: int, k: int|
        r <= w < h.data.len() && h.data[w].last_marked != c && 0 <= k < h.data[w].edges.len()
            && #[trigger] h.data[w].edges[k] == hid
}

/// Before the sweep has processed anything, no handle counts as removed.
proof fn lemma_suffix_empty(h: HeapView, c: u64)
    ensures
        forall|hid: u64| !dead_edge_in_suffix(h, c, h.data.len() as int, hid),
{
    reveal(dead_edge_in_suffix);
}

/// One sweep step over a surviving record: the set of dead-owned handles
/// among the unprocessed records does not change.
#[verifier::rlimit(50)]
proof fn lemma_live_suffix_step(h: HeapView, c: u64, r0: int)
    requires
        1 <= r0 <= h.data.len(),
        h.data[r0 - 1].last_marked == c,
    ensures
        forall|hid: u64|
            #[trigger] dead_edge_in_suffix(h, c, r0 - 1, hid) == dead_edge_in_suffix(
                h,
                c,
                r0,
                hid,
            ),
{
    reveal(dead_edge_in_suffix);
    assert forall|hid: u64| #[trigger]
        dead_edge_in_suffix(h, c, r0 - 1, hid) == dead_edge_in_suffix(h, c, r0, hid) by {
        if dead_edge_in_suffix(h, c, r0 - 1, hid) {
            let (w, k): (int, int) = choose|w: int, k: int|
                r0 - 1 <= w < h.data.len() && h.data[w].last_marked != c && 0 <= k
                    < h.data[w].edges.len() && #[trigger] h.data[w].edges[k] == hid;
            assert(w != r0 - 1);
            assert(dead_edge_in_suffix(h, c, r0, hid));
        }
        if dead_edge_in_suffix(h, c, r0, hid) {
            let (w, k): (int, int) = choose|w: int, k: int|
                r0 <= w < h.data.len() && h.data[w].last_marked != c && 0 <= k
                    < h.data[w].edges.len() && #[trigger] h.data[w].edges[k] == hid;
            assert(dead_edge_in_suffix(h, c, r0 - 1, hid));
        }
    }
}

/// One sweep step over a dead record: the dead-owned handles among the
/// unprocessed records grow by exactly that record's edge list.
#[verifier::rlimit(50)]
proof fn lemma_dead_suffix_step(h: HeapView, c: u64, r0: int)
    requires
        1 <= r0 <= h.data.len(),
        h.data[r0 - 1].last_marked != c,
    ensures
        forall|hid: u64|
            #[trigger] dead_edge_in_suffix(h, c, r0 - 1, hid) == (dead_edge_in_suffix(
                h,
                c,
                r0,
                hid,
            ) || h.data[r0 - 1].edges.contains(hid)),
{
    reveal(dead_edge_in_suffix);
    assert forall|hid: u64| #[trigger]
        dead_edge_in_suffix(h, c, r0 - 1, hid) == (dead_edge_in_suffix(h, c, r0, hid) || h.data[r0
            - 1].edges.contains(hid)) by {
        if dead_edge_in_suffix(h, c, r0 - 1, hid) {
            let (w, k): (int, int) = choose|w: int, k: int|
                r0 - 1 <= w < h.data.len() && h.data[w].last_marked != c && 0 <= k
                    < h.data[w].edges.len() && #[trigger] h.data[w].edges[k] == hid;
            if w == r0 - 1 {
                assert(h.data[r0 - 1].edges.contains(hid));
            } else {
                assert(dead_edge_in_suffix(h, c, r0, hid));
            }
        }
        if dead_edge_in_suffix(h, c, r0, hid) {
            let (w, k): (int, int) = choose|w: int, k: int|
                r0 <= w < h.data.len() && h.data[w].last_marked != c && 0 <= k
                    < h.data[w].edges.len() && #[trigger] h.data[w].edges[k] == hid;
            assert(dead_edge_in_suffix(h, c, r0 - 1, hid));
        }
        if h.data[r0 - 1].edges.contains(hid) {
            let k = choose|k: int|
                0 <= k < h.data[r0 - 1].edges.len() && #[trigger] h.data[r0 - 1].edges[k] == hid;
            assert(dead_edge_in_suffix(h, c, r0 - 1, hid));
        }
    }
}

/// Handles are untouched when the sweep keeps a record, so the handle
/// bookkeeping carries over with the suffix bound lowered.
#[verifier::rlimit(50)]
proof fn lemma_handles_keep_step(h: HeapView, c: u64, r0: int, hcur: HeapView, hpost: HeapView)
    requires
        1 <= r0 <= h.data.len(),
        h.data[r0 - 1].last_marked == c,
        hpost.handles == hcur.handles,
        hcur.handle_ids_unique(),
        forall|hid: u64|
            #[trigger] hcur.has_handle(hid) <==> (h.has_handle(hid) && !dead_edge_in_suffix(
                h,
                c,
                r0,
                hid,
            )),
        forall|hid: u64|
            #[trigger] hcur.has_handle(hid) ==> hcur.handle_at(hid) == h.handle_at(hid),
    ensures
        hpost.handle_ids_unique(),
        forall|hid: u64|
            #[trigger] hpost.has_handle(hid) <==> (h.has_handle(hid) && !dead_edge_in_suffix(
                h,
                c,
                r0 - 1,
                hid,
            )),
        forall|hid: u64|
            #[trigger] hpost.has_handle(hid) ==> hpost.handle_at(hid) == h.handle_at(hid),
{
    lemma_live_suffix_step(h, c, r0);
    assert forall|hid: u64| #[trigger] hpost.has_handle(hid) == hcur.has_handle(hid) by {
        if hcur.has_handle(hid) {
            hcur.lemma_handle_index_works(hid);
            assert(hpost.handles[hcur.handle_index(hid)].id == hid);
        }
        if hpost.has_handle(hid) {
            hpost.lemma_handle_index_works(hid);
            assert(hcur.handles[hpost.handle_index(hid)].id == hid);
        }
    }
    assert forall|hid: u64| #[trigger]
        hpost.has_handle(hid) implies hpost.handle_at(hid) == h.handle_at(hid) by {
        hpost.lemma_handle_index_works(hid);
        hcur.lemma_handle_index_works(hid);
        let j1 = hpost.handle_index(hid);
        let j2 = hcur.handle_index(hid);
        assert(hcur.handles[j1].id == hid);
        if j1 != j2 {
            assert(hcur.handles[j1].id != hcur.handles[j2].id);
        }
        assert(hpost.handle_at(hid) == hcur.handle_at(hid));
    }
}

/// When the sweep drops a dead record, unregistering exactly the handles
/// that record owned extends the processed suffix by one.
#[verifier::rlimit(50)]
proof fn lemma_handles_dead_step(h: HeapView, c: u64, r0: int, hcur: HeapView, hpost: HeapView)
    requires
        1 <= r0 <= h.data.len(),
        h.data[r0 - 1].last_marked != c,
        forall|hid: u64|
            #[trigger] hcur.has_handle(hid) <==> (h.has_handle(hid) && !dead_edge_in_suffix(
                h,
                c,
                r0,
                hid,
            )),
        forall|hid: u64|
            #[trigger] hcur.has_handle(hid) ==> hcur.handle_at(hid) == h.handle_at(hid),
        forall|hid: u64|
            #[trigger] hpost.has_handle(hid) <==> (hcur.has_handle(hid) && !h.data[r0
                - 1].edges.contains(hid)),
        forall|hid: u64|
            #[trigger] hpost.has_handle(hid) ==> hpost.handle_at(hid) == hcur.handle_at(hid),
    ensures
        forall|hid: u64|
            #[trigger] hpost.has_handle(hid) <==> (h.has_handle(hid) && !dead_edge_in_suffix(
                h,
                c,
                r0 - 1,
                hid,
            )),
        forall|hid: u64|
            #[trigger] hpost.has_handle(hid) ==> hpost.handle_at(hid) == h.handle_at(hid),
{
    lemma_dead_suffix_step(h, c, r0);
    assert forall|hid: u64| #[trigger]
        hpost.has_handle(hid) <==> (h.has_handle(hid) && !dead_edge_in_suffix(
            h,
            c,
            r0 - 1,
            hid,
        )) by {
        assert(dead_edge_in_suffix(h, c, r0 - 1, hid) == (dead_edge_in_suffix(h, c, r0, hid)
            || h.data[r0 - 1].edges.contains(hid)));
    }
    assert forall|hid: u64| #[trigger]
        hpost.has_handle(hid) implies hpost.handle_at(hid) == h.handle_at(hid) by {
        assert(hcur.has_handle(hid));
    }
}

/// The edges of the dead record about to be swept are still registered
/// (no other dead record owned them, by edge uniqueness) and are pairwise
/// distinct, so they can be unregistered one by one.
#[verifier::rlimit(50)]
proof fn lemma_dead_row_edges(h: HeapView, c: u64, r0: int, hcur: HeapView)
    requires
        h.wf(),
        1 <= r0 <= h.data.len(),
        h.data[r0 - 1].last_marked != c,
        forall|hid: u64|
            #[trigger] hcur.has_handle(hid) <==> (h.has_handle(hid) && !dead_edge_in_suffix(
                h,
                c,
                r0,
                hid,
            )),
    ensures
        forall|k: int|
            0 <= k < h.data[r0 - 1].edges.len() ==> hcur.has_handle(
                #[trigger] h.data[r0 - 1].edges[k],
            ),
        forall|k1: int, k2: int|
            0 <= k1 < h.data[r0 - 1].edges.len() && 0 <= k2 < h.data[r0 - 1].edges.len() && k1
                != k2 ==> #[trigger] h.data[r0 - 1].edges[k1] != #[trigger] h.data[r0
                - 1].edges[k2],
{
    reveal(dead_edge_in_suffix);
    assert forall|k: int|
        0 <= k < h.data[r0 - 1].edges.len() implies hcur.has_handle(
        #[trigger] h.data[r0 - 1].edges[k],
    ) by {
        let e = h.data[r0 - 1].edges[k];
        assert(h.has_handle(e));
        assert(!dead_edge_in_suffix(h, c, r0, e)) by {
            if dead_edge_in_suffix(h, c, r0, e) {
                let (w2, k2): (int, int) = choose|w2: int, k2: int|
                    r0 <= w2 < h.data.len() && h.data[w2].last_marked != c && 0 <= k2
                        < h.data[w2].edges.len() && #[trigger] h.data[w2].edges[k2] == e;
                assert(h.edges_unique());
                assert(h.data[r0 - 1].edges[k] != h.data[w2].edges[k2]);
            }
        }
    }
    assert forall|k1: int, k2: int|
        0 <= k1 < h.data[r0 - 1].edges.len() && 0 <= k2 < h.data[r0 - 1].edges.len() && k1
            != k2 implies #[trigger] h.data[r0 - 1].edges[k1] != #[trigger] h.data[r0
        - 1].edges[k2] by {
        assert(h.edges_unique());
    }
}

/// One sweep step over a surviving record: the source bookkeeping that maps
/// each kept record to the registry position it came from is extended.
#[verifier::rlimit(50)]
proof fn lemma_srcs_step<T>(
    pre_data: Seq<GcData<T>>,
    c: u64,
    r0: int,
    srcs0: Seq<int>,
    srcs1: Seq<int>,
    kept0: Seq<GcData<T>>,
    kept1: Seq<GcData<T>>,
)
    requires
        1 <= r0 <= pre_data.len(),
        pre_data[r0 - 1].last_marked == c,
        kept1 == kept0.push(pre_data[r0 - 1]),
        srcs1 == srcs0.push(r0 - 1),
        srcs0.len() == kept0.len(),
        forall|ii: int|
            0 <= ii < srcs0.len() ==> r0 <= #[trigger] srcs0[ii] < pre_data.len()
                && pre_data[srcs0[ii]].last_marked == c && kept0[ii] == pre_data[srcs0[ii]],
        forall|ii1: int, ii2: int|
            0 <= ii1 < ii2 < srcs0.len() ==> #[trigger] srcs0[ii1] > #[trigger] srcs0[ii2],
        forall|w: int|
            r0 <= w < pre_data.len() && (#[trigger] pre_data[w]).last_marked == c
                ==> srcs0.contains(w),
    ensures
        srcs1.len() == kept1.len(),
        forall|ii: int|
            0 <= ii < srcs1.len() ==> r0 - 1 <= #[trigger] srcs1[ii] < pre_data.len()
                && pre_data[srcs1[ii]].last_marked == c && kept1[ii] == pre_data[srcs1[ii]],
        forall|ii1: int, ii2: int|
            0 <= ii1 < ii2 < srcs1.len() ==> #[trigger] srcs1[ii1] > #[trigger] srcs1[ii2],
        forall|w: int|
            r0 - 1 <= w < pre_data.len() && (#[trigger] pre_data[w]).last_marked == c
                ==> srcs1.contains(w),
{
    assert forall|ii: int|
        0 <= ii < srcs1.len() implies r0 - 1 <= #[trigger] srcs1[ii] < pre_data.len()
        && pre_data[srcs1[ii]].last_marked == c && kept1[ii] == pre_data[srcs1[ii]] by {
        if ii < srcs1.len() - 1 {
            assert(srcs1[ii] == srcs0[ii]);
            assert(kept1[ii] == kept0[ii]);
        } else {
            assert(srcs1[ii] == r0 - 1);
            assert(kept1[ii] == pre_data[r0 - 1]);
        }
    }
    assert forall|w: int|
        r0 - 1 <= w < pre_data.len() && (#[trigger] pre_data[w]).last_marked == c implies
        srcs1.contains(w) by {
        if w == r0 - 1 {
            assert(srcs1[srcs1.len() - 1] == w);
        } else {
            assert(srcs0.contains(w));
            let ixx = choose|ixx: int| 0 <= ixx < srcs0.len() && #[trigger] srcs0[ixx] == w;
            assert(srcs1[ixx] == w);
        }
    }
}

/// Every queue entry past `base` is the entry of some dead (unstamped)
/// record of the suffix `[r, len)`: its id, value and policy, with
/// `deallocated` still clear.
#[verifier::opaque]
pub open spec fn queue_entries_are_dead<T>(
    pre_data: Seq<GcData<T>>,
    c: u64,
    r: int,
    base: int,
    q: Seq<QueuedDrop<T>>,
) -> bool {
    &&& q.len() >= base
    &&& forall|qi: int|
        base <= qi < q.len() ==> exists|w: int|
            r <= w < pre_data.len() && pre_data[w].last_marked != c && #[trigger] q[qi] == (
            QueuedDrop {
                data_id: pre_data[w].unique_id,
                value: pre_data[w].value,
                policy: pre_data[w].policy,
                deallocated: false,
            })
}

/// Every dead (unstamped) record of the suffix `[r, len)` has a queue entry
/// past `base` carrying its id.
#[verifier::opaque]
pub open spec fn dead_have_entries<T>(
    pre_data: Seq<GcData<T>>,
    c: u64,
    r: int,
    base: int,
    q: Seq<QueuedDrop<T>>,
) -> bool {
    forall|w: int|
        r <= w < pre_data.len() && (#[trigger] pre_data[w]).last_marked != c ==> exists|qi: int|
            base <= qi < q.len() && q[qi].data_id == pre_data[w].unique_id
}

/// A queue with an empty tail matches the empty suffix.
proof fn lemma_queue_start<T>(pre_data: Seq<GcData<T>>, c: u64, q: Seq<QueuedDrop<T>>)
    ensures
        queue_entries_are_dead(pre_data, c, pre_data.len() as int, q.len() as int, q),
        dead_have_entries(pre_data, c, pre_data.len() as int, q.len() as int, q),
{
    reveal(queue_entries_are_dead);
    reveal(dead_have_entries);
}

/// Sweeping past a surviving record adds nothing to the queue.
#[verifier::rlimit(50)]
proof fn lemma_queue_live_step<T>(
    pre_data: Seq<GcData<T>>,
    c: u64,
    r0: int,
    base: int,
    q: Seq<QueuedDrop<T>>,
)
    requires
        1 <= r0 <= pre_data.len(),
        0 <= base,
        pre_data[r0 - 1].last_marked == c,
        queue_entries_are_dead(pre_data, c, r0, base, q),
        dead_have_entries(pre_data, c, r0, base, q),
    ensures
        queue_entries_are_dead(pre_data, c, r0 - 1, base, q),
        dead_have_entries(pre_data, c, r0 - 1, base, q),
{
    assert(queue_entries_are_dead(pre_data, c, r0 - 1, base, q)) by {
        reveal(queue_entries_are_dead);
        assert forall|qi: int| base <= qi < q.len() implies exists|w: int|
            r0 - 1 <= w < pre_data.len() && pre_data[w].last_marked != c && #[trigger] q[qi] == (
            QueuedDrop {
                data_id: pre_data[w].unique_id,
                value: pre_data[w].value,
                policy: pre_data[w].policy,
                deallocated: false,
            }) by {
            let w = choose|w: int|
                r0 <= w < pre_data.len() && pre_data[w].last_marked != c && #[trigger] q[qi] == (
                QueuedDrop {
                    data_id: pre_data[w].unique_id,
                    value: pre_data[w].value,
                    policy: pre_data[w].policy,
                    deallocated: false,
                });
            assert(r0 - 1 <= w < pre_data.len() && pre_data[w].last_marked != c && q[qi] == (
            QueuedDrop {
                data_id: pre_data[w].unique_id,
                value: pre_data[w].value,
                policy: pre_data[w].policy,
                deallocated: false,
            }));
        }
    }
    assert(dead_have_entries(pre_data, c, r0 - 1, base, q)) by {
        reveal(dead_have_entries);
        assert forall|w: int|
            r0 - 1 <= w < pre_data.len() && (#[trigger] pre_data[w]).last_marked != c implies
        exists|qi: int| base <= qi < q.len() && q[qi].data_id == pre_data[w].unique_id by {
            assert(w != r0 - 1);
        }
    }
}

/// Sweeping past a dead record appends exactly its queue entry.
#[verifier::rlimit(50)]
proof fn lemma_queue_dead_step<T>(
    pre_data: Seq<GcData<T>>,
    c: u64,
    r0: int,
    base: int,
    q0: Seq<QueuedDrop<T>>,
    q1: Seq<QueuedDrop<T>>,
)
    requires
        1 <= r0 <= pre_data.len(),
        0 <= base <= q0.len(),
        pre_data[r0 - 1].last_marked != c,
        queue_entries_are_dead(pre_data, c, r0, base, q0),
        dead_have_entries(pre_data, c, r0, base, q0),
        q1 == q0.push(
            (QueuedDrop {
                data_id: pre_data[r0 - 1].unique_id,
                value: pre_data[r0 - 1].value,
                policy: pre_data[r0 - 1].policy,
                deallocated: false,
            }),
        ),
    ensures
        queue_entries_are_dead(pre_data, c, r0 - 1, base, q1),
        dead_have_entries(pre_data, c, r0 - 1, base, q1),
{
    assert(queue_entries_are_dead(pre_data, c, r0 - 1, base, q1)) by {
        reveal(queue_entries_are_dead);
        assert forall|qi: int| base <= qi < q1.len() implies exists|w: int|
            r0 - 1 <= w < pre_data.len() && pre_data[w].last_marked != c && #[trigger] q1[qi] == (
            QueuedDrop {
                data_id: pre_data[w].unique_id,
                value: pre_data[w].value,
                policy: pre_data[w].policy,
                deallocated: false,
            }) by {
            if qi < q0.len() {
                let entry = (QueuedDrop {
                    data_id: pre_data[r0 - 1].unique_id,
                    value: pre_data[r0 - 1].value,
                    policy: pre_data[r0 - 1].policy,
                    deallocated: false,
                });
                vstd::seq::lemma_seq_push_index_different_alt(q0, entry, qi);
                assert(q1[qi] == q0[qi]);
                let w = choose|w: int|
                    r0 <= w < pre_data.len() && pre_data[w].last_marked != c && #[trigger] q0[qi]
                        == (QueuedDrop {
                        data_id: pre_data[w].unique_id,
                        value: pre_data[w].value,
                        policy: pre_data[w].policy,
                        deallocated: false,
                    });
                assert(r0 - 1 <= w < pre_data.len() && pre_data[w].last_marked != c && q1[qi] == (
                QueuedDrop {
                    data_id: pre_data[w].unique_id,
                    value: pre_data[w].value,
                    policy: pre_data[w].policy,
                    deallocated: false,
                }));
            } else {
                assert(q1[qi] == (QueuedDrop {
                    data_id: pre_data[r0 - 1].unique_id,
                    value: pre_data[r0 - 1].value,
                    policy: pre_data[r0 - 1].policy,
                    deallocated: false,
                }));
            }
        }
    }
    assert(dead_have_entries(pre_data, c, r0 - 1, base, q1)) by {
        reveal(dead_have_entries);
        assert forall|w: int|
            r0 - 1 <= w < pre_data.len() && (#[trigger] pre_data[w]).last_marked != c implies
        exists|qi: int| base <= qi < q1.len() && q1[qi].data_id == pre_data[w].unique_id by {
            if w == r0 - 1 {
                assert(q1[q1.len() - 1].data_id == pre_data[w].unique_id);
            } else {
                let qi = choose|qi: int|
                    base <= qi < q0.len() && #[trigger] q0[qi].data_id == pre_data[w].unique_id;
                    let entry = (QueuedDrop {
                        data_id: pre_data[r0 - 1].unique_id,
                        value: pre_data[r0 - 1].value,
                        policy: pre_data[r0 - 1].policy,
                        deallocated: false,
                    });
                    vstd::seq::lemma_seq_push_index_different_alt(q0, entry, qi);
                    assert(q1[qi] == q0[qi]);
                assert(q1[qi].data_id == pre_data[w].unique_id);
            }
        }
    }
}


/// Number of allocation records not yet stamped with collection `c`; the
/// depth-first mark terminates because this shrinks whenever a record is
/// stamped.
pub open spec fn count_unmarked<T>(s: Seq<GcData<T>>, c: u64) -> nat
    decreases s.len(),
{
    if s.len() == 0 {
        0
    } else {
        count_unmarked(s.drop_last(), c) + (if s.last().last_marked != c {
            1nat
        } else {
            0nat
        })
    }
}

/// Stamping one unstamped record strictly shrinks the unstamped count.
proof fn lemma_count_unmarked_mark<T>(s: Seq<GcData<T>>, s2: Seq<GcData<T>>, c: u64, i: int)
    requires
        0 <= i < s.len(),
        s2.len() == s.len(),
        s[i].last_marked != c,
        s2[i].last_marked == c,
        forall|j: int| 0 <= j < s.len() && j != i ==> s2[j] == s[j],
    ensures
        count_unmarked(s2, c) < count_unmarked(s, c),
    decreases s.len(),
{
    if i == s.len() - 1 {
        assert(s2.drop_last() =~= s.drop_last());
    } else {
        assert(s.drop_last()[i] == s[i]);
        assert(s2.drop_last()[i] == s2[i]);
        assert forall|j: int|
            0 <= j < s.drop_last().len() && j != i implies #[trigger] s2.drop_last()[j]
            == s.drop_last()[j] by {
            assert(s2[j] == s[j]);
        }
        lemma_count_unmarked_mark(s.drop_last(), s2.drop_last(), c, i);
        assert(s2.last() == s.last());
    }
}


/// Every queue entry a collection appended is the entry of a reclaimed
/// allocation: it carries that allocation's id, value and destruction
/// policy, with `deallocated` still clear.  (Opaque to the solver so the
/// paired quantifiers cannot feed each other; use
/// [`lemma_queued_entry_is_reclaimed`] to unfold one entry.)
#[verifier::opaque]
pub open spec fn queued_are_reclaimed<T>(pre: Collector<T>, post: Collector<T>) -> bool {
    forall|qi: int|
        pre.drop_queue@.len() <= qi < post.drop_queue@.len() ==> exists|w: int|
            0 <= w < pre.data@.len() && !pre.heap().lives(pre.data@[w].unique_id)
                && #[trigger] post.drop_queue@[qi] == (QueuedDrop {
                data_id: pre.data@[w].unique_id,
                value: pre.data@[w].value,
                policy: pre.data@[w].policy,
                deallocated: false,
            })
}

/// Every reclaimed allocation got a queue entry carrying its id; together
/// with [`queued_are_reclaimed`] that entry also carries its value and
/// policy.  (Opaque for the same reason; use [`lemma_reclaimed_has_entry`]
/// to unfold one allocation.)
#[verifier::opaque]
pub open spec fn reclaimed_are_queued<T>(pre: Collector<T>, post: Collector<T>) -> bool {
    forall|w: int|
        0 <= w < pre.data@.len() && !pre.heap().lives((#[trigger] pre.data@[w]).unique_id)
            ==> exists|qi: int|
            pre.drop_queue@.len() <= qi < post.drop_queue@.len() && post.drop_queue@[qi].data_id
                == pre.data@[w].unique_id
}

/// Public unfolding of [`queued_are_reclaimed`] for one queue entry.
pub proof fn lemma_queued_entry_is_reclaimed<T>(pre: Collector<T>, post: Collector<T>, qi: int)
    requires
        queued_are_reclaimed(pre, post),
        pre.drop_queue@.len() <= qi < post.drop_queue@.len(),
    ensures
        exists|w: int|
            0 <= w < pre.data@.len() && !pre.heap().lives((#[trigger] pre.data@[w]).unique_id)
                && post.drop_queue@[qi] == (QueuedDrop {
                data_id: pre.data@[w].unique_id,
                value: pre.data@[w].value,
                policy: pre.data@[w].policy,
                deallocated: false,
            }),
{
    reveal(queued_are_reclaimed);
    let w = choose|w: int|
        0 <= w < pre.data@.len() && !pre.heap().lives(pre.data@[w].unique_id)
            && #[trigger] post.drop_queue@[qi] == (QueuedDrop {
            data_id: pre.data@[w].unique_id,
            value: pre.data@[w].value,
            policy: pre.data@[w].policy,
            deallocated: false,
        });
    assert(0 <= w < pre.data@.len() && !pre.heap().lives((#[trigger] pre.data@[w]).unique_id)
        && post.drop_queue@[qi] == (QueuedDrop {
        data_id: pre.data@[w].unique_id,
        value: pre.data@[w].value,
        policy: pre.data@[w].policy,
        deallocated: false,
    }));
}

/// Public unfolding of [`reclaimed_are_queued`] for one reclaimed
/// allocation.
pub proof fn lemma_reclaimed_has_entry<T>(pre: Collector<T>, post: Collector<T>, w: int)
    requires
        reclaimed_are_queued(pre, post),
        0 <= w < pre.data@.len(),
        !pre.heap().lives(pre.data@[w].unique_id),
    ensures
        exists|qi: int|
            pre.drop_queue@.len() <= qi < post.drop_queue@.len()
                && #[trigger] post.drop_queue@[qi].data_id == pre.data@[w].unique_id,
{
    reveal(reclaimed_are_queued);
    let qi = choose|qi: int|
        pre.drop_queue@.len() <= qi < post.drop_queue@.len() && post.drop_queue@[qi].data_id
            == pre.data@[w].unique_id;
    assert(post.drop_queue@[qi].data_id == pre.data@[w].unique_id);
}

/// Lift the sweep's entry characterization, stated over the stamped
/// registry, to the pre-collection registry and its liveness notion.
proof fn lemma_lift_queued_are_reclaimed<T>(
    pre0: Collector<T>,
    pre4: Collector<T>,
    post: Collector<T>,
    c: u64,
)
    requires
        pre4.data@.len() == pre0.data@.len(),
        forall|w: int|
            0 <= w < pre0.data@.len() ==> (#[trigger] pre4.data@[w]).unique_id
                == pre0.data@[w].unique_id && pre4.data@[w].value == pre0.data@[w].value
                && pre4.data@[w].policy == pre0.data@[w].policy,
        forall|w: int|
            0 <= w < pre0.data@.len() ==> (((#[trigger] pre4.data@[w]).last_marked == c)
                == pre0.heap().lives(pre0.data@[w].unique_id)),
        queue_entries_are_dead(pre4.data@, c, 0, pre0.drop_queue@.len() as int, post.drop_queue@),
    ensures
        queued_are_reclaimed(pre0, post),
{
    reveal(queue_entries_are_dead);
    reveal(queued_are_reclaimed);
    assert forall|qi: int|
        pre0.drop_queue@.len() <= qi < post.drop_queue@.len() implies exists|w: int|
        0 <= w < pre0.data@.len() && !pre0.heap().lives(pre0.data@[w].unique_id)
            && #[trigger] post.drop_queue@[qi] == (QueuedDrop {
            data_id: pre0.data@[w].unique_id,
            value: pre0.data@[w].value,
            policy: pre0.data@[w].policy,
            deallocated: false,
        }) by {
        let w = choose|w: int|
            0 <= w < pre4.data@.len() && pre4.data@[w].last_marked != c
                && #[trigger] post.drop_queue@[qi] == (QueuedDrop {
                data_id: pre4.data@[w].unique_id,
                value: pre4.data@[w].value,
                policy: pre4.data@[w].policy,
                deallocated: false,
            });
        assert(!pre0.heap().lives(pre0.data@[w].unique_id));
        assert(post.drop_queue@[qi] == (QueuedDrop {
            data_id: pre0.data@[w].unique_id,
            value: pre0.data@[w].value,
            policy: pre0.data@[w].policy,
            deallocated: false,
        }));
    }
}

/// Lift the sweep's coverage direction the same way.
proof fn lemma_lift_reclaimed_are_queued<T>(
    pre0: Collector<T>,
    pre4: Collector<T>,
    post: Collector<T>,
    c: u64,
)
    requires
        pre4.data@.len() == pre0.data@.len(),
        forall|w: int|
            0 <= w < pre0.data@.len() ==> (#[trigger] pre4.data@[w]).unique_id
                == pre0.data@[w].unique_id,
        forall|w: int|
            0 <= w < pre0.data@.len() ==> (((#[trigger] pre4.data@[w]).last_marked == c)
                == pre0.heap().lives(pre0.data@[w].unique_id)),
        dead_have_entries(pre4.data@, c, 0, pre0.drop_queue@.len() as int, post.drop_queue@),
    ensures
        reclaimed_are_queued(pre0, post),
{
    reveal(dead_have_entries);
    reveal(reclaimed_are_queued);
    assert forall|w: int|
        0 <= w < pre0.data@.len() && !pre0.heap().lives(
            (#[trigger] pre0.data@[w]).unique_id,
        ) implies exists|qi: int|
        pre0.drop_queue@.len() <= qi < post.drop_queue@.len() && post.drop_queue@[qi].data_id
            == pre0.data@[w].unique_id by {
        assert(pre4.data@[w].last_marked != c);
        let qi = choose|qi: int|
            pre0.drop_queue@.len() <= qi < post.drop_queue@.len() && post.drop_queue@[qi].data_id
                == pre4.data@[w].unique_id;
        assert(post.drop_queue@[qi].data_id == pre0.data@[w].unique_id);
    }
}

/// Two views that agree on everything but the mark stamps, with the new
/// stamps bounded by the new collection number, are equally well formed.
proof fn lemma_wf_stamps_only(h1: HeapView, h2: HeapView)
    requires
        h1.wf(),
        h2.data.len() == h1.data.len(),
        forall|i: int|
            0 <= i < h1.data.len() ==> (#[trigger] h2.data[i]).id == h1.data[i].id
                && h2.data[i].edges == h1.data[i].edges && h2.data[i].shared_warrants
                == h1.data[i].shared_warrants && h2.data[i].last_marked <= h2.collection_number,
        h2.handles.len() == h1.handles.len(),
        forall|j: int|
            0 <= j < h1.handles.len() ==> (#[trigger] h2.handles[j]).id == h1.handles[j].id
                && h2.handles[j].data_id == h1.handles[j].data_id
                && h2.handles[j].last_non_rooted <= h2.collection_number,
    ensures
        h2.wf(),
{
    assert forall|i: int, j: int|
        0 <= i < h2.data.len() && 0 <= j < h2.data.len() && i != j implies (
    #[trigger] h2.data[i]).id != (#[trigger] h2.data[j]).id by {
        assert(h1.data_ids_unique());
        assert(h1.data[i].id != h1.data[j].id);
    }
    assert forall|i: int, j: int|
        0 <= i < h2.handles.len() && 0 <= j < h2.handles.len() && i != j implies (
    #[trigger] h2.handles[i]).id != (#[trigger] h2.handles[j]).id by {
        assert(h1.handle_ids_unique());
        assert(h1.handles[i].id != h1.handles[j].id);
    }
    assert forall|j: int| 0 <= j < h2.handles.len() implies h2.has_data(
        (#[trigger] h2.handles[j]).data_id,
    ) by {
        assert(h1.has_data(h1.handles[j].data_id));
        h1.lemma_data_index_works(h1.handles[j].data_id);
        let w = h1.data_index(h1.handles[j].data_id);
        assert(h2.data[w].id == h1.handles[j].data_id);
    }
    assert forall|i: int, k: int|
        0 <= i < h2.data.len() && 0 <= k < h2.data[i].edges.len() implies h2.has_handle(
        #[trigger] h2.data[i].edges[k],
    ) by {
        assert(h2.data[i].edges == h1.data[i].edges);
        assert(h1.has_handle(h1.data[i].edges[k]));
        h1.lemma_handle_index_works(h1.data[i].edges[k]);
        let w = h1.handle_index(h1.data[i].edges[k]);
        assert(h2.handles[w].id == h1.data[i].edges[k]);
    }
    assert forall|i1: int, k1: int, i2: int, k2: int|
        0 <= i1 < h2.data.len() && 0 <= k1 < h2.data[i1].edges.len() && 0 <= i2 < h2.data.len()
            && 0 <= k2 < h2.data[i2].edges.len() && (i1 != i2 || k1 != k2) implies (
    #[trigger] h2.data[i1].edges[k1]) != (#[trigger] h2.data[i2].edges[k2]) by {
        assert(h2.data[i1].edges == h1.data[i1].edges);
        assert(h2.data[i2].edges == h1.data[i2].edges);
        assert(h1.edges_unique());
        assert(h1.data[i1].edges[k1] != h1.data[i2].edges[k2]);
    }
}

/// Once the whole registry has been processed, the handles that the sweep
/// unregistered are exactly those owned by dead allocations.
proof fn lemma_suffix_zero_is_dead_edge(h: HeapView, c: u64)
    requires
        forall|i: int|
            0 <= i < h.data.len() ==> (((#[trigger] h.data[i]).last_marked == c) == h.lives(
                h.data[i].id,
            )),
    ensures
        forall|hid: u64| #[trigger] dead_edge_in_suffix(h, c, 0, hid) == h.dead_edge(hid),
{
    reveal(dead_edge_in_suffix);
    assert forall|hid: u64| #[trigger]
        dead_edge_in_suffix(h, c, 0, hid) == h.dead_edge(hid) by {
        if dead_edge_in_suffix(h, c, 0, hid) {
            let (w, k): (int, int) = choose|w: int, k: int|
                0 <= w < h.data.len() && h.data[w].last_marked != c && 0 <= k
                    < h.data[w].edges.len() && #[trigger] h.data[w].edges[k] == hid;
            assert(!h.lives(h.data[w].id));
            assert(h.dead_edge(hid));
        }
        if h.dead_edge(hid) {
            let (w, k): (int, int) = choose|w: int, k: int|
                0 <= w < h.data.len() && !h.lives(h.data[w].id) && 0 <= k < h.data[w].edges.len()
                    && #[trigger] h.data[w].edges[k] == hid;
            assert(h.data[w].last_marked != c);
            assert(dead_edge_in_suffix(h, c, 0, hid));
        }
    }
}

impl<T> Collector<T> {
    /// Stamp every handle owned by allocation `i` as non-rooted in
    /// collection `c`.
    fn stamp_edges_of(&mut self, i: usize, c: u64)
        requires
            old(self).heap().handle_ids_unique(),
            i < old(self).data@.len(),
            forall|k: int|
                0 <= k < old(self).data@[i as int].edges@.len() ==> old(self).heap().has_handle(
                    #[trigger] old(self).data@[i as int].edges@[k],
                ),
        ensures
            final(self).data@ == old(self).data@,
            final(self).drop_queue@ == old(self).drop_queue@,
            final(self).monotonic_counter == old(self).monotonic_counter,
            final(self).collection_number == old(self).collection_number,
            final(self).trigger == old(self).trigger,
            final(self).handles@.len() == old(self).handles@.len(),
            forall|j: int|
                0 <= j < old(self).handles@.len() ==> (#[trigger] final(self).handles@[j]).unique_id
                    == old(self).handles@[j].unique_id && final(self).handles@[j].data_id == old(
                    self,
                ).handles@[j].data_id && final(self).handles@[j].last_non_rooted == (
                if old(self).data@[i as int].edges@.contains(old(self).handles@[j].unique_id) {
                    c
                } else {
                    old(self).handles@[j].last_non_rooted
                }),
    {
        let ghost pre = *self;
        let n = self.data[i].edges.len();
        let mut k: usize = 0;
        while k < n
            invariant
                pre == *old(self),
                pre.heap().handle_ids_unique(),
                i < pre.data@.len(),
                forall|k2: int|
                    0 <= k2 < pre.data@[i as int].edges@.len() ==> pre.heap().has_handle(
                        #[trigger] pre.data@[i as int].edges@[k2],
                    ),
                n == pre.data@[i as int].edges@.len(),
                k <= n,
                self.data@ == pre.data@,
                self.drop_queue@ == pre.drop_queue@,
                self.monotonic_counter == pre.monotonic_counter,
                self.collection_number == pre.collection_number,
                self.trigger == pre.trigger,
                self.handles@.len() == pre.handles@.len(),
                forall|j: int|
                    0 <= j < pre.handles@.len() ==> (#[trigger] self.handles@[j]).unique_id
                        == pre.handles@[j].unique_id && self.handles@[j].data_id
                        == pre.handles@[j].data_id && self.handles@[j].last_non_rooted == (
                    if (exists|k2: int|
                        0 <= k2 < k && pre.data@[i as int].edges@[k2]
                            == pre.handles@[j].unique_id) {
                        c
                    } else {
                        pre.handles@[j].last_non_rooted
                    }),
            decreases n - k,
        {
            let ghost cur = *self;
            let e = self.data[i].edges[k];
            proof {
                assert(e == pre.data@[i as int].edges@[k as int]);
                assert(pre.heap().has_handle(e));
                pre.heap().lemma_handle_index_works(e);
                let w = pre.heap().handle_index(e);
                assert(self.handles@[w].unique_id == e);
                assert(self.heap().handles[w].id == e);
                assert(self.heap().has_handle(e));
                assert forall|j1: int, j2: int|
                    0 <= j1 < self.handles@.len() && 0 <= j2 < self.handles@.len() && j1
                        != j2 implies (#[trigger] self.heap().handles[j1]).id != (
                #[trigger] self.heap().handles[j2]).id by {
                    assert(self.handles@[j1].unique_id == pre.handles@[j1].unique_id);
                    assert(self.handles@[j2].unique_id == pre.handles@[j2].unique_id);
                    assert(pre.heap().handle_ids_unique());
                    assert(pre.heap().handles[j1].id != pre.heap().handles[j2].id);
                }
            }
            let j = self.find_handle_index(e);
            self.handles[j].last_non_rooted = c;
            proof {
                assert forall|j1: int|
                    0 <= j1 < pre.handles@.len() implies (#[trigger] self.handles@[j1]).unique_id
                        == pre.handles@[j1].unique_id && self.handles@[j1].data_id
                        == pre.handles@[j1].data_id && self.handles@[j1].last_non_rooted == (
                    if (exists|k2: int|
                        0 <= k2 < k + 1 && pre.data@[i as int].edges@[k2]
                            == pre.handles@[j1].unique_id) {
                        c
                    } else {
                        pre.handles@[j1].last_non_rooted
                    }) by {
                    let hid = pre.handles@[j1].unique_id;
                    if j1 == j {
                        assert(pre.data@[i as int].edges@[k as int] == hid);
                        assert((exists|k2: int|
                            0 <= k2 < k + 1 && pre.data@[i as int].edges@[k2] == hid));
                    } else {
                        assert(self.handles@[j1] == cur.handles@[j1]);
                        assert(cur.handles@[j1].unique_id == hid);
                        assert(hid != e) by {
                            assert(cur.handles@[j as int].unique_id == e);
                            assert(pre.handles@[j as int].unique_id == e);
                            assert(pre.heap().handles[j1].id == hid);
                            assert(pre.heap().handles[j as int].id == e);
                        }
                        assert((exists|k2: int|
                            0 <= k2 < k + 1 && pre.data@[i as int].edges@[k2] == hid) <==> (
                        exists|k2: int| 0 <= k2 < k && pre.data@[i as int].edges@[k2] == hid)) by {
                            if (exists|k2: int|
                                0 <= k2 < k + 1 && pre.data@[i as int].edges@[k2] == hid) {
                                let k2 = choose|k2: int|
                                    0 <= k2 < k + 1 && pre.data@[i as int].edges@[k2] == hid;
                                assert(k2 != k);
                            }
                        }
                    }
                }
            }
            k = k + 1;
        }
        proof {
            assert forall|j: int|
                0 <= j < pre.handles@.len() implies (#[trigger] self.handles@[j]).last_non_rooted
                    == (if pre.data@[i as int].edges@.contains(pre.handles@[j].unique_id) {
                    c
                } else {
                    pre.handles@[j].last_non_rooted
                }) by {
                let hid = pre.handles@[j].unique_id;
                assert((exists|k2: int| 0 <= k2 < n && pre.data@[i as int].edges@[k2] == hid)
                    <==> pre.data@[i as int].edges@.contains(hid));
            }
        }
    }

    /// Phase 1: stamp every in-use allocation live, and stamp every handle
    /// owned by a scannable allocation as non-rooted.
    #[verifier::spinoff_prover]
    fn mark_in_use(&mut self, c: u64)
        requires
            old(self).heap().wf(),
            old(self).collection_number == c,
            forall|i: int|
                0 <= i < old(self).data@.len() ==> (#[trigger] old(self).data@[i]).last_marked < c,
            forall|j: int|
                0 <= j < old(self).handles@.len()
                    ==> (#[trigger] old(self).handles@[j]).last_non_rooted < c,
        ensures
            final(self).drop_queue@ == old(self).drop_queue@,
            final(self).monotonic_counter == old(self).monotonic_counter,
            final(self).collection_number == old(self).collection_number,
            final(self).trigger == old(self).trigger,
            final(self).data@.len() == old(self).data@.len(),
            forall|i: int|
                0 <= i < old(self).data@.len()
                    ==> (#[trigger] final(self).data@[i]).unique_id == old(self).data@[i].unique_id
                    && final(self).data@[i].value == old(self).data@[i].value
                    && final(self).data@[i].edges@ == old(self).data@[i].edges@
                    && final(self).data@[i].lockout == old(self).data@[i].lockout
                    && final(self).data@[i].policy == old(self).data@[i].policy
                    && final(self).data@[i].last_marked == (
                    if old(self).data@[i].lockout.shared_count > 0 {
                        c
                    } else {
                        old(self).data@[i].last_marked
                    }),
            final(self).handles@.len() == old(self).handles@.len(),
            forall|j: int|
                0 <= j < old(self).handles@.len()
                    ==> (#[trigger] final(self).handles@[j]).unique_id
                        == old(self).handles@[j].unique_id
                    && final(self).handles@[j].data_id == old(self).handles@[j].data_id
                    && final(self).handles@[j].last_non_rooted == (
                    if old(self).heap().observed_non_rooted(old(self).handles@[j].unique_id) {
                        c
                    } else {
                        old(self).handles@[j].last_non_rooted
                    }),
    {
        let ghost pre = *self;
        let n = self.data.len();
        let mut i: usize = 0;
        while i < n
            invariant
                pre == *old(self),
                pre.heap().wf(),
                pre.collection_number == c,
                forall|i2: int|
                    0 <= i2 < pre.data@.len() ==> (#[trigger] pre.data@[i2]).last_marked < c,
                forall|j: int|
                    0 <= j < pre.handles@.len() ==> (#[trigger] pre.handles@[j]).last_non_rooted
                        < c,
                n == pre.data@.len(),
                i <= n,
                self.drop_queue@ == pre.drop_queue@,
                self.monotonic_counter == pre.monotonic_counter,
                self.collection_number == pre.collection_number,
                self.trigger == pre.trigger,
                self.data@.len() == pre.data@.len(),
                forall|i2: int|
                    0 <= i2 < pre.data@.len() ==> (#[trigger] self.data@[i2]).unique_id
                        == pre.data@[i2].unique_id && self.data@[i2].value == pre.data@[i2].value
                        && self.data@[i2].edges@ == pre.data@[i2].edges@ && self.data@[i2].lockout
                        == pre.data@[i2].lockout && self.data@[i2].policy == pre.data@[i2].policy
                        && self.data@[i2].last_marked == (
                    if i2 < i && pre.data@[i2].lockout.shared_count > 0 {
                        c
                    } else {
                        pre.data@[i2].last_marked
                    }),
                self.handles@.len() == pre.handles@.len(),
                forall|j: int|
                    0 <= j < pre.handles@.len() ==> (#[trigger] self.handles@[j]).unique_id
                        == pre.handles@[j].unique_id && self.handles@[j].data_id
                        == pre.handles@[j].data_id && self.handles@[j].last_non_rooted == (
                    if observed_in_first(pre, i as int, pre.handles@[j].unique_id) {
                        c
                    } else {
                        pre.handles@[j].last_non_rooted
                    }),
            decreases n - i,
        {
            let ghost cur = *self;
            if self.data[i].lockout.shared_count == 0 {
                proof {
                    assert forall|j1: int, j2: int|
                        0 <= j1 < self.handles@.len() && 0 <= j2 < self.handles@.len() && j1
                            != j2 implies (#[trigger] self.heap().handles[j1]).id != (
                    #[trigger] self.heap().handles[j2]).id by {
                        assert(self.handles@[j1].unique_id == pre.handles@[j1].unique_id);
                        assert(self.handles@[j2].unique_id == pre.handles@[j2].unique_id);
                        assert(pre.heap().handles[j1].id != pre.heap().handles[j2].id);
                    }
                    assert forall|k: int|
                        0 <= k < self.data@[i as int].edges@.len() implies self.heap().has_handle(
                        #[trigger] self.data@[i as int].edges@[k],
                    ) by {
                        assert(self.data@[i as int].edges@ == pre.data@[i as int].edges@);
                        assert(pre.heap().data[i as int].edges[k] == pre.data@[i as int].edges@[k]);
                        assert(pre.heap().has_handle(pre.data@[i as int].edges@[k]));
                        pre.heap().lemma_handle_index_works(pre.data@[i as int].edges@[k]);
                        let w = pre.heap().handle_index(pre.data@[i as int].edges@[k]);
                        assert(self.handles@[w].unique_id == pre.data@[i as int].edges@[k]);
                        assert(self.heap().handles[w].id == pre.data@[i as int].edges@[k]);
                    }
                }
                self.stamp_edges_of(i, c);
                proof {
                    assert forall|j: int|
                        0 <= j < pre.handles@.len() implies (
                    #[trigger] self.handles@[j]).last_non_rooted == (
                    if observed_in_first(pre, i + 1, pre.handles@[j].unique_id) {
                        c
                    } else {
                        pre.handles@[j].last_non_rooted
                    }) by {
                        let hid = pre.handles@[j].unique_id;
                        assert(cur.handles@[j].unique_id == hid);
                        assert(cur.data@[i as int].edges@ == pre.data@[i as int].edges@);
                        if observed_in_first(pre, i + 1, hid) {
                            let (i2, k2): (int, int) = choose|i2: int, k2: int|
                                0 <= i2 < i + 1 && i2 < pre.data@.len()
                                    && pre.data@[i2].lockout.shared_count == 0 && 0 <= k2
                                    < pre.data@[i2].edges@.len() && #[trigger] pre.data@[i2].edges@[k2]
                                    == hid;
                            if i2 == i {
                                assert(pre.data@[i as int].edges@.contains(hid));
                            } else {
                                assert(observed_in_first(pre, i as int, hid));
                            }
                        } else {
                            assert(!pre.data@[i as int].edges@.contains(hid)) by {
                                if pre.data@[i as int].edges@.contains(hid) {
                                    let k2 = choose|k2: int|
                                        0 <= k2 < pre.data@[i as int].edges@.len()
                                            && pre.data@[i as int].edges@[k2] == hid;
                                    assert(pre.data@[i as int].lockout.shared_count == 0) by {
                                        assert(cur.data@[i as int].lockout
                                            == pre.data@[i as int].lockout);
                                    }
                                    assert(observed_in_first(pre, i + 1, hid));
                                }
                            }
                            assert(!observed_in_first(pre, i as int, hid)) by {
                                if observed_in_first(pre, i as int, hid) {
                                    let (i2, k2): (int, int) = choose|i2: int, k2: int|
                                        0 <= i2 < i && i2 < pre.data@.len()
                                            && pre.data@[i2].lockout.shared_count == 0 && 0 <= k2
                                            < pre.data@[i2].edges@.len() && #[trigger] pre.data@[i2].edges@[k2]
                                            == hid;
                                    assert(observed_in_first(pre, i + 1, hid));
                                }
                            }
                        }
                    }
                }
            } else {
                self.data[i].last_marked = c;
                proof {
                    assert forall|j: int|
                        0 <= j < pre.handles@.len() implies (
                    #[trigger] self.handles@[j]).last_non_rooted == (
                    if observed_in_first(pre, i + 1, pre.handles@[j].unique_id) {
                        c
                    } else {
                        pre.handles@[j].last_non_rooted
                    }) by {
                        let hid = pre.handles@[j].unique_id;
                        assert(observed_in_first(pre, i + 1, hid) <==> observed_in_first(
                            pre,
                            i as int,
                            hid,
                        )) by {
                            if observed_in_first(pre, i + 1, hid) {
                                let (i2, k2): (int, int) = choose|i2: int, k2: int|
                                    0 <= i2 < i + 1 && i2 < pre.data@.len()
                                        && pre.data@[i2].lockout.shared_count == 0 && 0 <= k2
                                        < pre.data@[i2].edges@.len() && #[trigger] pre.data@[i2].edges@[k2]
                                        == hid;
                                assert(i2 != i) by {
                                    assert(cur.data@[i as int].lockout
                                        == pre.data@[i as int].lockout);
                                }
                                assert(observed_in_first(pre, i as int, hid));
                            }
                        }
                    }
                }
            }
            i = i + 1;
        }
        proof {
            assert forall|j: int|
                0 <= j < pre.handles@.len() implies (#[trigger] self.handles@[j]).last_non_rooted
                    == (if pre.heap().observed_non_rooted(pre.handles@[j].unique_id) {
                    c
                } else {
                    pre.handles@[j].last_non_rooted
                }) by {
                let hid = pre.handles@[j].unique_id;
                assert(observed_in_first(pre, n as int, hid) <==> pre.heap().observed_non_rooted(
                    hid,
                )) by {
                    if observed_in_first(pre, n as int, hid) {
                        let (i2, k2): (int, int) = choose|i2: int, k2: int|
                            0 <= i2 < n && i2 < pre.data@.len()
                                && pre.data@[i2].lockout.shared_count == 0 && 0 <= k2
                                < pre.data@[i2].edges@.len() && #[trigger] pre.data@[i2].edges@[k2]
                                == hid;
                        assert(pre.heap().data[i2].shared_warrants == 0);
                        assert(pre.heap().data[i2].edges[k2] == hid);
                        assert(pre.heap().observed_non_rooted(hid));
                    }
                    if pre.heap().observed_non_rooted(hid) {
                        let (i2, k2): (int, int) = choose|i2: int, k2: int|
                            0 <= i2 < pre.heap().data.len() && pre.heap().data[i2].shared_warrants
                                == 0 && 0 <= k2 < pre.heap().data[i2].edges.len()
                                && #[trigger] pre.heap().data[i2].edges[k2] == hid;
                        assert(pre.data@[i2].edges@[k2] == hid);
                        assert(observed_in_first(pre, n as int, hid));
                    }
                }
            }
        }
    }

    /// Copy a list of handle ids, so the mark stack can take them while the
    /// registry keeps the original.
    fn copy_ids(v: &Vec<u64>) -> (r: Vec<u64>)
        ensures
            r@ == v@,
    {
        let n = v.len();
        let mut r: Vec<u64> = Vec::new();
        let mut k: usize = 0;
        while k < n
            invariant
                n == v@.len(),
                k <= n,
                r@ == v@.subrange(0, k as int),
            decreases n - k,
        {
            r.push(v[k]);
            proof {
                assert(r@ =~= v@.subrange(0, k + 1));
            }
            k = k + 1;
        }
        proof {
            assert(r@ =~= v@);
        }
        r
    }

    /// Phase 3: depth-first mark.  Starting from the root handles, stamp
    /// every allocation reachable through scannable values.  Allocations
    /// stamped in phase 1 (in use) are never traversed: their outgoing
    /// handles were already treated as roots.
    #[verifier::rlimit(80)]
    #[verifier::spinoff_prover]
    fn mark_reachable(&mut self, stack: Vec<u64>, c: u64)
        requires
            old(self).heap().wf(),
            old(self).collection_number == c,
            forall|i: int|
                0 <= i < old(self).data@.len() ==> (((#[trigger] old(self).data@[i]).last_marked
                    == c) == (old(self).data@[i].lockout.shared_count > 0)),
            forall|idx: int|
                0 <= idx < stack@.len() ==> old(self).heap().is_root(#[trigger] stack@[idx]),
            forall|j: int|
                0 <= j < old(self).handles@.len() && old(self).heap().is_root(
                    (#[trigger] old(self).handles@[j]).unique_id,
                ) ==> stack@.contains(old(self).handles@[j].unique_id),
        ensures
            final(self).drop_queue@ == old(self).drop_queue@,
            final(self).monotonic_counter == old(self).monotonic_counter,
            final(self).collection_number == old(self).collection_number,
            final(self).trigger == old(self).trigger,
            final(self).handles@ == old(self).handles@,
            final(self).data@.len() == old(self).data@.len(),
            forall|i: int|
                0 <= i < old(self).data@.len()
                    ==> (#[trigger] final(self).data@[i]).unique_id == old(self).data@[i].unique_id
                    && final(self).data@[i].value == old(self).data@[i].value
                    && final(self).data@[i].edges@ == old(self).data@[i].edges@
                    && final(self).data@[i].lockout == old(self).data@[i].lockout
                    && final(self).data@[i].policy == old(self).data@[i].policy
                    && ((final(self).data@[i].last_marked == c) == old(self).heap().lives(
                    old(self).data@[i].unique_id,
                ))
                    && (final(self).data@[i].last_marked == c || final(self).data@[i].last_marked
                    == old(self).data@[i].last_marked),
    {
        let ghost pre = *self;
        let ghost h = pre.heap();
        let mut stack = stack;
        proof {
            assert forall|idx: int| 0 <= idx < stack@.len() implies h.has_handle(
                #[trigger] stack@[idx],
            ) && h.lives(h.handle_at(stack@[idx]).data_id) by {
                assert(h.is_root(stack@[idx]));
                h.lemma_handle_index_works(stack@[idx]);
                let j = h.handle_index(stack@[idx]);
                h.lemma_root_target_lives(j);
            }
            assert forall|i: int|
                0 <= i < pre.data@.len() && (#[trigger] self.data@[i]).last_marked == c implies
                h.lives(pre.data@[i].unique_id) by {
                assert(pre.data@[i].lockout.shared_count > 0);
                h.lemma_data_index_of(i);
                assert(h.data_at(pre.data@[i].unique_id).shared_warrants > 0);
                assert(h.is_seed(pre.data@[i].unique_id));
                h.lemma_seed_lives(pre.data@[i].unique_id);
            }
        }
        while stack.len() > 0
            invariant
                pre == *old(self),
                h == pre.heap(),
                h.wf(),
                pre.collection_number == c,
                forall|i: int|
                    0 <= i < pre.data@.len() ==> (((#[trigger] pre.data@[i]).last_marked == c) == (
                    pre.data@[i].lockout.shared_count > 0)),
                self.drop_queue@ == pre.drop_queue@,
                self.monotonic_counter == pre.monotonic_counter,
                self.collection_number == c,
                self.trigger == pre.trigger,
                self.handles@ == pre.handles@,
                self.data@.len() == pre.data@.len(),
                forall|i: int|
                    0 <= i < pre.data@.len() ==> (#[trigger] self.data@[i]).unique_id
                        == pre.data@[i].unique_id && self.data@[i].value == pre.data@[i].value
                        && self.data@[i].edges@ == pre.data@[i].edges@ && self.data@[i].lockout
                        == pre.data@[i].lockout && self.data@[i].policy == pre.data@[i].policy && (
                    self.data@[i].last_marked == c || self.data@[i].last_marked
                        == pre.data@[i].last_marked),
                forall|i: int|
                    0 <= i < pre.data@.len() && pre.data@[i].lockout.shared_count > 0
                        ==> (#[trigger] self.data@[i]).last_marked == c,
                forall|i: int|
                    0 <= i < pre.data@.len() && (#[trigger] self.data@[i]).last_marked == c
                        ==> h.lives(pre.data@[i].unique_id),
                forall|idx: int|
                    0 <= idx < stack@.len() ==> h.has_handle(#[trigger] stack@[idx]) && h.lives(
                        h.handle_at(stack@[idx]).data_id,
                    ),
                forall|j: int|
                    0 <= j < pre.handles@.len() && h.is_root(
                        (#[trigger] pre.handles@[j]).unique_id,
                    ) ==> self.data@[h.data_index(pre.handles@[j].data_id)].last_marked == c
                        || stack@.contains(pre.handles@[j].unique_id),
                forall|i: int, k: int|
                    0 <= i < pre.data@.len() && (#[trigger] self.data@[i]).last_marked == c
                        && pre.data@[i].lockout.shared_count == 0 && 0 <= k
                        < pre.data@[i].edges@.len() ==> self.data@[h.data_index(
                        h.handle_at(#[trigger] pre.data@[i].edges@[k]).data_id,
                    )].last_marked == c || stack@.contains(pre.data@[i].edges@[k]),
            decreases count_unmarked(self.data@, c), stack@.len(),
        {
            let ghost stack0 = stack@;
            let hid_opt = stack.pop();
            let hid = hid_opt.unwrap();
            proof {
                assert(hid == stack0[stack0.len() - 1]);
                assert(stack@ == stack0.subrange(0, stack0.len() - 1));
                assert(h.has_handle(hid));
                assert(h.lives(h.handle_at(hid).data_id));
                // current heap's handles agree with h
                assert forall|j1: int, j2: int|
                    0 <= j1 < self.handles@.len() && 0 <= j2 < self.handles@.len() && j1
                        != j2 implies (#[trigger] self.heap().handles[j1]).id != (
                #[trigger] self.heap().handles[j2]).id by {
                    assert(h.handles[j1].id == pre.handles@[j1].unique_id);
                    assert(h.handles[j2].id == pre.handles@[j2].unique_id);
                    assert(h.handle_ids_unique());
                }
                h.lemma_handle_index_works(hid);
                let w = h.handle_index(hid);
                assert(self.handles@[w].unique_id == hid);
                assert(self.heap().handles[w].id == hid);
                assert(self.heap().has_handle(hid));
            }
            let j = self.find_handle_index(hid);
            let a_id = self.handles[j].data_id;
            proof {
                // j is the index of hid in h as well
                h.lemma_handle_index_of(j as int);
                assert(h.handle_at(hid) == h.handles[j as int]);
                assert(a_id == h.handle_at(hid).data_id);
                assert(h.lives(a_id));
                assert(h.has_data(a_id));
                h.lemma_data_index_works(a_id);
                let w = h.data_index(a_id);
                assert(self.data@[w].unique_id == a_id);
                assert(self.heap().data[w].id == a_id);
                assert(self.heap().has_data(a_id));
                assert forall|i1: int, i2: int|
                    0 <= i1 < self.data@.len() && 0 <= i2 < self.data@.len() && i1 != i2 implies (
                #[trigger] self.heap().data[i1]).id != (#[trigger] self.heap().data[i2]).id by {
                    assert(h.data[i1].id == pre.data@[i1].unique_id);
                    assert(h.data[i2].id == pre.data@[i2].unique_id);
                    assert(h.data_ids_unique());
                }
            }
            let i = self.find_data_index(a_id);
            proof {
                h.lemma_data_index_of(i as int);
                assert(h.data_index(a_id) == i as int);
            }
            if self.data[i].last_marked != c {
                let ghost data0 = self.data@;
                self.data[i].last_marked = c;
                proof {
                    lemma_count_unmarked_mark(data0, self.data@, c, i as int);
                    // the newly marked allocation is scannable
                    assert(pre.data@[i as int].lockout.shared_count == 0) by {
                        if pre.data@[i as int].lockout.shared_count > 0 {
                            assert(data0[i as int].last_marked == c);
                        }
                    }
                    assert(h.scannable(a_id)) by {
                        assert(h.data_at(a_id) == h.data[i as int]);
                        assert(h.data[i as int].shared_warrants
                            == pre.data@[i as int].lockout.shared_count);
                    }
                }
                let edges_copy = Self::copy_ids(&self.data[i].edges);
                let mut edges_copy = edges_copy;
                let ghost stack1 = stack@;
                stack.append(&mut edges_copy);
                proof {
                    let i0 = i as int;
                    assert(stack@ == stack1 + pre.data@[i0].edges@);
                    let ne = pre.data@[i0].edges@.len() as int;
                    // soundness of the new stack entries
                    assert forall|idx: int| 0 <= idx < stack@.len() implies h.has_handle(
                        #[trigger] stack@[idx],
                    ) && h.lives(h.handle_at(stack@[idx]).data_id) by {
                        if idx < stack1.len() {
                            assert(stack@[idx] == stack1[idx]);
                            assert(stack1[idx] == stack0[idx]);
                        } else {
                            let k = idx - stack1.len();
                            assert(stack@[idx] == pre.data@[i0].edges@[k]);
                            let e = pre.data@[i0].edges@[k];
                            assert(h.data[i0].edges[k] == e);
                            assert(h.has_handle(e));
                            h.lemma_handle_index_works(e);
                            let p = choose|p: Seq<u64>| h.live_path(p) && p.last() == a_id;
                            assert(h.edge_step(a_id, h.handle_at(e).data_id)) by {
                                assert(h.data_at(a_id) == h.data[i0]);
                                assert(h.data_at(a_id).edges[k] == e);
                            }
                            h.lemma_live_path_extend(p, h.handle_at(e).data_id);
                        }
                    }
                    // completeness: roots
                    assert forall|j1: int|
                        0 <= j1 < pre.handles@.len() && h.is_root(
                            (#[trigger] pre.handles@[j1]).unique_id,
                        ) implies self.data@[h.data_index(pre.handles@[j1].data_id)].last_marked
                        == c || stack@.contains(pre.handles@[j1].unique_id) by {
                        let rhid = pre.handles@[j1].unique_id;
                        assert(h.handles[j1].data_id == pre.handles@[j1].data_id);
                        assert(h.has_data(h.handles[j1].data_id));
                        h.lemma_data_index_works(pre.handles@[j1].data_id);
                        let tix = h.data_index(pre.handles@[j1].data_id);
                        if data0[tix].last_marked == c {
                            assert(self.data@[tix].last_marked == c);
                        } else {
                            assert(stack0.contains(rhid));
                            let w = choose|w: int| 0 <= w < stack0.len() && stack0[w] == rhid;
                            if w < stack0.len() - 1 {
                                assert(stack@[w] == rhid);
                                assert(stack@.contains(rhid));
                            } else {
                                assert(rhid == hid);
                                h.lemma_handle_index_of(j1);
                                assert(h.handle_at(hid) == pre.heap().handles[j1]);
                                assert(pre.handles@[j1].data_id == a_id);
                                assert(tix == i as int);
                                assert(self.data@[tix].last_marked == c);
                            }
                        }
                    }
                    // completeness: edges of marked scannable allocations
                    assert forall|i1: int, k1: int|
                        0 <= i1 < pre.data@.len() && (#[trigger] self.data@[i1]).last_marked == c
                            && pre.data@[i1].lockout.shared_count == 0 && 0 <= k1
                            < pre.data@[i1].edges@.len() implies self.data@[h.data_index(
                        h.handle_at(#[trigger] pre.data@[i1].edges@[k1]).data_id,
                    )].last_marked == c || stack@.contains(pre.data@[i1].edges@[k1]) by {
                        let e = pre.data@[i1].edges@[k1];
                        if i1 == i0 {
                            // freshly marked: all its edges were just pushed
                            let w = stack1.len() + k1;
                            assert(stack@[w] == e);
                            assert(stack@.contains(e));
                        } else {
                            assert(data0[i1].last_marked == c);
                            assert(h.data[i1].edges[k1] == e);
                            assert(h.has_handle(e));
                            h.lemma_handle_index_works(e);
                            let tj = h.handle_index(e);
                            assert(h.has_data(h.handles[tj].data_id));
                            h.lemma_data_index_works(h.handles[tj].data_id);
                            assert(h.handle_at(e).data_id == h.handles[tj].data_id);
                            let tix = h.data_index(h.handle_at(e).data_id);
                            if data0[tix].last_marked == c {
                                assert(self.data@[tix].last_marked == c);
                            } else {
                                assert(stack0.contains(e));
                                let w = choose|w: int| 0 <= w < stack0.len() && stack0[w] == e;
                                if w < stack0.len() - 1 {
                                    assert(stack@[w] == e);
                                    assert(stack@.contains(e));
                                } else {
                                    assert(e == hid);
                                    assert(h.handle_at(e).data_id == a_id);
                                    assert(tix == i as int);
                                    assert(self.data@[tix].last_marked == c);
                                }
                            }
                        }
                    }
                }
            } else {
                proof {
                    let i0 = i as int;
                    // completeness: roots
                    assert forall|j1: int|
                        0 <= j1 < pre.handles@.len() && h.is_root(
                            (#[trigger] pre.handles@[j1]).unique_id,
                        ) implies self.data@[h.data_index(pre.handles@[j1].data_id)].last_marked
                        == c || stack@.contains(pre.handles@[j1].unique_id) by {
                        let rhid = pre.handles@[j1].unique_id;
                        assert(h.handles[j1].data_id == pre.handles@[j1].data_id);
                        assert(h.has_data(h.handles[j1].data_id));
                        h.lemma_data_index_works(pre.handles@[j1].data_id);
                        let tix = h.data_index(pre.handles@[j1].data_id);
                        if self.data@[tix].last_marked != c {
                            assert(stack0.contains(rhid));
                            let w = choose|w: int| 0 <= w < stack0.len() && stack0[w] == rhid;
                            if w < stack0.len() - 1 {
                                assert(stack@[w] == rhid);
                                assert(stack@.contains(rhid));
                            } else {
                                assert(rhid == hid);
                                h.lemma_handle_index_of(j1);
                                assert(pre.handles@[j1].data_id == a_id);
                                assert(tix == i0);
                                assert(false);
                            }
                        }
                    }
                    // completeness: edges
                    assert forall|i1: int, k1: int|
                        0 <= i1 < pre.data@.len() && (#[trigger] self.data@[i1]).last_marked == c
                            && pre.data@[i1].lockout.shared_count == 0 && 0 <= k1
                            < pre.data@[i1].edges@.len() implies self.data@[h.data_index(
                        h.handle_at(#[trigger] pre.data@[i1].edges@[k1]).data_id,
                    )].last_marked == c || stack@.contains(pre.data@[i1].edges@[k1]) by {
                        let e = pre.data@[i1].edges@[k1];
                        assert(h.data[i1].edges[k1] == e);
                        assert(h.has_handle(e));
                        h.lemma_handle_index_works(e);
                        let tj = h.handle_index(e);
                        assert(h.has_data(h.handles[tj].data_id));
                        h.lemma_data_index_works(h.handles[tj].data_id);
                        assert(h.handle_at(e).data_id == h.handles[tj].data_id);
                        let tix = h.data_index(h.handle_at(e).data_id);
                        if self.data@[tix].last_marked != c {
                            assert(stack0.contains(e));
                            let w = choose|w: int| 0 <= w < stack0.len() && stack0[w] == e;
                            if w < stack0.len() - 1 {
                                assert(stack@[w] == e);
                                assert(stack@.contains(e));
                            } else {
                                assert(e == hid);
                                assert(h.handle_at(e).data_id == a_id);
                                assert(tix == i as int);
                                assert(false);
                            }
                        }
                    }
                }
            }
        }
        proof {
            let ghost ms = Seq::new(h.data.len(), |i: int| self.data@[i].last_marked == c);
            assert forall|i: int|
                0 <= i < h.data.len() && (#[trigger] h.data[i]).shared_warrants > 0 implies ms[i] by {
                assert(h.data[i].shared_warrants == pre.data@[i].lockout.shared_count);
                assert(self.data@[i].last_marked == c);
            }
            assert forall|j: int|
                0 <= j < h.handles.len() && h.is_root((#[trigger] h.handles[j]).id) implies ms[h.data_index(
                h.handles[j].data_id,
            )] by {
                assert(h.handles[j].id == pre.handles@[j].unique_id);
                assert(h.handles[j].data_id == pre.handles@[j].data_id);
                assert(self.data@[h.data_index(pre.handles@[j].data_id)].last_marked == c
                    || stack@.contains(pre.handles@[j].unique_id));
                assert(stack@.len() == 0);
                assert(!stack@.contains(pre.handles@[j].unique_id));
            }
            assert forall|i: int, k: int|
                0 <= i < h.data.len() && ms[i] && h.data[i].shared_warrants == 0 && 0 <= k
                    < h.data[i].edges.len() implies ms[h.data_index(
                h.handle_at(#[trigger] h.data[i].edges[k]).data_id,
            )] by {
                assert(h.data[i].edges[k] == pre.data@[i].edges@[k]);
                assert(self.data@[i].last_marked == c);
                assert(pre.data@[i].lockout.shared_count == 0);
                assert(self.data@[h.data_index(h.handle_at(pre.data@[i].edges@[k]).data_id)].last_marked
                    == c || stack@.contains(pre.data@[i].edges@[k]));
                assert(!stack@.contains(pre.data@[i].edges@[k]));
            }
            assert forall|i: int|
                0 <= i < pre.data@.len() implies ((#[trigger] self.data@[i]).last_marked == c)
                == h.lives(pre.data@[i].unique_id) by {
                if self.data@[i].last_marked == c {
                    assert(h.lives(pre.data@[i].unique_id));
                }
                if h.lives(pre.data@[i].unique_id) {
                    let p = choose|p: Seq<u64>|
                        h.live_path(p) && p.last() == pre.data@[i].unique_id;
                    h.lemma_closed_marks_cover_path(ms, p);
                    h.lemma_data_index_of(i);
                    assert(h.data_index(pre.data@[i].unique_id) == i);
                    assert(ms[i]);
                }
            }
        }
    }

    /// Unregister every handle in `edges`: they were owned by a dead
    /// allocation, so nothing may reference them again.
    fn remove_owned_handles(&mut self, edges: &Vec<u64>)
        requires
            old(self).heap().handle_ids_unique(),
            forall|k: int|
                0 <= k < edges@.len() ==> old(self).heap().has_handle(#[trigger] edges@[k]),
            forall|k1: int, k2: int|
                0 <= k1 < edges@.len() && 0 <= k2 < edges@.len() && k1 != k2
                    ==> #[trigger] edges@[k1] != #[trigger] edges@[k2],
        ensures
            final(self).data@ == old(self).data@,
            final(self).drop_queue@ == old(self).drop_queue@,
            final(self).monotonic_counter == old(self).monotonic_counter,
            final(self).collection_number == old(self).collection_number,
            final(self).trigger == old(self).trigger,
            final(self).heap().handle_ids_unique(),
            forall|hid: u64|
                #[trigger] final(self).heap().has_handle(hid) <==> (old(self).heap().has_handle(hid)
                    && !edges@.contains(hid)),
            forall|hid: u64|
                #[trigger] final(self).heap().has_handle(hid) ==> final(self).heap().handle_at(hid)
                    == old(self).heap().handle_at(hid),
    {
        let ghost pre = *self;
        let n = edges.len();
        let mut k: usize = 0;
        while k < n
            invariant
                pre == *old(self),
                pre.heap().handle_ids_unique(),
                forall|k2: int|
                    0 <= k2 < edges@.len() ==> pre.heap().has_handle(#[trigger] edges@[k2]),
                forall|k1: int, k2: int|
                    0 <= k1 < edges@.len() && 0 <= k2 < edges@.len() && k1 != k2
                        ==> #[trigger] edges@[k1] != #[trigger] edges@[k2],
                n == edges@.len(),
                k <= n,
                self.data@ == pre.data@,
                self.drop_queue@ == pre.drop_queue@,
                self.monotonic_counter == pre.monotonic_counter,
                self.collection_number == pre.collection_number,
                self.trigger == pre.trigger,
                self.heap().handle_ids_unique(),
                forall|hid: u64|
                    #[trigger] self.heap().has_handle(hid) <==> (pre.heap().has_handle(hid) && !(
                    exists|k2: int| 0 <= k2 < k && edges@[k2] == hid)),
                forall|hid: u64|
                    #[trigger] self.heap().has_handle(hid) ==> self.heap().handle_at(hid)
                        == pre.heap().handle_at(hid),
            decreases n - k,
        {
            let ghost cur = *self;
            let e = edges[k];
            proof {
                assert(pre.heap().has_handle(e));
                assert(!(exists|k2: int| 0 <= k2 < k && edges@[k2] == e)) by {
                    if exists|k2: int| 0 <= k2 < k && edges@[k2] == e {
                        let k2 = choose|k2: int| 0 <= k2 < k && edges@[k2] == e;
                        assert(edges@[k2] != edges@[k as int]);
                    }
                }
                assert(cur.heap().has_handle(e));
            }
            let j = self.find_handle_index(e);
            self.handles.remove(j);
            proof {
                let hcur = cur.heap();
                let hnew = self.heap();
                assert(hnew.handles =~= hcur.handles.remove(j as int));
                assert(hcur.handles[j as int].id == e);
                hcur.lemma_handles_remove(hnew, j as int);
                assert forall|hid: u64| #[trigger]
                    hnew.has_handle(hid) <==> (pre.heap().has_handle(hid) && !(exists|k2: int|
                        0 <= k2 < k + 1 && edges@[k2] == hid)) by {
                    if hid == e {
                        assert(!hnew.has_handle(hid));
                        assert(edges@[k as int] == hid);
                        assert((exists|k2: int| 0 <= k2 < k + 1 && edges@[k2] == hid));
                    } else {
                        assert(hnew.has_handle(hid) == hcur.has_handle(hid));
                        assert((exists|k2: int| 0 <= k2 < k + 1 && edges@[k2] == hid) <==> (
                        exists|k2: int| 0 <= k2 < k && edges@[k2] == hid)) by {
                            if exists|k2: int| 0 <= k2 < k + 1 && edges@[k2] == hid {
                                let k2 = choose|k2: int| 0 <= k2 < k + 1 && edges@[k2] == hid;
                                assert(k2 != k);
                            }
                        }
                    }
                }
                assert forall|hid: u64| #[trigger]
                    hnew.has_handle(hid) implies hnew.handle_at(hid) == pre.heap().handle_at(
                    hid,
                ) by {
                    assert(hid != e);
                    assert(hcur.has_handle(hid));
                    assert(hnew.handle_at(hid) == hcur.handle_at(hid));
                }
            }
            k = k + 1;
        }
        proof {
            assert forall|hid: u64| #[trigger]
                self.heap().has_handle(hid) <==> (pre.heap().has_handle(hid) && !edges@.contains(
                    hid,
                )) by {
                assert((exists|k2: int| 0 <= k2 < n && edges@[k2] == hid) <==> edges@.contains(
                    hid,
                ));
            }
        }
    }

    /// Phase 4: sweep.  Every unstamped allocation is removed from the
    /// registry together with the handles its value owns, and its value is
    /// queued for the dropper.
    #[verifier::rlimit(100)]
    #[verifier::spinoff_prover]
    fn sweep(&mut self, c: u64)
        requires
            old(self).heap().wf(),
            old(self).collection_number == c,
        ensures
            final(self).monotonic_counter == old(self).monotonic_counter,
            final(self).collection_number == old(self).collection_number,
            final(self).trigger == old(self).trigger,
            final(self).heap().data_ids_unique(),
            forall|id: u64|
                #[trigger] final(self).heap().has_data(id) <==> (old(self).heap().has_data(id)
                    && old(self).data@[old(self).heap().data_index(id)].last_marked == c),
            forall|id: u64|
                #[trigger] final(self).heap().has_data(id)
                    ==> final(self).data@[final(self).heap().data_index(id)]
                        == old(self).data@[old(self).heap().data_index(id)],
            final(self).heap().handle_ids_unique(),
            forall|hid: u64|
                #[trigger] final(self).heap().has_handle(hid) <==> (old(self).heap().has_handle(hid)
                    && !dead_edge_in_suffix(old(self).heap(), c, 0, hid)),
            forall|hid: u64|
                #[trigger] final(self).heap().has_handle(hid)
                    ==> final(self).handles@[final(self).heap().handle_index(hid)]
                        == old(self).handles@[old(self).heap().handle_index(hid)],
            final(self).drop_queue@.len() >= old(self).drop_queue@.len(),
            final(self).drop_queue@.len() + final(self).data@.len() == old(self).drop_queue@.len()
                + old(self).data@.len(),
            forall|q: int|
                0 <= q < old(self).drop_queue@.len() ==> #[trigger] final(self).drop_queue@[q]
                    == old(self).drop_queue@[q],
            queue_entries_are_dead(
                old(self).data@,
                c,
                0,
                old(self).drop_queue@.len() as int,
                final(self).drop_queue@,
            ),
            dead_have_entries(
                old(self).data@,
                c,
                0,
                old(self).drop_queue@.len() as int,
                final(self).drop_queue@,
            ),
    {
        let ghost pre = *self;
        let ghost h = pre.heap();
        let ghost mut srcs: Seq<int> = Seq::empty();
        let mut remaining: Vec<GcData<T>> = Vec::new();
        std::mem::swap(&mut self.data, &mut remaining);
        proof {
            assert(remaining@ =~= pre.data@.subrange(0, remaining@.len() as int));
            lemma_suffix_empty(h, c);
            lemma_queue_start(pre.data@, c, pre.drop_queue@);
            assert(self.heap().handles =~= h.handles);
            h.lemma_handles_agree(self.heap());
        }
        while remaining.len() > 0
            invariant
                pre == *old(self),
                h == pre.heap(),
                h.wf(),
                pre.collection_number == c,
                remaining@.len() <= pre.data@.len(),
                remaining@ == pre.data@.subrange(0, remaining@.len() as int),
                self.monotonic_counter == pre.monotonic_counter,
                self.collection_number == c,
                self.trigger == pre.trigger,
                srcs.len() == self.data@.len(),
                forall|ii: int|
                    0 <= ii < srcs.len() ==> remaining@.len() <= #[trigger] srcs[ii]
                        < pre.data@.len() && pre.data@[srcs[ii]].last_marked == c
                        && self.data@[ii] == pre.data@[srcs[ii]],
                forall|ii1: int, ii2: int|
                    0 <= ii1 < ii2 < srcs.len() ==> #[trigger] srcs[ii1] > #[trigger] srcs[ii2],
                forall|w: int|
                    remaining@.len() <= w < pre.data@.len() && (
                    #[trigger] pre.data@[w]).last_marked == c ==> srcs.contains(w),
                self.heap().handle_ids_unique(),
                forall|hid: u64|
                    #[trigger] self.heap().has_handle(hid) <==> (h.has_handle(hid)
                        && !dead_edge_in_suffix(h, c, remaining@.len() as int, hid)),
                forall|hid: u64|
                    #[trigger] self.heap().has_handle(hid) ==> self.heap().handle_at(hid)
                        == h.handle_at(hid),
                self.drop_queue@.len() >= pre.drop_queue@.len(),
                self.drop_queue@.len() + remaining@.len() + self.data@.len()
                    == pre.drop_queue@.len() + pre.data@.len(),
                forall|q: int|
                    0 <= q < pre.drop_queue@.len() ==> #[trigger] self.drop_queue@[q]
                        == pre.drop_queue@[q],
                queue_entries_are_dead(
                    pre.data@,
                    c,
                    remaining@.len() as int,
                    pre.drop_queue@.len() as int,
                    self.drop_queue@,
                ),
                dead_have_entries(
                    pre.data@,
                    c,
                    remaining@.len() as int,
                    pre.drop_queue@.len() as int,
                    self.drop_queue@,
                ),
            decreases remaining@.len(),
        {
            let ghost r0 = remaining@.len() as int;
            let d_opt = remaining.pop();
            let d = d_opt.unwrap();
            proof {
                assert(d == pre.data@[r0 - 1]);
                assert(remaining@ =~= pre.data@.subrange(0, r0 - 1));
                assert(h.data[r0 - 1].last_marked == pre.data@[r0 - 1].last_marked);
                assert(h.data[r0 - 1].edges == pre.data@[r0 - 1].edges@);
            }
            if d.last_marked == c {
                let ghost cur = *self;
                let ghost srcs0 = srcs;
                self.data.push(d);
                proof {
                    srcs = srcs.push(r0 - 1);
                    assert(self.data@ == cur.data@.push(pre.data@[r0 - 1]));
                    lemma_srcs_step(pre.data@, c, r0, srcs0, srcs, cur.data@, self.data@);
                    assert(self.heap().handles =~= cur.heap().handles);
                    lemma_handles_keep_step(h, c, r0, cur.heap(), self.heap());
                    lemma_queue_live_step(
                        pre.data@,
                        c,
                        r0,
                        pre.drop_queue@.len() as int,
                        self.drop_queue@,
                    );
                }
            } else {
                proof {
                    lemma_dead_row_edges(h, c, r0, self.heap());
                    assert forall|k: int|
                        0 <= k < d.edges@.len() implies self.heap().has_handle(
                        #[trigger] d.edges@[k],
                    ) by {
                        assert(h.data[r0 - 1].edges[k] == d.edges@[k]);
                    }
                    assert forall|k1: int, k2: int|
                        0 <= k1 < d.edges@.len() && 0 <= k2 < d.edges@.len() && k1 != k2 implies (
                    #[trigger] d.edges@[k1]) != (#[trigger] d.edges@[k2]) by {
                        assert(h.data[r0 - 1].edges[k1] == d.edges@[k1]);
                        assert(h.data[r0 - 1].edges[k2] == d.edges@[k2]);
                    }
                }
                let ghost cur = *self;
                self.remove_owned_handles(&d.edges);
                let ghost mid = *self;
                let GcData { unique_id, value, policy, .. } = d;
                self.drop_queue.push(
                    QueuedDrop { data_id: unique_id, value, policy, deallocated: false },
                );
                proof {
                    assert(self.heap().handles =~= mid.heap().handles);
                    mid.heap().lemma_handles_agree(self.heap());
                    assert forall|hid: u64| #[trigger]
                        self.heap().has_handle(hid) <==> (cur.heap().has_handle(hid) && !h.data[r0
                            - 1].edges.contains(hid)) by {
                        assert(self.heap().has_handle(hid) == mid.heap().has_handle(hid));
                        assert(h.data[r0 - 1].edges.contains(hid) == pre.data@[r0
                            - 1].edges@.contains(hid));
                    }
                    assert forall|hid: u64| #[trigger]
                        self.heap().has_handle(hid) implies self.heap().handle_at(hid)
                        == mid.heap().handle_at(hid) by {
                        assert(mid.heap().has_handle(hid));
                    }
                    lemma_handles_dead_step(h, c, r0, cur.heap(), self.heap());
                    assert(self.drop_queue@ == cur.drop_queue@.push(
                        (QueuedDrop {
                            data_id: pre.data@[r0 - 1].unique_id,
                            value: pre.data@[r0 - 1].value,
                            policy: pre.data@[r0 - 1].policy,
                            deallocated: false,
                        }),
                    ));
                    lemma_queue_dead_step(
                        pre.data@,
                        c,
                        r0,
                        pre.drop_queue@.len() as int,
                        cur.drop_queue@,
                        self.drop_queue@,
                    );
                    assert forall|q: int|
                        0 <= q < pre.drop_queue@.len() implies #[trigger] self.drop_queue@[q]
                        == pre.drop_queue@[q] by {
                        vstd::seq::lemma_seq_push_index_different_alt(
                            cur.drop_queue@,
                            (QueuedDrop {
                                data_id: pre.data@[r0 - 1].unique_id,
                                value: pre.data@[r0 - 1].value,
                                policy: pre.data@[r0 - 1].policy,
                                deallocated: false,
                            }),
                            q,
                        );
                        assert(self.drop_queue@[q] == cur.drop_queue@[q]);
                    }
                }
            }
        }
        proof {
            self.lemma_sweep_finish(pre, c, srcs);
        }
    }

    /// After the sweep loop: translate the loop's bookkeeping into the
    /// per-id characterization of the surviving registry.
    #[verifier::rlimit(100)]
    #[verifier::spinoff_prover]
    proof fn lemma_sweep_finish(self, pre: Collector<T>, c: u64, srcs: Seq<int>)
        requires
            pre.heap().wf(),
            srcs.len() == self.data@.len(),
            forall|ii: int|
                0 <= ii < srcs.len() ==> 0 <= #[trigger] srcs[ii] < pre.data@.len()
                    && pre.data@[srcs[ii]].last_marked == c && self.data@[ii]
                    == pre.data@[srcs[ii]],
            forall|ii1: int, ii2: int|
                0 <= ii1 < ii2 < srcs.len() ==> #[trigger] srcs[ii1] > #[trigger] srcs[ii2],
            forall|w: int|
                0 <= w < pre.data@.len() && (#[trigger] pre.data@[w]).last_marked == c
                    ==> srcs.contains(w),
            self.heap().handle_ids_unique(),
            forall|hid: u64|
                #[trigger] self.heap().has_handle(hid) <==> (pre.heap().has_handle(hid)
                    && !dead_edge_in_suffix(pre.heap(), c, 0, hid)),
            forall|hid: u64|
                #[trigger] self.heap().has_handle(hid) ==> self.heap().handle_at(hid)
                    == pre.heap().handle_at(hid),
        ensures
            self.heap().data_ids_unique(),
            forall|id: u64|
                #[trigger] self.heap().has_data(id) <==> (pre.heap().has_data(id)
                    && pre.data@[pre.heap().data_index(id)].last_marked == c),
            forall|id: u64|
                #[trigger] self.heap().has_data(id) ==> self.data@[self.heap().data_index(id)]
                    == pre.data@[pre.heap().data_index(id)],
            forall|hid: u64|
                #[trigger] self.heap().has_handle(hid)
                    ==> self.handles@[self.heap().handle_index(hid)]
                        == pre.handles@[pre.heap().handle_index(hid)],
    {
        let h = pre.heap();
        let hf = self.heap();
        assert forall|w1: int, w2: int|
            0 <= w1 < pre.data@.len() && 0 <= w2 < pre.data@.len() && w1 != w2 implies (
        #[trigger] pre.data@[w1]).unique_id != (#[trigger] pre.data@[w2]).unique_id by {
            assert(h.data[w1].id == pre.data@[w1].unique_id);
            assert(h.data[w2].id == pre.data@[w2].unique_id);
            assert(h.data_ids_unique());
        }
        assert(hf.data_ids_unique()) by {
            assert forall|i1: int, i2: int|
                0 <= i1 < hf.data.len() && 0 <= i2 < hf.data.len() && i1 != i2 implies (
            #[trigger] hf.data[i1]).id != (#[trigger] hf.data[i2]).id by {
                assert(srcs[i1] != srcs[i2]) by {
                    if i1 < i2 {
                        assert(srcs[i1] > srcs[i2]);
                    } else {
                        assert(srcs[i2] > srcs[i1]);
                    }
                }
                assert(hf.data[i1].id == pre.data@[srcs[i1]].unique_id);
                assert(hf.data[i2].id == pre.data@[srcs[i2]].unique_id);
            }
        }
        assert forall|id: u64| #[trigger]
            hf.has_data(id) <==> (h.has_data(id) && pre.data@[h.data_index(id)].last_marked
                == c) by {
            if hf.has_data(id) {
                hf.lemma_data_index_works(id);
                let ii = hf.data_index(id);
                assert(self.data@[ii].unique_id == id);
                let w = srcs[ii];
                assert(h.data[w].id == id);
                assert(h.has_data(id));
                h.lemma_data_index_of(w);
                assert(h.data_index(id) == w);
                assert(pre.data@[w].last_marked == c);
            }
            if h.has_data(id) && pre.data@[h.data_index(id)].last_marked == c {
                h.lemma_data_index_works(id);
                let w = h.data_index(id);
                assert(pre.data@[w].unique_id == id);
                assert(pre.data@[w].last_marked == c);
                assert(srcs.contains(w));
                let ii = choose|ii: int| 0 <= ii < srcs.len() && #[trigger] srcs[ii] == w;
                assert(self.data@[ii] == pre.data@[w]);
                assert(hf.data[ii].id == id);
                assert(hf.has_data(id));
            }
        }
        assert forall|id: u64| #[trigger] hf.has_data(id) implies self.data@[hf.data_index(id)]
            == pre.data@[h.data_index(id)] by {
            hf.lemma_data_index_works(id);
            let ii = hf.data_index(id);
            let w = srcs[ii];
            assert(self.data@[ii] == pre.data@[w]);
            assert(h.data[w].id == id);
            h.lemma_data_index_of(w);
            assert(h.data_index(id) == w);
        }
        assert forall|hid: u64| #[trigger] hf.has_handle(hid) implies self.handles@[hf.handle_index(
            hid,
        )] == pre.handles@[h.handle_index(hid)] by {
            assert(hf.handle_at(hid) == h.handle_at(hid));
            hf.lemma_handle_index_works(hid);
            h.lemma_handle_index_works(hid);
            let j1 = hf.handle_index(hid);
            let j0 = h.handle_index(hid);
            assert(hf.handles[j1] == HandleView {
                id: self.handles@[j1].unique_id,
                data_id: self.handles@[j1].data_id,
                last_non_rooted: self.handles@[j1].last_non_rooted,
            });
            assert(self.handles@[j1].unique_id == pre.handles@[j0].unique_id);
            assert(self.handles@[j1].data_id == pre.handles@[j0].data_id);
            assert(self.handles@[j1].last_non_rooted == pre.handles@[j0].last_non_rooted);
        }
    }

    /// Phase 2: gather the roots, i.e. every handle that phase 1 did not
    /// stamp as non-rooted.
    fn collect_roots(&self, c: u64) -> (roots: Vec<u64>)
        requires
            forall|j: int|
                0 <= j < self.handles@.len() ==> (((#[trigger] self.handles@[j]).last_non_rooted
                    == c) == self.heap().observed_non_rooted(self.handles@[j].unique_id)),
        ensures
            forall|idx: int|
                0 <= idx < roots@.len() ==> self.heap().is_root(#[trigger] roots@[idx]),
            forall|j: int|
                0 <= j < self.handles@.len() && self.heap().is_root(
                    (#[trigger] self.handles@[j]).unique_id,
                ) ==> roots@.contains(self.handles@[j].unique_id),
    {
        let n = self.handles.len();
        let mut roots: Vec<u64> = Vec::new();
        let mut j: usize = 0;
        while j < n
            invariant
                forall|j2: int|
                    0 <= j2 < self.handles@.len() ==> (((#[trigger] self.handles@[j2]).last_non_rooted
                        == c) == self.heap().observed_non_rooted(self.handles@[j2].unique_id)),
                n == self.handles@.len(),
                j <= n,
                forall|idx: int|
                    0 <= idx < roots@.len() ==> self.heap().is_root(#[trigger] roots@[idx]),
                forall|j2: int|
                    0 <= j2 < j && self.heap().is_root((#[trigger] self.handles@[j2]).unique_id)
                        ==> roots@.contains(self.handles@[j2].unique_id),
            decreases n - j,
        {
            let ghost roots0 = roots@;
            if self.handles[j].last_non_rooted != c {
                proof {
                    assert(self.heap().handles[j as int].id == self.handles@[j as int].unique_id);
                    assert(self.heap().has_handle(self.handles@[j as int].unique_id));
                }
                roots.push(self.handles[j].unique_id);
                proof {
                    assert forall|idx: int| 0 <= idx < roots@.len() implies self.heap().is_root(
                        #[trigger] roots@[idx],
                    ) by {
                        if idx < roots0.len() {
                            assert(roots@[idx] == roots0[idx]);
                        }
                    }
                    assert forall|j2: int|
                        0 <= j2 < j + 1 && self.heap().is_root(
                            (#[trigger] self.handles@[j2]).unique_id,
                        ) implies roots@.contains(self.handles@[j2].unique_id) by {
                        if j2 < j {
                            assert(roots0.contains(self.handles@[j2].unique_id));
                            let w = choose|w: int|
                                0 <= w < roots0.len() && roots0[w] == self.handles@[j2].unique_id;
                            assert(roots@[w] == self.handles@[j2].unique_id);
                        } else {
                            assert(roots@[roots@.len() - 1] == self.handles@[j as int].unique_id);
                        }
                    }
                }
            } else {
                proof {
                    assert forall|j2: int|
                        0 <= j2 < j + 1 && self.heap().is_root(
                            (#[trigger] self.handles@[j2]).unique_id,
                        ) implies roots@.contains(self.handles@[j2].unique_id) by {
                        if j2 == j {
                            assert(self.heap().observed_non_rooted(
                                self.handles@[j as int].unique_id,
                            ));
                            assert(!self.heap().is_root(self.handles@[j as int].unique_id));
                        }
                    }
                }
            }
            j = j + 1;
        }
        roots
    }

    /// What a collection pass guarantees: the collection number advances,
    /// exactly the allocations that were live (in use, or reachable from a
    /// root through scannable values) survive with their contents intact and
    /// a fresh mark stamp, exactly the handles owned by dead allocations are
    /// unregistered, one destruction-queue entry is added per reclaimed
    /// allocation, and the trigger baseline becomes the survivor count.
    pub open spec fn collect_post(pre: Collector<T>, post: Collector<T>) -> bool {
        &&& post.wf()
        &&& post.collection_number == pre.collection_number + 1
        &&& post.monotonic_counter == pre.monotonic_counter
        &&& post.trigger.trigger_percent_hundredths == pre.trigger.trigger_percent_hundredths
        &&& post.trigger.data_count_at_last_collection == post.data@.len()
        &&& forall|id: u64|
            #[trigger] post.heap().has_data(id) <==> (pre.heap().has_data(id) && pre.heap().lives(
                id,
            ))
        &&& forall|id: u64|
            #[trigger] post.heap().has_data(id) ==> {
                let dn = post.data@[post.heap().data_index(id)];
                let d0 = pre.data@[pre.heap().data_index(id)];
                dn.unique_id == d0.unique_id && dn.value == d0.value && dn.edges@ == d0.edges@
                    && dn.lockout == d0.lockout && dn.policy == d0.policy && dn.last_marked == (
                pre.collection_number + 1) as u64
            }
        &&& forall|hid: u64|
            #[trigger] post.heap().has_handle(hid) <==> (pre.heap().has_handle(hid)
                && !pre.heap().dead_edge(hid))
        &&& forall|hid: u64|
            #[trigger] post.heap().has_handle(hid) ==> post.handles@[post.heap().handle_index(hid)]
                == (GcHandle {
                last_non_rooted: if pre.heap().observed_non_rooted(hid) {
                    (pre.collection_number + 1) as u64
                } else {
                    pre.heap().handle_at(hid).last_non_rooted
                },
                ..pre.handles@[pre.heap().handle_index(hid)]
            })
        &&& post.drop_queue@.len() + post.data@.len() == pre.drop_queue@.len() + pre.data@.len()
        &&& forall|q: int|
            0 <= q < pre.drop_queue@.len() ==> #[trigger] post.drop_queue@[q]
                == pre.drop_queue@[q]
        &&& queued_are_reclaimed(pre, post)
        &&& reclaimed_are_queued(pre, post)
    }

    /// Run a full collection pass: in-use detection, root inference,
    /// depth-first mark, sweep, trigger update.
    #[verifier::rlimit(100)]
    #[verifier::spinoff_prover]
    pub fn collect(&mut self)
        requires
            old(self).wf(),
            old(self).collection_number < u64::MAX,
        ensures
            Self::collect_post(*old(self), *final(self)),
    {
        let ghost pre0 = *self;
        let ghost h0 = pre0.heap();
        self.collection_number = self.collection_number + 1;
        let c = self.collection_number;
        let ghost pre1 = *self;
        proof {
            lemma_wf_stamps_only(h0, pre1.heap());
            assert forall|i: int|
                0 <= i < self.data@.len() implies (#[trigger] self.data@[i]).last_marked < c by {
                assert(h0.data[i].last_marked == pre0.data@[i].last_marked);
                assert(h0.data[i].last_marked <= h0.collection_number);
            }
            assert forall|j: int|
                0 <= j < self.handles@.len() implies (
            #[trigger] self.handles@[j]).last_non_rooted < c by {
                assert(h0.handles[j].last_non_rooted == pre0.handles@[j].last_non_rooted);
                assert(h0.handles[j].last_non_rooted <= h0.collection_number);
            }
        }
        self.mark_in_use(c);
        let ghost pre2 = *self;
        proof {
            lemma_wf_stamps_only(h0, pre2.heap());
            h0.lemma_lives_congruent(pre2.heap());
            assert forall|j: int|
                0 <= j < self.handles@.len() implies (((#[trigger] self.handles@[j]).last_non_rooted
                == c) == self.heap().observed_non_rooted(self.handles@[j].unique_id)) by {
                assert(pre1.handles@[j] == pre0.handles@[j]);
                assert(h0.handles[j].last_non_rooted == pre0.handles@[j].last_non_rooted);
                assert(h0.handles[j].last_non_rooted <= h0.collection_number);
                assert(pre1.handles@[j].last_non_rooted < c);
                assert(pre1.heap().handles[j].last_non_rooted == pre1.handles@[j].last_non_rooted);
                assert(h0.handles[j] == pre1.heap().handles[j]);
                assert(self.handles@[j].last_non_rooted == (if pre1.heap().observed_non_rooted(
                    pre1.handles@[j].unique_id,
                ) {
                    c
                } else {
                    pre1.handles@[j].last_non_rooted
                }));
                assert(pre1.heap().observed_non_rooted(pre1.handles@[j].unique_id)
                    == h0.observed_non_rooted(pre1.handles@[j].unique_id)) by {
                    h0.lemma_lives_congruent(pre1.heap());
                }
                assert(h0.observed_non_rooted(self.handles@[j].unique_id)
                    == pre2.heap().observed_non_rooted(self.handles@[j].unique_id));
            }
        }
        let roots = self.collect_roots(c);
        let ghost pre3 = *self;
        proof {
            assert forall|i: int|
                0 <= i < self.data@.len() implies (((#[trigger] self.data@[i]).last_marked == c)
                == (self.data@[i].lockout.shared_count > 0)) by {
                assert(pre1.data@[i] == pre0.data@[i]);
                assert(h0.data[i].last_marked == pre0.data@[i].last_marked);
                assert(h0.data[i].last_marked <= h0.collection_number);
                assert(pre1.data@[i].last_marked < c);
            }
        }
        self.mark_reachable(roots, c);
        let ghost pre4 = *self;
        proof {
            lemma_wf_stamps_only(h0, pre4.heap());
        }
        self.sweep(c);
        let n = self.data.len();
        self.trigger.set_data_count_after_collection(n);
        proof {
            let ghost h4 = pre4.heap();
            let ghost hf = self.heap();
            h0.lemma_lives_congruent(h4);
            h0.lemma_lives_congruent(pre3.heap());
            // the mark stamps at the sweep's entry captured liveness exactly
            assert forall|i: int|
                0 <= i < pre4.data@.len() implies (((#[trigger] pre4.data@[i]).last_marked == c)
                == h4.lives(pre4.data@[i].unique_id)) by {
                assert((pre4.data@[i].last_marked == c) == pre3.heap().lives(
                    pre3.data@[i].unique_id,
                ));
                assert(pre3.heap().lives(pre3.data@[i].unique_id) == h0.lives(
                    pre3.data@[i].unique_id,
                ));
                assert(h0.lives(pre4.data@[i].unique_id) == h4.lives(pre4.data@[i].unique_id));
            }
            assert forall|i: int|
                0 <= i < h4.data.len() implies (((#[trigger] h4.data[i]).last_marked == c)
                == h4.lives(h4.data[i].id)) by {
                assert(h4.data[i].last_marked == pre4.data@[i].last_marked);
                assert(h4.data[i].id == pre4.data@[i].unique_id);
            }
            lemma_suffix_zero_is_dead_edge(h4, c);
            // data membership and records
            assert forall|id: u64| #[trigger]
                hf.has_data(id) <==> (h0.has_data(id) && h0.lives(id)) by {
                assert(hf.has_data(id) == (h4.has_data(id) && pre4.data@[h4.data_index(
                    id,
                )].last_marked == c));
                if h4.has_data(id) {
                    h4.lemma_data_index_works(id);
                    let w = h4.data_index(id);
                    assert((pre4.data@[w].last_marked == c) == h4.lives(pre4.data@[w].unique_id));
                    assert(pre4.data@[w].unique_id == h4.data[w].id);
                }
            }
            assert forall|id: u64| #[trigger] hf.has_data(id) implies {
                let dn = self.data@[hf.data_index(id)];
                let d0 = pre0.data@[h0.data_index(id)];
                dn.unique_id == d0.unique_id && dn.value == d0.value && dn.edges@ == d0.edges@
                    && dn.lockout == d0.lockout && dn.policy == d0.policy && dn.last_marked == c
            } by {
                assert(self.data@[hf.data_index(id)] == pre4.data@[h4.data_index(id)]);
                assert(h4.data_index(id) == h0.data_index(id));
                let w = h0.data_index(id);
                h0.lemma_data_index_works(id);
                assert(pre4.data@[w].unique_id == pre0.data@[w].unique_id);
                assert(pre4.data@[w].value == pre0.data@[w].value);
                assert(pre4.data@[w].edges@ == pre0.data@[w].edges@);
                assert(pre4.data@[w].lockout == pre0.data@[w].lockout);
                assert(pre4.data@[w].policy == pre0.data@[w].policy);
                assert(pre4.data@[w].last_marked == c) by {
                    assert(hf.has_data(id));
                    assert(h4.has_data(id) && pre4.data@[h4.data_index(id)].last_marked == c);
                }
            }
            // handle membership and records
            assert forall|hid: u64| #[trigger]
                hf.has_handle(hid) <==> (h0.has_handle(hid) && !h0.dead_edge(hid)) by {
                assert(hf.has_handle(hid) == (h4.has_handle(hid) && !dead_edge_in_suffix(
                    h4,
                    c,
                    0,
                    hid,
                )));
                assert(dead_edge_in_suffix(h4, c, 0, hid) == h4.dead_edge(hid));
                assert(h4.dead_edge(hid) == h0.dead_edge(hid));
                assert(h4.has_handle(hid) == h0.has_handle(hid));
            }
            assert forall|hid: u64| #[trigger] hf.has_handle(hid) implies self.handles@[hf.handle_index(
                hid,
            )] == (GcHandle {
                last_non_rooted: if h0.observed_non_rooted(hid) {
                    c
                } else {
                    h0.handle_at(hid).last_non_rooted
                },
                ..pre0.handles@[h0.handle_index(hid)]
            }) by {
                assert(self.handles@[hf.handle_index(hid)] == pre4.handles@[h4.handle_index(hid)]);
                assert(h4.handle_index(hid) == h0.handle_index(hid));
                let j = h0.handle_index(hid);
                h0.lemma_handle_index_works(hid);
                assert(pre4.handles@[j] == pre2.handles@[j]);
                assert(pre2.handles@[j].unique_id == pre1.handles@[j].unique_id);
                assert(pre2.handles@[j].data_id == pre1.handles@[j].data_id);
                assert(pre1.handles@[j].unique_id == hid);
                assert(pre2.handles@[j].last_non_rooted == (
                if pre1.heap().observed_non_rooted(hid) {
                    c
                } else {
                    pre1.handles@[j].last_non_rooted
                }));
                assert(pre1.heap().observed_non_rooted(hid) == h0.observed_non_rooted(hid)) by {
                    h0.lemma_lives_congruent(pre1.heap());
                }
                assert(h0.handle_at(hid) == h0.handles[j]);
                assert(h0.handles[j].last_non_rooted == pre0.handles@[j].last_non_rooted);
            }
            // well-formedness of the surviving registry
            self.lemma_collect_wf(pre0, c);
            // queue entries correspond to the reclaimed allocations
            assert(pre4.drop_queue@ == pre0.drop_queue@);
            assert forall|w: int|
                0 <= w < pre0.data@.len() implies (#[trigger] pre4.data@[w]).unique_id
                == pre0.data@[w].unique_id && pre4.data@[w].value == pre0.data@[w].value
                && pre4.data@[w].policy == pre0.data@[w].policy && ((pre4.data@[w].last_marked
                == c) == pre0.heap().lives(pre0.data@[w].unique_id)) by {
                assert(pre1.data@[w] == pre0.data@[w]);
                assert(pre2.data@[w].unique_id == pre1.data@[w].unique_id);
                assert(pre2.data@[w].value == pre1.data@[w].value);
                assert(pre2.data@[w].policy == pre1.data@[w].policy);
                assert(pre4.data@[w].unique_id == pre2.data@[w].unique_id);
                assert(pre4.data@[w].value == pre2.data@[w].value);
                assert(pre4.data@[w].policy == pre2.data@[w].policy);
                assert((pre4.data@[w].last_marked == c) == h4.lives(pre4.data@[w].unique_id));
                assert(h4.lives(pre4.data@[w].unique_id) == h0.lives(pre4.data@[w].unique_id));
            }
            lemma_lift_queued_are_reclaimed(pre0, pre4, *self, c);
            lemma_lift_reclaimed_are_queued(pre0, pre4, *self, c);
            assert(Self::collect_post(pre0, *self));
        }
    }

    /// The surviving registry is well formed: every kept handle references a
    /// kept allocation, every kept allocation's edges are kept handles, and
    /// ids, uniqueness, stamp bounds and freshness carry over.
    #[verifier::rlimit(100)]
    #[verifier::spinoff_prover]
    proof fn lemma_collect_wf(self, pre0: Collector<T>, c: u64)
        requires
            pre0.wf(),
            pre0.collection_number < u64::MAX,
            c == pre0.collection_number + 1,
            self.collection_number == c,
            self.monotonic_counter == pre0.monotonic_counter,
            self.trigger.trigger_percent_hundredths == pre0.trigger.trigger_percent_hundredths,
            self.trigger.data_count_at_last_collection == self.data@.len(),
            self.heap().data_ids_unique(),
            self.heap().handle_ids_unique(),
            forall|id: u64|
                #[trigger] self.heap().has_data(id) <==> (pre0.heap().has_data(id)
                    && pre0.heap().lives(id)),
            forall|id: u64|
                #[trigger] self.heap().has_data(id) ==> {
                    let dn = self.data@[self.heap().data_index(id)];
                    let d0 = pre0.data@[pre0.heap().data_index(id)];
                    dn.unique_id == d0.unique_id && dn.value == d0.value && dn.edges@ == d0.edges@
                        && dn.lockout == d0.lockout && dn.policy == d0.policy && dn.last_marked
                        == c
                },
            forall|hid: u64|
                #[trigger] self.heap().has_handle(hid) <==> (pre0.heap().has_handle(hid)
                    && !pre0.heap().dead_edge(hid)),
            forall|hid: u64|
                #[trigger] self.heap().has_handle(hid)
                    ==> self.handles@[self.heap().handle_index(hid)] == (GcHandle {
                    last_non_rooted: if pre0.heap().observed_non_rooted(hid) {
                        c
                    } else {
                        pre0.heap().handle_at(hid).last_non_rooted
                    },
                    ..pre0.handles@[pre0.heap().handle_index(hid)]
                }),
        ensures
            self.wf(),
    {
        let h0 = pre0.heap();
        let hf = self.heap();
        assert forall|j: int| 0 <= j < hf.handles.len() implies hf.has_data(
            (#[trigger] hf.handles[j]).data_id,
        ) by {
            let hid = hf.handles[j].id;
            assert(hf.handles[j].id == self.handles@[j].unique_id);
            assert(hf.has_handle(hid));
            hf.lemma_handle_index_works(hid);
            hf.lemma_handle_index_of(j);
            assert(hf.handle_index(hid) == j);
            assert(h0.has_handle(hid) && !h0.dead_edge(hid));
            h0.lemma_handle_index_works(hid);
            let j0 = h0.handle_index(hid);
            assert(self.handles@[j].data_id == pre0.handles@[j0].data_id);
            assert forall|i: int, k: int|
                0 <= i < h0.data.len() && !h0.lives(h0.data[i].id) && 0 <= k
                    < h0.data[i].edges.len() implies #[trigger] h0.data[i].edges[k]
                != h0.handles[j0].id by {
                if h0.data[i].edges[k] == h0.handles[j0].id {
                    assert(h0.dead_edge(hid));
                }
            }
            h0.lemma_kept_handle_target_lives(j0);
            assert(h0.lives(h0.handles[j0].data_id));
            assert(h0.has_data(h0.handles[j0].data_id));
            assert(h0.handles[j0].data_id == pre0.handles@[j0].data_id);
            assert(hf.has_data(self.handles@[j].data_id));
            assert(hf.handles[j].data_id == self.handles@[j].data_id);
        }
        assert forall|i: int, k: int|
            0 <= i < hf.data.len() && 0 <= k < hf.data[i].edges.len() implies hf.has_handle(
            #[trigger] hf.data[i].edges[k],
        ) by {
            let id = hf.data[i].id;
            assert(hf.data[i].id == self.data@[i].unique_id);
            assert(hf.has_data(id));
            hf.lemma_data_index_works(id);
            hf.lemma_data_index_of(i);
            assert(hf.data_index(id) == i);
            assert(h0.has_data(id) && h0.lives(id));
            h0.lemma_data_index_works(id);
            let w = h0.data_index(id);
            assert(self.data@[i].edges@ == pre0.data@[w].edges@);
            assert(hf.data[i].edges == pre0.data@[w].edges@);
            assert(h0.data[w].edges == pre0.data@[w].edges@);
            let e = h0.data[w].edges[k];
            assert(h0.has_handle(e));
            assert(!h0.dead_edge(e)) by {
                if h0.dead_edge(e) {
                    let (i2, k2): (int, int) = choose|i2: int, k2: int|
                        0 <= i2 < h0.data.len() && !h0.lives(h0.data[i2].id) && 0 <= k2
                            < h0.data[i2].edges.len() && #[trigger] h0.data[i2].edges[k2] == e;
                    assert(h0.edges_unique());
                    assert(i2 == w && k2 == k) by {
                        if i2 != w || k2 != k {
                            assert(h0.data[i2].edges[k2] != h0.data[w].edges[k]);
                        }
                    }
                    assert(!h0.lives(h0.data[w].id));
                }
            }
            assert(hf.has_handle(e));
        }
        assert(hf.edges_unique()) by {
            assert forall|i1: int, k1: int, i2: int, k2: int|
                0 <= i1 < hf.data.len() && 0 <= k1 < hf.data[i1].edges.len() && 0 <= i2
                    < hf.data.len() && 0 <= k2 < hf.data[i2].edges.len() && (i1 != i2 || k1 != k2)
                 implies (#[trigger] hf.data[i1].edges[k1]) != (
            #[trigger] hf.data[i2].edges[k2]) by {
                let id1 = hf.data[i1].id;
                let id2 = hf.data[i2].id;
                hf.lemma_data_index_of(i1);
                hf.lemma_data_index_of(i2);
                assert(hf.has_data(id1) && hf.has_data(id2));
                h0.lemma_data_index_works(id1);
                h0.lemma_data_index_works(id2);
                let w1 = h0.data_index(id1);
                let w2 = h0.data_index(id2);
                assert(hf.data[i1].edges == h0.data[w1].edges);
                assert(hf.data[i2].edges == h0.data[w2].edges);
                assert(i1 != i2 ==> id1 != id2);
                assert(i1 != i2 ==> w1 != w2) by {
                    if i1 != i2 && w1 == w2 {
                        assert(h0.data[w1].id == id1);
                        assert(h0.data[w2].id == id2);
                    }
                }
                assert(h0.edges_unique());
                assert(h0.data[w1].edges[k1] != h0.data[w2].edges[k2]);
            }
        }
        assert(hf.stamps_bounded()) by {
            assert forall|i: int| 0 <= i < hf.data.len() implies (#[trigger] hf.data[i]).last_marked
                <= hf.collection_number by {
                hf.lemma_data_index_of(i);
                assert(self.data@[i].last_marked == c);
            }
            assert forall|j: int|
                0 <= j < hf.handles.len() implies (#[trigger] hf.handles[j]).last_non_rooted
                <= hf.collection_number by {
                hf.lemma_handle_index_of(j);
                let hid = hf.handles[j].id;
                h0.lemma_handle_index_works(hid);
                let j0 = h0.handle_index(hid);
                assert(h0.handles[j0].last_non_rooted == pre0.handles@[j0].last_non_rooted);
                assert(pre0.handles@[j0].last_non_rooted <= pre0.collection_number);
            }
        }
        assert(self.ids_fresh()) by {
            assert forall|i: int|
                0 <= i < self.data@.len() implies (#[trigger] self.data@[i]).unique_id
                < self.monotonic_counter by {
                hf.lemma_data_index_of(i);
                let id = hf.data[i].id;
                h0.lemma_data_index_works(id);
                let w = h0.data_index(id);
                assert(self.data@[i].unique_id == pre0.data@[w].unique_id);
                assert(pre0.data@[w].unique_id < pre0.monotonic_counter);
            }
            assert forall|j: int|
                0 <= j < self.handles@.len() implies (#[trigger] self.handles@[j]).unique_id
                < self.monotonic_counter by {
                hf.lemma_handle_index_of(j);
                let hid = hf.handles[j].id;
                h0.lemma_handle_index_works(hid);
                let j0 = h0.handle_index(hid);
                assert(self.handles@[j].unique_id == pre0.handles@[j0].unique_id);
                assert(pre0.handles@[j0].unique_id < pre0.monotonic_counter);
            }
        }
    }

    /// Consult the trigger, and run a collection only if it is indicated.
    /// Returns whether a collection ran.
    pub fn check_then_collect(&mut self) -> (r: bool)
        requires
            old(self).wf(),
            old(self).collection_number < u64::MAX,
        ensures
            r == old(self).trigger.should_collect_spec(old(self).data@.len() as int),
            r ==> Self::collect_post(*old(self), *final(self)),
            !r ==> *final(self) == *old(self),
    {
        if self.trigger.should_collect(self.data.len()) {
            self.collect();
            true
        } else {
            false
        }
    }
}

} // verus!

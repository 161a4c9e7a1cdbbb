//! The tracked-object registry and the handle lifecycle.
//!
//! The collector owns every tracked value together with its bookkeeping: the
//! allocation records, the handles that reference them, the queue of
//! reclaimed allocations awaiting destruction, and the collection trigger.
//! Mutators allocate with [`Collector::track_data`], duplicate handles with
//! [`Collector::clone_handle`], give them up with [`Collector::drop_handle`],
//! and read values under a shared warrant.  A collection pass
//! (see the marking module) reclaims every allocation that no root can
//! reach.

use vstd::prelude::*;

use crate::heap::{AllocView, HandleView, HeapView};
use crate::lockout::Lockout;
use crate::trigger::Trigger;

verus! {

/// What the background dropper does to a reclaimed value: run its
/// destructor, run its finalizer instead, or leave it untouched.
#[derive(Clone, Copy, PartialEq, Eq, Debug, Structural)]
pub enum DestructionPolicy {
    RunDestructor,
    RunFinalizer,
    NoOp,
}

/// One tracked allocation: the owned value, the handle ids its value owns
/// (what its traversal yields), its lockout, and its mark stamp.
pub struct GcData<T> {
    pub unique_id: u64,
    pub value: T,
    pub edges: Vec<u64>,
    pub lockout: Lockout,
    pub last_marked: u64,
    pub policy: DestructionPolicy,
}

/// One outstanding reference to an allocation, either held by a mutator or
/// owned by a tracked value.
#[derive(Clone, Copy, PartialEq, Eq, Debug)]
pub struct GcHandle {
    pub unique_id: u64,
    pub data_id: u64,
    pub last_non_rooted: u64,
}

/// A reference to a registered handle, as a mutator holds it.
#[derive(Clone, Copy, PartialEq, Eq, Hash, Debug, Structural)]
pub struct InternalGcRef {
    pub handle_id: u64,
}

impl InternalGcRef {
    pub fn new(handle_id: u64) -> (r: InternalGcRef)
        ensures
            r.handle_id == handle_id,
    {
        InternalGcRef { handle_id }
    }
}

/// A shared warrant on an allocation's content, held while a mutator reads
/// the value.  Give it back with [`Collector::release_warrant`].
#[derive(Debug)]
pub struct Warrant {
    pub data_id: u64,
}

/// A reclaimed allocation sitting in the dropper's queue.  `deallocated` is
/// set when the queue entry is processed, strictly before the destruction
/// effect is carried out.
pub struct QueuedDrop<T> {
    pub data_id: u64,
    pub value: T,
    pub policy: DestructionPolicy,
    pub deallocated: bool,
}

/// The collector: registry, destruction queue, trigger, and the shared
/// monotonic id counter.
pub struct Collector<T> {
    pub monotonic_counter: u64,
    pub collection_number: u64,
    pub data: Vec<GcData<T>>,
    pub handles: Vec<GcHandle>,
    pub drop_queue: Vec<QueuedDrop<T>>,
    pub trigger: Trigger,
}

impl<T> Collector<T> {
    /// Ghost image of the registry, over which roots and reachability are
    /// defined.
    pub open spec fn heap(self) -> HeapView {
        HeapView {
            collection_number: self.collection_number,
            data: Seq::new(
                self.data@.len(),
                |i: int|
                    AllocView {
                        id: self.data@[i].unique_id,
                        edges: self.data@[i].edges@,
                        shared_warrants: self.data@[i].lockout.shared_count,
                        last_marked: self.data@[i].last_marked,
                    },
            ),
            handles: Seq::new(
                self.handles@.len(),
                |j: int|
                    HandleView {
                        id: self.handles@[j].unique_id,
                        data_id: self.handles@[j].data_id,
                        last_non_rooted: self.handles@[j].last_non_rooted,
                    },
            ),
        }
    }

    /// Every id ever handed out is below the monotonic counter, so fresh ids
    /// never collide.
    pub open spec fn ids_fresh(self) -> bool {
        (forall|i: int|
            0 <= i < self.data@.len()
                ==> (#[trigger] self.data@[i]).unique_id < self.monotonic_counter)
            && (forall|j: int|
            0 <= j < self.handles@.len()
                ==> (#[trigger] self.handles@[j]).unique_id < self.monotonic_counter)
    }

    pub open spec fn wf(self) -> bool {
        &&& self.heap().wf()
        &&& self.trigger.wf()
        &&& self.ids_fresh()
    }

    /// Index of the allocation referenced by handle `hid`.
    pub open spec fn target_index(self, hid: u64) -> int {
        self.heap().data_index(self.heap().handle_at(hid).data_id)
    }

    pub fn new() -> (c: Collector<T>)
        ensures
            c.wf(),
            c.monotonic_counter == 1,
            c.collection_number == 1,
            c.data@.len() == 0,
            c.handles@.len() == 0,
            c.drop_queue@.len() == 0,
            c.trigger == (Trigger {
                trigger_percent_hundredths: crate::trigger::DEFAULT_TRIGGER_PERCENT_HUNDREDTHS,
                data_count_at_last_collection: 0,
            }),
    {
        Collector {
            monotonic_counter: 1,
            collection_number: 1,
            data: Vec::new(),
            handles: Vec::new(),
            drop_queue: Vec::new(),
            trigger: Trigger::new(),
        }
    }

    /// Linear search for the registered handle with id `hid`.
    pub fn find_handle_index(&self, hid: u64) -> (j: usize)
        requires
            self.heap().handle_ids_unique(),
            self.heap().has_handle(hid),
        ensures
            j < self.handles@.len(),
            self.handles@[j as int].unique_id == hid,
            j as int == self.heap().handle_index(hid),
    {
        let n = self.handles.len();
        let mut j: usize = 0;
        while j < n
            invariant
                n == self.handles@.len(),
                j <= n,
                forall|jj: int| 0 <= jj < j ==> (#[trigger] self.handles@[jj]).unique_id != hid,
                self.heap().has_handle(hid),
                self.heap().handle_ids_unique(),
            decreases n - j,
        {
            if self.handles[j].unique_id == hid {
                proof {
                    self.heap().lemma_handle_index_of(j as int);
                }
                return j;
            }
            j = j + 1;
        }
        proof {
            let w = self.heap().handle_index(hid);
            self.heap().lemma_handle_index_works(hid);
            assert(self.handles@[w].unique_id == hid);
            assert(false);
        }
        0
    }

    /// Linear search for the allocation record with id `id`.
    pub fn find_data_index(&self, id: u64) -> (i: usize)
        requires
            self.heap().data_ids_unique(),
            self.heap().has_data(id),
        ensures
            i < self.data@.len(),
            self.data@[i as int].unique_id == id,
            i as int == self.heap().data_index(id),
    {
        let n = self.data.len();
        let mut i: usize = 0;
        while i < n
            invariant
                n == self.data@.len(),
                i <= n,
                forall|ii: int| 0 <= ii < i ==> (#[trigger] self.data@[ii]).unique_id != id,
                self.heap().has_data(id),
                self.heap().data_ids_unique(),
            decreases n - i,
        {
            if self.data[i].unique_id == id {
                proof {
                    self.heap().lemma_data_index_of(i as int);
                }
                return i;
            }
            i = i + 1;
        }
        proof {
            let w = self.heap().data_index(id);
            self.heap().lemma_data_index_works(id);
            assert(self.data@[w].unique_id == id);
            assert(false);
        }
        0
    }

    /// Track a fresh value.  The value's traversal yields exactly the
    /// handles in `edges`, which it takes ownership of; a new allocation and
    /// a new mutator-held handle referencing it are registered.  Returns the
    /// new handle.
    pub fn track_data(&mut self, value: T, edges: Vec<u64>, policy: DestructionPolicy) -> (r:
        InternalGcRef)
        requires
            old(self).wf(),
            old(self).monotonic_counter < u64::MAX - 1,
            forall|k: int|
                0 <= k < edges@.len() ==> old(self).heap().has_handle(#[trigger] edges@[k]),
            forall|k1: int, k2: int|
                0 <= k1 < edges@.len() && 0 <= k2 < edges@.len() && k1 != k2
                    ==> #[trigger] edges@[k1] != #[trigger] edges@[k2],
            forall|k: int|
                0 <= k < edges@.len() ==> !old(self).heap().edge_owned(#[trigger] edges@[k]),
        ensures
            final(self).wf(),
            r.handle_id == old(self).monotonic_counter + 1,
            final(self).monotonic_counter == old(self).monotonic_counter + 2,
            final(self).collection_number == old(self).collection_number,
            final(self).trigger == old(self).trigger,
            final(self).drop_queue@ == old(self).drop_queue@,
            final(self).data@ == old(self).data@.push(
                (GcData {
                    unique_id: old(self).monotonic_counter,
                    value: value,
                    edges: edges,
                    lockout: (Lockout { shared_count: 0 }),
                    last_marked: 0,
                    policy: policy,
                }),
            ),
            final(self).handles@ == old(self).handles@.push(
                (GcHandle {
                    unique_id: (old(self).monotonic_counter + 1) as u64,
                    data_id: old(self).monotonic_counter,
                    last_non_rooted: 0,
                }),
            ),
    {
        let ghost pre = *self;
        let data_id = self.monotonic_counter;
        let handle_id = data_id + 1;
        self.monotonic_counter = self.monotonic_counter + 2;
        let new_data = GcData {
            unique_id: data_id,
            value,
            edges,
            lockout: Lockout::new(),
            last_marked: 0,
            policy,
        };
        self.data.push(new_data);
        let new_handle = GcHandle { unique_id: handle_id, data_id, last_non_rooted: 0 };
        self.handles.push(new_handle);
        proof {
            self.lemma_track_data_wf(pre, data_id, handle_id);
        }
        InternalGcRef { handle_id }
    }

    proof fn lemma_track_data_wf(self, pre: Collector<T>, data_id: u64, handle_id: u64)
        requires
            pre.wf(),
            pre.monotonic_counter < u64::MAX - 1,
            data_id == pre.monotonic_counter,
            handle_id == pre.monotonic_counter + 1,
            self.monotonic_counter == pre.monotonic_counter + 2,
            self.collection_number == pre.collection_number,
            self.trigger == pre.trigger,
            self.data@.len() == pre.data@.len() + 1,
            forall|i: int| 0 <= i < pre.data@.len() ==> #[trigger] self.data@[i] == pre.data@[i],
            self.data@[pre.data@.len() as int].unique_id == data_id,
            self.data@[pre.data@.len() as int].lockout.shared_count == 0,
            self.data@[pre.data@.len() as int].last_marked == 0,
            self.handles@.len() == pre.handles@.len() + 1,
            forall|j: int|
                0 <= j < pre.handles@.len() ==> #[trigger] self.handles@[j] == pre.handles@[j],
            self.handles@[pre.handles@.len() as int] == (GcHandle {
                unique_id: handle_id,
                data_id: data_id,
                last_non_rooted: 0,
            }),
            forall|k: int|
                0 <= k < self.data@[pre.data@.len() as int].edges@.len() ==> pre.heap().has_handle(
                    #[trigger] self.data@[pre.data@.len() as int].edges@[k],
                ),
            forall|k1: int, k2: int|
                0 <= k1 < self.data@[pre.data@.len() as int].edges@.len() && 0 <= k2 < self.data@[
                    pre.data@.len() as int
                ].edges@.len() && k1 != k2
                    ==> #[trigger] self.data@[pre.data@.len() as int].edges@[k1]
                    != #[trigger] self.data@[pre.data@.len() as int].edges@[k2],
            forall|k: int|
                0 <= k < self.data@[pre.data@.len() as int].edges@.len()
                    ==> !pre.heap().edge_owned(
                    #[trigger] self.data@[pre.data@.len() as int].edges@[k],
                ),
        ensures
            self.wf(),
    {
        let h0 = pre.heap();
        let h1 = self.heap();
        let n0 = pre.data@.len() as int;
        let m0 = pre.handles@.len() as int;
        assert(h1.data.len() == n0 + 1);
        assert(h1.handles.len() == m0 + 1);
        assert forall|i: int| 0 <= i < n0 implies #[trigger] h1.data[i] == h0.data[i] by {
            assert(self.data@[i] == pre.data@[i]);
        }
        assert forall|j: int| 0 <= j < m0 implies #[trigger] h1.handles[j] == h0.handles[j] by {
            assert(self.handles@[j] == pre.handles@[j]);
        }
        assert(h1.data[n0].id == data_id);
        assert(h1.handles[m0].id == handle_id);
        assert(h1.handles[m0].data_id == data_id);
        // unique ids
        assert forall|i: int, j: int|
            0 <= i < h1.data.len() && 0 <= j < h1.data.len() && i != j implies (
        #[trigger] h1.data[i]).id != (#[trigger] h1.data[j]).id by {
            if i < n0 && j < n0 {
                assert(h0.data_ids_unique());
            } else if i == n0 {
                assert(h1.data[j].id == h0.data[j].id);
                assert(pre.data@[j].unique_id < pre.monotonic_counter);
            } else {
                assert(h1.data[i].id == h0.data[i].id);
                assert(pre.data@[i].unique_id < pre.monotonic_counter);
            }
        }
        assert forall|i: int, j: int|
            0 <= i < h1.handles.len() && 0 <= j < h1.handles.len() && i != j implies (
        #[trigger] h1.handles[i]).id != (#[trigger] h1.handles[j]).id by {
            if i < m0 && j < m0 {
                assert(h0.handle_ids_unique());
            } else if i == m0 {
                assert(pre.handles@[j].unique_id < pre.monotonic_counter);
            } else {
                assert(pre.handles@[i].unique_id < pre.monotonic_counter);
            }
        }
        // handles target data
        assert forall|j: int| 0 <= j < h1.handles.len() implies h1.has_data(
            (#[trigger] h1.handles[j]).data_id,
        ) by {
            if j < m0 {
                assert(h0.has_data(h0.handles[j].data_id));
                h0.lemma_has_data_prefix(h1, h0.handles[j].data_id);
            } else {
                assert(h1.data[n0].id == data_id);
            }
        }
        // edges are handles
        assert forall|i: int, k: int|
            0 <= i < h1.data.len() && 0 <= k < h1.data[i].edges.len() implies h1.has_handle(
            #[trigger] h1.data[i].edges[k],
        ) by {
            if i < n0 {
                assert(h1.data[i].edges == h0.data[i].edges);
                assert(h0.has_handle(h0.data[i].edges[k]));
                h0.lemma_has_handle_prefix(h1, h0.data[i].edges[k]);
            } else {
                assert(h1.data[n0].edges[k] == self.data@[n0].edges@[k]);
                assert(pre.heap().has_handle(self.data@[n0].edges@[k]));
                h0.lemma_has_handle_prefix(h1, self.data@[n0].edges@[k]);
            }
        }
        // edges unique
        assert forall|i1: int, k1: int, i2: int, k2: int|
            0 <= i1 < h1.data.len() && 0 <= k1 < h1.data[i1].edges.len() && 0 <= i2 < h1.data.len()
                && 0 <= k2 < h1.data[i2].edges.len() && (i1 != i2 || k1 != k2) implies (
        #[trigger] h1.data[i1].edges[k1]) != (#[trigger] h1.data[i2].edges[k2]) by {
            if i1 < n0 && i2 < n0 {
                assert(h1.data[i1].edges == h0.data[i1].edges);
                assert(h1.data[i2].edges == h0.data[i2].edges);
                assert(h0.edges_unique());
                assert(h0.data[i1].edges[k1] != h0.data[i2].edges[k2]);
            } else if i1 == n0 && i2 == n0 {
                assert(h1.data[n0].edges[k1] == self.data@[n0].edges@[k1]);
                assert(h1.data[n0].edges[k2] == self.data@[n0].edges@[k2]);
            } else if i1 == n0 {
                assert(h1.data[i2].edges == h0.data[i2].edges);
                assert(!pre.heap().edge_owned(self.data@[n0].edges@[k1]));
                assert(h0.data[i2].edges[k2] != self.data@[n0].edges@[k1]);
            } else {
                assert(h1.data[i1].edges == h0.data[i1].edges);
                assert(!pre.heap().edge_owned(self.data@[n0].edges@[k2]));
                assert(h0.data[i1].edges[k1] != self.data@[n0].edges@[k2]);
            }
        }
        // stamps bounded
        assert forall|i: int| 0 <= i < h1.data.len() implies (#[trigger] h1.data[i]).last_marked
            <= h1.collection_number by {
            if i < n0 {
                assert(h1.data[i] == h0.data[i]);
            }
        }
        assert forall|j: int|
            0 <= j < h1.handles.len() implies (#[trigger] h1.handles[j]).last_non_rooted
            <= h1.collection_number by {
            if j < m0 {
                assert(h1.handles[j] == h0.handles[j]);
            }
        }
        // ids fresh
        assert forall|i: int|
            0 <= i < self.data@.len() implies (#[trigger] self.data@[i]).unique_id
            < self.monotonic_counter by {
            if i < n0 {
                assert(pre.data@[i].unique_id < pre.monotonic_counter);
            }
        }
        assert forall|j: int|
            0 <= j < self.handles@.len() implies (#[trigger] self.handles@[j]).unique_id
            < self.monotonic_counter by {
            if j < m0 {
                assert(pre.handles@[j].unique_id < pre.monotonic_counter);
            }
        }
    }

    /// Duplicate a registered handle: a fresh handle referencing the same
    /// allocation is minted and registered.
    pub fn clone_handle(&mut self, handle: &InternalGcRef) -> (r: InternalGcRef)
        requires
            old(self).wf(),
            old(self).heap().has_handle(handle.handle_id),
            old(self).monotonic_counter < u64::MAX,
        ensures
            final(self).wf(),
            r.handle_id == old(self).monotonic_counter,
            final(self).monotonic_counter == old(self).monotonic_counter + 1,
            final(self).handles@ == old(self).handles@.push(
                (GcHandle {
                    unique_id: old(self).monotonic_counter,
                    data_id: old(self).heap().handle_at(handle.handle_id).data_id,
                    last_non_rooted: 0,
                }),
            ),
            final(self).data@ == old(self).data@,
            final(self).drop_queue@ == old(self).drop_queue@,
            final(self).collection_number == old(self).collection_number,
            final(self).trigger == old(self).trigger,
    {
        let ghost pre = *self;
        let j = self.find_handle_index(handle.handle_id);
        let new_id = self.monotonic_counter;
        self.monotonic_counter = self.monotonic_counter + 1;
        let data_id = self.handles[j].data_id;
        let new_handle = GcHandle { unique_id: new_id, data_id, last_non_rooted: 0 };
        self.handles.push(new_handle);
        proof {
            let h0 = pre.heap();
            let h1 = self.heap();
            let m0 = pre.handles@.len() as int;
            assert(data_id == h0.handle_at(handle.handle_id).data_id);
            assert forall|jj: int| 0 <= jj < m0 implies #[trigger] h1.handles[jj]
                == h0.handles[jj] by {
                assert(self.handles@[jj] == pre.handles@[jj]);
            }
            assert(h1.data =~= h0.data);
            assert forall|i1: int, j1: int|
                0 <= i1 < h1.handles.len() && 0 <= j1 < h1.handles.len() && i1 != j1 implies (
            #[trigger] h1.handles[i1]).id != (#[trigger] h1.handles[j1]).id by {
                if i1 < m0 && j1 < m0 {
                    assert(h0.handle_ids_unique());
                } else if i1 == m0 {
                    assert(pre.handles@[j1].unique_id < pre.monotonic_counter);
                } else {
                    assert(pre.handles@[i1].unique_id < pre.monotonic_counter);
                }
            }
            assert forall|j1: int| 0 <= j1 < h1.handles.len() implies h1.has_data(
                (#[trigger] h1.handles[j1]).data_id,
            ) by {
                if j1 < m0 {
                    assert(h0.has_data(h0.handles[j1].data_id));
                } else {
                    assert(h1.handles[j1].data_id == data_id);
                    h0.lemma_handle_index_works(handle.handle_id);
                    let w = h0.handle_index(handle.handle_id);
                    assert(h0.has_data(h0.handles[w].data_id));
                }
            }
            assert forall|i: int, k: int|
                0 <= i < h1.data.len() && 0 <= k < h1.data[i].edges.len() implies h1.has_handle(
                #[trigger] h1.data[i].edges[k],
            ) by {
                assert(h1.data[i] == h0.data[i]);
                assert(h0.has_handle(h0.data[i].edges[k]));
                h0.lemma_has_handle_prefix(h1, h0.data[i].edges[k]);
            }
            assert forall|j1: int|
                0 <= j1 < h1.handles.len() implies (#[trigger] h1.handles[j1]).last_non_rooted
                <= h1.collection_number by {
                if j1 < m0 {
                    assert(h1.handles[j1] == h0.handles[j1]);
                }
            }
            assert forall|j1: int|
                0 <= j1 < self.handles@.len() implies (#[trigger] self.handles@[j1]).unique_id
                < self.monotonic_counter by {
                if j1 < m0 {
                    assert(pre.handles@[j1].unique_id < pre.monotonic_counter);
                }
            }
            assert(self.heap().edges_unique()) by {
                assert forall|i1: int, k1: int, i2: int, k2: int|
                    0 <= i1 < h1.data.len() && 0 <= k1 < h1.data[i1].edges.len() && 0 <= i2
                        < h1.data.len() && 0 <= k2 < h1.data[i2].edges.len() && (i1 != i2 || k1
                        != k2) implies (#[trigger] h1.data[i1].edges[k1]) != (
                #[trigger] h1.data[i2].edges[k2]) by {
                    assert(h1.data[i1] == h0.data[i1]);
                    assert(h1.data[i2] == h0.data[i2]);
                    assert(h0.edges_unique());
                    assert(h0.data[i1].edges[k1] != h0.data[i2].edges[k2]);
                }
            }
            assert(self.heap().data_ids_unique()) by {
                assert forall|i1: int, i2: int|
                    0 <= i1 < h1.data.len() && 0 <= i2 < h1.data.len() && i1 != i2 implies (
                #[trigger] h1.data[i1]).id != (#[trigger] h1.data[i2]).id by {
                    assert(h1.data[i1] == h0.data[i1]);
                    assert(h1.data[i2] == h0.data[i2]);
                    assert(h0.data_ids_unique());
                }
            }
            assert forall|i: int|
                0 <= i < h1.data.len() implies (#[trigger] h1.data[i]).last_marked
                <= h1.collection_number by {
                assert(h1.data[i] == h0.data[i]);
            }
            assert forall|i: int|
                0 <= i < self.data@.len() implies (#[trigger] self.data@[i]).unique_id
                < self.monotonic_counter by {
                assert(pre.data@[i].unique_id < pre.monotonic_counter);
            }
        }
        InternalGcRef { handle_id: new_id }
    }

    /// Give up a mutator-held handle: it is removed from the registry.  A
    /// handle that is already gone (it was swept as part of a dead
    /// subgraph) is ignored.  A handle owned by a tracked value is not the
    /// mutator's to drop.
    pub fn drop_handle(&mut self, handle: &InternalGcRef)
        requires
            old(self).wf(),
            !old(self).heap().edge_owned(handle.handle_id),
        ensures
            final(self).wf(),
            old(self).heap().has_handle(handle.handle_id) ==> final(self).handles@ == old(
                self,
            ).handles@.remove(old(self).heap().handle_index(handle.handle_id)),
            !old(self).heap().has_handle(handle.handle_id) ==> final(self).handles@ == old(
                self,
            ).handles@,
            forall|hid: u64|
                #[trigger] final(self).heap().has_handle(hid) <==> (old(self).heap().has_handle(hid)
                    && hid != handle.handle_id),
            final(self).data@ == old(self).data@,
            final(self).drop_queue@ == old(self).drop_queue@,
            final(self).monotonic_counter == old(self).monotonic_counter,
            final(self).collection_number == old(self).collection_number,
            final(self).trigger == old(self).trigger,
    {
        let ghost pre = *self;
        let n = self.handles.len();
        let mut j: usize = 0;
        while j < n
            invariant
                *self == pre,
                pre == *old(self),
                pre.wf(),
                !pre.heap().edge_owned(handle.handle_id),
                n == self.handles@.len(),
                j <= n,
                forall|jj: int|
                    0 <= jj < j ==> (#[trigger] self.handles@[jj]).unique_id != handle.handle_id,
            decreases n - j,
        {
            if self.handles[j].unique_id == handle.handle_id {
                proof {
                    pre.heap().lemma_handle_index_of(j as int);
                }
                self.handles.remove(j);
                proof {
                    let h0 = pre.heap();
                    let h1 = self.heap();
                    assert(h1.handles =~= h0.handles.remove(j as int));
                    h0.lemma_handles_remove(h1, j as int);
                    assert(h1.data =~= h0.data);
                    assert forall|j1: int| 0 <= j1 < h1.handles.len() implies h1.has_data(
                        (#[trigger] h1.handles[j1]).data_id,
                    ) by {
                        if j1 < j {
                            assert(h1.handles[j1] == h0.handles[j1]);
                        } else {
                            assert(h1.handles[j1] == h0.handles[j1 + 1]);
                        }
                        assert(h0.has_data(h1.handles[j1].data_id));
                    }
                    assert forall|i: int, k: int|
                        0 <= i < h1.data.len() && 0 <= k < h1.data[i].edges.len() implies
                        h1.has_handle(#[trigger] h1.data[i].edges[k]) by {
                        assert(h1.data[i] == h0.data[i]);
                        let e = h0.data[i].edges[k];
                        assert(h0.has_handle(e));
                        assert(h0.edge_owned(e));
                        assert(e != handle.handle_id);
                        assert(h1.has_handle(e));
                    }
                    assert(h1.data_ids_unique()) by {
                        assert forall|i1: int, i2: int|
                            0 <= i1 < h1.data.len() && 0 <= i2 < h1.data.len() && i1 != i2 implies (
                        #[trigger] h1.data[i1]).id != (#[trigger] h1.data[i2]).id by {
                            assert(h1.data[i1] == h0.data[i1]);
                            assert(h1.data[i2] == h0.data[i2]);
                            assert(h0.data_ids_unique());
                        }
                    }
                    assert(h1.edges_unique()) by {
                        assert forall|i1: int, k1: int, i2: int, k2: int|
                            0 <= i1 < h1.data.len() && 0 <= k1 < h1.data[i1].edges.len() && 0 <= i2
                                < h1.data.len() && 0 <= k2 < h1.data[i2].edges.len() && (i1 != i2
                                || k1 != k2) implies (#[trigger] h1.data[i1].edges[k1]) != (
                        #[trigger] h1.data[i2].edges[k2]) by {
                            assert(h1.data[i1] == h0.data[i1]);
                            assert(h1.data[i2] == h0.data[i2]);
                            assert(h0.edges_unique());
                            assert(h0.data[i1].edges[k1] != h0.data[i2].edges[k2]);
                        }
                    }
                    assert(h1.stamps_bounded()) by {
                        assert forall|i: int|
                            0 <= i < h1.data.len() implies (#[trigger] h1.data[i]).last_marked
                            <= h1.collection_number by {
                            assert(h1.data[i] == h0.data[i]);
                        }
                        assert forall|j1: int|
                            0 <= j1 < h1.handles.len() implies (
                        #[trigger] h1.handles[j1]).last_non_rooted <= h1.collection_number by {
                            if j1 < j {
                                assert(h1.handles[j1] == h0.handles[j1]);
                            } else {
                                assert(h1.handles[j1] == h0.handles[j1 + 1]);
                            }
                        }
                    }
                    assert(self.ids_fresh()) by {
                        assert forall|i: int|
                            0 <= i < self.data@.len() implies (#[trigger] self.data@[i]).unique_id
                            < self.monotonic_counter by {
                            assert(pre.data@[i].unique_id < pre.monotonic_counter);
                        }
                        assert forall|j1: int|
                            0 <= j1 < self.handles@.len() implies (
                        #[trigger] self.handles@[j1]).unique_id < self.monotonic_counter by {
                            if j1 < j {
                                assert(self.handles@[j1] == pre.handles@[j1]);
                            } else {
                                assert(self.handles@[j1] == pre.handles@[j1 + 1]);
                            }
                        }
                    }
                }
                return ;
            }
            j = j + 1;
        }
        proof {
            assert(!pre.heap().has_handle(handle.handle_id)) by {
                if pre.heap().has_handle(handle.handle_id) {
                    pre.heap().lemma_handle_index_works(handle.handle_id);
                    let w = pre.heap().handle_index(handle.handle_id);
                    assert(pre.handles@[w].unique_id == handle.handle_id);
                }
            }
            assert(*self == pre);
        }
    }

    /// Take a shared warrant on the allocation a handle references, so its
    /// value can be read while the next collection treats it as in use.
    /// Accessing a handle whose allocation is gone is a programmer error the
    /// caller must rule out.
    pub fn get_data_warrant(&mut self, handle: &InternalGcRef) -> (w: Warrant)
        requires
            old(self).wf(),
            old(self).heap().has_handle(handle.handle_id),
            old(self).heap().data_at(
                old(self).heap().handle_at(handle.handle_id).data_id,
            ).shared_warrants < u64::MAX,
        ensures
            final(self).wf(),
            w.data_id == old(self).heap().handle_at(handle.handle_id).data_id,
            final(self).data@.len() == old(self).data@.len(),
            forall|i: int|
                0 <= i < old(self).data@.len() && i != old(self).target_index(handle.handle_id)
                    ==> #[trigger] final(self).data@[i] == old(self).data@[i],
            final(self).data@[old(self).target_index(handle.handle_id)] == (GcData {
                lockout: (Lockout {
                    shared_count: (old(self).data@[old(self).target_index(
                        handle.handle_id,
                    )].lockout.shared_count + 1) as u64,
                }),
                ..old(self).data@[old(self).target_index(handle.handle_id)]
            }),
            final(self).handles@ == old(self).handles@,
            final(self).drop_queue@ == old(self).drop_queue@,
            final(self).monotonic_counter == old(self).monotonic_counter,
            final(self).collection_number == old(self).collection_number,
            final(self).trigger == old(self).trigger,
    {
        let ghost pre = *self;
        let j = self.find_handle_index(handle.handle_id);
        let data_id = self.handles[j].data_id;
        proof {
            pre.heap().lemma_handle_index_works(handle.handle_id);
        }
        let i = self.find_data_index(data_id);
        self.data[i].lockout.acquire_shared();
        proof {
            self.lemma_warrant_count_change_wf(pre, i as int);
        }
        Warrant { data_id }
    }

    /// Give a shared warrant back.
    pub fn release_warrant(&mut self, warrant: Warrant)
        requires
            old(self).wf(),
            old(self).heap().has_data(warrant.data_id),
            old(self).heap().data_at(warrant.data_id).shared_warrants > 0,
        ensures
            final(self).wf(),
            final(self).data@.len() == old(self).data@.len(),
            forall|i: int|
                0 <= i < old(self).data@.len() && i != old(self).heap().data_index(warrant.data_id)
                    ==> #[trigger] final(self).data@[i] == old(self).data@[i],
            final(self).data@[old(self).heap().data_index(warrant.data_id)] == (GcData {
                lockout: (Lockout {
                    shared_count: (old(self).data@[old(self).heap().data_index(
                        warrant.data_id,
                    )].lockout.shared_count - 1) as u64,
                }),
                ..old(self).data@[old(self).heap().data_index(warrant.data_id)]
            }),
            final(self).handles@ == old(self).handles@,
            final(self).drop_queue@ == old(self).drop_queue@,
            final(self).monotonic_counter == old(self).monotonic_counter,
            final(self).collection_number == old(self).collection_number,
            final(self).trigger == old(self).trigger,
    {
        let ghost pre = *self;
        let i = self.find_data_index(warrant.data_id);
        self.data[i].lockout.release_shared();
        proof {
            self.lemma_warrant_count_change_wf(pre, i as int);
        }
    }

    /// A change confined to one lockout's shared count preserves every
    /// registry invariant.
    proof fn lemma_warrant_count_change_wf(self, pre: Collector<T>, i0: int)
        requires
            pre.wf(),
            0 <= i0 < pre.data@.len(),
            self.data@.len() == pre.data@.len(),
            forall|i: int|
                0 <= i < pre.data@.len() && i != i0 ==> #[trigger] self.data@[i] == pre.data@[i],
            self.data@[i0].unique_id == pre.data@[i0].unique_id,
            self.data@[i0].edges@ == pre.data@[i0].edges@,
            self.data@[i0].last_marked == pre.data@[i0].last_marked,
            self.handles@ == pre.handles@,
            self.monotonic_counter == pre.monotonic_counter,
            self.collection_number == pre.collection_number,
            self.trigger == pre.trigger,
        ensures
            self.wf(),
    {
        let h0 = pre.heap();
        let h1 = self.heap();
        assert(h1.handles =~= h0.handles);
        assert forall|i: int| 0 <= i < h1.data.len() implies (#[trigger] h1.data[i]).id
            == h0.data[i].id && h1.data[i].edges == h0.data[i].edges && h1.data[i].last_marked
            == h0.data[i].last_marked by {
            if i != i0 {
                assert(self.data@[i] == pre.data@[i]);
            }
        }
        assert(h1.data_ids_unique()) by {
            assert forall|i1: int, i2: int|
                0 <= i1 < h1.data.len() && 0 <= i2 < h1.data.len() && i1 != i2 implies (
            #[trigger] h1.data[i1]).id != (#[trigger] h1.data[i2]).id by {
                assert(h0.data_ids_unique());
            }
        }
        assert forall|j1: int| 0 <= j1 < h1.handles.len() implies h1.has_data(
            (#[trigger] h1.handles[j1]).data_id,
        ) by {
            assert(h0.has_data(h0.handles[j1].data_id));
            let w = h0.data_index(h0.handles[j1].data_id);
            h0.lemma_data_index_works(h0.handles[j1].data_id);
            assert(h1.data[w].id == h0.handles[j1].data_id);
        }
        assert forall|i: int, k: int|
            0 <= i < h1.data.len() && 0 <= k < h1.data[i].edges.len() implies h1.has_handle(
            #[trigger] h1.data[i].edges[k],
        ) by {
            assert(h1.data[i].edges == h0.data[i].edges);
            assert(h0.has_handle(h0.data[i].edges[k]));
            h0.lemma_handle_index_works(h0.data[i].edges[k]);
            let w = h0.handle_index(h0.data[i].edges[k]);
            assert(h1.handles[w].id == h0.data[i].edges[k]);
        }
        assert(h1.edges_unique()) by {
            assert forall|i1: int, k1: int, i2: int, k2: int|
                0 <= i1 < h1.data.len() && 0 <= k1 < h1.data[i1].edges.len() && 0 <= i2
                    < h1.data.len() && 0 <= k2 < h1.data[i2].edges.len() && (i1 != i2 || k1 != k2)
                 implies (#[trigger] h1.data[i1].edges[k1]) != (
            #[trigger] h1.data[i2].edges[k2]) by {
                assert(h1.data[i1].edges == h0.data[i1].edges);
                assert(h1.data[i2].edges == h0.data[i2].edges);
                assert(h0.edges_unique());
                assert(h0.data[i1].edges[k1] != h0.data[i2].edges[k2]);
            }
        }
        assert(h1.stamps_bounded()) by {
            assert forall|i: int| 0 <= i < h1.data.len() implies (#[trigger] h1.data[i]).last_marked
                <= h1.collection_number by {
                assert(h1.data[i].last_marked == h0.data[i].last_marked);
            }
        }
        assert(self.ids_fresh()) by {
            assert forall|i: int|
                0 <= i < self.data@.len() implies (#[trigger] self.data@[i]).unique_id
                < self.monotonic_counter by {
                assert(h1.data[i].id == h0.data[i].id);
                assert(pre.data@[i].unique_id < pre.monotonic_counter);
            }
        }
    }

    /// Replace the edge list of the allocation a handle references: the
    /// tracked value was mutated, and its traversal now yields exactly
    /// `edges`.  Ownership of the new edge handles passes to the value.
    pub fn set_edges(&mut self, handle: &InternalGcRef, edges: Vec<u64>)
        requires
            old(self).wf(),
            old(self).heap().has_handle(handle.handle_id),
            forall|k: int|
                0 <= k < edges@.len() ==> old(self).heap().has_handle(#[trigger] edges@[k]),
            forall|k1: int, k2: int|
                0 <= k1 < edges@.len() && 0 <= k2 < edges@.len() && k1 != k2
                    ==> #[trigger] edges@[k1] != #[trigger] edges@[k2],
            forall|k: int|
                0 <= k < edges@.len() ==> !old(self).heap().edge_owned_excluding(
                    #[trigger] edges@[k],
                    old(self).heap().handle_at(handle.handle_id).data_id,
                ),
        ensures
            final(self).wf(),
            final(self).data@.len() == old(self).data@.len(),
            forall|i: int|
                0 <= i < old(self).data@.len() && i != old(self).target_index(handle.handle_id)
                    ==> #[trigger] final(self).data@[i] == old(self).data@[i],
            final(self).data@[old(self).target_index(handle.handle_id)] == (GcData {
                edges: edges,
                ..old(self).data@[old(self).target_index(handle.handle_id)]
            }),
            final(self).handles@ == old(self).handles@,
            final(self).drop_queue@ == old(self).drop_queue@,
            final(self).monotonic_counter == old(self).monotonic_counter,
            final(self).collection_number == old(self).collection_number,
            final(self).trigger == old(self).trigger,
    {
        let ghost pre = *self;
        let j = self.find_handle_index(handle.handle_id);
        let data_id = self.handles[j].data_id;
        proof {
            pre.heap().lemma_handle_index_works(handle.handle_id);
        }
        let i = self.find_data_index(data_id);
        self.data[i].edges = edges;
        proof {
            let i0 = i as int;
            let h0 = pre.heap();
            let h1 = self.heap();
            assert(h1.handles =~= h0.handles);
            assert(h0.data[i0].id == data_id);
            assert forall|i1: int| 0 <= i1 < h1.data.len() implies (#[trigger] h1.data[i1]).id
                == h0.data[i1].id && h1.data[i1].last_marked == h0.data[i1].last_marked by {
                if i1 != i0 {
                    assert(self.data@[i1] == pre.data@[i1]);
                }
            }
            assert(h1.data_ids_unique()) by {
                assert forall|i1: int, i2: int|
                    0 <= i1 < h1.data.len() && 0 <= i2 < h1.data.len() && i1 != i2 implies (
                #[trigger] h1.data[i1]).id != (#[trigger] h1.data[i2]).id by {
                    assert(h0.data_ids_unique());
                }
            }
            assert forall|j1: int| 0 <= j1 < h1.handles.len() implies h1.has_data(
                (#[trigger] h1.handles[j1]).data_id,
            ) by {
                assert(h0.has_data(h0.handles[j1].data_id));
                let w = h0.data_index(h0.handles[j1].data_id);
                h0.lemma_data_index_works(h0.handles[j1].data_id);
                assert(h1.data[w].id == h0.handles[j1].data_id);
            }
            assert forall|i1: int, k: int|
                0 <= i1 < h1.data.len() && 0 <= k < h1.data[i1].edges.len() implies h1.has_handle(
                #[trigger] h1.data[i1].edges[k],
            ) by {
                let e = h1.data[i1].edges[k];
                if i1 == i0 {
                    assert(e == edges@[k]);
                    assert(h0.has_handle(e));
                } else {
                    assert(h1.data[i1].edges == h0.data[i1].edges);
                    assert(h0.has_handle(e));
                }
                h0.lemma_handle_index_works(e);
                let w = h0.handle_index(e);
                assert(h1.handles[w].id == e);
            }
            assert(h1.edges_unique()) by {
                assert forall|i1: int, k1: int, i2: int, k2: int|
                    0 <= i1 < h1.data.len() && 0 <= k1 < h1.data[i1].edges.len() && 0 <= i2
                        < h1.data.len() && 0 <= k2 < h1.data[i2].edges.len() && (i1 != i2 || k1
                        != k2) implies (#[trigger] h1.data[i1].edges[k1]) != (
                #[trigger] h1.data[i2].edges[k2]) by {
                    if i1 == i0 && i2 == i0 {
                        assert(h1.data[i0].edges[k1] == edges@[k1]);
                        assert(h1.data[i0].edges[k2] == edges@[k2]);
                    } else if i1 == i0 {
                        assert(h1.data[i2].edges == h0.data[i2].edges);
                        assert(h0.data[i2].id != data_id) by {
                            assert(h0.data_ids_unique());
                        }
                        assert(!h0.edge_owned_excluding(edges@[k1], data_id));
                        assert(h0.data[i2].edges[k2] != edges@[k1]);
                    } else if i2 == i0 {
                        assert(h1.data[i1].edges == h0.data[i1].edges);
                        assert(h0.data[i1].id != data_id) by {
                            assert(h0.data_ids_unique());
                        }
                        assert(!h0.edge_owned_excluding(edges@[k2], data_id));
                        assert(h0.data[i1].edges[k1] != edges@[k2]);
                    } else {
                        assert(h1.data[i1].edges == h0.data[i1].edges);
                        assert(h1.data[i2].edges == h0.data[i2].edges);
                        assert(h0.edges_unique());
                        assert(h0.data[i1].edges[k1] != h0.data[i2].edges[k2]);
                    }
                }
            }
            assert(h1.stamps_bounded()) by {
                assert forall|i1: int|
                    0 <= i1 < h1.data.len() implies (#[trigger] h1.data[i1]).last_marked
                    <= h1.collection_number by {}
            }
            assert(self.ids_fresh()) by {
                assert forall|i1: int|
                    0 <= i1 < self.data@.len() implies (#[trigger] self.data@[i1]).unique_id
                    < self.monotonic_counter by {
                    assert(h1.data[i1].id == h0.data[i1].id);
                    assert(pre.data@[i1].unique_id < pre.monotonic_counter);
                }
            }
        }
    }

    /// Drain the destruction queue, as the background dropper's
    /// synchronization barrier does: every entry enqueued so far is
    /// processed.  Each entry comes back with `deallocated` set, strictly
    /// before its destruction effect (chosen by its policy) is carried out
    /// by the caller.
    pub fn synchronize_destructors(&mut self) -> (r: Vec<QueuedDrop<T>>)
        requires
            old(self).wf(),
        ensures
            final(self).wf(),
            final(self).drop_queue@.len() == 0,
            r@.len() == old(self).drop_queue@.len(),
            forall|q: int|
                0 <= q < r@.len() ==> #[trigger] r@[q] == (QueuedDrop {
                    deallocated: true,
                    ..old(self).drop_queue@[q]
                }),
            final(self).data@ == old(self).data@,
            final(self).handles@ == old(self).handles@,
            final(self).monotonic_counter == old(self).monotonic_counter,
            final(self).collection_number == old(self).collection_number,
            final(self).trigger == old(self).trigger,
    {
        let ghost pre = *self;
        let mut out: Vec<QueuedDrop<T>> = Vec::new();
        while self.drop_queue.len() > 0
            invariant
                pre == *old(self),
                pre.wf(),
                out@.len() + self.drop_queue@.len() == pre.drop_queue@.len(),
                self.drop_queue@ == pre.drop_queue@.subrange(
                    out@.len() as int,
                    pre.drop_queue@.len() as int,
                ),
                forall|q: int|
                    0 <= q < out@.len() ==> #[trigger] out@[q] == (QueuedDrop {
                        deallocated: true,
                        ..pre.drop_queue@[q]
                    }),
                self.data@ == pre.data@,
                self.handles@ == pre.handles@,
                self.monotonic_counter == pre.monotonic_counter,
                self.collection_number == pre.collection_number,
                self.trigger == pre.trigger,
            decreases self.drop_queue@.len(),
        {
            let ghost qpre = self.drop_queue@;
            let ghost done = out@.len() as int;
            let mut q = self.drop_queue.remove(0);
            q.deallocated = true;
            out.push(q);
            proof {
                assert(self.drop_queue@ =~= pre.drop_queue@.subrange(
                    done + 1,
                    pre.drop_queue@.len() as int,
                ));
                assert(qpre[0] == pre.drop_queue@[done]);
            }
        }
        proof {
            assert(self.heap() =~= pre.heap());
        }
        out
    }

    /// Law: cloning a handle and then dropping the clone leaves the
    /// registry exactly as it was.  `clone_handle` appends a handle whose id
    /// is fresh (`ids_fresh` guarantees freshness of the counter), and
    /// `drop_handle` removes the handle at the index its id is found at,
    /// which for the appended handle is the old length; the removal is the
    /// inverse of the append.  Applied once per clone, innermost first, this
    /// restores the handle set after any number of clone/drop pairs; the
    /// allocations and the destruction queue are untouched by both
    /// operations.
    pub proof fn lemma_clone_then_drop_restores(handles0: Seq<GcHandle>, nh: GcHandle)
        requires
            forall|j: int|
                0 <= j < handles0.len() ==> (#[trigger] handles0[j]).unique_id != nh.unique_id,
        ensures
            handles0.push(nh).remove(handles0.len() as int) == handles0,
            forall|j: int|
                0 <= j < handles0.len() + 1 && (#[trigger] handles0.push(nh)[j]).unique_id
                    == nh.unique_id ==> j == handles0.len(),
    {
        assert(handles0.push(nh).remove(handles0.len() as int) =~= handles0);
        assert forall|j: int|
            0 <= j < handles0.len() + 1 && (#[trigger] handles0.push(nh)[j]).unique_id
                == nh.unique_id implies j == handles0.len() by {
            if j < handles0.len() {
                assert(handles0.push(nh)[j] == handles0[j]);
            }
        }
    }

    pub fn tracked_data_count(&self) -> (r: usize)
        ensures
            r == self.data@.len(),
    {
        self.data.len()
    }

    pub fn handle_count(&self) -> (r: usize)
        ensures
            r == self.handles@.len(),
    {
        self.handles.len()
    }

    pub fn set_gc_trigger_percent(&mut self, hundredths: u64)
        requires
            old(self).wf(),
            hundredths <= crate::trigger::MAX_TRIGGER_PERCENT_HUNDREDTHS,
        ensures
            final(self).wf(),
            final(self).trigger.trigger_percent_hundredths == hundredths,
            final(self).trigger.data_count_at_last_collection == old(
                self,
            ).trigger.data_count_at_last_collection,
            final(self).data@ == old(self).data@,
            final(self).handles@ == old(self).handles@,
            final(self).drop_queue@ == old(self).drop_queue@,
            final(self).monotonic_counter == old(self).monotonic_counter,
            final(self).collection_number == old(self).collection_number,
    {
        self.trigger.set_trigger_percent(hundredths);
    }
}

} // verus!

//! Ghost-level image of the collector's registry, and the reachability
//! notions the mark algorithm is specified against.
//!
//! An allocation is *scannable* when no shared warrant is outstanding on its
//! lockout.  A handle is *observed non-rooted* when it occurs as an outgoing
//! edge of some scannable allocation; every other registered handle must be
//! held by a mutator and is therefore a *root*.  An allocation must survive a
//! collection exactly when a chain of edges through scannable allocations
//! leads to it from a *seed*: an allocation that is in use, or one that a
//! root handle references.

use vstd::prelude::*;

verus! {

/// Ghost image of one allocation record: its id, the handle ids its value
/// owns (what its traversal yields), the number of outstanding shared
/// warrants on its lockout, and the stamp of the last collection that proved
/// it live.
pub ghost struct AllocView {
    pub id: u64,
    pub edges: Seq<u64>,
    pub shared_warrants: u64,
    pub last_marked: u64,
}

/// Ghost image of one handle: its id, the id of the allocation it
/// references, and the stamp of the last collection that observed it as an
/// outgoing edge (i.e. as not a root).
pub ghost struct HandleView {
    pub id: u64,
    pub data_id: u64,
    pub last_non_rooted: u64,
}

/// Ghost image of the tracked registry: the monotonic collection counter,
/// the live allocations and the live handles.  Order carries no meaning;
/// membership is by unique id.
pub ghost struct HeapView {
    pub collection_number: u64,
    pub data: Seq<AllocView>,
    pub handles: Seq<HandleView>,
}

impl HeapView {
    pub open spec fn has_data(self, id: u64) -> bool {
        exists|i: int| 0 <= i < self.data.len() && (#[trigger] self.data[i]).id == id
    }

    pub open spec fn data_index(self, id: u64) -> int {
        choose|i: int| 0 <= i < self.data.len() && (#[trigger] self.data[i]).id == id
    }

    pub open spec fn data_at(self, id: u64) -> AllocView {
        self.data[self.data_index(id)]
    }

    pub open spec fn has_handle(self, hid: u64) -> bool {
        exists|j: int| 0 <= j < self.handles.len() && (#[trigger] self.handles[j]).id == hid
    }

    pub open spec fn handle_index(self, hid: u64) -> int {
        choose|j: int| 0 <= j < self.handles.len() && (#[trigger] self.handles[j]).id == hid
    }

    pub open spec fn handle_at(self, hid: u64) -> HandleView {
        self.handles[self.handle_index(hid)]
    }

    // ------------------------------------------------------------------
    // Well-formedness
    // ------------------------------------------------------------------

    pub open spec fn data_ids_unique(self) -> bool {
        forall|i: int, j: int|
            0 <= i < self.data.len() && 0 <= j < self.data.len() && i != j
                ==> (#[trigger] self.data[i]).id != (#[trigger] self.data[j]).id
    }

    pub open spec fn handle_ids_unique(self) -> bool {
        forall|i: int, j: int|
            0 <= i < self.handles.len() && 0 <= j < self.handles.len() && i != j
                ==> (#[trigger] self.handles[i]).id != (#[trigger] self.handles[j]).id
    }

    /// Every handle references an allocation that is in the registry.
    pub open spec fn handles_target_data(self) -> bool {
        forall|j: int|
            0 <= j < self.handles.len() ==> self.has_data((#[trigger] self.handles[j]).data_id)
    }

    /// Every edge an allocation's traversal yields is a registered handle.
    pub open spec fn edges_are_handles(self) -> bool {
        forall|i: int, k: int|
            0 <= i < self.data.len() && 0 <= k < self.data[i].edges.len()
                ==> self.has_handle(#[trigger] self.data[i].edges[k])
    }

    /// A handle is owned by at most one allocation, and occurs at most once
    /// in that allocation's edge list.
    pub open spec fn edges_unique(self) -> bool {
        forall|i1: int, k1: int, i2: int, k2: int|
            0 <= i1 < self.data.len() && 0 <= k1 < self.data[i1].edges.len()
                && 0 <= i2 < self.data.len() && 0 <= k2 < self.data[i2].edges.len()
                && (i1 != i2 || k1 != k2)
                ==> #[trigger] self.data[i1].edges[k1] != #[trigger] self.data[i2].edges[k2]
    }

    /// Mark stamps never run ahead of the collection counter.
    pub open spec fn stamps_bounded(self) -> bool {
        (forall|i: int|
            0 <= i < self.data.len()
                ==> (#[trigger] self.data[i]).last_marked <= self.collection_number)
            && (forall|j: int|
            0 <= j < self.handles.len()
                ==> (#[trigger] self.handles[j]).last_non_rooted <= self.collection_number)
    }

    pub open spec fn wf(self) -> bool {
        &&& self.data_ids_unique()
        &&& self.handle_ids_unique()
        &&& self.handles_target_data()
        &&& self.edges_are_handles()
        &&& self.edges_unique()
        &&& self.stamps_bounded()
    }

    // ------------------------------------------------------------------
    // Index facts
    // ------------------------------------------------------------------

    pub proof fn lemma_data_index_works(self, id: u64)
        requires
            self.has_data(id),
        ensures
            0 <= self.data_index(id) < self.data.len(),
            self.data[self.data_index(id)].id == id,
            self.data_at(id).id == id,
    {
    }

    pub proof fn lemma_data_index_of(self, i: int)
        requires
            self.data_ids_unique(),
            0 <= i < self.data.len(),
        ensures
            self.has_data(self.data[i].id),
            self.data_index(self.data[i].id) == i,
            self.data_at(self.data[i].id) == self.data[i],
    {
        assert(self.has_data(self.data[i].id));
        let w = self.data_index(self.data[i].id);
        assert(self.data[w].id == self.data[i].id);
    }

    pub proof fn lemma_handle_index_works(self, hid: u64)
        requires
            self.has_handle(hid),
        ensures
            0 <= self.handle_index(hid) < self.handles.len(),
            self.handles[self.handle_index(hid)].id == hid,
            self.handle_at(hid).id == hid,
    {
    }

    pub proof fn lemma_handle_index_of(self, j: int)
        requires
            self.handle_ids_unique(),
            0 <= j < self.handles.len(),
        ensures
            self.has_handle(self.handles[j].id),
            self.handle_index(self.handles[j].id) == j,
            self.handle_at(self.handles[j].id) == self.handles[j],
    {
        assert(self.has_handle(self.handles[j].id));
        let w = self.handle_index(self.handles[j].id);
        assert(self.handles[w].id == self.handles[j].id);
    }

    /// Handle membership carries over to a view whose handle sequence
    /// extends this one's.
    pub proof fn lemma_has_handle_prefix(self, bigger: HeapView, hid: u64)
        requires
            self.has_handle(hid),
            bigger.handles.len() >= self.handles.len(),
            forall|j: int|
                0 <= j < self.handles.len() ==> #[trigger] bigger.handles[j] == self.handles[j],
        ensures
            bigger.has_handle(hid),
    {
        self.lemma_handle_index_works(hid);
        let j = self.handle_index(hid);
        assert(bigger.handles[j].id == hid);
    }

    /// Allocation membership carries over to a view whose data sequence
    /// extends this one's.
    pub proof fn lemma_has_data_prefix(self, bigger: HeapView, id: u64)
        requires
            self.has_data(id),
            bigger.data.len() >= self.data.len(),
            forall|i: int| 0 <= i < self.data.len() ==> #[trigger] bigger.data[i] == self.data[i],
        ensures
            bigger.has_data(id),
    {
        self.lemma_data_index_works(id);
        let i = self.data_index(id);
        assert(bigger.data[i].id == id);
    }

    /// Two views with the same handle sequence agree on handle membership
    /// and handle records.
    pub proof fn lemma_handles_agree(self, other: HeapView)
        requires
            self.handles == other.handles,
            self.handle_ids_unique(),
        ensures
            other.handle_ids_unique(),
            forall|hid: u64| #[trigger] other.has_handle(hid) == self.has_handle(hid),
            forall|hid: u64|
                other.has_handle(hid) ==> #[trigger] other.handle_at(hid) == self.handle_at(hid),
    {
        assert forall|hid: u64| #[trigger] other.has_handle(hid) == self.has_handle(hid) by {
            if self.has_handle(hid) {
                self.lemma_handle_index_works(hid);
                assert(other.handles[self.handle_index(hid)].id == hid);
            }
            if other.has_handle(hid) {
                other.lemma_handle_index_works(hid);
                assert(self.handles[other.handle_index(hid)].id == hid);
            }
        }
        assert forall|hid: u64| other.has_handle(hid) implies #[trigger] other.handle_at(hid)
            == self.handle_at(hid) by {
            other.lemma_handle_index_works(hid);
            self.lemma_handle_index_works(hid);
            let j1 = other.handle_index(hid);
            let j2 = self.handle_index(hid);
            assert(self.handles[j1].id == hid);
            if j1 != j2 {
                assert(self.handles[j1].id != self.handles[j2].id);
            }
        }
    }

    /// How handle membership changes when the handle at index `j` is
    /// removed.
    pub proof fn lemma_handles_remove(self, other: HeapView, j: int)
        requires
            self.handle_ids_unique(),
            0 <= j < self.handles.len(),
            other.handles == self.handles.remove(j),
        ensures
            !other.has_handle(self.handles[j].id),
            forall|hid: u64|
                hid != self.handles[j].id ==> (#[trigger] other.has_handle(hid) <==> self.has_handle(
                    hid,
                )),
            forall|hid: u64|
                hid != self.handles[j].id && self.has_handle(hid) ==> #[trigger] other.handle_at(hid)
                    == self.handle_at(hid),
            other.handle_ids_unique(),
    {
        let removed = self.handles[j].id;
        assert forall|jj: int| 0 <= jj < other.handles.len() implies (#[trigger] other.handles[jj])
            == (if jj < j {
            self.handles[jj]
        } else {
            self.handles[jj + 1]
        }) by {}
        assert forall|jj: int|
            0 <= jj < other.handles.len() implies (#[trigger] other.handles[jj]).id != removed by {
            if jj < j {
                assert(other.handles[jj] == self.handles[jj]);
            } else {
                assert(other.handles[jj] == self.handles[jj + 1]);
            }
        }
        assert forall|hid: u64| hid != removed implies (#[trigger] other.has_handle(hid))
            <==> self.has_handle(hid) by {
            if self.has_handle(hid) {
                self.lemma_handle_index_works(hid);
                let w = self.handle_index(hid);
                if w < j {
                    assert(other.handles[w].id == hid);
                } else {
                    assert(w != j);
                    assert(other.handles[w - 1] == self.handles[w]);
                    assert(other.handles[w - 1].id == hid);
                }
                assert(other.has_handle(hid));
            }
            if other.has_handle(hid) {
                other.lemma_handle_index_works(hid);
                let w = other.handle_index(hid);
                if w < j {
                    assert(self.handles[w].id == hid);
                } else {
                    assert(self.handles[w + 1].id == hid);
                }
                assert(self.has_handle(hid));
            }
        }
        assert forall|hid: u64|
            hid != removed && self.has_handle(hid) implies #[trigger] other.handle_at(hid)
            == self.handle_at(hid) by {
            self.lemma_handle_index_works(hid);
            let w = self.handle_index(hid);
            assert(other.has_handle(hid));
            other.lemma_handle_index_works(hid);
            let w2 = other.handle_index(hid);
            if w2 < j {
                assert(other.handles[w2] == self.handles[w2]);
                assert(self.handles[w2].id == hid);
                assert(w2 == w) by {
                    if w != w2 {
                        assert(self.handles[w].id != self.handles[w2].id);
                    }
                }
            } else {
                assert(other.handles[w2] == self.handles[w2 + 1]);
                assert(self.handles[w2 + 1].id == hid);
                assert(w2 + 1 == w) by {
                    if w != w2 + 1 {
                        assert(self.handles[w].id != self.handles[w2 + 1].id);
                    }
                }
            }
        }
    }

    // ------------------------------------------------------------------
    // Roots and reachability
    // ------------------------------------------------------------------

    /// The GC's non-blocking exclusive acquisition succeeds exactly when no
    /// shared warrant is outstanding.
    pub open spec fn scannable(self, id: u64) -> bool {
        self.data_at(id).shared_warrants == 0
    }

    /// The allocation is in the registry and a mutator holds a warrant on it.
    pub open spec fn in_use(self, id: u64) -> bool {
        self.has_data(id) && self.data_at(id).shared_warrants > 0
    }

    /// The handle occurs as an outgoing edge of some scannable allocation,
    /// so the in-use detection phase will stamp it as non-rooted.
    pub open spec fn observed_non_rooted(self, hid: u64) -> bool {
        exists|i: int, k: int|
            0 <= i < self.data.len() && self.data[i].shared_warrants == 0
                && 0 <= k < self.data[i].edges.len() && #[trigger] self.data[i].edges[k] == hid
    }

    /// A root: a registered handle that no scannable allocation owns, so it
    /// must be held by a mutator (or by a value the GC may not scan).
    pub open spec fn is_root(self, hid: u64) -> bool {
        self.has_handle(hid) && !self.observed_non_rooted(hid)
    }

    /// Some root handle references this allocation.
    pub open spec fn roots_target(self, id: u64) -> bool {
        exists|j: int|
            0 <= j < self.handles.len() && self.is_root((#[trigger] self.handles[j]).id)
                && self.handles[j].data_id == id
    }

    /// A starting point of the mark phase: an allocation that is in use, or
    /// one that a root handle references.
    pub open spec fn is_seed(self, id: u64) -> bool {
        self.has_data(id) && (self.data_at(id).shared_warrants > 0 || self.roots_target(id))
    }

    /// One traversal step: `b` is referenced by an edge handle owned by the
    /// scannable allocation `a`.
    pub open spec fn edge_step(self, a: u64, b: u64) -> bool {
        self.has_data(a) && self.scannable(a) && exists|k: int|
            0 <= k < self.data_at(a).edges.len()
                && self.has_handle(#[trigger] self.data_at(a).edges[k])
                && self.handle_at(self.data_at(a).edges[k]).data_id == b
    }

    /// A chain of allocations that starts at a seed and follows traversal
    /// steps through scannable allocations.
    pub open spec fn live_path(self, p: Seq<u64>) -> bool {
        p.len() > 0 && self.is_seed(p[0]) && forall|i: int|
            0 <= i && i + 1 < p.len() ==> self.edge_step(#[trigger] p[i], p[i + 1])
    }

    /// The collection whose pre-state this view is must keep the allocation.
    pub open spec fn lives(self, id: u64) -> bool {
        exists|p: Seq<u64>| self.live_path(p) && p.last() == id
    }

    /// Reachable from a mutator-held handle: a live path whose seed is the
    /// target of a root.
    pub open spec fn rooted(self, id: u64) -> bool {
        exists|p: Seq<u64>| self.live_path(p) && self.roots_target(p[0]) && p.last() == id
    }

    /// No shared warrant is outstanding anywhere.
    pub open spec fn quiescent(self) -> bool {
        forall|i: int| 0 <= i < self.data.len() ==> (#[trigger] self.data[i]).shared_warrants == 0
    }

    /// The handle occurs in some allocation's edge list, i.e. some tracked
    /// value owns it.
    pub open spec fn edge_owned(self, hid: u64) -> bool {
        exists|i: int, k: int|
            0 <= i < self.data.len() && 0 <= k < self.data[i].edges.len()
                && #[trigger] self.data[i].edges[k] == hid
    }

    /// The handle occurs in the edge list of some allocation other than the
    /// one with id `id`.
    pub open spec fn edge_owned_excluding(self, hid: u64, id: u64) -> bool {
        exists|i: int, k: int|
            0 <= i < self.data.len() && self.data[i].id != id
                && 0 <= k < self.data[i].edges.len() && #[trigger] self.data[i].edges[k] == hid
    }

    /// The handle is owned by an allocation that will not survive the next
    /// collection; the sweep removes exactly these handles.
    pub open spec fn dead_edge(self, hid: u64) -> bool {
        exists|i: int, k: int|
            0 <= i < self.data.len() && !self.lives(self.data[i].id)
                && 0 <= k < self.data[i].edges.len() && #[trigger] self.data[i].edges[k] == hid
    }

    /// Roots and liveness do not depend on the mark stamps: two views that
    /// agree on ids, edges, warrant counts and handle targets agree on every
    /// reachability notion.
    pub proof fn lemma_lives_congruent(self, other: HeapView)
        requires
            self.data.len() == other.data.len(),
            forall|i: int|
                0 <= i < self.data.len() ==> (#[trigger] other.data[i]).id == self.data[i].id
                    && other.data[i].edges == self.data[i].edges
                    && other.data[i].shared_warrants == self.data[i].shared_warrants,
            self.handles.len() == other.handles.len(),
            forall|j: int|
                0 <= j < self.handles.len() ==> (#[trigger] other.handles[j]).id
                    == self.handles[j].id && other.handles[j].data_id == self.handles[j].data_id,
            self.data_ids_unique(),
            self.handle_ids_unique(),
        ensures
            forall|id: u64| #[trigger] self.has_data(id) == other.has_data(id),
            forall|hid: u64| #[trigger] self.has_handle(hid) == other.has_handle(hid),
            forall|id: u64|
                self.has_data(id) ==> #[trigger] self.data_index(id) == other.data_index(id),
            forall|hid: u64|
                self.has_handle(hid) ==> #[trigger] self.handle_index(hid) == other.handle_index(
                    hid,
                ),
            forall|hid: u64|
                #[trigger] self.observed_non_rooted(hid) == other.observed_non_rooted(hid),
            forall|hid: u64| #[trigger] self.is_root(hid) == other.is_root(hid),
            forall|id: u64| #[trigger] self.is_seed(id) == other.is_seed(id),
            forall|a: u64, b: u64| #[trigger] self.edge_step(a, b) == other.edge_step(a, b),
            forall|id: u64| #[trigger] self.lives(id) == other.lives(id),
            forall|hid: u64| #[trigger] self.dead_edge(hid) == other.dead_edge(hid),
    {
        assert forall|id: u64| #[trigger] self.has_data(id) == other.has_data(id) by {
            if self.has_data(id) {
                let i = self.data_index(id);
                self.lemma_data_index_works(id);
                assert(other.data[i].id == id);
            }
            if other.has_data(id) {
                let i = other.data_index(id);
                other.lemma_data_index_works(id);
                assert(self.data[i].id == id);
            }
        }
        assert forall|hid: u64| #[trigger] self.has_handle(hid) == other.has_handle(hid) by {
            if self.has_handle(hid) {
                let j = self.handle_index(hid);
                self.lemma_handle_index_works(hid);
                assert(other.handles[j].id == hid);
            }
            if other.has_handle(hid) {
                let j = other.handle_index(hid);
                other.lemma_handle_index_works(hid);
                assert(self.handles[j].id == hid);
            }
        }
        assert forall|id: u64| self.has_data(id) implies #[trigger] self.data_index(id)
            == other.data_index(id) by {
            self.lemma_data_index_works(id);
            other.lemma_data_index_works(id);
            let i1 = self.data_index(id);
            let i2 = other.data_index(id);
            assert(other.data[i2].id == id);
            assert(self.data[i2].id == id);
            if i1 != i2 {
                assert(self.data[i1].id != self.data[i2].id);
            }
        }
        assert forall|hid: u64| self.has_handle(hid) implies #[trigger] self.handle_index(hid)
            == other.handle_index(hid) by {
            self.lemma_handle_index_works(hid);
            other.lemma_handle_index_works(hid);
            let j1 = self.handle_index(hid);
            let j2 = other.handle_index(hid);
            assert(other.handles[j2].id == hid);
            assert(self.handles[j2].id == hid);
            if j1 != j2 {
                assert(self.handles[j1].id != self.handles[j2].id);
            }
        }
        assert forall|hid: u64| #[trigger] self.observed_non_rooted(hid)
            == other.observed_non_rooted(hid) by {
            if self.observed_non_rooted(hid) {
                let (i, k): (int, int) = choose|i: int, k: int|
                    0 <= i < self.data.len() && self.data[i].shared_warrants == 0 && 0 <= k
                        < self.data[i].edges.len() && #[trigger] self.data[i].edges[k] == hid;
                assert(other.data[i].edges[k] == hid);
                assert(other.observed_non_rooted(hid));
            }
            if other.observed_non_rooted(hid) {
                let (i, k): (int, int) = choose|i: int, k: int|
                    0 <= i < other.data.len() && other.data[i].shared_warrants == 0 && 0 <= k
                        < other.data[i].edges.len() && #[trigger] other.data[i].edges[k] == hid;
                assert(self.data[i].edges[k] == hid);
                assert(self.observed_non_rooted(hid));
            }
        }
        assert forall|id: u64| #[trigger] self.is_seed(id) == other.is_seed(id) by {
            if self.is_seed(id) {
                self.lemma_data_index_works(id);
                if !(self.data_at(id).shared_warrants > 0) {
                    let j = choose|j: int|
                        0 <= j < self.handles.len() && self.is_root(
                            (#[trigger] self.handles[j]).id,
                        ) && self.handles[j].data_id == id;
                    assert(other.is_root(other.handles[j].id));
                    assert(other.roots_target(id));
                }
            }
            if other.is_seed(id) {
                other.lemma_data_index_works(id);
                if !(other.data_at(id).shared_warrants > 0) {
                    let j = choose|j: int|
                        0 <= j < other.handles.len() && other.is_root(
                            (#[trigger] other.handles[j]).id,
                        ) && other.handles[j].data_id == id;
                    assert(self.is_root(self.handles[j].id));
                    assert(self.roots_target(id));
                }
            }
        }
        assert forall|a: u64, b: u64| #[trigger] self.edge_step(a, b) == other.edge_step(a, b) by {
            if self.edge_step(a, b) {
                self.lemma_data_index_works(a);
                let k = choose|k: int|
                    0 <= k < self.data_at(a).edges.len() && self.has_handle(
                        #[trigger] self.data_at(a).edges[k],
                    ) && self.handle_at(self.data_at(a).edges[k]).data_id == b;
                assert(other.data_at(a) == other.data[self.data_index(a)]);
                assert(other.data_at(a).edges == self.data_at(a).edges);
                let e = self.data_at(a).edges[k];
                self.lemma_handle_index_works(e);
                assert(other.handle_at(e).data_id == self.handle_at(e).data_id);
                assert(other.edge_step(a, b));
            }
            if other.edge_step(a, b) {
                other.lemma_data_index_works(a);
                assert(self.has_data(a));
                self.lemma_data_index_works(a);
                let k = choose|k: int|
                    0 <= k < other.data_at(a).edges.len() && other.has_handle(
                        #[trigger] other.data_at(a).edges[k],
                    ) && other.handle_at(other.data_at(a).edges[k]).data_id == b;
                assert(self.data_at(a).edges == other.data_at(a).edges);
                let e = other.data_at(a).edges[k];
                other.lemma_handle_index_works(e);
                assert(self.handle_at(e).data_id == other.handle_at(e).data_id);
                assert(self.edge_step(a, b));
            }
        }
        assert forall|id: u64| #[trigger] self.lives(id) == other.lives(id) by {
            if self.lives(id) {
                let p = choose|p: Seq<u64>| self.live_path(p) && p.last() == id;
                assert(other.is_seed(p[0]));
                assert forall|i: int| 0 <= i && i + 1 < p.len() implies other.edge_step(
                    #[trigger] p[i],
                    p[i + 1],
                ) by {
                    assert(self.edge_step(p[i], p[i + 1]));
                }
                assert(other.live_path(p));
            }
            if other.lives(id) {
                let p = choose|p: Seq<u64>| other.live_path(p) && p.last() == id;
                assert(self.is_seed(p[0]));
                assert forall|i: int| 0 <= i && i + 1 < p.len() implies self.edge_step(
                    #[trigger] p[i],
                    p[i + 1],
                ) by {
                    assert(other.edge_step(p[i], p[i + 1]));
                }
                assert(self.live_path(p));
            }
        }
        assert forall|hid: u64| #[trigger] self.dead_edge(hid) == other.dead_edge(hid) by {
            if self.dead_edge(hid) {
                let (i, k): (int, int) = choose|i: int, k: int|
                    0 <= i < self.data.len() && !self.lives(self.data[i].id) && 0 <= k
                        < self.data[i].edges.len() && #[trigger] self.data[i].edges[k] == hid;
                assert(other.data[i].edges[k] == hid);
                assert(!other.lives(other.data[i].id));
                assert(other.dead_edge(hid));
            }
            if other.dead_edge(hid) {
                let (i, k): (int, int) = choose|i: int, k: int|
                    0 <= i < other.data.len() && !other.lives(other.data[i].id) && 0 <= k
                        < other.data[i].edges.len() && #[trigger] other.data[i].edges[k] == hid;
                assert(self.data[i].edges[k] == hid);
                assert(!self.lives(self.data[i].id));
                assert(self.dead_edge(hid));
            }
        }
    }

    // ------------------------------------------------------------------
    // Reachability lemmas
    // ------------------------------------------------------------------

    pub proof fn lemma_seed_lives(self, id: u64)
        requires
            self.is_seed(id),
        ensures
            self.lives(id),
    {
        let p = seq![id];
        assert(p.last() == id);
        assert(self.live_path(p));
    }

    pub proof fn lemma_live_path_extend(self, p: Seq<u64>, b: u64)
        requires
            self.live_path(p),
            self.edge_step(p.last(), b),
        ensures
            self.live_path(p.push(b)),
            p.push(b).last() == b,
            self.lives(b),
    {
        let q = p.push(b);
        assert(q[q.len() - 1] == b);
        assert forall|i: int| 0 <= i && i + 1 < q.len() implies self.edge_step(
            #[trigger] q[i],
            q[i + 1],
        ) by {
            if i + 1 < q.len() - 1 {
                assert(q[i] == p[i]);
                assert(q[i + 1] == p[i + 1]);
                assert(self.edge_step(p[i], p[i + 1]));
            } else {
                assert(q[i] == p[p.len() - 1]);
                assert(q[i + 1] == b);
            }
        }
        assert(q[0] == p[0]);
        assert(self.live_path(q));
    }

    pub proof fn lemma_lives_has_data(self, id: u64)
        requires
            self.wf(),
            self.lives(id),
        ensures
            self.has_data(id),
    {
        let p = choose|p: Seq<u64>| self.live_path(p) && p.last() == id;
        if p.len() == 1 {
            assert(p[0] == id);
        } else {
            let l = p.len() as int;
            assert(self.edge_step(p[l - 2], p[l - 1]));
            let a = p[l - 2];
            let k = choose|k: int|
                0 <= k < self.data_at(a).edges.len()
                    && self.has_handle(#[trigger] self.data_at(a).edges[k])
                    && self.handle_at(self.data_at(a).edges[k]).data_id == id;
            let hid = self.data_at(a).edges[k];
            self.lemma_handle_index_works(hid);
            let j = self.handle_index(hid);
            assert(self.has_data(self.handles[j].data_id));
        }
    }

    /// Law: if an allocation is to be kept live, then either a mutator-held
    /// (root) handle transitively reaches it through scannable allocations,
    /// or a warrant was outstanding on it so the GC could not scan it.
    pub proof fn lemma_liveness_justified(self, id: u64)
        requires
            self.wf(),
            self.lives(id),
        ensures
            self.in_use(id) || self.rooted(id),
    {
        let p = choose|p: Seq<u64>| self.live_path(p) && p.last() == id;
        assert(self.is_seed(p[0]));
        if p.len() == 1 {
            assert(p[0] == id);
            if self.data_at(id).shared_warrants > 0 {
                assert(self.in_use(id));
            } else {
                assert(self.roots_target(p[0]));
                assert(self.rooted(id));
            }
        } else {
            assert(self.edge_step(p[0], p[1]));
            assert(self.scannable(p[0]));
            assert(self.roots_target(p[0]));
            assert(self.rooted(id));
        }
    }

    /// Law: in a quiescent registry where every handle is owned by some
    /// value (no mutator holds one), nothing is live: a collection reclaims
    /// the whole heap.
    pub proof fn lemma_quiescent_unrooted_dies(self)
        requires
            self.wf(),
            self.quiescent(),
            forall|j: int| 0 <= j < self.handles.len() ==> !self.is_root((#[trigger] self.handles[j]).id),
        ensures
            forall|id: u64| !self.lives(id),
    {
        assert forall|id: u64| !self.lives(id) by {
            if self.lives(id) {
                let p = choose|p: Seq<u64>| self.live_path(p) && p.last() == id;
                assert(self.is_seed(p[0]));
                self.lemma_data_index_works(p[0]);
                let i = self.data_index(p[0]);
                assert(self.data[i].shared_warrants == 0);
                assert(self.roots_target(p[0]));
                let j = choose|j: int|
                    0 <= j < self.handles.len() && self.is_root((#[trigger] self.handles[j]).id)
                        && self.handles[j].data_id == p[0];
                assert(!self.is_root(self.handles[j].id));
            }
        }
    }

    /// Law: a root handle keeps its target allocation live.
    pub proof fn lemma_root_target_lives(self, j: int)
        requires
            self.wf(),
            0 <= j < self.handles.len(),
            self.is_root(self.handles[j].id),
        ensures
            self.lives(self.handles[j].data_id),
    {
        assert(self.roots_target(self.handles[j].data_id));
        assert(self.is_seed(self.handles[j].data_id));
        self.lemma_seed_lives(self.handles[j].data_id);
    }

    /// Law: the traversal of any registered allocation yields only handles
    /// that are themselves registered and reference registered allocations.
    pub proof fn lemma_traversal_yields_registered(self, i: int, k: int)
        requires
            self.wf(),
            0 <= i < self.data.len(),
            0 <= k < self.data[i].edges.len(),
        ensures
            self.has_handle(self.data[i].edges[k]),
            self.has_data(self.handle_at(self.data[i].edges[k]).data_id),
    {
        let hid = self.data[i].edges[k];
        assert(self.has_handle(hid));
        self.lemma_handle_index_works(hid);
        let j = self.handle_index(hid);
        assert(self.has_data(self.handles[j].data_id));
    }

    /// Law: the mark stamps never run ahead of the collection counter.
    pub proof fn lemma_stamps_bounded(self, i: int, j: int)
        requires
            self.wf(),
            0 <= i < self.data.len(),
            0 <= j < self.handles.len(),
        ensures
            self.data[i].last_marked <= self.collection_number,
            self.handles[j].last_non_rooted <= self.collection_number,
    {
    }

    /// Any marking that covers the in-use allocations and the root targets,
    /// and is closed under traversal steps out of scannable marked
    /// allocations, covers the end of every live path.  This is the
    /// completeness argument for the depth-first mark.
    pub proof fn lemma_closed_marks_cover_path(self, marked: Seq<bool>, p: Seq<u64>)
        requires
            self.wf(),
            marked.len() == self.data.len(),
            forall|i: int|
                0 <= i < self.data.len() && (#[trigger] self.data[i]).shared_warrants > 0
                    ==> marked[i],
            forall|j: int|
                0 <= j < self.handles.len() && self.is_root((#[trigger] self.handles[j]).id)
                    ==> marked[self.data_index(self.handles[j].data_id)],
            forall|i: int, k: int|
                0 <= i < self.data.len() && marked[i] && self.data[i].shared_warrants == 0
                    && 0 <= k < self.data[i].edges.len()
                    ==> marked[self.data_index(self.handle_at(
                        #[trigger] self.data[i].edges[k],
                    ).data_id)],
            self.live_path(p),
        ensures
            self.has_data(p.last()),
            marked[self.data_index(p.last())],
        decreases p.len(),
    {
        let l = p.len() as int;
        if l == 1 {
            assert(self.is_seed(p[0]));
            self.lemma_data_index_works(p[0]);
            let i = self.data_index(p[0]);
            if self.data_at(p[0]).shared_warrants > 0 {
                assert(marked[i]);
            } else {
                assert(self.roots_target(p[0]));
                let j = choose|j: int|
                    0 <= j < self.handles.len() && self.is_root((#[trigger] self.handles[j]).id)
                        && self.handles[j].data_id == p[0];
                assert(marked[self.data_index(self.handles[j].data_id)]);
            }
        } else {
            let q = p.subrange(0, l - 1);
            assert(q[0] == p[0]);
            assert forall|i: int| 0 <= i && i + 1 < q.len() implies self.edge_step(
                #[trigger] q[i],
                q[i + 1],
            ) by {
                assert(q[i] == p[i]);
                assert(q[i + 1] == p[i + 1]);
                assert(self.edge_step(p[i], p[i + 1]));
            }
            assert(self.live_path(q));
            self.lemma_closed_marks_cover_path(marked, q);
            let a = p[l - 2];
            assert(q.last() == a);
            let ia = self.data_index(a);
            assert(marked[ia]);
            assert(self.edge_step(p[l - 2], p[l - 1]));
            let k = choose|k: int|
                0 <= k < self.data_at(a).edges.len()
                    && self.has_handle(#[trigger] self.data_at(a).edges[k])
                    && self.handle_at(self.data_at(a).edges[k]).data_id == p[l - 1];
            assert(self.data_at(a) == self.data[ia]);
            assert(self.data[ia].shared_warrants == 0);
            assert(marked[self.data_index(self.handle_at(self.data[ia].edges[k]).data_id)]);
            self.lemma_handle_index_works(self.data[ia].edges[k]);
            let j = self.handle_index(self.data[ia].edges[k]);
            assert(self.has_data(self.handles[j].data_id));
            assert(self.has_data(p.last()));
        }
    }

    /// A registered handle that no dead allocation owns references a live
    /// allocation.  This is why the sweep phase, which removes exactly the
    /// handles owned by dead allocations, leaves every remaining handle
    /// pointing at a kept allocation.
    pub proof fn lemma_kept_handle_target_lives(self, j: int)
        requires
            self.wf(),
            0 <= j < self.handles.len(),
            forall|i: int, k: int|
                0 <= i < self.data.len() && !self.lives(self.data[i].id)
                    && 0 <= k < self.data[i].edges.len()
                    ==> #[trigger] self.data[i].edges[k] != self.handles[j].id,
        ensures
            self.lives(self.handles[j].data_id),
    {
        let hid = self.handles[j].id;
        self.lemma_handle_index_of(j);
        if self.is_root(hid) {
            self.lemma_root_target_lives(j);
        } else {
            assert(self.has_handle(hid));
            assert(self.observed_non_rooted(hid));
            let (i, k): (int, int) = choose|i: int, k: int|
                0 <= i < self.data.len() && self.data[i].shared_warrants == 0
                    && 0 <= k < self.data[i].edges.len() && #[trigger] self.data[i].edges[k] == hid;
            assert(self.lives(self.data[i].id));
            let p = choose|p: Seq<u64>| self.live_path(p) && p.last() == self.data[i].id;
            self.lemma_data_index_of(i);
            assert(self.data_at(self.data[i].id) == self.data[i]);
            assert(self.scannable(self.data[i].id));
            assert(self.data_at(self.data[i].id).edges[k] == hid);
            assert(self.has_handle(self.data_at(self.data[i].id).edges[k]));
            assert(self.handle_at(hid) == self.handles[j]);
            assert(self.edge_step(self.data[i].id, self.handles[j].data_id));
            self.lemma_live_path_extend(p, self.handles[j].data_id);
        }
    }
}

} // verus!

//! The user-facing smart handle.
//!
//! A `Gc<T>` wraps the handle that the collector registered for a tracked
//! value.  Because the collector is an explicit value rather than an
//! ambient singleton, every facade operation takes the collector it belongs
//! to; reading happens through a [`GcGuard`], whose shared borrow of the
//! collector plays the role of the shared warrant for its lifetime (no
//! collection can run while it is held).

use vstd::prelude::*;

use crate::collector::{Collector, DestructionPolicy, InternalGcRef};

verus! {

/// A smart handle to a value tracked by the collector.
pub struct Gc<T> {
    pub backing_handle: InternalGcRef,
    pub marker: core::marker::PhantomData<T>,
}

impl<T> Gc<T> {
    /// Track `v`; its destructor will run when it is reclaimed.
    pub fn new(collector: &mut Collector<T>, v: T) -> (gc: Gc<T>)
        requires
            old(collector).wf(),
            old(collector).monotonic_counter < u64::MAX - 1,
        ensures
            final(collector).wf(),
            gc.backing_handle.handle_id == old(collector).monotonic_counter + 1,
            final(collector).heap().has_handle(gc.backing_handle.handle_id),
            final(collector).monotonic_counter == old(collector).monotonic_counter + 2,
            final(collector).data@.len() == old(collector).data@.len() + 1,
            forall|i: int|
                0 <= i < old(collector).data@.len() ==> #[trigger] final(collector).data@[i]
                    == old(collector).data@[i],
            final(collector).data@.last().unique_id == old(collector).monotonic_counter,
            final(collector).data@.last().value == v,
            final(collector).data@.last().edges@ == Seq::<u64>::empty(),
            final(collector).data@.last().lockout.shared_count == 0,
            final(collector).data@.last().last_marked == 0,
            final(collector).data@.last().policy == DestructionPolicy::RunDestructor,
            final(collector).handles@ == old(collector).handles@.push(
                (crate::collector::GcHandle {
                    unique_id: (old(collector).monotonic_counter + 1) as u64,
                    data_id: old(collector).monotonic_counter,
                    last_non_rooted: 0,
                }),
            ),
            final(collector).drop_queue@ == old(collector).drop_queue@,
            final(collector).collection_number == old(collector).collection_number,
            final(collector).trigger == old(collector).trigger,
    {
        Self::track(collector, v, DestructionPolicy::RunDestructor)
    }

    /// Track `v` without ever running its destructor.
    pub fn new_no_drop(collector: &mut Collector<T>, v: T) -> (gc: Gc<T>)
        requires
            old(collector).wf(),
            old(collector).monotonic_counter < u64::MAX - 1,
        ensures
            final(collector).wf(),
            gc.backing_handle.handle_id == old(collector).monotonic_counter + 1,
            final(collector).heap().has_handle(gc.backing_handle.handle_id),
            final(collector).monotonic_counter == old(collector).monotonic_counter + 2,
            final(collector).data@.len() == old(collector).data@.len() + 1,
            forall|i: int|
                0 <= i < old(collector).data@.len() ==> #[trigger] final(collector).data@[i]
                    == old(collector).data@[i],
            final(collector).data@.last().unique_id == old(collector).monotonic_counter,
            final(collector).data@.last().value == v,
            final(collector).data@.last().edges@ == Seq::<u64>::empty(),
            final(collector).data@.last().lockout.shared_count == 0,
            final(collector).data@.last().last_marked == 0,
            final(collector).data@.last().policy == DestructionPolicy::NoOp,
            final(collector).handles@ == old(collector).handles@.push(
                (crate::collector::GcHandle {
                    unique_id: (old(collector).monotonic_counter + 1) as u64,
                    data_id: old(collector).monotonic_counter,
                    last_non_rooted: 0,
                }),
            ),
            final(collector).drop_queue@ == old(collector).drop_queue@,
            final(collector).collection_number == old(collector).collection_number,
            final(collector).trigger == old(collector).trigger,
    {
        Self::track(collector, v, DestructionPolicy::NoOp)
    }

    /// Track `v`; its finalizer, not its destructor, will run when it is
    /// reclaimed.
    pub fn new_with_finalizer(collector: &mut Collector<T>, v: T) -> (gc: Gc<T>)
        requires
            old(collector).wf(),
            old(collector).monotonic_counter < u64::MAX - 1,
        ensures
            final(collector).wf(),
            gc.backing_handle.handle_id == old(collector).monotonic_counter + 1,
            final(collector).heap().has_handle(gc.backing_handle.handle_id),
            final(collector).monotonic_counter == old(collector).monotonic_counter + 2,
            final(collector).data@.len() == old(collector).data@.len() + 1,
            forall|i: int|
                0 <= i < old(collector).data@.len() ==> #[trigger] final(collector).data@[i]
                    == old(collector).data@[i],
            final(collector).data@.last().unique_id == old(collector).monotonic_counter,
            final(collector).data@.last().value == v,
            final(collector).data@.last().edges@ == Seq::<u64>::empty(),
            final(collector).data@.last().lockout.shared_count == 0,
            final(collector).data@.last().last_marked == 0,
            final(collector).data@.last().policy == DestructionPolicy::RunFinalizer,
            final(collector).handles@ == old(collector).handles@.push(
                (crate::collector::GcHandle {
                    unique_id: (old(collector).monotonic_counter + 1) as u64,
                    data_id: old(collector).monotonic_counter,
                    last_non_rooted: 0,
                }),
            ),
            final(collector).drop_queue@ == old(collector).drop_queue@,
            final(collector).collection_number == old(collector).collection_number,
            final(collector).trigger == old(collector).trigger,
    {
        Self::track(collector, v, DestructionPolicy::RunFinalizer)
    }

    fn track(collector: &mut Collector<T>, v: T, policy: DestructionPolicy) -> (gc: Gc<T>)
        requires
            old(collector).wf(),
            old(collector).monotonic_counter < u64::MAX - 1,
        ensures
            final(collector).wf(),
            gc.backing_handle.handle_id == old(collector).monotonic_counter + 1,
            final(collector).heap().has_handle(gc.backing_handle.handle_id),
            final(collector).monotonic_counter == old(collector).monotonic_counter + 2,
            final(collector).data@.len() == old(collector).data@.len() + 1,
            forall|i: int|
                0 <= i < old(collector).data@.len() ==> #[trigger] final(collector).data@[i]
                    == old(collector).data@[i],
            final(collector).data@.last().unique_id == old(collector).monotonic_counter,
            final(collector).data@.last().value == v,
            final(collector).data@.last().edges@ == Seq::<u64>::empty(),
            final(collector).data@.last().lockout.shared_count == 0,
            final(collector).data@.last().last_marked == 0,
            final(collector).data@.last().policy == policy,
            final(collector).handles@ == old(collector).handles@.push(
                (crate::collector::GcHandle {
                    unique_id: (old(collector).monotonic_counter + 1) as u64,
                    data_id: old(collector).monotonic_counter,
                    last_non_rooted: 0,
                }),
            ),
            final(collector).drop_queue@ == old(collector).drop_queue@,
            final(collector).collection_number == old(collector).collection_number,
            final(collector).trigger == old(collector).trigger,
    {
        let handle = collector.track_data(v, Vec::new(), policy);
        proof {
            let m0 = old(collector).handles@.len() as int;
            assert(final(collector).handles@[m0].unique_id == handle.handle_id);
            assert(final(collector).heap().handles[m0].id == handle.handle_id);
        }
        Gc { backing_handle: handle, marker: core::marker::PhantomData }
    }

    /// Read access to the tracked value.  The guard's shared borrow of the
    /// collector stands for the shared warrant: no collection can scan the
    /// value while the guard lives.
    pub fn get<'a>(&self, collector: &'a Collector<T>) -> (guard: GcGuard<'a, T>)
        requires
            collector.wf(),
            collector.heap().has_handle(self.backing_handle.handle_id),
        ensures
            *guard.value == collector.data@[collector.target_index(
                self.backing_handle.handle_id,
            )].value,
    {
        let j = collector.find_handle_index(self.backing_handle.handle_id);
        let data_id = collector.handles[j].data_id;
        proof {
            collector.heap().lemma_handle_index_works(self.backing_handle.handle_id);
            assert(collector.heap().handles[j as int].data_id == data_id);
            assert(collector.heap().has_data(collector.heap().handles[j as int].data_id));
        }
        let i = collector.find_data_index(data_id);
        GcGuard { value: &collector.data[i].value }
    }

    /// The internal handle this smart pointer wraps.
    pub fn internal_handle(&self) -> (r: InternalGcRef)
        ensures
            r == self.backing_handle,
    {
        self.backing_handle
    }
}

/// A guard that gives access to the underlying value of a [`Gc`] while its
/// shared borrow of the collector keeps the value from being scanned or
/// reclaimed.
pub struct GcGuard<'a, T> {
    pub value: &'a T,
}

impl<'a, T> GcGuard<'a, T> {
    /// The guarded value.
    pub fn value(&self) -> (r: &'a T)
        ensures
            r == self.value,
    {
        self.value
    }
}

} // verus!

//! The non-overlap law: across any sequence of interleaved allocations and
//! deallocations with matching layouts, no two simultaneously-live allocations
//! share a byte.
//!
//! The law is stated over an abstract history: `live` holds the address and
//! length of every allocation handed out and not yet returned, and `avail` is
//! the allocator's free space. `live_ok` is the invariant; the step lemmas
//! show that every operation either allocator offers preserves it, using only
//! what the allocators' postconditions give:
//!
//! - `allocate` returns a run carved out of the free space
//!   (`range_set(addr, chunk) <= old.available()` and
//!   `final.available() == old.available() - range_set(addr, chunk)` for the
//!   fixed-size-block and fallback allocators; the bump allocator's free space
//!   `[next, heap_end)` shrinks to a subset of that difference), matching
//!   `lemma_live_alloc_step` followed by `lemma_live_shrink`;
//! - `deallocate` with the layout of a live allocation returns its run to the
//!   free space, matching `lemma_live_dealloc_step`.
//!
//! Pairwise disjointness of the live allocations is the first conjunct of the
//! invariant, so it holds in every reachable state.
use vstd::prelude::*;
use crate::allocator::fallback::range_set;

verus! {

/// The live allocations are sound against the free space `avail`: no two live
/// runs share a byte, and no live run shares a byte with the free space.
pub open spec fn live_ok(live: Seq<(int, int)>, avail: Set<int>) -> bool {
    &&& forall|k1: int, k2: int|
        0 <= k1 < k2 < live.len() ==> (#[trigger] range_set(live[k1].0, live[k1].1)).disjoint(
            #[trigger] range_set(live[k2].0, live[k2].1),
        )
    &&& forall|k: int|
        0 <= k < live.len() ==> (#[trigger] range_set(live[k].0, live[k].1)).disjoint(avail)
}

/// Law (non-overlap, allocation step): a run carved out of the free space is
/// disjoint from every live allocation, and recording it as live while taking
/// it out of the free space keeps the live set sound.
pub proof fn lemma_live_alloc_step(live: Seq<(int, int)>, avail: Set<int>, addr: int, len: int)
    requires
        live_ok(live, avail),
        range_set(addr, len) <= avail,
    ensures
        forall|k: int|
            0 <= k < live.len() ==> (#[trigger] range_set(live[k].0, live[k].1)).disjoint(
                range_set(addr, len),
            ),
        live_ok(live.push((addr, len)), avail.difference(range_set(addr, len))),
{
    let live2 = live.push((addr, len));
    let avail2 = avail.difference(range_set(addr, len));
    assert forall|k: int|
        0 <= k < live.len() implies (#[trigger] range_set(live[k].0, live[k].1)).disjoint(
        range_set(addr, len),
    ) by {
        assert forall|a: int| range_set(live[k].0, live[k].1).contains(a) implies !range_set(
            addr,
            len,
        ).contains(a) by {
            if range_set(addr, len).contains(a) {
                assert(avail.contains(a));
                assert(range_set(live[k].0, live[k].1).disjoint(avail));
            }
        }
    }
    assert forall|k1: int, k2: int|
        0 <= k1 < k2 < live2.len() implies (#[trigger] range_set(live2[k1].0, live2[k1].1)).disjoint(
        #[trigger] range_set(live2[k2].0, live2[k2].1),
    ) by {
        if k2 == live.len() {
            assert(live2[k1] == live[k1]);
            assert(range_set(live[k1].0, live[k1].1).disjoint(range_set(addr, len)));
        } else {
            assert(live2[k1] == live[k1]);
            assert(live2[k2] == live[k2]);
        }
    }
    assert forall|k: int|
        0 <= k < live2.len() implies (#[trigger] range_set(live2[k].0, live2[k].1)).disjoint(
        avail2,
    ) by {
        if k < live.len() {
            assert(live2[k] == live[k]);
            assert(range_set(live[k].0, live[k].1).disjoint(avail));
        }
    }
}

/// Law (non-overlap, deallocation step): returning one live allocation's run
/// to the free space keeps the remaining live set sound.
pub proof fn lemma_live_dealloc_step(live: Seq<(int, int)>, avail: Set<int>, k: int)
    requires
        live_ok(live, avail),
        0 <= k < live.len(),
    ensures
        live_ok(live.remove(k), avail.union(range_set(live[k].0, live[k].1))),
{
    let live2 = live.remove(k);
    let avail2 = avail.union(range_set(live[k].0, live[k].1));
    assert forall|k1: int, k2: int|
        0 <= k1 < k2 < live2.len() implies (#[trigger] range_set(live2[k1].0, live2[k1].1)).disjoint(
        #[trigger] range_set(live2[k2].0, live2[k2].1),
    ) by {
        let i1 = if k1 < k {
            k1
        } else {
            k1 + 1
        };
        let i2 = if k2 < k {
            k2
        } else {
            k2 + 1
        };
        assert(live2[k1] == live[i1]);
        assert(live2[k2] == live[i2]);
        assert(range_set(live[i1].0, live[i1].1).disjoint(range_set(live[i2].0, live[i2].1)));
    }
    assert forall|j: int|
        0 <= j < live2.len() implies (#[trigger] range_set(live2[j].0, live2[j].1)).disjoint(
        avail2,
    ) by {
        let i = if j < k {
            j
        } else {
            j + 1
        };
        assert(live2[j] == live[i]);
        assert(range_set(live[i].0, live[i].1).disjoint(avail));
        if i < k {
            assert(range_set(live[i].0, live[i].1).disjoint(range_set(live[k].0, live[k].1)));
        } else {
            assert(range_set(live[k].0, live[k].1).disjoint(range_set(live[i].0, live[i].1)));
        }
    }
}

/// One event in an allocator history, as the allocators' postconditions
/// describe it: an allocation hands out a run taken from the free space; a
/// deallocation with the matching layout returns the `k`-th live run to the
/// free space; and a reservation removes bytes from the free space without
/// making them live — the bump allocator's alignment padding, which is never
/// handed out and never returned.
pub enum HeapEvent {
    Alloc { addr: int, len: int },
    Dealloc { k: int },
    Reserve { bytes: Set<int> },
}

/// Whether an event can happen in the given state: an allocation only hands
/// out free bytes, and a deallocation only returns a live run.
pub open spec fn event_ok(live: Seq<(int, int)>, avail: Set<int>, e: HeapEvent) -> bool {
    match e {
        HeapEvent::Alloc { addr, len } => range_set(addr, len) <= avail,
        HeapEvent::Dealloc { k } => 0 <= k < live.len(),
        HeapEvent::Reserve { bytes } => true,
    }
}

/// The state after one event.
pub open spec fn apply_event(live: Seq<(int, int)>, avail: Set<int>, e: HeapEvent) -> (
    Seq<(int, int)>,
    Set<int>,
) {
    match e {
        HeapEvent::Alloc { addr, len } => (
            live.push((addr, len)),
            avail.difference(range_set(addr, len)),
        ),
        HeapEvent::Dealloc { k } => (
            live.remove(k),
            avail.union(range_set(live[k].0, live[k].1)),
        ),
        HeapEvent::Reserve { bytes } => (live, avail.difference(bytes)),
    }
}

/// The state after a whole history of events.
pub open spec fn apply_events(live: Seq<(int, int)>, avail: Set<int>, es: Seq<HeapEvent>) -> (
    Seq<(int, int)>,
    Set<int>,
)
    decreases es.len(),
{
    if es.len() == 0 {
        (live, avail)
    } else {
        let stepped = apply_event(live, avail, es[0]);
        apply_events(stepped.0, stepped.1, es.drop_first())
    }
}

/// Whether every event of a history can happen in the state the previous
/// events leave behind.
pub open spec fn events_ok(live: Seq<(int, int)>, avail: Set<int>, es: Seq<HeapEvent>) -> bool
    decreases es.len(),
{
    if es.len() == 0 {
        true
    } else {
        &&& event_ok(live, avail, es[0])
        &&& {
            let stepped = apply_event(live, avail, es[0]);
            events_ok(stepped.0, stepped.1, es.drop_first())
        }
    }
}

/// Law (non-overlap): for any sequence of interleaved allocations and
/// deallocations with no mismatched layouts, starting from a sound state, the
/// live allocations stay pairwise disjoint — no two simultaneously-live
/// allocations' address ranges overlap, in any reachable state.
pub proof fn lemma_no_overlap_in_any_history(
    live: Seq<(int, int)>,
    avail: Set<int>,
    es: Seq<HeapEvent>,
)
    requires
        live_ok(live, avail),
        events_ok(live, avail, es),
    ensures
        live_ok(apply_events(live, avail, es).0, apply_events(live, avail, es).1),
    decreases es.len(),
{
    if es.len() > 0 {
        let stepped = apply_event(live, avail, es[0]);
        match es[0] {
            HeapEvent::Alloc { addr, len } => {
                lemma_live_alloc_step(live, avail, addr, len);
            },
            HeapEvent::Dealloc { k } => {
                lemma_live_dealloc_step(live, avail, k);
            },
            HeapEvent::Reserve { bytes } => {
                assert forall|a: int| stepped.1.contains(a) implies avail.contains(a) by {}
                lemma_live_shrink(live, avail, stepped.1);
            },
        }
        lemma_no_overlap_in_any_history(stepped.0, stepped.1, es.drop_first());
    }
}

/// Law (non-overlap, framing): a live set sound against some free space is
/// sound against any smaller free space; this carries the invariant over the
/// bump allocator's alignment padding, which leaves the free space without
/// joining any allocation.
pub proof fn lemma_live_shrink(live: Seq<(int, int)>, avail: Set<int>, avail2: Set<int>)
    requires
        live_ok(live, avail),
        avail2 <= avail,
    ensures
        live_ok(live, avail2),
{
    assert forall|k: int|
        0 <= k < live.len() implies (#[trigger] range_set(live[k].0, live[k].1)).disjoint(
        avail2,
    ) by {
        assert(range_set(live[k].0, live[k].1).disjoint(avail));
        assert forall|a: int| range_set(live[k].0, live[k].1).contains(a) implies !avail2.contains(
            a,
        ) by {
            if avail2.contains(a) {
                assert(avail.contains(a));
            }
        }
    }
}

} // verus!

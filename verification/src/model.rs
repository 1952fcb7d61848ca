//! What an allocation tracker holds, how recording and freeing change it,
//! and what holds of the byte counts and of the allocations at the peak.

use crate::allocations::{
    lemma_total_size_insert, lemma_total_size_remove, lemma_total_size_replace, total_size,
    AllocationView,
};
use crate::memorytracking::{rendered_stack, CallSiteId, CallSiteView};
use vstd::prelude::*;

verus! {

/// What an allocation tracker holds.
pub ghost struct TrackerState {
    /// The live allocations, each under its address.
    pub current: Map<usize, AllocationView>,
    /// The allocations that were live when the live bytes were last at their
    /// highest.
    pub peak: Map<usize, AllocationView>,
    /// The bytes counted as live.
    pub current_bytes: nat,
    /// The highest that `current_bytes` has been.
    pub peak_bytes: nat,
    /// The registered call sites, each at the place that is its identifier.
    pub call_sites: Seq<CallSiteView>,
}

impl TrackerState {
    /// The state of a tracker that has seen nothing.
    pub open spec fn empty() -> TrackerState {
        TrackerState {
            current: Map::empty(),
            peak: Map::empty(),
            current_bytes: 0,
            peak_bytes: 0,
            call_sites: Seq::empty(),
        }
    }

    /// The state after `allocation` was recorded at `address`: it stands in
    /// place of what was live there, its size is added to the live bytes, and
    /// where these are now above the peak, the peak is what is live now.
    pub open spec fn add(self, address: usize, allocation: AllocationView) -> TrackerState {
        let current = self.current.insert(address, allocation);
        let current_bytes = self.current_bytes + allocation.size as nat;
        if current_bytes > self.peak_bytes {
            TrackerState {
                current,
                current_bytes,
                peak: current,
                peak_bytes: current_bytes,
                ..self
            }
        } else {
            TrackerState { current, current_bytes, ..self }
        }
    }

    /// The state after the allocation at `address` was freed: it is no longer
    /// live and its size is taken from the live bytes, which do not go below
    /// zero. Where nothing is live at `address`, nothing changes.
    pub open spec fn free(self, address: usize) -> TrackerState {
        if self.current.contains_key(address) {
            let size = self.current[address].size as nat;
            TrackerState {
                current: self.current.remove(address),
                current_bytes: if size > self.current_bytes {
                    0
                } else {
                    (self.current_bytes - size) as nat
                },
                ..self
            }
        } else {
            self
        }
    }

    /// Finitely many allocations are live, and finitely many at the peak.
    pub open spec fn finite(self) -> bool {
        &&& self.current.dom().finite()
        &&& self.peak.dom().finite()
    }

    /// The live bytes are no fewer than the live allocations hold and no more
    /// than the peak bytes, which are no fewer than the allocations at the peak
    /// hold.
    pub open spec fn sound(self) -> bool {
        &&& total_size(self.current) <= self.current_bytes
        &&& self.current_bytes <= self.peak_bytes
        &&& total_size(self.peak) <= self.peak_bytes
    }

    /// The live bytes are what the live allocations hold, and the peak bytes
    /// what the allocations at the peak hold.
    pub open spec fn balanced(self) -> bool {
        &&& self.current_bytes == total_size(self.current)
        &&& self.peak_bytes == total_size(self.peak)
    }

    /// Every call in the call stacks at the peak is that of a registered call
    /// site.
    pub open spec fn peak_known(self) -> bool {
        forall|address: usize, i: int| #![trigger self.peak[address].callstack[i]]
            self.peak.contains_key(address) && 0 <= i < self.peak[address].callstack.len()
                ==> self.peak[address].callstack[i] < self.call_sites.len()
    }
}

/// The allocations of `allocations` whose call stack is shown as `text`.
pub open spec fn shown_as(
    allocations: Map<usize, AllocationView>,
    call_sites: Map<CallSiteId, CallSiteView>,
    text: Seq<char>,
) -> Map<usize, AllocationView> {
    allocations.restrict(
        Set::new(
            |address: usize| rendered_stack(allocations[address].callstack, call_sites) == text,
        ),
    )
}

/// The bytes of `allocations` by call stack: for each text that the call
/// stack of an allocation is shown as, the sum of the sizes of the allocations
/// whose call stack is shown so.
pub open spec fn combined(
    allocations: Map<usize, AllocationView>,
    call_sites: Map<CallSiteId, CallSiteView>,
) -> Map<Seq<char>, nat> {
    Map::new(
        |text: Seq<char>|
            exists|address: usize|
                allocations.contains_key(address) && rendered_stack(
                    #[trigger] allocations[address].callstack,
                    call_sites,
                ) == text,
        |text: Seq<char>| total_size(shown_as(allocations, call_sites, text)),
    )
}

/// `by_call` holds each text of `sums` once, with its sum.
pub open spec fn lists_sums(by_call: Seq<(String, usize)>, sums: Map<Seq<char>, nat>) -> bool {
    &&& forall|i: int|
        0 <= i < by_call.len() ==> sums.contains_key((#[trigger] by_call[i]).0@)
            && sums[by_call[i].0@] == by_call[i].1
    &&& forall|i: int, j: int|
        0 <= i < j < by_call.len() ==> (#[trigger] by_call[i]).0@ != (#[trigger] by_call[j]).0@
    &&& forall|text: Seq<char>| #[trigger]
        sums.contains_key(text) ==> exists|i: int|
            0 <= i < by_call.len() && (#[trigger] by_call[i]).0@ == text
}

/// Part of a map sums to no more than the map.
pub proof fn lemma_total_size_part(
    part: Map<usize, AllocationView>,
    allocations: Map<usize, AllocationView>,
)
    requires
        allocations.dom().finite(),
        part.submap_of(allocations),
    ensures
        part.dom().finite(),
        total_size(part) <= total_size(allocations),
    decreases allocations.dom().len(),
{
    vstd::set_lib::lemma_set_subset_finite(allocations.dom(), part.dom());
    if allocations.dom().len() == 0 {
        allocations.dom().lemma_len0_is_empty();
        assert(part.dom() =~= Set::empty());
        assert(total_size(part) == 0);
    } else {
        let address = allocations.dom().choose();
        lemma_total_size_remove(allocations, address);
        let rest = allocations.remove(address);
        if part.contains_key(address) {
            lemma_total_size_remove(part, address);
            assert forall|other: usize| part.remove(address).dom().contains(other) implies
                #[trigger] rest.dom().contains(other) && part.remove(address)[other]
                == rest[other] by {
                assert(part.dom().contains(other) && allocations.dom().contains(other));
            }
            lemma_total_size_part(part.remove(address), rest);
        } else {
            assert forall|other: usize| part.dom().contains(other) implies
                #[trigger] rest.dom().contains(other) && part[other] == rest[other] by {
                assert(allocations.dom().contains(other));
            }
            lemma_total_size_part(part, rest);
        }
    }
}

/// One more allocation, at a new address, adds its size to the sum of its
/// call stack's text and leaves the other sums as they were.
pub proof fn lemma_combined_insert(
    allocations: Map<usize, AllocationView>,
    call_sites: Map<CallSiteId, CallSiteView>,
    address: usize,
    allocation: AllocationView,
)
    requires
        allocations.dom().finite(),
        !allocations.contains_key(address),
    ensures
        ({
            let text = rendered_stack(allocation.callstack, call_sites);
            let before = combined(allocations, call_sites);
            let sum = if before.contains_key(text) {
                before[text]
            } else {
                0
            };
            combined(allocations.insert(address, allocation), call_sites) == before.insert(
                text,
                sum + allocation.size as nat,
            )
        }),
{
    let text = rendered_stack(allocation.callstack, call_sites);
    let before = combined(allocations, call_sites);
    let with = allocations.insert(address, allocation);
    let after = combined(with, call_sites);
    let sum = if before.contains_key(text) {
        before[text]
    } else {
        0
    };
    let expected = before.insert(text, sum + allocation.size as nat);
    assert forall|other: Seq<char>| after.contains_key(other) == expected.contains_key(other) by {
        if after.contains_key(other) {
            let at = choose|at: usize|
                with.contains_key(at) && rendered_stack(
                    #[trigger] with[at].callstack,
                    call_sites,
                ) == other;
            if at != address {
                assert(allocations.contains_key(at) && rendered_stack(
                    allocations[at].callstack,
                    call_sites,
                ) == other);
            }
        }
        if expected.contains_key(other) {
            if other == text {
                assert(with.contains_key(address) && rendered_stack(
                    with[address].callstack,
                    call_sites,
                ) == other);
            } else {
                let at = choose|at: usize|
                    allocations.contains_key(at) && rendered_stack(
                        #[trigger] allocations[at].callstack,
                        call_sites,
                    ) == other;
                assert(with.contains_key(at) && rendered_stack(with[at].callstack, call_sites)
                    == other);
            }
        }
    }
    assert forall|other: Seq<char>| after.contains_key(other) implies after[other]
        == expected[other] by {
        let group = shown_as(allocations, call_sites, other);
        let group_with = shown_as(with, call_sites, other);
        if other == text {
            assert(group_with =~= group.insert(address, allocation));
            lemma_total_size_part(group, allocations);
            lemma_total_size_insert(group, address, allocation);
            if !before.contains_key(text) {
                assert(group.dom() =~= Set::empty());
                assert(total_size(group) == 0);
            }
        } else {
            assert(group_with =~= group);
        }
    }
    assert(after =~= expected);
}

/// Recording an allocation keeps a finite and sound state so.
pub proof fn lemma_add_sound(state: TrackerState, address: usize, allocation: AllocationView)
    requires
        state.finite(),
        state.sound(),
    ensures
        state.add(address, allocation).finite(),
        state.add(address, allocation).sound(),
{
    if state.current.contains_key(address) {
        lemma_total_size_replace(state.current, address, allocation);
    } else {
        lemma_total_size_insert(state.current, address, allocation);
    }
}

/// Freeing keeps a finite and sound state so, and the live bytes never have
/// to be held at zero.
pub proof fn lemma_free_sound(state: TrackerState, address: usize)
    requires
        state.finite(),
        state.sound(),
    ensures
        state.free(address).finite(),
        state.free(address).sound(),
        state.current.contains_key(address) ==> state.current[address].size
            <= state.current_bytes,
{
    if state.current.contains_key(address) {
        lemma_total_size_remove(state.current, address);
    }
}

/// What a tracker is told of the memory it watches.
pub ghost enum Event {
    /// An allocation was made at an address.
    Add { address: usize, allocation: AllocationView },
    /// The allocation at an address was freed.
    Free { address: usize },
}

impl TrackerState {
    /// The state after one event.
    pub open spec fn step(self, event: Event) -> TrackerState {
        match event {
            Event::Add { address, allocation } => self.add(address, allocation),
            Event::Free { address } => self.free(address),
        }
    }

    /// The state after `events`, in their order.
    pub open spec fn after(self, events: Seq<Event>) -> TrackerState
        decreases events.len(),
    {
        if events.len() == 0 {
            self
        } else {
            self.after(events.drop_last()).step(events.last())
        }
    }

    /// No allocation of `events` is made at an address at which one is live
    /// at that moment.
    pub open spec fn no_live_address_reused(self, events: Seq<Event>) -> bool {
        forall|i: int|
            0 <= i < events.len() ==> (#[trigger] events[i] matches Event::Add { address, .. }
                ==> !self.after(events.take(i)).current.contains_key(address))
    }
}

/// The live bytes stay the sum of the sizes of the live allocations when an
/// allocation is recorded at an address at which none is live, and when an
/// address is freed; and the peak bytes that of the allocations at the peak.
pub proof fn law_conservation_step(state: TrackerState, event: Event)
    requires
        state.finite(),
        state.balanced(),
        event matches Event::Add { address, .. } ==> !state.current.contains_key(address),
    ensures
        state.step(event).finite(),
        state.step(event).balanced(),
{
    match event {
        Event::Add { address, allocation } => {
            lemma_total_size_insert(state.current, address, allocation);
        },
        Event::Free { address } => {
            if state.current.contains_key(address) {
                lemma_total_size_remove(state.current, address);
            }
        },
    }
}

/// After any events of which none records an allocation at an address at
/// which one is live, the live bytes are the sum of the sizes of the live
/// allocations, and the peak bytes that of the allocations at the peak.
pub proof fn law_conservation(state: TrackerState, events: Seq<Event>)
    requires
        state.finite(),
        state.balanced(),
        state.no_live_address_reused(events),
    ensures
        state.after(events).finite(),
        state.after(events).balanced(),
    decreases events.len(),
{
    if events.len() > 0 {
        let earlier = events.drop_last();
        assert forall|i: int| 0 <= i < earlier.len() implies (
        #[trigger] earlier[i] matches Event::Add { address, .. } ==> !state.after(
            earlier.take(i),
        ).current.contains_key(address)) by {
            assert(earlier.take(i) == events.take(i));
            assert(earlier[i] == events[i]);
        }
        law_conservation(state, earlier);
        assert(events.take(events.len() - 1) == earlier);
        assert(events[events.len() - 1] == events.last());
        law_conservation_step(state.after(earlier), events.last());
    }
}

/// So it is with a tracker that starts with nothing: as long as no allocation
/// is recorded at an address at which one is live, its live bytes are the sum
/// of the sizes of its live allocations.
pub proof fn law_conservation_from_nothing(events: Seq<Event>)
    requires
        TrackerState::empty().no_live_address_reused(events),
    ensures
        TrackerState::empty().after(events).finite(),
        TrackerState::empty().after(events).balanced(),
{
    assert(total_size(Map::<usize, AllocationView>::empty()) == 0);
    law_conservation(TrackerState::empty(), events);
}

/// No recording and no freeing lowers the peak bytes, and the live bytes stay
/// at or below them.
pub proof fn law_peak_monotonic(state: TrackerState, events: Seq<Event>)
    ensures
        state.after(events).peak_bytes >= state.peak_bytes,
        state.current_bytes <= state.peak_bytes ==> state.after(events).current_bytes
            <= state.after(events).peak_bytes,
        state.after(events).call_sites == state.call_sites,
    decreases events.len(),
{
    if events.len() > 0 {
        law_peak_monotonic(state, events.drop_last());
    }
}

/// When recording an allocation lifts the live bytes above the peak bytes,
/// the allocations at the peak become the live ones of that moment; in every
/// other case, and whenever an address is freed, they stay what they were.
pub proof fn law_peak_snapshot(state: TrackerState, event: Event)
    ensures
        event matches Event::Add { allocation, .. } && state.current_bytes + allocation.size
            > state.peak_bytes ==> state.step(event).peak == state.step(event).current
            && state.step(event).peak_bytes == state.step(event).current_bytes,
        event matches Event::Add { allocation, .. } && state.current_bytes + allocation.size
            <= state.peak_bytes ==> state.step(event).peak == state.peak
            && state.step(event).peak_bytes == state.peak_bytes,
        event is Free ==> state.step(event).peak == state.peak && state.step(event).peak_bytes
            == state.peak_bytes,
{
}

/// The allocations at the peak are never anything but what was live at some
/// moment: after any events they are the allocations at the peak of the
/// start, or the live allocations after some of the events.
pub proof fn law_peak_was_live(state: TrackerState, events: Seq<Event>)
    ensures
        state.after(events).peak == state.peak || exists|count: int|
            0 < count <= events.len() && state.after(events).peak == (#[trigger] state.after(
                events.take(count),
            )).current,
    decreases events.len(),
{
    if events.len() > 0 {
        let earlier = events.drop_last();
        let last = events.last();
        law_peak_was_live(state, earlier);
        law_peak_snapshot(state.after(earlier), last);
        assert(events.take(events.len() as int) == events);
        if state.after(events).peak == state.after(earlier).peak {
            if state.after(earlier).peak != state.peak {
                let count = choose|count: int|
                    0 < count <= earlier.len() && state.after(earlier).peak == (
                    #[trigger] state.after(earlier.take(count))).current;
                assert(earlier.take(count) == events.take(count));
            }
        }
    }
}

} // verus!

use memapi::memorytracking::{
    add_allocation, directory_action, dump_peak_to_flamegraph, finish_call, free_allocation, reset,
    start_call, AllocationTracker, CallSite, CallSites, Callstack, DirectoryAction,
};
use std::collections;

/// A small linear congruential generator, so that the runs below are the same
/// every time.
struct Numbers {
    state: u64,
}

impl Numbers {
    fn new(seed: u64) -> Numbers {
        Numbers { state: seed }
    }

    fn next(&mut self, below: usize) -> usize {
        self.state = self
            .state
            .wrapping_mul(6364136223846793005)
            .wrapping_add(1442695040888963407);
        ((self.state >> 33) as usize) % below
    }
}

fn combined(tracker: &AllocationTracker) -> collections::HashMap<String, usize> {
    let by_call = tracker.combine_callstacks();
    let count = by_call.len();
    let result: collections::HashMap<String, usize> = by_call.into_iter().collect();
    assert_eq!(result.len(), count);
    result
}

#[test]
fn peak_allocations_only_updated_on_new_peaks() {
    let mut tracker = AllocationTracker::new();
    let mut cs1 = Callstack::new();
    cs1.start_call(1);
    let mut cs2 = Callstack::new();
    cs2.start_call(2);

    tracker.add_allocation(1, 1000, cs1.clone());
    // Peak should now match current allocations:
    assert_eq!(tracker.current_allocations(), tracker.peak_allocations());
    assert_eq!(tracker.peak_allocated_bytes(), 1000);
    let previous_peak = tracker.peak_allocations();

    // Free the allocation:
    tracker.free_allocation(1);
    assert_eq!(tracker.current_allocated_bytes(), 0);
    assert_eq!(previous_peak, tracker.peak_allocations());
    assert_eq!(tracker.peak_allocated_bytes(), 1000);

    // Add allocation, still less than 1000:
    tracker.add_allocation(3, 123, cs1.clone());
    assert_eq!(previous_peak, tracker.peak_allocations());
    assert_eq!(tracker.peak_allocated_bytes(), 1000);

    // Add allocation that goes past previous peak
    tracker.add_allocation(2, 2000, cs2.clone());
    assert_eq!(tracker.current_allocations(), tracker.peak_allocations());
    assert_eq!(tracker.peak_allocated_bytes(), 2123);
}

#[test]
fn callsites_notices_duplicate_callsites() {
    let callsite1 = CallSite::new("a", "af");
    let callsite2 = CallSite::new("b", "af");
    let callsite3 = CallSite::new("a", "bf");
    let mut callsites = CallSites::new();
    let id1 = callsites.get_or_insert_id(callsite1.clone());
    let id1b = callsites.get_or_insert_id(callsite1);
    let id2 = callsites.get_or_insert_id(callsite2);
    let id3 = callsites.get_or_insert_id(callsite3.clone());
    let id3b = callsites.get_or_insert_id(callsite3.clone());
    assert_eq!(id1, id1b);
    assert_ne!(id1, id2);
    assert_ne!(id1, id3);
    assert_ne!(id2, id3);
    assert_eq!(id3, id3b);
}

#[test]
fn combine_callstacks_and_sum_allocations() {
    let mut tracker = AllocationTracker::new();
    let id1 = tracker.get_or_insert_id(CallSite::new("a", "af"));

    let id2 = tracker.get_or_insert_id(CallSite::new("b", "bf"));

    let id3 = tracker.get_or_insert_id(CallSite::new("c", "cf"));
    let mut cs1 = Callstack::new();
    cs1.start_call(id1);
    cs1.start_call(id2);
    let mut cs2 = Callstack::new();
    cs2.start_call(id3);

    tracker.add_allocation(1, 1000, cs1.clone());
    tracker.add_allocation(2, 234, cs2.clone());
    tracker.add_allocation(3, 50000, cs1.clone());

    let mut expected: collections::HashMap<String, usize> = collections::HashMap::new();
    expected.insert("a:af;b:bf".to_string(), 51000);
    expected.insert("c:cf".to_string(), 234);
    assert_eq!(expected, combined(&tracker));
}

#[test]
fn current_allocated_matches_sum_of_allocations() {
    for seed in 0..40u64 {
        let mut numbers = Numbers::new(seed);
        let count = 10 + numbers.next(10);
        let allocated_sizes: Vec<usize> = (0..count).map(|_| 1 + numbers.next(999)).collect();
        let mut tracker = AllocationTracker::new();
        for i in 0..allocated_sizes.len() {
            tracker.add_allocation(i, allocated_sizes[i], Callstack::new());
        }
        let mut expected_sum: usize = allocated_sizes.iter().sum();
        assert_eq!(tracker.current_allocated_bytes(), expected_sum);
        let mut freed: Vec<usize> = Vec::new();
        for _ in 0..(5 + numbers.next(5)) {
            let i = numbers.next(allocated_sizes.len());
            if freed.contains(&i) {
                continue;
            }
            freed.push(i);
            expected_sum -= allocated_sizes[i];
            tracker.free_allocation(i);
            assert_eq!(tracker.current_allocated_bytes(), expected_sum);
            let held: usize = tracker
                .current_allocations()
                .values()
                .map(|allocation| allocation.size())
                .sum();
            assert_eq!(held, expected_sum);
        }
    }
}

#[test]
fn peak_never_falls_and_bounds_current() {
    let mut numbers = Numbers::new(7);
    let mut tracker = AllocationTracker::new();
    let mut previous_peak = 0;
    for step in 0..500usize {
        if numbers.next(3) == 0 {
            tracker.free_allocation(numbers.next(40));
        } else {
            let address = numbers.next(40);
            tracker.free_allocation(address);
            tracker.add_allocation(address, 1 + numbers.next(5000), Callstack::new());
        }
        assert!(tracker.peak_allocated_bytes() >= previous_peak, "step {}", step);
        assert!(tracker.peak_allocated_bytes() >= tracker.current_allocated_bytes());
        let at_peak: usize = tracker
            .peak_allocations()
            .values()
            .map(|allocation| allocation.size())
            .sum();
        assert_eq!(at_peak, tracker.peak_allocated_bytes());
        previous_peak = tracker.peak_allocated_bytes();
    }
}

#[test]
fn peak_snapshot_is_apart_from_current() {
    let mut tracker = AllocationTracker::new();
    let mut stack = Callstack::new();
    stack.start_call(0);
    tracker.add_allocation(10, 50, stack.clone());
    tracker.add_allocation(20, 70, stack.clone());
    let peak = tracker.peak_allocations();
    assert_eq!(peak, tracker.current_allocations());
    assert_eq!(peak.len(), 2);
    tracker.free_allocation(10);
    tracker.add_allocation(30, 1, Callstack::new());
    assert_eq!(peak, tracker.peak_allocations());
    assert_ne!(peak, tracker.current_allocations());
    assert_eq!(peak.get(&10).unwrap().size(), 50);
    assert_eq!(peak.get(&10).unwrap().callstack(), &stack);
    assert_eq!(tracker.peak_allocated_bytes(), 120);
    assert_eq!(tracker.current_allocated_bytes(), 71);
}

#[test]
fn peak_needs_strictly_more_bytes() {
    let mut tracker = AllocationTracker::new();
    tracker.add_allocation(1, 100, Callstack::new());
    tracker.free_allocation(1);
    tracker.add_allocation(2, 100, Callstack::new());
    assert_eq!(tracker.peak_allocated_bytes(), 100);
    assert!(tracker.peak_allocations().contains_key(&1));
    assert!(!tracker.peak_allocations().contains_key(&2));
}

#[test]
fn free_of_unknown_address_is_a_no_op() {
    let mut tracker = AllocationTracker::new();
    tracker.free_allocation(99);
    assert_eq!(tracker.current_allocated_bytes(), 0);
    assert_eq!(tracker.peak_allocated_bytes(), 0);
    assert!(tracker.current_allocations().is_empty());

    tracker.add_allocation(1, 10, Callstack::new());
    tracker.free_allocation(99);
    assert_eq!(tracker.current_allocated_bytes(), 10);
    assert_eq!(tracker.current_allocations().len(), 1);
}

#[test]
fn allocation_at_a_live_address_takes_its_place_and_counts_twice() {
    let mut tracker = AllocationTracker::new();
    tracker.add_allocation(1, 10, Callstack::new());
    tracker.add_allocation(1, 5, Callstack::new());
    assert_eq!(tracker.current_allocations().len(), 1);
    assert_eq!(tracker.current_allocations().get(&1).unwrap().size(), 5);
    assert_eq!(tracker.current_allocated_bytes(), 15);
    assert_eq!(tracker.peak_allocated_bytes(), 15);
    tracker.free_allocation(1);
    assert_eq!(tracker.current_allocated_bytes(), 10);
    assert!(tracker.current_allocations().is_empty());
}

#[test]
fn registry_gives_out_identifiers_from_zero() {
    let mut callsites = CallSites::new();
    assert_eq!(callsites.len(), 0);
    assert_eq!(callsites.get_or_insert_id(CallSite::new("m", "f")), 0);
    assert_eq!(callsites.get_or_insert_id(CallSite::new("m", "g")), 1);
    assert_eq!(callsites.get_or_insert_id(CallSite::new("n", "f")), 2);
    assert_eq!(callsites.get_or_insert_id(CallSite::new("m", "g")), 1);
    assert_eq!(callsites.get_or_insert_id(CallSite::new("m", "f")), 0);
    assert_eq!(callsites.len(), 3);
    assert!(callsites.has_room_for(&CallSite::new("o", "h")));
}

#[test]
fn registry_tells_module_from_function() {
    let mut callsites = CallSites::new();
    let first = callsites.get_or_insert_id(CallSite::new("ab", "c"));
    let second = callsites.get_or_insert_id(CallSite::new("a", "bc"));
    let third = callsites.get_or_insert_id(CallSite::new("a:b", "c"));
    let fourth = callsites.get_or_insert_id(CallSite::new("a", "b:c"));
    assert_eq!((first, second, third, fourth), (0, 1, 2, 3));
}

#[test]
fn reverse_map_is_a_map_of_its_own() {
    let mut callsites = CallSites::new();
    let id1 = callsites.get_or_insert_id(CallSite::new("a", "af"));
    let id2 = callsites.get_or_insert_id(CallSite::new("b", "bf"));
    let mut reverse = callsites.get_reverse_map();
    assert_eq!(reverse.len(), 2);
    assert_eq!(reverse.get(&id1), Some(&CallSite::new("a", "af")));
    assert_eq!(reverse.get(&id2), Some(&CallSite::new("b", "bf")));
    reverse.clear();
    assert_eq!(callsites.get_or_insert_id(CallSite::new("a", "af")), id1);
    assert_eq!(callsites.get_reverse_map().len(), 2);
}

#[test]
fn call_site_is_shown_with_a_colon() {
    assert_eq!(CallSite::new("module", "function").to_string(), "module:function");
    assert_eq!(CallSite::new("", "").to_string(), ":");
}

#[test]
fn call_sites_compare_by_both_names() {
    let call_site = CallSite::new("a", "af");
    assert!(call_site.same_as(&CallSite::new("a", "af")));
    assert!(!call_site.same_as(&CallSite::new("a", "bf")));
    assert!(!call_site.same_as(&CallSite::new("b", "af")));
    assert_eq!(call_site, call_site.clone());
}

#[test]
fn callstack_is_shown_outermost_first() {
    let mut callsites = CallSites::new();
    let a = callsites.get_or_insert_id(CallSite::new("a", "af"));
    let b = callsites.get_or_insert_id(CallSite::new("b", "bf"));
    let c = callsites.get_or_insert_id(CallSite::new("c", "cf"));
    let reverse = callsites.get_reverse_map();
    let mut stack = Callstack::new();
    stack.start_call(a);
    assert_eq!(stack.as_string(&reverse), "a:af");
    stack.start_call(b);
    stack.start_call(c);
    stack.start_call(a);
    assert_eq!(stack.as_string(&reverse), "a:af;b:bf;c:cf;a:af");
    stack.finish_call();
    assert_eq!(stack.as_string(&reverse), "a:af;b:bf;c:cf");
    assert_eq!(stack.calls(), &vec![a, b, c]);
}

#[test]
fn empty_callstack_is_shown_as_no_stack() {
    let reverse = CallSites::new().get_reverse_map();
    assert_eq!(Callstack::new().as_string(&reverse), "[No Python stack]");

    let mut tracker = AllocationTracker::new();
    tracker.add_allocation(1, 12, Callstack::new());
    let mut expected: collections::HashMap<String, usize> = collections::HashMap::new();
    expected.insert("[No Python stack]".to_string(), 12);
    assert_eq!(expected, combined(&tracker));
}

#[test]
fn finish_call_on_an_empty_callstack_changes_nothing() {
    let mut stack = Callstack::new();
    stack.finish_call();
    assert_eq!(stack, Callstack::new());
    stack.start_call(4);
    stack.finish_call();
    stack.finish_call();
    assert_eq!(stack, Callstack::new());
}

#[test]
fn recorded_callstack_is_a_copy() {
    let mut tracker = AllocationTracker::new();
    let mut stack = Callstack::new();
    start_call(&mut tracker, &mut stack, CallSite::new("a", "af"));
    add_allocation(&mut tracker, &stack, 1, 100);
    start_call(&mut tracker, &mut stack, CallSite::new("b", "bf"));
    add_allocation(&mut tracker, &stack, 2, 10);
    finish_call(&mut stack);
    finish_call(&mut stack);
    let mut expected: collections::HashMap<String, usize> = collections::HashMap::new();
    expected.insert("a:af".to_string(), 100);
    expected.insert("a:af;b:bf".to_string(), 10);
    assert_eq!(expected, combined(&tracker));
}

#[test]
fn combine_callstacks_looks_at_the_peak() {
    let mut tracker = AllocationTracker::new();
    let mut stack = Callstack::new();
    start_call(&mut tracker, &mut stack, CallSite::new("a", "af"));
    add_allocation(&mut tracker, &stack, 1, 100);
    add_allocation(&mut tracker, &stack, 2, 200);
    free_allocation(&mut tracker, 1);
    free_allocation(&mut tracker, 2);
    add_allocation(&mut tracker, &Callstack::new(), 3, 5);
    let mut expected: collections::HashMap<String, usize> = collections::HashMap::new();
    expected.insert("a:af".to_string(), 300);
    assert_eq!(expected, combined(&tracker));
    assert_eq!(tracker.current_allocated_bytes(), 5);
}

#[test]
fn peak_callstacks_known_tells_unregistered_calls() {
    let mut tracker = AllocationTracker::new();
    assert!(tracker.peak_callstacks_known());
    let id = tracker.get_or_insert_id(CallSite::new("a", "af"));
    let mut stack = Callstack::new();
    stack.start_call(id);
    tracker.add_allocation(1, 10, stack.clone());
    assert!(tracker.peak_callstacks_known());
    stack.start_call(id + 1);
    tracker.add_allocation(2, 10, stack);
    assert!(!tracker.peak_callstacks_known());
    tracker.get_or_insert_id(CallSite::new("b", "bf"));
    assert!(tracker.peak_callstacks_known());
}

#[test]
fn dump_gives_one_line_for_each_callstack() {
    let mut tracker = AllocationTracker::new();
    let mut stack = Callstack::new();
    start_call(&mut tracker, &mut stack, CallSite::new("a", "af"));
    start_call(&mut tracker, &mut stack, CallSite::new("b", "bf"));
    add_allocation(&mut tracker, &stack, 1, 1000);
    add_allocation(&mut tracker, &stack, 3, 50000);
    finish_call(&mut stack);
    finish_call(&mut stack);
    start_call(&mut tracker, &mut stack, CallSite::new("c", "cf"));
    add_allocation(&mut tracker, &stack, 2, 234);
    finish_call(&mut stack);
    add_allocation(&mut tracker, &stack, 4, 7);
    let mut lines = dump_peak_to_flamegraph(&tracker);
    lines.sort();
    assert_eq!(
        lines,
        vec![
            "[No Python stack] 7".to_string(),
            "a:af;b:bf 51000".to_string(),
            "c:cf 234".to_string(),
        ]
    );
}

#[test]
fn dump_of_a_new_tracker_is_empty() {
    let tracker = AllocationTracker::new();
    assert!(dump_peak_to_flamegraph(&tracker).is_empty());
    assert!(tracker.combine_callstacks().is_empty());
}

#[test]
fn dump_writes_bytes_in_base_ten() {
    for bytes in [1usize, 9, 10, 99, 100, 1024, 65535, 1234567890, usize::MAX] {
        let mut tracker = AllocationTracker::new();
        tracker.add_allocation(1, bytes, Callstack::new());
        assert_eq!(
            dump_peak_to_flamegraph(&tracker),
            vec![format!("[No Python stack] {}", bytes)]
        );
    }
}

#[test]
fn reset_forgets_everything() {
    let mut tracker = AllocationTracker::new();
    let mut stack = Callstack::new();
    start_call(&mut tracker, &mut stack, CallSite::new("a", "af"));
    add_allocation(&mut tracker, &stack, 1, 100);
    reset(&mut tracker);
    assert_eq!(tracker.current_allocated_bytes(), 0);
    assert_eq!(tracker.peak_allocated_bytes(), 0);
    assert!(tracker.current_allocations().is_empty());
    assert!(tracker.peak_allocations().is_empty());
    assert!(tracker.get_reverse_map().is_empty());
    assert_eq!(tracker.get_or_insert_id(CallSite::new("b", "bf")), 0);
}

#[test]
fn directory_is_made_kept_or_refused() {
    assert_eq!(directory_action(false, false), DirectoryAction::Create);
    assert_eq!(directory_action(false, true), DirectoryAction::Create);
    assert_eq!(directory_action(true, true), DirectoryAction::Keep);
    assert_eq!(directory_action(true, false), DirectoryAction::Refuse);
}

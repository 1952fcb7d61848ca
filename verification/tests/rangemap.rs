use memapi::rangemap::{Range, RangeMap};
use std::collections::{BTreeMap, HashMap};

/// RangeMap that has a key for each address in the range, rather than a
/// smarter technique involving ranges.
struct StupidRangeMap<V> {
    items: BTreeMap<usize, V>,
}

impl<V: PartialEq + Clone + std::fmt::Debug> StupidRangeMap<V> {
    fn new() -> Self {
        StupidRangeMap {
            items: BTreeMap::new(),
        }
    }

    fn add(&mut self, start: usize, length: usize, value: V) {
        assert!(length > 0);
        for i in start..(start + length) {
            self.items.insert(i, value.clone());
        }
    }

    fn remove(&mut self, start: usize, length: usize) -> usize {
        assert!(length > 0);
        let mut removed = 0;
        for i in start..(start + length) {
            if let Some(_) = self.items.remove(&i) {
                removed += 1;
            }
        }
        removed
    }

    fn size(&self) -> usize {
        self.items.len()
    }

    fn as_hashmap(&self) -> HashMap<usize, (usize, &V)> {
        let mut result: HashMap<usize, (usize, &V)> = HashMap::new();
        let mut last_start: Option<usize> = None;
        let mut last_k: usize = 0;
        for (k, v) in self.items.iter() {
            let extends = match last_start {
                Some(start) => *result[&start].1 == *v && *k == last_k + 1,
                None => false,
            };
            if extends {
                result.get_mut(&last_start.unwrap()).unwrap().0 += 1;
            } else {
                result.insert(*k, (1, v));
                last_start = Some(*k);
            }
            last_k = *k;
        }
        result
    }
}

struct Numbers {
    state: u64,
}

impl Numbers {
    fn next(&mut self, below: usize) -> usize {
        self.state = self
            .state
            .wrapping_mul(6364136223846793005)
            .wrapping_add(1442695040888963407);
        ((self.state >> 33) as usize) % below
    }
}

/// Ranges of which no two share or touch an address, in a shuffled order.
fn ranges(numbers: &mut Numbers) -> Vec<(usize, usize)> {
    let count = 1 + numbers.next(19);
    let mut result: Vec<(usize, usize)> = Vec::new();
    let mut previous_start = 0usize;
    for _ in 0..count {
        let shift_start = 1 + numbers.next(19);
        let length = 1 + numbers.next(19);
        previous_start += shift_start;
        result.push((previous_start, length));
        previous_start += length;
    }
    for i in (1..result.len()).rev() {
        let j = numbers.next(i + 1);
        result.swap(i, j);
    }
    result
}

#[test]
fn adding_removing_ranges() {
    for seed in 0..300u64 {
        let mut numbers = Numbers { state: seed };
        let add_ranges = ranges(&mut numbers);
        let remove_ranges = ranges(&mut numbers);
        let mut real_rangemap: RangeMap<usize> = RangeMap::new();
        let mut stupid_rangemap: StupidRangeMap<usize> = StupidRangeMap::new();
        for (start, length) in add_ranges {
            real_rangemap.add(start, length, start * length);
            stupid_rangemap.add(start, length, start * length);
            assert_eq!(real_rangemap.size(), stupid_rangemap.size());
            assert_eq!(real_rangemap.as_hashmap(), stupid_rangemap.as_hashmap());
        }
        for (start, length) in remove_ranges {
            let removed1 = real_rangemap.remove(start, length * 2);
            let removed2 = stupid_rangemap.remove(start, length * 2);
            assert_eq!(removed1, removed2);
            assert_eq!(real_rangemap.size(), stupid_rangemap.size());
            assert_eq!(real_rangemap.as_hashmap(), stupid_rangemap.as_hashmap());
        }
    }
}

fn snapshot(map: &RangeMap<&'static str>) -> Vec<(usize, usize, &'static str)> {
    let mut entries: Vec<(usize, usize, &'static str)> = map
        .as_hashmap()
        .into_iter()
        .map(|(start, (length, value))| (start, length, *value))
        .collect();
    entries.sort();
    entries
}

#[test]
fn remove_from_the_middle_leaves_two_fragments() {
    let mut map: RangeMap<&'static str> = RangeMap::new();
    map.add(0, 10, "X");
    assert_eq!(map.remove(3, 4), 4);
    assert_eq!(snapshot(&map), vec![(0, 3, "X"), (7, 3, "X")]);
    assert_eq!(map.size(), 6);
}

#[test]
fn remove_from_the_start_or_the_end_leaves_one_fragment() {
    let mut map: RangeMap<&'static str> = RangeMap::new();
    map.add(10, 10, "X");
    assert_eq!(map.remove(5, 8), 3);
    assert_eq!(snapshot(&map), vec![(13, 7, "X")]);
    assert_eq!(map.remove(18, 100), 2);
    assert_eq!(snapshot(&map), vec![(13, 5, "X")]);
    assert_eq!(map.remove(13, 1), 1);
    assert_eq!(snapshot(&map), vec![(14, 4, "X")]);
    assert_eq!(map.remove(17, 1), 1);
    assert_eq!(snapshot(&map), vec![(14, 3, "X")]);
}

#[test]
fn remove_of_a_whole_range_drops_it() {
    let mut map: RangeMap<&'static str> = RangeMap::new();
    map.add(10, 10, "X");
    map.add(30, 5, "Y");
    assert_eq!(map.remove(10, 10), 10);
    assert_eq!(snapshot(&map), vec![(30, 5, "Y")]);
    assert_eq!(map.remove(0, 100), 5);
    assert_eq!(snapshot(&map), vec![]);
    assert_eq!(map.size(), 0);
}

#[test]
fn remove_across_several_ranges() {
    let mut map: RangeMap<&'static str> = RangeMap::new();
    map.add(0, 10, "A");
    map.add(10, 10, "B");
    map.add(25, 5, "C");
    assert_eq!(map.remove(5, 22), 5 + 10 + 2);
    assert_eq!(snapshot(&map), vec![(0, 5, "A"), (27, 3, "C")]);
    assert_eq!(map.size(), 8);
}

#[test]
fn remove_where_nothing_is_tracked_returns_zero() {
    let mut map: RangeMap<&'static str> = RangeMap::new();
    assert_eq!(map.remove(0, 10), 0);
    map.add(10, 10, "X");
    assert_eq!(map.remove(0, 10), 0);
    assert_eq!(map.remove(20, 10), 0);
    assert_eq!(snapshot(&map), vec![(10, 10, "X")]);
}

#[test]
fn zero_length_is_a_no_op() {
    let mut map: RangeMap<&'static str> = RangeMap::new();
    map.add(5, 0, "X");
    assert_eq!(map.size(), 0);
    assert!(map.as_hashmap().is_empty());
    map.add(5, 5, "Y");
    assert_eq!(map.remove(6, 0), 0);
    assert_eq!(snapshot(&map), vec![(5, 5, "Y")]);
}

#[test]
fn adjacent_ranges_with_the_same_value_stay_apart() {
    let mut map: RangeMap<&'static str> = RangeMap::new();
    map.add(0, 5, "X");
    map.add(5, 5, "X");
    assert_eq!(snapshot(&map), vec![(0, 5, "X"), (5, 5, "X")]);
    assert_eq!(map.size(), 10);
}

#[test]
fn ranges_up_to_the_end_of_the_address_space() {
    let mut map: RangeMap<&'static str> = RangeMap::new();
    map.add(usize::MAX - 10, 10, "X");
    assert_eq!(map.size(), 10);
    assert_eq!(map.remove(usize::MAX - 5, 5), 5);
    assert_eq!(snapshot(&map), vec![(usize::MAX - 10, 5, "X")]);
}

#[test]
fn range_intersections() {
    let range = Range::new(10, 10);
    assert_eq!(range, Range { start: 10, end: 20 });
    assert_eq!(range.size(), 10);
    assert_eq!(range.intersection(&Range::new(0, 10)), None);
    assert_eq!(range.intersection(&Range::new(20, 5)), None);
    assert_eq!(range.intersection(&Range::new(0, 11)), Some(Range { start: 10, end: 11 }));
    assert_eq!(range.intersection(&Range::new(19, 5)), Some(Range { start: 19, end: 20 }));
    assert_eq!(range.intersection(&Range::new(12, 3)), Some(Range { start: 12, end: 15 }));
    assert_eq!(range.intersection(&Range::new(0, 100)), Some(range));
}

#[test]
fn checked_size_tells_when_the_lengths_do_not_fit() {
    let mut map: RangeMap<&'static str> = RangeMap::new();
    assert_eq!(map.checked_size(), Some(0));
    map.add(0, usize::MAX, "X");
    assert_eq!(map.checked_size(), Some(usize::MAX));
    assert_eq!(map.size(), usize::MAX);
    map.add(5, 1, "Y");
    assert_eq!(map.checked_size(), None);
}

#[test]
fn clone_is_a_map_of_its_own() {
    let mut map: RangeMap<&'static str> = RangeMap::new();
    map.add(0, 10, "X");
    let copy = map.clone();
    assert_eq!(map.remove(0, 5), 5);
    assert_eq!(snapshot(&copy), vec![(0, 10, "X")]);
    assert_eq!(snapshot(&map), vec![(5, 5, "X")]);
    assert_ne!(map, copy);
}

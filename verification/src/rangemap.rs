//! A map from ranges of addresses to values, for memory of which a part can
//! be given back: a removal takes addresses out of the entries it meets and
//! leaves what is left of them.

use std::collections::HashMap;
use vstd::prelude::*;

verus! {

broadcast use vstd::std_specs::hash::group_hash_axioms;

/// Half-open range of addresses, `[start, end)`.
#[derive(Clone, Copy, Debug, PartialEq)]
pub struct Range {
    pub start: usize,
    pub end: usize,
}

impl Range {
    /// A range holds at least one address.
    pub open spec fn valid(&self) -> bool {
        self.start < self.end
    }

    /// Whether `address` lies in the range.
    pub open spec fn contains(&self, address: int) -> bool {
        self.start <= address < self.end
    }

    /// Number of addresses in the range.
    pub open spec fn len(&self) -> nat {
        if self.start <= self.end {
            (self.end - self.start) as nat
        } else {
            0
        }
    }

    /// The addresses that both ranges hold, if there are any.
    pub open spec fn common(&self, other: Range) -> Option<Range> {
        let start = if self.start >= other.start {
            self.start
        } else {
            other.start
        };
        let end = if self.end <= other.end {
            self.end
        } else {
            other.end
        };
        if end <= start {
            None
        } else {
            Some(Range { start, end })
        }
    }

    /// The range of `length` addresses that begins at `start`.
    pub fn new(start: usize, length: libc::size_t) -> (range: Self)
        requires
            length > 0,
            start + length <= usize::MAX,
        ensures
            range.start == start,
            range.end == start + length,
            range.valid(),
    {
        Range { start, end: start + length }
    }

    /// The part of the address space that lies in both ranges, `None` where
    /// they share no address.
    pub fn intersection(&self, other: &Range) -> (shared: Option<Range>)
        ensures
            shared == self.common(*other),
            shared matches Some(range) ==> range.valid(),
    {
        let max_start = if self.start >= other.start {
            self.start
        } else {
            other.start
        };
        let min_end = if self.end <= other.end {
            self.end
        } else {
            other.end
        };
        if min_end <= max_start {
            None
        } else {
            Some(Range { start: max_start, end: min_end })
        }
    }

    /// Number of addresses in the range.
    pub fn size(&self) -> (size: usize)
        requires
            self.start <= self.end,
        ensures
            size == self.len(),
    {
        self.end - self.start
    }
}

/// What is left of `range` once the addresses of `cut` are taken out: the part
/// below `cut` and the part above it, each only if it holds an address.
pub open spec fn kept(range: Range, cut: Range) -> Seq<Range> {
    let below = Range {
        start: range.start,
        end: if range.end <= cut.start {
            range.end
        } else {
            cut.start
        },
    };
    let above = Range {
        start: if range.start >= cut.end {
            range.start
        } else {
            cut.end
        },
        end: range.end,
    };
    let first = if below.valid() {
        seq![below]
    } else {
        seq![]
    };
    let second = if above.valid() {
        seq![above]
    } else {
        seq![]
    };
    first + second
}

/// The entries that remain once the addresses of `cut` are taken out of every
/// entry, in the order of `entries`; each part carries the value of the entry
/// it was cut from.
pub open spec fn carved<V>(entries: Seq<(Range, V)>, cut: Range) -> Seq<(Range, V)>
    decreases entries.len(),
{
    if entries.len() == 0 {
        seq![]
    } else {
        let entry = entries.last();
        carved(entries.drop_last(), cut) + kept(entry.0, cut).map_values(
            |part: Range| (part, entry.1),
        )
    }
}

/// Sum of the lengths of the ranges of `entries`.
pub open spec fn covered<V>(entries: Seq<(Range, V)>) -> nat
    decreases entries.len(),
{
    if entries.len() == 0 {
        0
    } else {
        covered(entries.drop_last()) + entries.last().0.len()
    }
}

/// Sum, over `entries`, of the number of addresses that an entry shares with
/// `cut`.
pub open spec fn shared_with<V>(entries: Seq<(Range, V)>, cut: Range) -> nat
    decreases entries.len(),
{
    if entries.len() == 0 {
        0
    } else {
        let rest = shared_with(entries.drop_last(), cut);
        match entries.last().0.common(cut) {
            Some(range) => rest + range.len(),
            None => rest,
        }
    }
}

/// Every range holds an address.
pub open spec fn all_valid<V>(entries: Seq<(Range, V)>) -> bool {
    forall|i: int| 0 <= i < entries.len() ==> (#[trigger] entries[i]).0.valid()
}

/// No address lies in two entries.
pub open spec fn disjoint<V>(entries: Seq<(Range, V)>) -> bool {
    forall|i: int, j: int|
        0 <= i < j < entries.len() ==> (#[trigger] entries[i]).0.common(
            (#[trigger] entries[j]).0,
        ) is None
}

/// No entry shares an address with `range`.
pub open spec fn apart_from<V>(entries: Seq<(Range, V)>, range: Range) -> bool {
    forall|i: int| 0 <= i < entries.len() ==> (#[trigger] entries[i]).0.common(range) is None
}

/// Every range lies within `range`.
pub open spec fn all_within<V>(entries: Seq<(Range, V)>, range: Range) -> bool {
    forall|i: int|
        0 <= i < entries.len() ==> range.start <= (#[trigger] entries[i]).0.start
            && entries[i].0.end <= range.end
}

/// The same ranges in the same order, each value of `copy` being the value at
/// the same place in `entries` or a clone of it.
pub open spec fn same_or_cloned<V: Clone>(entries: Seq<(Range, V)>, copy: Seq<(Range, V)>) -> bool {
    &&& entries.len() == copy.len()
    &&& forall|i: int|
        0 <= i < entries.len() ==> (#[trigger] copy[i]).0 == entries[i].0 && cloned(
            entries[i].1,
            copy[i].1,
        )
}

/// Of the parts that are left of an entry, the last one holds the entry's own
/// value, not a clone of it; so an entry that the cut does not touch is in
/// `result` as it was.
pub open spec fn keeps_values<V>(
    entries: Seq<(Range, V)>,
    cut: Range,
    result: Seq<(Range, V)>,
) -> bool {
    forall|i: int|
        0 <= i < entries.len() && kept((#[trigger] entries[i]).0, cut).len() > 0 ==> {
            let at = carved(entries.take(i + 1), cut).len() - 1;
            0 <= at < result.len() && result[at].1 == entries[i].1
        }
}

/// The map from each entry's first address to its length and value; of two
/// entries with the same first address the later one stands.
pub open spec fn starts<'a, V>(entries: Seq<(Range, V)>) -> Map<usize, (usize, &'a V)>
    decreases entries.len(),
{
    if entries.len() == 0 {
        Map::empty()
    } else {
        let entry = entries.last();
        starts(entries.drop_last()).insert(entry.0.start, (entry.0.len() as usize, &entry.1))
    }
}

/// Map from ranges of addresses to values, where a removal may take out a
/// part of a range, or parts of several.
#[derive(Debug, PartialEq)]
pub struct RangeMap<V: Clone> {
    ranges: Vec<(Range, V)>,
}

impl<V: Clone> Clone for RangeMap<V> {
    fn clone(&self) -> (copy: Self)
        ensures
            same_or_cloned(self@, copy@),
    {
        let mut ranges: Vec<(Range, V)> = Vec::new();
        let mut i: usize = 0;
        while i < self.ranges.len()
            invariant
                i <= self.ranges.len(),
                same_or_cloned(self.ranges@.take(i as int), ranges@),
            decreases self.ranges.len() - i,
        {
            ranges.push((self.ranges[i].0, self.ranges[i].1.clone()));
            i = i + 1;
        }
        proof {
            assert(self.ranges@.take(i as int) == self.ranges@);
        }
        RangeMap { ranges }
    }
}

impl<V: Clone> View for RangeMap<V> {
    type V = Seq<(Range, V)>;

    closed spec fn view(&self) -> Seq<(Range, V)> {
        self.ranges@
    }
}

impl<V: Clone> RangeMap<V> {
    /// Every stored range holds an address.
    pub open spec fn wf(&self) -> bool {
        all_valid(self@)
    }

    /// The map that holds nothing.
    pub fn new() -> (map: Self)
        ensures
            map@ == Seq::<(Range, V)>::empty(),
            map.wf(),
    {
        RangeMap { ranges: Vec::new() }
    }

    /// Records `value` for the `length` addresses from `start` on, as an entry
    /// of its own. Nothing is recorded for a `length` of zero.
    pub fn add(&mut self, start: usize, length: libc::size_t, value: V)
        requires
            old(self).wf(),
            start + length <= usize::MAX,
        ensures
            final(self).wf(),
            length == 0 ==> final(self)@ == old(self)@,
            length > 0 ==> final(self)@ == old(self)@.push(
                (Range { start, end: (start + length) as usize }, value),
            ),
            disjoint(old(self)@) && apart_from(
                old(self)@,
                Range { start, end: (start + length) as usize },
            ) ==> disjoint(final(self)@),
    {
        if length <= 0 {
            return;
        }
        let ghost before = self.ranges@;
        self.ranges.push((Range::new(start, length), value));
        proof {
            assert(self.ranges@.drop_last() == before);
            assert forall|i: int| 0 <= i < self.ranges@.len() implies (
            #[trigger] self.ranges@[i]).0.valid() by {
                if i < before.len() {
                    assert(before[i].0.valid());
                }
            }
            if disjoint(before) && apart_from(before, self.ranges@.last().0) {
                assert forall|i: int, j: int| 0 <= i < j < self.ranges@.len() implies (
                #[trigger] self.ranges@[i]).0.common((#[trigger] self.ranges@[j]).0) is None by {
                    if j < before.len() {
                        assert(before[i].0.common(before[j].0) is None);
                    } else {
                        assert(before[i].0.common(self.ranges@.last().0) is None);
                    }
                }
            }
        }
    }

    /// Takes the `length` addresses from `start` on out of every entry, and
    /// returns how many addresses were taken out. An entry that held none of
    /// them stays as it is, one that held only such addresses goes, and any
    /// other is cut down to what is left of it below and above them.
    pub fn remove(&mut self, start: usize, length: libc::size_t) -> (removed: usize)
        requires
            old(self).wf(),
            covered(old(self)@) <= usize::MAX,
            start + length <= usize::MAX,
        ensures
            final(self).wf(),
            length == 0 ==> final(self)@ == old(self)@ && removed == 0,
            length > 0 ==> ({
                let cut = Range { start, end: (start + length) as usize };
                &&& same_or_cloned(carved(old(self)@, cut), final(self)@)
                &&& keeps_values(old(self)@, cut, final(self)@)
                &&& removed == shared_with(old(self)@, cut)
                &&& removed == covered(old(self)@) - covered(final(self)@)
            }),
            disjoint(old(self)@) ==> disjoint(final(self)@),
    {
        if length <= 0 {
            return 0;
        }
        let cut = Range::new(start, length);
        let old_size = self.size();
        let mut old_ranges: Vec<(Range, V)> = Vec::new();
        std::mem::swap(&mut self.ranges, &mut old_ranges);
        let ghost before = old_ranges@;
        let mut new_ranges: Vec<(Range, V)> = Vec::new();
        for entry in it: old_ranges
            invariant
                it.seq() == before,
                cut.valid(),
                all_valid(before),
                same_or_cloned(carved(before.take(it.index() as int), cut), new_ranges@),
                keeps_values(before.take(it.index() as int), cut, new_ranges@),
        {
            let ghost done = new_ranges@;
            let ghost i = it.index() as int;
            proof {
                assert(before.take(i + 1).drop_last() == before.take(i));
                assert(before.take(i + 1).last() == before[i]);
                assert forall|j: int| 0 <= j <= i implies #[trigger] before.take(i + 1).take(j)
                    == before.take(j) && before.take(i).take(j) == before.take(j) by {}
            }
            let (range, value) = entry;
            match range.intersection(&cut) {
                None => {
                    new_ranges.push((range, value));
                },
                Some(shared) => {
                    if shared.start == range.start && shared.end == range.end {
                    } else if shared.start == range.start {
                        new_ranges.push((Range { start: shared.end, end: range.end }, value));
                    } else if shared.end == range.end {
                        new_ranges.push((Range { start: range.start, end: shared.start }, value));
                    } else {
                        new_ranges.push(
                            (Range { start: range.start, end: shared.start }, value.clone()),
                        );
                        new_ranges.push((Range { start: shared.end, end: range.end }, value));
                    }
                },
            }
            proof {
                let seen = before.take(i + 1);
                assert(seen.take(i + 1) == seen);
                assert(same_or_cloned(carved(seen, cut), new_ranges@));
                assert forall|j: int|
                    0 <= j < seen.len() && kept((#[trigger] seen[j]).0, cut).len() > 0 implies {
                    let at = carved(seen.take(j + 1), cut).len() - 1;
                    0 <= at < new_ranges@.len() && new_ranges@[at].1 == seen[j].1
                } by {
                    if j < i {
                        let at = carved(before.take(i).take(j + 1), cut).len() - 1;
                        assert(before.take(i)[j] == seen[j]);
                        assert(seen.take(j + 1) == before.take(i).take(j + 1));
                        assert(new_ranges@[at] == done[at]);
                    }
                }
            }
        }
        self.ranges = new_ranges;
        proof {
            assert(before.take(before.len() as int) == before);
            lemma_carved_covered(before, cut);
            lemma_same_or_cloned_covered(carved(before, cut), self.ranges@);
            if disjoint(before) {
                lemma_carved_disjoint(before, cut);
                lemma_same_or_cloned_disjoint(carved(before, cut), self.ranges@);
            }
        }
        old_size - self.size()
    }

    /// Sum of the lengths of the stored ranges, where it fits a `usize`.
    pub fn checked_size(&self) -> (size: Option<usize>)
        requires
            self.wf(),
        ensures
            size is Some <==> covered(self@) <= usize::MAX,
            size matches Some(sum) ==> sum == covered(self@),
    {
        let mut total: usize = 0;
        let mut i: usize = 0;
        while i < self.ranges.len()
            invariant
                i <= self.ranges.len(),
                all_valid(self.ranges@),
                total == covered(self.ranges@.take(i as int)),
            decreases self.ranges.len() - i,
        {
            proof {
                lemma_covered_take(self.ranges@, i as int);
                lemma_covered_prefix(self.ranges@, i as int + 1);
            }
            match total.checked_add(self.ranges[i].0.size()) {
                Some(sum) => {
                    total = sum;
                },
                None => {
                    return None;
                },
            }
            i = i + 1;
        }
        proof {
            assert(self.ranges@.take(i as int) == self.ranges@);
        }
        Some(total)
    }

    /// Sum of the lengths of the stored ranges.
    pub fn size(&self) -> (size: usize)
        requires
            self.wf(),
            covered(self@) <= usize::MAX,
        ensures
            size == covered(self@),
    {
        let mut total: usize = 0;
        let mut i: usize = 0;
        while i < self.ranges.len()
            invariant
                i <= self.ranges.len(),
                all_valid(self.ranges@),
                covered(self.ranges@) <= usize::MAX,
                total == covered(self.ranges@.take(i as int)),
            decreases self.ranges.len() - i,
        {
            proof {
                lemma_covered_take(self.ranges@, i as int);
                lemma_covered_prefix(self.ranges@, i as int + 1);
            }
            total = total + self.ranges[i].0.size();
            i = i + 1;
        }
        proof {
            assert(self.ranges@.take(i as int) == self.ranges@);
        }
        total
    }

    /// The stored entries as a map from each entry's first address to its
    /// length and value.
    pub fn as_hashmap(&self) -> (snapshot: HashMap<usize, (usize, &V)>)
        requires
            self.wf(),
        ensures
            snapshot@ == starts(self@),
    {
        let mut snapshot: HashMap<usize, (usize, &V)> = HashMap::new();
        let mut i: usize = 0;
        while i < self.ranges.len()
            invariant
                i <= self.ranges.len(),
                all_valid(self.ranges@),
                snapshot@ == starts(self.ranges@.take(i as int)),
            decreases self.ranges.len() - i,
        {
            proof {
                assert(self.ranges@.take(i + 1).drop_last() == self.ranges@.take(i as int));
            }
            let entry = &self.ranges[i];
            snapshot.insert(entry.0.start, (entry.0.size(), &entry.1));
            i = i + 1;
        }
        proof {
            assert(self.ranges@.take(i as int) == self.ranges@);
        }
        snapshot
    }
}

/// One more entry adds its length to the sum of the entries before it.
pub proof fn lemma_covered_take<V>(entries: Seq<(Range, V)>, i: int)
    requires
        0 <= i < entries.len(),
    ensures
        covered(entries.take(i + 1)) == covered(entries.take(i)) + entries[i].0.len(),
{
    assert(entries.take(i + 1).drop_last() == entries.take(i));
}

/// The entries up to a place cover no more than all of them.
pub proof fn lemma_covered_prefix<V>(entries: Seq<(Range, V)>, i: int)
    requires
        0 <= i <= entries.len(),
    ensures
        covered(entries.take(i)) <= covered(entries),
    decreases entries.len() - i,
{
    if i == entries.len() {
        assert(entries.take(i) == entries);
    } else {
        lemma_covered_take(entries, i);
        lemma_covered_prefix(entries, i + 1);
    }
}

/// What is left after a cut and what the cut shares with the entries make up
/// what the entries covered; every part that is left holds an address.
pub proof fn lemma_carved_covered<V>(entries: Seq<(Range, V)>, cut: Range)
    requires
        all_valid(entries),
        cut.valid(),
    ensures
        covered(carved(entries, cut)) + shared_with(entries, cut) == covered(entries),
        all_valid(carved(entries, cut)),
    decreases entries.len(),
{
    if entries.len() > 0 {
        let entry = entries.last();
        let rest = carved(entries.drop_last(), cut);
        let parts = kept(entry.0, cut).map_values(|part: Range| (part, entry.1));
        lemma_carved_covered(entries.drop_last(), cut);
        lemma_covered_concat(rest, parts);
        lemma_kept_covered(entry, cut);
        assert forall|i: int| 0 <= i < carved(entries, cut).len() implies (#[trigger] carved(
            entries,
            cut,
        )[i]).0.valid() by {
            if i >= rest.len() {
                assert(carved(entries, cut)[i] == parts[i - rest.len()]);
            } else {
                assert(carved(entries, cut)[i] == rest[i]);
            }
        }
    }
}

/// The parts that are left of one entry cover what the entry covered and the
/// cut does not; each holds an address.
pub proof fn lemma_kept_covered<V>(entry: (Range, V), cut: Range)
    requires
        entry.0.valid(),
        cut.valid(),
    ensures
        ({
            let parts = kept(entry.0, cut).map_values(|part: Range| (part, entry.1));
            &&& all_valid(parts)
            &&& covered(parts) + match entry.0.common(cut) {
                Some(range) => range.len(),
                None => 0,
            } == entry.0.len()
        }),
{
    let parts = kept(entry.0, cut).map_values(|part: Range| (part, entry.1));
    let none = Seq::<(Range, V)>::empty();
    assert(covered(none) == 0);
    assert(parts.len() == kept(entry.0, cut).len());
    if parts.len() == 1 {
        assert(parts.drop_last() =~= none);
        assert(covered(parts) == parts[0].0.len());
    } else if parts.len() == 2 {
        let head = parts.drop_last();
        assert(head.drop_last() =~= none);
        assert(covered(head) == parts[0].0.len());
        assert(covered(parts) == parts[0].0.len() + parts[1].0.len());
    } else {
        assert(parts =~= none);
    }
}

/// Entries that hold an address each, or share none, still do without the
/// last of them.
pub proof fn lemma_drop_last<V>(entries: Seq<(Range, V)>)
    requires
        entries.len() > 0,
    ensures
        disjoint(entries) ==> disjoint(entries.drop_last()),
        all_valid(entries) ==> all_valid(entries.drop_last()),
        all_valid(entries) ==> entries.last().0.valid(),
{
    let rest = entries.drop_last();
    if disjoint(entries) {
        assert forall|a: int, b: int| 0 <= a < b < rest.len() implies (
        #[trigger] rest[a]).0.common((#[trigger] rest[b]).0) is None by {
            assert(entries[a].0.common(entries[b].0) is None);
        }
    }
    if all_valid(entries) {
        assert forall|i: int| 0 <= i < rest.len() implies (#[trigger] rest[i]).0.valid() by {
            assert(entries[i].0.valid());
        }
        assert(entries[entries.len() - 1].0.valid());
    }
}

/// What is left of an entry lies within it, and its parts share no address.
pub proof fn lemma_kept_within<V>(entry: (Range, V), cut: Range)
    requires
        entry.0.valid(),
        cut.valid(),
    ensures
        ({
            let parts = kept(entry.0, cut).map_values(|part: Range| (part, entry.1));
            &&& all_valid(parts)
            &&& all_within(parts, entry.0)
            &&& disjoint(parts)
        }),
{
    let parts = kept(entry.0, cut).map_values(|part: Range| (part, entry.1));
    assert(parts.len() == kept(entry.0, cut).len());
}

/// What is left after a cut lies, part by part, within an entry.
pub proof fn lemma_carved_within<V>(entries: Seq<(Range, V)>, cut: Range, k: int)
    requires
        all_valid(entries),
        cut.valid(),
        0 <= k < carved(entries, cut).len(),
    ensures
        exists|i: int|
            0 <= i < entries.len() && (#[trigger] entries[i]).0.start <= carved(
                entries,
                cut,
            )[k].0.start && carved(entries, cut)[k].0.end <= entries[i].0.end,
    decreases entries.len(),
{
    if entries.len() > 0 {
        let rest = entries.drop_last();
        let last = entries.last();
        let head = carved(rest, cut);
        let parts = kept(last.0, cut).map_values(|part: Range| (part, last.1));
        lemma_drop_last(entries);
        if k < head.len() {
            lemma_carved_within(rest, cut, k);
            let i = choose|i: int|
                0 <= i < rest.len() && (#[trigger] rest[i]).0.start <= head[k].0.start
                    && head[k].0.end <= rest[i].0.end;
            assert(entries[i] == rest[i]);
            assert(carved(entries, cut)[k] == head[k]);
        } else {
            lemma_kept_within(last, cut);
            assert(carved(entries, cut)[k] == parts[k - head.len()]);
            assert(entries[entries.len() - 1].0.start <= parts[k - head.len()].0.start);
        }
    }
}

/// Where no address lies in two entries, none lies in two of the parts that
/// are left after a cut.
pub proof fn lemma_carved_disjoint<V>(entries: Seq<(Range, V)>, cut: Range)
    requires
        all_valid(entries),
        disjoint(entries),
        cut.valid(),
    ensures
        disjoint(carved(entries, cut)),
    decreases entries.len(),
{
    if entries.len() > 0 {
        let rest = entries.drop_last();
        let last = entries.last();
        let head = carved(rest, cut);
        let parts = kept(last.0, cut).map_values(|part: Range| (part, last.1));
        let whole = carved(entries, cut);
        lemma_drop_last(entries);
        lemma_carved_disjoint(rest, cut);
        lemma_kept_within(last, cut);
        lemma_carved_covered(rest, cut);
        assert forall|a: int, b: int| 0 <= a < b < whole.len() implies (
        #[trigger] whole[a]).0.common((#[trigger] whole[b]).0) is None by {
            if b < head.len() {
                assert(head[a].0.common(head[b].0) is None);
            } else if a < head.len() {
                lemma_carved_within(rest, cut, a);
                let i = choose|i: int|
                    0 <= i < rest.len() && (#[trigger] rest[i]).0.start <= head[a].0.start
                        && head[a].0.end <= rest[i].0.end;
                assert(entries[i].0.common(entries[entries.len() - 1].0) is None);
                assert(whole[b] == parts[b - head.len()]);
                assert(whole[a] == head[a]);
                assert(head[a].0.valid());
                assert(parts[b - head.len()].0.valid());
            } else {
                assert(whole[a] == parts[a - head.len()]);
                assert(whole[b] == parts[b - head.len()]);
                assert(parts[a - head.len()].0.common(parts[b - head.len()].0) is None);
            }
        }
    }
}

/// Whether entries share an address depends on their ranges alone.
pub proof fn lemma_same_or_cloned_disjoint<V: Clone>(
    entries: Seq<(Range, V)>,
    copy: Seq<(Range, V)>,
)
    requires
        same_or_cloned(entries, copy),
        disjoint(entries),
    ensures
        disjoint(copy),
{
    assert forall|a: int, b: int| 0 <= a < b < copy.len() implies (#[trigger] copy[a]).0.common(
        (#[trigger] copy[b]).0,
    ) is None by {
        assert(entries[a].0.common(entries[b].0) is None);
    }
}

/// Two runs of entries cover together what each covers.
pub proof fn lemma_covered_concat<V>(first: Seq<(Range, V)>, second: Seq<(Range, V)>)
    ensures
        covered(first + second) == covered(first) + covered(second),
    decreases second.len(),
{
    if second.len() == 0 {
        assert(first + second == first);
    } else {
        lemma_covered_concat(first, second.drop_last());
        assert((first + second).drop_last() == first + second.drop_last());
    }
}

/// What entries cover depends on their ranges alone.
pub proof fn lemma_same_or_cloned_covered<V: Clone>(entries: Seq<(Range, V)>, copy: Seq<(Range, V)>)
    requires
        same_or_cloned(entries, copy),
    ensures
        covered(copy) == covered(entries),
        all_valid(entries) ==> all_valid(copy),
    decreases entries.len(),
{
    if entries.len() > 0 {
        assert(same_or_cloned(entries.drop_last(), copy.drop_last())) by {
            assert forall|i: int| 0 <= i < entries.len() - 1 implies (
            #[trigger] copy.drop_last()[i]).0 == entries.drop_last()[i].0 && cloned(
                entries.drop_last()[i].1,
                copy.drop_last()[i].1,
            ) by {
                assert(copy[i].0 == entries[i].0);
            }
        }
        lemma_same_or_cloned_covered(entries.drop_last(), copy.drop_last());
        assert(copy.last().0 == entries.last().0);
    }
    if all_valid(entries) {
        assert forall|i: int| 0 <= i < copy.len() implies (#[trigger] copy[i]).0.valid() by {
            assert(entries[i].0.valid());
        }
    }
}

} // verus!

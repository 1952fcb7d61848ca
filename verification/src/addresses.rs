//! What a map of ranges says address by address, and what relates the
//! entries of such a map to a map that holds a value for each single address.

use crate::rangemap::{
    all_valid, apart_from, carved, covered, disjoint, kept, lemma_carved_covered,
    lemma_carved_disjoint, lemma_drop_last, same_or_cloned, shared_with, starts, Range,
};
use vstd::prelude::*;
use vstd::set_lib::{lemma_int_range, lemma_len_subset, lemma_set_disjoint_lens, set_int_range};

verus! {

/// The addresses that a range holds.
pub open spec fn addresses(range: Range) -> Set<int> {
    set_int_range(range.start as int, range.end as int)
}

/// `value` at each address of `range`.
pub open spec fn spread<V>(range: Range, value: V) -> Map<int, V> {
    Map::new(|address: int| range.contains(address), |address: int| value)
}

/// What the entries say address by address: at each address that an entry
/// holds, the value of the last such entry.
pub open spec fn by_address<V>(entries: Seq<(Range, V)>) -> Map<int, V>
    decreases entries.len(),
{
    if entries.len() == 0 {
        Map::empty()
    } else {
        by_address(entries.drop_last()).union_prefer_right(
            spread(entries.last().0, entries.last().1),
        )
    }
}

/// An address has a value where an entry holds it.
pub proof fn lemma_by_address_dom<V>(entries: Seq<(Range, V)>, address: int)
    ensures
        by_address(entries).contains_key(address) <==> exists|i: int|
            0 <= i < entries.len() && (#[trigger] entries[i]).0.contains(address),
    decreases entries.len(),
{
    if entries.len() > 0 {
        let rest = entries.drop_last();
        lemma_by_address_dom(rest, address);
        if by_address(entries).contains_key(address) {
            if entries.last().0.contains(address) {
                assert(entries[entries.len() - 1].0.contains(address));
            } else {
                let i = choose|i: int|
                    0 <= i < rest.len() && (#[trigger] rest[i]).0.contains(address);
                assert(entries[i].0.contains(address));
            }
        }
        if exists|i: int| 0 <= i < entries.len() && (#[trigger] entries[i]).0.contains(address) {
            let i = choose|i: int|
                0 <= i < entries.len() && (#[trigger] entries[i]).0.contains(address);
            if i < rest.len() {
                assert(rest[i].0.contains(address));
            }
        }
    }
}

/// Where no address lies in two entries, an address has the value of the
/// entry that holds it.
pub proof fn lemma_by_address_value<V>(entries: Seq<(Range, V)>, i: int, address: int)
    requires
        disjoint(entries),
        0 <= i < entries.len(),
        entries[i].0.contains(address),
    ensures
        by_address(entries).contains_key(address),
        by_address(entries)[address] == entries[i].1,
    decreases entries.len(),
{
    let rest = entries.drop_last();
    if i == entries.len() - 1 {
    } else {
        assert(entries[i].0.common(entries[entries.len() - 1].0) is None);
        assert(!entries.last().0.contains(address));
        lemma_drop_last(entries);
        assert(rest[i] == entries[i]);
        lemma_by_address_value(rest, i, address);
    }
}

/// One more entry gives its value to each of its addresses, and leaves every
/// other address as it was.
pub proof fn law_add_by_address<V>(entries: Seq<(Range, V)>, range: Range, value: V)
    ensures
        by_address(entries.push((range, value))) == by_address(entries).union_prefer_right(
            spread(range, value),
        ),
{
    assert(entries.push((range, value)).drop_last() == entries);
}

/// Where no address lies in two entries, the lengths of the ranges sum to the
/// number of addresses that have a value. So they fit the address space.
pub proof fn law_size_by_address<V>(entries: Seq<(Range, V)>)
    requires
        all_valid(entries),
        disjoint(entries),
    ensures
        by_address(entries).dom().finite(),
        by_address(entries).dom().len() == covered(entries),
        covered(entries) <= usize::MAX,
    decreases entries.len(),
{
    let held = by_address(entries).dom();
    if entries.len() == 0 {
        assert(held =~= Set::empty());
    } else {
        let rest = entries.drop_last();
        let last = entries.last();
        lemma_drop_last(entries);
        law_size_by_address(rest);
        let before = by_address(rest).dom();
        let added = addresses(last.0);
        assert(entries[entries.len() - 1].0.valid());
        lemma_int_range(last.0.start as int, last.0.end as int);
        assert(held =~= before + added);
        assert(before.disjoint(added)) by {
            assert forall|address: int| before.contains(address) implies !added.contains(
                address,
            ) by {
                lemma_by_address_dom(rest, address);
                let i = choose|i: int|
                    0 <= i < rest.len() && (#[trigger] rest[i]).0.contains(address);
                assert(entries[i].0.common(entries[entries.len() - 1].0) is None);
            }
        }
        lemma_set_disjoint_lens(before, added);
    }
    let space = set_int_range(0, usize::MAX as int);
    lemma_int_range(0, usize::MAX as int);
    assert(held.subset_of(space)) by {
        assert forall|address: int| held.contains(address) implies space.contains(address) by {
            lemma_by_address_dom(entries, address);
        }
    }
    lemma_len_subset(held, space);
}

/// What two runs of entries say address by address is what the first says,
/// but for the addresses of which the second says something.
pub proof fn lemma_by_address_concat<V>(first: Seq<(Range, V)>, second: Seq<(Range, V)>)
    ensures
        by_address(first + second) == by_address(first).union_prefer_right(by_address(second)),
    decreases second.len(),
{
    if second.len() == 0 {
        assert(first + second == first);
        assert(by_address(first) =~= by_address(first).union_prefer_right(by_address(second)));
    } else {
        lemma_by_address_concat(first, second.drop_last());
        assert((first + second).drop_last() == first + second.drop_last());
        assert((first + second).last() == second.last());
        assert(by_address(first + second) =~= by_address(first).union_prefer_right(
            by_address(second),
        ));
    }
}

/// What is left of one entry says of each of its addresses outside the cut
/// what the entry said, and nothing of any other address.
pub proof fn lemma_kept_by_address<V>(entry: (Range, V), cut: Range)
    requires
        entry.0.valid(),
        cut.valid(),
    ensures
        by_address(kept(entry.0, cut).map_values(|part: Range| (part, entry.1))) == spread(
            entry.0,
            entry.1,
        ).remove_keys(addresses(cut)),
{
    let parts = kept(entry.0, cut).map_values(|part: Range| (part, entry.1));
    let expected = spread(entry.0, entry.1).remove_keys(addresses(cut));
    let none = Seq::<(Range, V)>::empty();
    assert(by_address(none) =~= Map::<int, V>::empty());
    assert(parts.len() == kept(entry.0, cut).len());
    if parts.len() == 1 {
        assert(parts.drop_last() =~= none);
        assert(by_address(parts) =~= expected);
    } else if parts.len() == 2 {
        let head = parts.drop_last();
        assert(head.drop_last() =~= none);
        assert(head.last() == parts[0]);
        assert(by_address(head) =~= spread(parts[0].0, parts[0].1));
        assert(by_address(parts) =~= expected);
    } else {
        assert(parts =~= none);
        assert(by_address(parts) =~= expected);
    }
}

/// What is left after a cut says of every address outside the cut what the
/// entries said, and nothing of the addresses of the cut.
pub proof fn lemma_carved_by_address<V>(entries: Seq<(Range, V)>, cut: Range)
    requires
        all_valid(entries),
        cut.valid(),
    ensures
        by_address(carved(entries, cut)) == by_address(entries).remove_keys(addresses(cut)),
    decreases entries.len(),
{
    if entries.len() == 0 {
        assert(by_address(carved(entries, cut)) =~= by_address(entries).remove_keys(
            addresses(cut),
        ));
    } else {
        let rest = entries.drop_last();
        let last = entries.last();
        let parts = kept(last.0, cut).map_values(|part: Range| (part, last.1));
        lemma_drop_last(entries);
        assert(entries[entries.len() - 1].0.valid());
        lemma_carved_by_address(rest, cut);
        lemma_kept_by_address(last, cut);
        lemma_by_address_concat(carved(rest, cut), parts);
        assert(by_address(carved(entries, cut)) =~= by_address(entries).remove_keys(
            addresses(cut),
        ));
    }
}

/// Entries with the same ranges, each value the same or a clone, say
/// something of the same addresses, and at each the same value or a clone.
pub proof fn lemma_same_or_cloned_by_address<V: Clone>(
    entries: Seq<(Range, V)>,
    copy: Seq<(Range, V)>,
)
    requires
        same_or_cloned(entries, copy),
    ensures
        by_address(copy).dom() == by_address(entries).dom(),
        forall|address: int| #[trigger]
            by_address(entries).contains_key(address) ==> cloned(
                by_address(entries)[address],
                by_address(copy)[address],
            ),
    decreases entries.len(),
{
    if entries.len() == 0 {
        assert(by_address(copy).dom() =~= by_address(entries).dom());
    } else {
        let rest = entries.drop_last();
        let copy_rest = copy.drop_last();
        assert(same_or_cloned(rest, copy_rest)) by {
            assert forall|i: int| 0 <= i < rest.len() implies (#[trigger] copy_rest[i]).0
                == rest[i].0 && cloned(rest[i].1, copy_rest[i].1) by {
                assert(copy[i].0 == entries[i].0);
            }
        }
        lemma_same_or_cloned_by_address(rest, copy_rest);
        assert(copy.last().0 == entries.last().0) by {
            assert(copy[entries.len() - 1].0 == entries[entries.len() - 1].0);
        }
        assert(cloned(entries.last().1, copy.last().1)) by {
            assert(copy[entries.len() - 1].0 == entries[entries.len() - 1].0);
        }
        assert(by_address(copy).dom() =~= by_address(entries).dom());
        assert forall|address: int| #[trigger]
            by_address(entries).contains_key(address) implies cloned(
            by_address(entries)[address],
            by_address(copy)[address],
        ) by {
            if !entries.last().0.contains(address) {
                assert(by_address(rest).contains_key(address));
            }
        }
    }
}

/// Where `result` holds what is left of `entries` after a cut, each value the
/// same or a clone, it says something of just the addresses outside the cut
/// of which the entries said something, and at each the same value or a
/// clone.
pub proof fn law_remove_by_address<V: Clone>(
    entries: Seq<(Range, V)>,
    cut: Range,
    result: Seq<(Range, V)>,
)
    requires
        all_valid(entries),
        cut.valid(),
        same_or_cloned(carved(entries, cut), result),
    ensures
        by_address(result).dom() == by_address(entries).dom().difference(addresses(cut)),
        forall|address: int| #[trigger]
            by_address(result).contains_key(address) ==> cloned(
                by_address(entries)[address],
                by_address(result)[address],
            ),
{
    lemma_carved_by_address(entries, cut);
    lemma_same_or_cloned_by_address(carved(entries, cut), result);
    assert(by_address(result).dom() =~= by_address(entries).dom().difference(addresses(cut)));
    assert forall|address: int| #[trigger]
        by_address(result).contains_key(address) implies cloned(
        by_address(entries)[address],
        by_address(result)[address],
    ) by {
        assert(by_address(carved(entries, cut)).contains_key(address));
    }
}

/// Where no address lies in two entries, the entries share with a cut, in
/// sum, one address for each address of the cut that has a value.
pub proof fn law_removed_by_address<V>(entries: Seq<(Range, V)>, cut: Range)
    requires
        all_valid(entries),
        disjoint(entries),
        cut.valid(),
    ensures
        by_address(entries).dom().intersect(addresses(cut)).finite(),
        shared_with(entries, cut) == by_address(entries).dom().intersect(addresses(cut)).len(),
    decreases entries.len(),
{
    let taken = by_address(entries).dom().intersect(addresses(cut));
    if entries.len() == 0 {
        assert(taken =~= Set::empty());
    } else {
        let rest = entries.drop_last();
        let last = entries.last();
        lemma_drop_last(entries);
        law_removed_by_address(rest, cut);
        assert(entries[entries.len() - 1].0.valid());
        let before = by_address(rest).dom().intersect(addresses(cut));
        let added = addresses(last.0).intersect(addresses(cut));
        match last.0.common(cut) {
            Some(range) => {
                lemma_int_range(range.start as int, range.end as int);
                assert(added =~= addresses(range));
            },
            None => {
                assert(added =~= Set::empty());
            },
        }
        assert(taken =~= before + added);
        assert(before.disjoint(added)) by {
            assert forall|address: int| before.contains(address) implies !added.contains(
                address,
            ) by {
                lemma_by_address_dom(rest, address);
                let i = choose|i: int|
                    0 <= i < rest.len() && (#[trigger] rest[i]).0.contains(address);
                assert(entries[i].0.common(entries[entries.len() - 1].0) is None);
            }
        }
        lemma_set_disjoint_lens(before, added);
    }
}

/// Where no address lies in two entries, the map by first address holds each
/// entry, and says of each address what the entries say of it: an address has
/// a value just where it lies in the range that the map gives for some first
/// address, and the value is that of this range.
pub proof fn law_starts_by_address<V>(entries: Seq<(Range, V)>)
    requires
        all_valid(entries),
        disjoint(entries),
        covered(entries) <= usize::MAX,
    ensures
        forall|i: int|
            0 <= i < entries.len() ==> starts(entries).contains_key((#[trigger] entries[i]).0.start)
                && starts(entries)[entries[i].0.start] == (
                entries[i].0.len() as usize,
                &entries[i].1,
            ),
        forall|start: usize| #[trigger]
            starts(entries).contains_key(start) ==> exists|i: int|
                0 <= i < entries.len() && (#[trigger] entries[i]).0.start == start,
        forall|address: int| #[trigger]
            by_address(entries).contains_key(address) <==> exists|start: usize|
                #![trigger starts(entries).contains_key(start)]
                starts(entries).contains_key(start) && start <= address < start + starts(
                    entries,
                )[start].0,
        forall|start: usize, address: int|
            #![trigger starts(entries).contains_key(start), by_address(entries)[address]]
            starts(entries).contains_key(start) && start <= address < start + starts(
                entries,
            )[start].0 ==> by_address(entries)[address] == *starts(entries)[start].1,
    decreases entries.len(),
{
    lemma_starts(entries);
    assert forall|address: int| #[trigger]
        by_address(entries).contains_key(address) <==> exists|start: usize|
            #![trigger starts(entries).contains_key(start)]
            starts(entries).contains_key(start) && start <= address < start + starts(
                entries,
            )[start].0 by {
        lemma_by_address_dom(entries, address);
        if by_address(entries).contains_key(address) {
            let i = choose|i: int|
                0 <= i < entries.len() && (#[trigger] entries[i]).0.contains(address);
            let start = entries[i].0.start;
            assert(entries[i].0.valid());
            assert(starts(entries).contains_key(start) && start <= address < start + starts(
                entries,
            )[start].0);
        }
        if exists|start: usize|
            #![trigger starts(entries).contains_key(start)]
            starts(entries).contains_key(start) && start <= address < start + starts(
                entries,
            )[start].0 {
            let start = choose|start: usize|
                #![trigger starts(entries).contains_key(start)]
                starts(entries).contains_key(start) && start <= address < start + starts(
                    entries,
                )[start].0;
            let i = choose|i: int|
                0 <= i < entries.len() && (#[trigger] entries[i]).0.start == start;
            assert(entries[i].0.valid());
            assert(entries[i].0.contains(address));
        }
    }
    assert forall|start: usize, address: int|
        #![trigger starts(entries).contains_key(start), by_address(entries)[address]]
        starts(entries).contains_key(start) && start <= address < start + starts(
            entries,
        )[start].0 implies by_address(entries)[address] == *starts(entries)[start].1 by {
        let i = choose|i: int| 0 <= i < entries.len() && (#[trigger] entries[i]).0.start == start;
        assert(entries[i].0.valid());
        lemma_by_address_value(entries, i, address);
    }
}

/// Where no address lies in two entries, the map by first address holds each
/// entry under its first address, and nothing else.
pub proof fn lemma_starts<V>(entries: Seq<(Range, V)>)
    requires
        all_valid(entries),
        disjoint(entries),
    ensures
        forall|i: int|
            0 <= i < entries.len() ==> starts(entries).contains_key((#[trigger] entries[i]).0.start)
                && starts(entries)[entries[i].0.start] == (
                entries[i].0.len() as usize,
                &entries[i].1,
            ),
        forall|start: usize| #[trigger]
            starts(entries).contains_key(start) ==> exists|i: int|
                0 <= i < entries.len() && (#[trigger] entries[i]).0.start == start,
    decreases entries.len(),
{
    if entries.len() > 0 {
        let rest = entries.drop_last();
        let last = entries.last();
        lemma_drop_last(entries);
        lemma_starts(rest);
        assert forall|i: int| 0 <= i < entries.len() implies starts(entries).contains_key(
            (#[trigger] entries[i]).0.start,
        ) && starts(entries)[entries[i].0.start] == (
            entries[i].0.len() as usize,
            &entries[i].1,
        ) by {
            if i < rest.len() {
                assert(rest[i] == entries[i]);
                assert(entries[i].0.common(entries[entries.len() - 1].0) is None);
                assert(entries[i].0.valid() && entries[entries.len() - 1].0.valid());
                assert(entries[i].0.start != last.0.start);
            }
        }
        assert forall|start: usize| #[trigger]
            starts(entries).contains_key(start) implies exists|i: int|
            0 <= i < entries.len() && (#[trigger] entries[i]).0.start == start by {
            if start == last.0.start {
                assert(entries[entries.len() - 1].0.start == start);
            } else {
                assert(starts(rest).contains_key(start));
                let i = choose|i: int| 0 <= i < rest.len() && (#[trigger] rest[i]).0.start == start;
                assert(entries[i].0.start == start);
            }
        }
    }
}

/// Entries of which no two share an address, and one more range that shares
/// none with them, share no address and fit the address space together.
pub proof fn law_apart_fits<V>(entries: Seq<(Range, V)>, range: Range, value: V)
    requires
        all_valid(entries),
        disjoint(entries),
        range.valid(),
        apart_from(entries, range),
    ensures
        all_valid(entries.push((range, value))),
        disjoint(entries.push((range, value))),
        covered(entries) + range.len() <= usize::MAX,
{
    let with = entries.push((range, value));
    assert(with.drop_last() == entries);
    assert forall|i: int| 0 <= i < with.len() implies (#[trigger] with[i]).0.valid() by {
        if i < entries.len() {
            assert(entries[i].0.valid());
        }
    }
    assert forall|a: int, b: int| 0 <= a < b < with.len() implies (#[trigger] with[a]).0.common(
        (#[trigger] with[b]).0,
    ) is None by {
        if b < entries.len() {
            assert(entries[a].0.common(entries[b].0) is None);
        } else {
            assert(entries[a].0.common(range) is None);
        }
    }
    law_size_by_address(with);
}

/// A change to a map of ranges.
pub ghost enum Change<V> {
    /// A value is recorded for a range.
    Add { range: Range, value: V },
    /// The addresses of a range are taken out.
    Remove { cut: Range },
}

/// The entries after one change: a recorded range comes last, and a removal
/// leaves of each entry what lies outside it.
pub open spec fn entries_after<V>(entries: Seq<(Range, V)>, change: Change<V>) -> Seq<(Range, V)> {
    match change {
        Change::Add { range, value } => entries.push((range, value)),
        Change::Remove { cut } => carved(entries, cut),
    }
}

/// A map that holds a value for each single address, after one change:
/// recording gives each address of the range the value; a removal takes the
/// value from each address of the range.
pub open spec fn held_after<V>(held: Map<int, V>, change: Change<V>) -> Map<int, V> {
    match change {
        Change::Add { range, value } => held.union_prefer_right(spread(range, value)),
        Change::Remove { cut } => held.remove_keys(addresses(cut)),
    }
}

/// The entries after `changes` to no entries, in their order.
pub open spec fn entries_after_all<V>(changes: Seq<Change<V>>) -> Seq<(Range, V)>
    decreases changes.len(),
{
    if changes.len() == 0 {
        Seq::empty()
    } else {
        entries_after(entries_after_all(changes.drop_last()), changes.last())
    }
}

/// A map that holds a value for each single address, after `changes` to one
/// that holds nothing.
pub open spec fn held_after_all<V>(changes: Seq<Change<V>>) -> Map<int, V>
    decreases changes.len(),
{
    if changes.len() == 0 {
        Map::empty()
    } else {
        held_after(held_after_all(changes.drop_last()), changes.last())
    }
}

/// Every range of `changes` holds an address, and each recorded range shares
/// no address with what the entries hold at that moment.
pub open spec fn recorded_apart<V>(changes: Seq<Change<V>>) -> bool {
    forall|i: int|
        0 <= i < changes.len() ==> match #[trigger] changes[i] {
            Change::Add { range, .. } => range.valid() && apart_from(
                entries_after_all(changes.take(i)),
                range,
            ),
            Change::Remove { cut } => cut.valid(),
        }
}

/// After any changes of which each recorded range is apart from what is held,
/// the entries say address by address what a map that holds a value for each
/// single address holds after the same changes, their lengths sum to the
/// number of addresses that this map holds, and no address lies in two of
/// them.
pub proof fn law_entries_as_held<V>(changes: Seq<Change<V>>)
    requires
        recorded_apart(changes),
    ensures
        by_address(entries_after_all(changes)) == held_after_all(changes),
        held_after_all(changes).dom().finite(),
        covered(entries_after_all(changes)) == held_after_all(changes).dom().len(),
        all_valid(entries_after_all(changes)),
        disjoint(entries_after_all(changes)),
    decreases changes.len(),
{
    let entries = entries_after_all(changes);
    if changes.len() == 0 {
        assert(by_address(entries) =~= held_after_all(changes));
    } else {
        let earlier = changes.drop_last();
        let before = entries_after_all(earlier);
        assert forall|i: int| 0 <= i < earlier.len() implies match #[trigger] earlier[i] {
            Change::Add { range, .. } => range.valid() && apart_from(
                entries_after_all(earlier.take(i)),
                range,
            ),
            Change::Remove { cut } => cut.valid(),
        } by {
            assert(earlier[i] == changes[i]);
            assert(earlier.take(i) == changes.take(i));
        }
        law_entries_as_held(earlier);
        assert(changes[changes.len() - 1] == changes.last());
        assert(changes.take(changes.len() - 1) == earlier);
        match changes.last() {
            Change::Add { range, value } => {
                law_apart_fits(before, range, value);
                law_add_by_address(before, range, value);
            },
            Change::Remove { cut } => {
                lemma_carved_by_address(before, cut);
                lemma_carved_covered(before, cut);
                lemma_carved_disjoint(before, cut);
            },
        }
        law_size_by_address(entries);
    }
}

/// Among such changes, a removal takes out of the entries, in sum, one
/// address for each address of its range at which the map that holds a value
/// for each single address holds one.
pub proof fn law_removed_as_held<V>(changes: Seq<Change<V>>, i: int)
    requires
        recorded_apart(changes),
        0 <= i < changes.len(),
        changes[i] is Remove,
    ensures
        shared_with(entries_after_all(changes.take(i)), changes[i]->cut)
            == held_after_all(changes.take(i)).dom().intersect(
            addresses(changes[i]->cut),
        ).len(),
{
    let earlier = changes.take(i);
    assert forall|j: int| 0 <= j < earlier.len() implies match #[trigger] earlier[j] {
        Change::Add { range, .. } => range.valid() && apart_from(
            entries_after_all(earlier.take(j)),
            range,
        ),
        Change::Remove { cut } => cut.valid(),
    } by {
        assert(earlier[j] == changes[j]);
        assert(earlier.take(j) == changes.take(j));
    }
    law_entries_as_held(earlier);
    law_removed_by_address(entries_after_all(earlier), changes[i]->cut);
}

} // verus!

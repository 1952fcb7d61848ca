//! Allocations, the sum of their sizes, and the persistent map that holds
//! them by address.

use crate::memorytracking::{CallSiteId, Callstack};
use vstd::prelude::*;

verus! {

/// What an `Allocation` holds: the calls that led to it and its size in bytes.
pub ghost struct AllocationView {
    pub callstack: Seq<CallSiteId>,
    pub size: usize,
}

/// A specific call to an allocating function.
#[derive(Debug, PartialEq)]
pub struct Allocation {
    callstack: Callstack,
    size: libc::size_t,
}

impl View for Allocation {
    type V = AllocationView;

    closed spec fn view(&self) -> AllocationView {
        AllocationView { callstack: self.callstack@, size: self.size }
    }
}

impl Clone for Allocation {
    fn clone(&self) -> (copy: Self)
        ensures
            copy@ == self@,
    {
        Allocation { callstack: self.callstack.clone(), size: self.size }
    }
}

impl Allocation {
    /// The allocation of `size` bytes that the calls of `callstack` led to.
    pub fn new(callstack: Callstack, size: libc::size_t) -> (allocation: Allocation)
        ensures
            allocation@ == (AllocationView { callstack: callstack@, size }),
    {
        Allocation { callstack, size }
    }

    /// The calls that led to the allocation.
    pub fn callstack(&self) -> (callstack: &Callstack)
        ensures
            callstack@ == self@.callstack,
    {
        &self.callstack
    }

    /// The size of the allocation in bytes.
    pub fn size(&self) -> (size: libc::size_t)
        ensures
            size == self@.size,
    {
        self.size
    }
}

/// `im::HashMap`, a hash map of which a clone is made in constant time: the
/// two share what they hold until one of them is changed.
#[verifier::external_type_specification]
#[verifier::external_body]
#[verifier::reject_recursive_types(K)]
#[verifier::reject_recursive_types(V)]
#[verifier::reject_recursive_types(S)]
pub struct ExPersistentHashMap<K, V, S>(im::HashMap<K, V, S>);

/// The allocations that a persistent map holds, each under its address.
pub uninterp spec fn recorded(allocations: im::HashMap<usize, Allocation>) -> Map<
    usize,
    AllocationView,
>;

/// `im::HashMap::default`: a map that holds nothing.
#[verifier::external_body]
pub(crate) fn no_allocations() -> (allocations: im::HashMap<usize, Allocation>)
    ensures
        recorded(allocations) =~= Map::empty(),
{
    im::HashMap::default()
}

/// `im::HashMap::insert`: afterwards the map holds `allocation` under
/// `address`, in place of what it held there, and the rest as before.
#[verifier::external_body]
pub(crate) fn record(
    allocations: &mut im::HashMap<usize, Allocation>,
    address: usize,
    allocation: Allocation,
)
    ensures
        recorded(*final(allocations)) == recorded(*old(allocations)).insert(address, allocation@),
{
    allocations.insert(address, allocation);
}

/// `im::HashMap::remove`: afterwards the map holds nothing under `address`,
/// and the rest as before; what it held there is returned.
#[verifier::external_body]
pub(crate) fn forget(allocations: &mut im::HashMap<usize, Allocation>, address: usize) -> (removed:
    Option<Allocation>)
    ensures
        recorded(*final(allocations)) == recorded(*old(allocations)).remove(address),
        removed is Some <==> recorded(*old(allocations)).contains_key(address),
        removed matches Some(allocation) ==> allocation@ == recorded(*old(allocations))[address],
{
    allocations.remove(&address)
}

/// `im::HashMap::clone`: a map of its own that holds what `allocations` holds.
#[verifier::external_body]
pub(crate) fn snapshot(allocations: &im::HashMap<usize, Allocation>) -> (copy: im::HashMap<
    usize,
    Allocation,
>)
    ensures
        recorded(copy) == recorded(*allocations),
{
    allocations.clone()
}

/// `im::HashMap::iter`: every address of the map once, with the allocation
/// under it, in an order that the map does not promise.
#[verifier::external_body]
pub(crate) fn entries<'a>(allocations: &'a im::HashMap<usize, Allocation>) -> (entries: Vec<
    (usize, &'a Allocation),
>)
    ensures
        forall|i: int|
            0 <= i < entries.len() ==> recorded(*allocations).contains_key(
                (#[trigger] entries[i]).0,
            ) && recorded(*allocations)[entries[i].0] == entries[i].1@,
        forall|i: int, j: int|
            0 <= i < j < entries.len() ==> (#[trigger] entries[i]).0 != (#[trigger] entries[j]).0,
        forall|address: usize| #[trigger]
            recorded(*allocations).contains_key(address) ==> exists|i: int|
                0 <= i < entries.len() && (#[trigger] entries[i]).0 == address,
{
    allocations.iter().map(|(address, allocation)| (*address, allocation)).collect()
}

/// Sum of the sizes of the allocations of a map that holds finitely many.
pub open spec fn total_size(allocations: Map<usize, AllocationView>) -> nat
    decreases allocations.dom().len(),
    when allocations.dom().finite()
{
    if allocations.dom().len() == 0 {
        0
    } else {
        let address = allocations.dom().choose();
        allocations[address].size as nat + total_size(allocations.remove(address))
    }
}

/// Any one allocation can be taken out of the sum.
pub proof fn lemma_total_size_remove(allocations: Map<usize, AllocationView>, address: usize)
    requires
        allocations.dom().finite(),
        allocations.contains_key(address),
    ensures
        total_size(allocations) == allocations[address].size + total_size(
            allocations.remove(address),
        ),
    decreases allocations.dom().len(),
{
    let chosen = allocations.dom().choose();
    if chosen != address {
        let without_chosen = allocations.remove(chosen);
        let without_address = allocations.remove(address);
        lemma_total_size_remove(without_chosen, address);
        lemma_total_size_remove(without_address, chosen);
        assert(without_chosen.remove(address) == without_address.remove(chosen));
    }
}

/// An allocation at a new address adds its size to the sum.
pub proof fn lemma_total_size_insert(
    allocations: Map<usize, AllocationView>,
    address: usize,
    allocation: AllocationView,
)
    requires
        allocations.dom().finite(),
        !allocations.contains_key(address),
    ensures
        total_size(allocations.insert(address, allocation)) == total_size(allocations)
            + allocation.size,
{
    let with = allocations.insert(address, allocation);
    lemma_total_size_remove(with, address);
    assert(with.remove(address) == allocations);
}

/// An allocation that takes the place of another at its address changes the
/// sum by the difference of their sizes.
pub proof fn lemma_total_size_replace(
    allocations: Map<usize, AllocationView>,
    address: usize,
    allocation: AllocationView,
)
    requires
        allocations.dom().finite(),
        allocations.contains_key(address),
    ensures
        total_size(allocations.insert(address, allocation)) + allocations[address].size
            == total_size(allocations) + allocation.size,
{
    let with = allocations.insert(address, allocation);
    lemma_total_size_remove(with, address);
    lemma_total_size_remove(allocations, address);
    assert(with.remove(address) == allocations.remove(address));
}

} // verus!

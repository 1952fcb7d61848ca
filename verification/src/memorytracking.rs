//! Call sites and call stacks, the registry that gives call sites their
//! identifiers, and the tracker of live allocations and of those at the peak
//! of memory usage.

use crate::allocations::{
    entries, forget, no_allocations, record, recorded, snapshot, total_size, Allocation,
    AllocationView,
};
use crate::model::{
    combined, lemma_add_sound, lemma_combined_insert, lemma_free_sound, lemma_total_size_part,
    lists_sums, shown_as, TrackerState,
};
use crate::text::{decimal, join, joined, lemma_joined_begins, texts, to_decimal};
use std::collections::HashMap;
use vstd::prelude::*;
use vstd::hash_map::StringHashMap;
use vstd::string::StringExecFns;

verus! {

broadcast use vstd::std_specs::hash::group_hash_axioms;

/// Number that stands for a call site in a call stack.
pub type CallSiteId = u32;

/// What a `CallSite` holds: the names of a module and of a function in it.
pub ghost struct CallSiteView {
    pub module_name: Seq<char>,
    pub function_name: Seq<char>,
}

impl CallSiteView {
    /// The call site as it is shown: module, a colon, function.
    pub open spec fn rendered(self) -> Seq<char> {
        self.module_name + seq![':'] + self.function_name
    }
}

/// A particular place where a call happened.
#[derive(Debug, PartialEq, Eq, Hash)]
pub struct CallSite {
    module_name: String,
    function_name: String,
}

impl View for CallSite {
    type V = CallSiteView;

    closed spec fn view(&self) -> CallSiteView {
        CallSiteView { module_name: self.module_name@, function_name: self.function_name@ }
    }
}

impl Clone for CallSite {
    fn clone(&self) -> (copy: Self)
        ensures
            copy@ == self@,
    {
        CallSite {
            module_name: self.module_name.clone(),
            function_name: self.function_name.clone(),
        }
    }
}

impl CallSite {
    /// The call site of the function `function_name` in the module
    /// `module_name`.
    pub fn new(module_name: &str, function_name: &str) -> (call_site: CallSite)
        ensures
            call_site@.module_name == module_name@,
            call_site@.function_name == function_name@,
    {
        CallSite {
            module_name: String::from_str(module_name),
            function_name: String::from_str(function_name),
        }
    }

    /// Whether both call sites name the same module and function.
    pub fn same_as(&self, other: &CallSite) -> (same: bool)
        ensures
            same == (self@ == other@),
    {
        self.module_name == other.module_name && self.function_name == other.function_name
    }

    /// The call site as it is shown: module, a colon, function.
    pub fn to_string(&self) -> (text: String)
        ensures
            text@ == self@.rendered(),
    {
        proof {
            reveal_strlit(":");
        }
        let mut text = self.module_name.clone();
        text.append(":");
        text.append(self.function_name.as_str());
        assert(text@ =~= self@.rendered());
        text
    }
}

/// What a call stack with no call shows as.
pub open spec fn no_stack() -> Seq<char> {
    "[No Python stack]"@
}

/// How each call of `calls` is shown, given the call site of each identifier.
pub open spec fn frames(calls: Seq<CallSiteId>, call_sites: Map<CallSiteId, CallSiteView>) -> Seq<
    Seq<char>,
> {
    calls.map_values(|id: CallSiteId| call_sites[id].rendered())
}

/// How a call stack is shown: its calls from the outermost on, a semicolon
/// between each two; for a stack with no call, `no_stack()`.
pub open spec fn rendered_stack(
    calls: Seq<CallSiteId>,
    call_sites: Map<CallSiteId, CallSiteView>,
) -> Seq<char> {
    if calls.len() == 0 {
        no_stack()
    } else {
        joined(frames(calls, call_sites), seq![';'])
    }
}

/// A call stack with a call in it is never shown as one with none is: the
/// first thing it shows is a call site, which has a colon in it.
pub proof fn law_no_stack_differs(
    calls: Seq<CallSiteId>,
    call_sites: Map<CallSiteId, CallSiteView>,
)
    requires
        calls.len() > 0,
    ensures
        rendered_stack(calls, call_sites) != no_stack(),
{
    let shown = rendered_stack(calls, call_sites);
    let parts = frames(calls, call_sites);
    let first = call_sites[calls[0]];
    let colon = first.module_name.len() as int;
    lemma_joined_begins(parts, seq![';']);
    assert(parts[0] == first.rendered());
    assert(parts[0][colon] == ':');
    assert(parts[0] == shown.subrange(0, parts[0].len() as int));
    assert(shown[colon] == parts[0][colon]);
    reveal_strlit("[No Python stack]");
    if shown == no_stack() {
        assert(no_stack().len() == 17);
        assert(forall|i: int| 0 <= i < 17 ==> no_stack()[i] != ':');
        assert(false);
    }
}

/// What a map from identifiers to call sites holds.
pub open spec fn site_views(id_to_callsite: Map<CallSiteId, CallSite>) -> Map<
    CallSiteId,
    CallSiteView,
> {
    id_to_callsite.map_values(|call_site: CallSite| call_site@)
}

/// The calls that one thread is in, the outermost first, each given by the
/// identifier of its call site.
#[derive(Debug, PartialEq)]
pub struct Callstack {
    calls: Vec<CallSiteId>,
}

impl View for Callstack {
    type V = Seq<CallSiteId>;

    closed spec fn view(&self) -> Seq<CallSiteId> {
        self.calls@
    }
}

impl Clone for Callstack {
    fn clone(&self) -> (copy: Self)
        ensures
            copy@ == self@,
    {
        Callstack { calls: self.calls.clone() }
    }
}

impl Callstack {
    /// The stack of a thread that is in no call.
    pub fn new() -> (callstack: Callstack)
        ensures
            callstack@ == Seq::<CallSiteId>::empty(),
    {
        Callstack { calls: Vec::new() }
    }

    /// The calls, the outermost first.
    pub fn calls(&self) -> (calls: &Vec<CallSiteId>)
        ensures
            calls@ == self@,
    {
        &self.calls
    }

    /// Enters a call.
    pub fn start_call(&mut self, function_id: CallSiteId)
        ensures
            final(self)@ == old(self)@.push(function_id),
    {
        self.calls.push(function_id);
    }

    /// Leaves the innermost call. A stack with no call stays as it is.
    pub fn finish_call(&mut self)
        ensures
            old(self)@.len() > 0 ==> final(self)@ == old(self)@.drop_last(),
            old(self)@.len() == 0 ==> final(self)@ == old(self)@,
    {
        self.calls.pop();
    }

    /// The stack as it is shown, given the call site of each identifier.
    pub fn as_string(&self, id_to_callsite: &HashMap<CallSiteId, CallSite>) -> (text: String)
        requires
            forall|i: int|
                0 <= i < self@.len() ==> id_to_callsite@.contains_key(#[trigger] self@[i]),
        ensures
            text@ == rendered_stack(self@, site_views(id_to_callsite@)),
    {
        if self.calls.is_empty() {
            String::from_str("[No Python stack]")
        } else {
            let mut shown: Vec<String> = Vec::new();
            let mut i: usize = 0;
            assert(self@ == self.calls@);
            while i < self.calls.len()
                invariant
                    i <= self.calls.len(),
                    forall|j: int|
                        0 <= j < self.calls@.len() ==> id_to_callsite@.contains_key(
                            #[trigger] self.calls@[j],
                        ),
                    texts(shown@) == frames(
                        self.calls@.take(i as int),
                        site_views(id_to_callsite@),
                    ),
                decreases self.calls.len() - i,
            {
                let id = self.calls[i];
                assert(id_to_callsite@.contains_key(self.calls@[i as int]));
                let call_site = id_to_callsite.get(&id).unwrap();
                let ghost shown_before = shown@;
                shown.push(call_site.to_string());
                proof {
                    let sites = site_views(id_to_callsite@);
                    let before = self.calls@.take(i as int);
                    let after = self.calls@.take(i + 1);
                    assert(sites[id] == id_to_callsite@[id]@);
                    assert(texts(shown_before).len() == i);
                    assert(texts(shown@).len() == i + 1);
                    assert forall|j: int| 0 <= j < after.len() implies texts(shown@)[j] == frames(
                        after,
                        sites,
                    )[j] by {
                        if j < i {
                            assert(texts(shown@)[j] == texts(shown_before)[j]);
                            assert(texts(shown_before)[j] == frames(before, sites)[j]);
                        }
                    }
                    assert(texts(shown@) =~= frames(after, sites));
                }
                i = i + 1;
            }
            proof {
                reveal_strlit(";");
                assert(self.calls@.take(i as int) == self.calls@);
                assert(";"@ =~= seq![';']);
            }
            join(&shown, ";")
        }
    }
}

/// The call sites of a registry once `call_site` has been looked up in it: a
/// call site that it does not hold yet comes last, and nothing else changes.
pub open spec fn interned(registered: Seq<CallSiteView>, call_site: CallSiteView) -> Seq<
    CallSiteView,
> {
    if registered.contains(call_site) {
        registered
    } else {
        registered.push(call_site)
    }
}

/// The identifier under which a registry of these call sites gives out
/// `call_site`: its place among them, or the next free place.
pub open spec fn id_in(registered: Seq<CallSiteView>, call_site: CallSiteView) -> int {
    if registered.contains(call_site) {
        registered.index_of(call_site)
    } else {
        registered.len() as int
    }
}

/// The map from each identifier that a registry of these call sites has given
/// out to its call site.
pub open spec fn by_id(registered: Seq<CallSiteView>) -> Map<CallSiteId, CallSiteView> {
    Map::new(|id: CallSiteId| id < registered.len(), |id: CallSiteId| registered[id as int])
}

/// The call sites of a registry once each of `call_sites` has been looked up in
/// it, one after the other.
pub open spec fn interned_all(
    registered: Seq<CallSiteView>,
    call_sites: Seq<CallSiteView>,
) -> Seq<CallSiteView>
    decreases call_sites.len(),
{
    if call_sites.len() == 0 {
        registered
    } else {
        interned(interned_all(registered, call_sites.drop_last()), call_sites.last())
    }
}

/// A call site that is looked up again gets the identifier that it got
/// before, and another call site gets another.
pub proof fn law_registry_determinism(
    registered: Seq<CallSiteView>,
    first: CallSiteView,
    second: CallSiteView,
)
    requires
        registered.no_duplicates(),
    ensures
        interned(registered, first).no_duplicates(),
        first == second ==> id_in(interned(registered, first), second) == id_in(registered, first),
        first != second ==> id_in(interned(registered, first), second) != id_in(registered, first),
{
    let after = interned(registered, first);
    assert(after.no_duplicates());
    assert(after.contains(first)) by {
        if registered.contains(first) {
        } else {
            assert(after[registered.len() as int] == first);
        }
    }
    let id = id_in(registered, first);
    assert(0 <= id < after.len() && after[id] == first);
    if after.contains(second) {
        let other = after.index_of(second);
        assert(0 <= other < after.len() && after[other] == second);
    }
}

/// Identifiers are never given out again: whatever is looked up in a
/// registry, a call site that it held keeps its identifier, and the call
/// sites stay without duplicates.
pub proof fn law_identifier_kept(
    registered: Seq<CallSiteView>,
    call_sites: Seq<CallSiteView>,
    call_site: CallSiteView,
)
    requires
        registered.no_duplicates(),
        registered.contains(call_site),
    ensures
        interned_all(registered, call_sites).no_duplicates(),
        interned_all(registered, call_sites).contains(call_site),
        id_in(interned_all(registered, call_sites), call_site) == id_in(registered, call_site),
        registered.is_prefix_of(interned_all(registered, call_sites)),
    decreases call_sites.len(),
{
    let after = interned_all(registered, call_sites);
    if call_sites.len() == 0 {
        assert(registered =~= registered.subrange(0, registered.len() as int));
    } else {
        let earlier = interned_all(registered, call_sites.drop_last());
        law_identifier_kept(registered, call_sites.drop_last(), call_site);
        let id = registered.index_of(call_site);
        assert(0 <= id < registered.len() && registered[id] == call_site);
        assert(registered == earlier.subrange(0, registered.len() as int));
        assert(registered =~= after.subrange(0, registered.len() as int)) by {
            assert forall|i: int| 0 <= i < registered.len() implies after[i] == registered[i] by {
                assert(earlier.subrange(0, registered.len() as int)[i] == earlier[i]);
            }
        }
        assert(earlier[id] == call_site) by {
            assert(earlier.subrange(0, registered.len() as int)[id] == earlier[id]);
        }
        assert(after[id] == call_site);
        let kept = after.index_of(call_site);
        assert(0 <= kept < after.len() && after[kept] == call_site);
    }
}

/// Maps call sites to the identifiers used in call stacks. Identifiers are
/// given out from zero on, one after the other, and a call site keeps the one
/// it was first given.
pub struct CallSites {
    /// The next identifier.
    max_id: u32,
    /// The call site of each identifier.
    sites: Vec<CallSite>,
    /// For each module that a call site names, its place in `functions`.
    modules: StringHashMap<usize>,
    /// For each such module, the identifier of each of its functions that a
    /// call site names.
    functions: Vec<StringHashMap<CallSiteId>>,
}

impl View for CallSites {
    type V = Seq<CallSiteView>;

    /// The registered call sites, each at the place that is its identifier.
    closed spec fn view(&self) -> Seq<CallSiteView> {
        self.sites@.map_values(|call_site: CallSite| call_site@)
    }
}

impl CallSites {
    /// Whether the index holds an identifier for the function of the module.
    spec fn finds(&self, module: Seq<char>, function: Seq<char>) -> bool {
        &&& self.modules@.contains_key(module)
        &&& self.functions@[self.modules@[module] as int]@.contains_key(function)
    }

    /// The identifier that the index holds for the function of the module.
    spec fn found(&self, module: Seq<char>, function: Seq<char>) -> CallSiteId {
        self.functions@[self.modules@[module] as int]@[function]
    }

    /// The next identifier is the number of registered call sites, and the
    /// index finds each of them, and nothing else, under its identifier.
    pub closed spec fn indexed(&self) -> bool {
        &&& self.max_id == self.sites@.len()
        &&& forall|module: Seq<char>| #[trigger]
            self.modules@.contains_key(module) ==> self.modules@[module] < self.functions@.len()
        &&& forall|module: Seq<char>, other: Seq<char>|
            #![trigger self.modules@[module], self.modules@[other]]
            self.modules@.contains_key(module) && self.modules@.contains_key(other)
                && self.modules@[module] == self.modules@[other] ==> module == other
        &&& forall|module: Seq<char>, function: Seq<char>| #[trigger]
            self.finds(module, function) ==> self.found(module, function) < self.sites@.len()
                && self@[self.found(module, function) as int] == (CallSiteView {
                module_name: module,
                function_name: function,
            })
        &&& forall|id: int|
            0 <= id < self.sites@.len() ==> self.finds(
                (#[trigger] self@[id]).module_name,
                self@[id].function_name,
            ) && self.found(self@[id].module_name, self@[id].function_name) == id
    }

    /// The registry is in order: its index is, and no call site is registered
    /// twice.
    pub open spec fn wf(&self) -> bool {
        &&& self.indexed()
        &&& self@.no_duplicates()
    }

    /// The registry that has given out no identifier.
    pub fn new() -> (call_sites: CallSites)
        ensures
            call_sites.wf(),
            call_sites@ == Seq::<CallSiteView>::empty(),
    {
        let call_sites = CallSites {
            max_id: 0,
            sites: Vec::new(),
            modules: StringHashMap::new(),
            functions: Vec::new(),
        };
        assert(call_sites@ =~= Seq::<CallSiteView>::empty());
        call_sites
    }

    /// The identifier under which `call_site` is registered, if it is.
    fn lookup(&self, call_site: &CallSite) -> (id: Option<CallSiteId>)
        requires
            self.wf(),
        ensures
            id is Some <==> self@.contains(call_site@),
            id matches Some(id) ==> id < self@.len() && self@[id as int] == call_site@,
            id is Some <==> self.finds(call_site@.module_name, call_site@.function_name),
    {
        let ghost module = call_site@.module_name;
        let ghost function = call_site@.function_name;
        proof {
            if self@.contains(call_site@) {
                let at = choose|at: int| 0 <= at < self@.len() && self@[at] == call_site@;
                assert(self.finds(self@[at].module_name, self@[at].function_name));
            }
            if self.finds(module, function) {
                assert(self@[self.found(module, function) as int] == call_site@);
            }
        }
        match self.modules.get(call_site.module_name.as_str()) {
            Some(slot) => {
                match self.functions[*slot].get(call_site.function_name.as_str()) {
                    Some(id) => Some(*id),
                    None => None,
                }
            },
            None => None,
        }
    }

    /// The identifier of `call_site`, which is registered if it was not.
    pub fn get_or_insert_id(&mut self, call_site: CallSite) -> (id: CallSiteId)
        requires
            old(self).wf(),
            old(self)@.contains(call_site@) || old(self)@.len() < u32::MAX,
        ensures
            final(self).wf(),
            final(self)@ == interned(old(self)@, call_site@),
            id == id_in(old(self)@, call_site@),
            id < final(self)@.len(),
            final(self)@[id as int] == call_site@,
    {
        if let Some(id) = self.lookup(&call_site) {
            return id;
        }
        let ghost module = call_site@.module_name;
        let ghost function = call_site@.function_name;
        let slot = match self.modules.get(call_site.module_name.as_str()) {
            Some(slot) => *slot,
            None => {
                let slot = self.functions.len();
                self.modules.insert(call_site.module_name.clone(), slot);
                self.functions.push(StringHashMap::new());
                slot
            },
        };
        let id = self.max_id;
        self.functions[slot].insert(call_site.function_name.clone(), id);
        self.sites.push(call_site);
        self.max_id = self.max_id + 1;
        proof {
            let before = old(self);
            assert(self@ =~= before@.push(call_site@));
            assert(self.modules@[module] == slot);
            assert forall|m: Seq<char>, f: Seq<char>|
                before.finds(m, f) implies self.finds(m, f) && self.found(m, f) == before.found(
                m,
                f,
            ) by {
                assert(before.modules@.contains_key(m));
                assert(self.modules@[m] == before.modules@[m]);
                if before.modules@[m] == slot {
                    assert(m == module);
                }
            }
            assert forall|m: Seq<char>, f: Seq<char>|
                self.finds(m, f) && !(m == module && f == function) implies before.finds(m, f) by {
                if m != module {
                    assert(before.modules@.contains_key(m));
                    assert(self.modules@[m] == before.modules@[m]);
                    assert(before.modules@[m] != slot);
                }
            }
            assert forall|m: Seq<char>, f: Seq<char>| #[trigger]
                self.finds(m, f) implies self.found(m, f) < self.sites@.len() && self@[self.found(
                m,
                f,
            ) as int] == (CallSiteView { module_name: m, function_name: f }) by {
                if !(m == module && f == function) {
                    assert(before.finds(m, f));
                    assert(self@[before.found(m, f) as int] == before@[before.found(m, f) as int]);
                }
            }
            assert forall|at: int| 0 <= at < self.sites@.len() implies self.finds(
                (#[trigger] self@[at]).module_name,
                self@[at].function_name,
            ) && self.found(self@[at].module_name, self@[at].function_name) == at by {
                if at < before.sites@.len() {
                    assert(self@[at] == before@[at]);
                    assert(before.finds(before@[at].module_name, before@[at].function_name));
                }
            }
            assert forall|m: Seq<char>, other: Seq<char>|
                #![trigger self.modules@[m], self.modules@[other]]
                self.modules@.contains_key(m) && self.modules@.contains_key(other)
                    && self.modules@[m] == self.modules@[other] implies m == other by {
                if m != module && other != module {
                    assert(before.modules@.contains_key(m) && before.modules@.contains_key(other));
                    assert(before.modules@[m] == before.modules@[other]);
                }
            }
        }
        id
    }

    /// Whether `call_site` can be looked up: it is registered, or there is an
    /// identifier left for it.
    pub fn has_room_for(&self, call_site: &CallSite) -> (room: bool)
        requires
            self.wf(),
        ensures
            room == (self@.contains(call_site@) || self@.len() < u32::MAX),
    {
        self.max_id < u32::MAX || self.lookup(call_site).is_some()
    }

    /// How many call sites are registered, which is the next identifier.
    pub fn len(&self) -> (count: u32)
        requires
            self.wf(),
        ensures
            count == self@.len(),
    {
        self.max_id
    }

    /// The call site of each identifier given out so far, as a map of its own.
    pub fn get_reverse_map(&self) -> (id_to_callsite: HashMap<CallSiteId, CallSite>)
        requires
            self.wf(),
        ensures
            site_views(id_to_callsite@) == by_id(self@),
    {
        let mut id_to_callsite: HashMap<CallSiteId, CallSite> = HashMap::new();
        let mut i: usize = 0;
        while i < self.sites.len()
            invariant
                i <= self.sites.len(),
                self.wf(),
                site_views(id_to_callsite@) == by_id(self@.take(i as int)),
            decreases self.sites.len() - i,
        {
            let ghost before = id_to_callsite@;
            let id = i as u32;
            let call_site = self.sites[i].clone();
            id_to_callsite.insert(id, call_site);
            proof {
                let expected = by_id(self@.take(i + 1));
                assert(id_to_callsite@ == before.insert(id, call_site));
                assert forall|other: CallSiteId|
                    site_views(id_to_callsite@).contains_key(other) == expected.contains_key(
                        other,
                    ) by {
                    assert(site_views(before).contains_key(other) == by_id(
                        self@.take(i as int),
                    ).contains_key(other));
                }
                assert forall|other: CallSiteId| expected.contains_key(other) implies site_views(
                    id_to_callsite@,
                )[other] == expected[other] by {
                    if other != id {
                        assert(site_views(before)[other] == by_id(self@.take(i as int))[other]);
                    }
                }
                assert(site_views(id_to_callsite@) =~= expected);
            }
            i = i + 1;
        }
        proof {
            assert(self@.take(i as int) == self@);
        }
        id_to_callsite
    }
}

/// The main data structure tracking everything: the live allocations, those
/// that were live at the peak of memory usage, and the registered call sites.
pub struct AllocationTracker {
    current_allocations: im::HashMap<usize, Allocation>,
    peak_allocations: im::HashMap<usize, Allocation>,
    current_allocated_bytes: usize,
    peak_allocated_bytes: usize,
    call_sites: CallSites,
}

impl View for AllocationTracker {
    type V = TrackerState;

    closed spec fn view(&self) -> TrackerState {
        TrackerState {
            current: recorded(self.current_allocations),
            peak: recorded(self.peak_allocations),
            current_bytes: self.current_allocated_bytes as nat,
            peak_bytes: self.peak_allocated_bytes as nat,
            call_sites: self.call_sites@,
        }
    }
}

impl AllocationTracker {
    /// The registry of call sites is in order.
    pub closed spec fn registry_wf(&self) -> bool {
        self.call_sites.wf()
    }

    /// The tracker is in order: finitely many allocations are held, no call
    /// site is registered twice, and the byte counts are sound and fit a
    /// `usize`.
    pub open spec fn wf(&self) -> bool {
        &&& self.registry_wf()
        &&& self@.call_sites.no_duplicates()
        &&& self@.finite()
        &&& self@.sound()
        &&& self@.peak_bytes <= usize::MAX
    }

    /// The tracker that has seen nothing.
    pub fn new() -> (tracker: AllocationTracker)
        ensures
            tracker.wf(),
            tracker@ == TrackerState::empty(),
    {
        let tracker = AllocationTracker {
            current_allocations: no_allocations(),
            peak_allocations: no_allocations(),
            current_allocated_bytes: 0,
            peak_allocated_bytes: 0,
            call_sites: CallSites::new(),
        };
        proof {
            assert(total_size(Map::<usize, AllocationView>::empty()) == 0);
        }
        tracker
    }

    /// The bytes counted as live.
    pub fn current_allocated_bytes(&self) -> (bytes: usize)
        ensures
            bytes == self@.current_bytes,
    {
        self.current_allocated_bytes
    }

    /// The highest that the live bytes have been.
    pub fn peak_allocated_bytes(&self) -> (bytes: usize)
        ensures
            bytes == self@.peak_bytes,
    {
        self.peak_allocated_bytes
    }

    /// The live allocations, as a map of its own.
    pub fn current_allocations(&self) -> (allocations: im::HashMap<usize, Allocation>)
        ensures
            recorded(allocations) == self@.current,
    {
        snapshot(&self.current_allocations)
    }

    /// The allocations that were live at the peak, as a map of its own.
    pub fn peak_allocations(&self) -> (allocations: im::HashMap<usize, Allocation>)
        ensures
            recorded(allocations) == self@.peak,
    {
        snapshot(&self.peak_allocations)
    }

    /// The identifier of `call_site`, which is registered if it was not.
    pub fn get_or_insert_id(&mut self, call_site: CallSite) -> (id: CallSiteId)
        requires
            old(self).wf(),
            old(self)@.call_sites.contains(call_site@) || old(self)@.call_sites.len() < u32::MAX,
        ensures
            final(self).wf(),
            final(self)@ == (TrackerState {
                call_sites: interned(old(self)@.call_sites, call_site@),
                ..old(self)@
            }),
            id == id_in(old(self)@.call_sites, call_site@),
    {
        self.call_sites.get_or_insert_id(call_site)
    }

    /// The call site of each identifier given out so far, as a map of its own.
    pub fn get_reverse_map(&self) -> (id_to_callsite: HashMap<CallSiteId, CallSite>)
        requires
            self.wf(),
        ensures
            site_views(id_to_callsite@) == by_id(self@.call_sites),
    {
        self.call_sites.get_reverse_map()
    }

    /// Whether `call_site` can be looked up: it is registered, or there is an
    /// identifier left for it.
    pub fn has_room_for(&self, call_site: &CallSite) -> (room: bool)
        requires
            self.wf(),
        ensures
            room == (self@.call_sites.contains(call_site@) || self@.call_sites.len() < u32::MAX),
    {
        self.call_sites.has_room_for(call_site)
    }

    /// Whether every call in the call stacks at the peak is that of a
    /// registered call site, so that the call stacks can be shown.
    pub fn peak_callstacks_known(&self) -> (known: bool)
        requires
            self.wf(),
        ensures
            known == self@.peak_known(),
    {
        let peak = entries(&self.peak_allocations);
        let limit = self.call_sites.len();
        let ghost all = self@.peak;
        let mut k: usize = 0;
        while k < peak.len()
            invariant
                k <= peak.len(),
                all == self@.peak,
                limit == self@.call_sites.len(),
                forall|i: int|
                    0 <= i < peak.len() ==> all.contains_key((#[trigger] peak[i]).0)
                        && all[peak[i].0] == peak[i].1@,
                forall|j: int, i: int|
                    #![trigger peak[j].1@.callstack[i]]
                    0 <= j < k && 0 <= i < peak[j].1@.callstack.len()
                        ==> peak[j].1@.callstack[i] < limit,
            decreases peak.len() - k,
        {
            let calls = peak[k].1.callstack().calls();
            let mut i: usize = 0;
            while i < calls.len()
                invariant
                    i <= calls.len(),
                    0 <= k < peak.len(),
                    calls@ == peak[k as int].1@.callstack,
                    all == self@.peak,
                    limit == self@.call_sites.len(),
                    all.contains_key(peak[k as int].0),
                    all[peak[k as int].0] == peak[k as int].1@,
                    forall|j: int| 0 <= j < i ==> calls@[j] < limit,
                decreases calls.len() - i,
            {
                if calls[i] >= limit {
                    assert(all[peak[k as int].0].callstack[i as int] >= self@.call_sites.len());
                    return false;
                }
                i = i + 1;
            }
            k = k + 1;
        }
        proof {
            assert forall|address: usize, i: int|
                #![trigger all[address].callstack[i]]
                all.contains_key(address) && 0 <= i < all[address].callstack.len() implies
                all[address].callstack[i] < self@.call_sites.len() by {
                let j = choose|j: int| 0 <= j < peak.len() && (#[trigger] peak[j]).0 == address;
                assert(peak[j].1@.callstack[i] < limit);
            }
        }
        true
    }

    /// Add a new allocation based off the given callstack.
    pub fn add_allocation(&mut self, address: usize, size: libc::size_t, callstack: Callstack)
        requires
            old(self).wf(),
            old(self)@.current_bytes + size <= usize::MAX,
        ensures
            final(self).wf(),
            final(self)@ == old(self)@.add(
                address,
                AllocationView { callstack: callstack@, size },
            ),
    {
        proof {
            lemma_add_sound(self@, address, AllocationView { callstack: callstack@, size });
        }
        let alloc = Allocation::new(callstack, size);
        record(&mut self.current_allocations, address, alloc);
        self.current_allocated_bytes = self.current_allocated_bytes + size;
        if self.current_allocated_bytes > self.peak_allocated_bytes {
            self.peak_allocated_bytes = self.current_allocated_bytes;
            self.peak_allocations = snapshot(&self.current_allocations);
        }
    }

    /// Free an existing allocation. An address at which nothing is live is
    /// passed over.
    pub fn free_allocation(&mut self, address: usize)
        requires
            old(self).wf(),
        ensures
            final(self).wf(),
            final(self)@ == old(self)@.free(address),
    {
        proof {
            lemma_free_sound(self@, address);
        }
        // Possibly this allocation doesn't exist; that's OK!
        if let Some(removed) = forget(&mut self.current_allocations, address) {
            if removed.size() > self.current_allocated_bytes {
                // Sound counts never get here, but just in case...
                self.current_allocated_bytes = 0;
            } else {
                self.current_allocated_bytes = self.current_allocated_bytes - removed.size();
            }
        } else {
            assert(recorded(self.current_allocations) =~= old(self)@.current);
        }
    }
}

/// The addresses of the first `count` of `entries`.
spec fn first_addresses(entries: Seq<(usize, &Allocation)>, count: int) -> Set<usize> {
    Set::new(|address: usize| exists|i: int| 0 <= i < count && (#[trigger] entries[i]).0 == address)
}

impl AllocationTracker {
    /// Combine the call stacks of the allocations at the peak and make them
    /// human-readable: each text that a call stack is shown as comes once,
    /// with the sum of the sizes of the allocations whose call stack is shown
    /// so.
    pub fn combine_callstacks(&self) -> (by_call: Vec<(String, usize)>)
        requires
            self.wf(),
            self@.peak_known(),
        ensures
            lists_sums(by_call@, combined(self@.peak, by_id(self@.call_sites))),
    {
        let id_to_callsite = self.call_sites.get_reverse_map();
        let peak = entries(&self.peak_allocations);
        let mut by_call: Vec<(String, usize)> = Vec::new();
        let mut places: StringHashMap<usize> = StringHashMap::new();
        let ghost sites = by_id(self@.call_sites);
        let ghost all = self@.peak;
        proof {
            assert(all.restrict(first_addresses(peak@, 0)) =~= Map::empty());
            assert(combined(Map::<usize, AllocationView>::empty(), sites) =~= Map::empty());
        }
        let mut k: usize = 0;
        while k < peak.len()
            invariant
                k <= peak.len(),
                sites == site_views(id_to_callsite@),
                sites == by_id(self@.call_sites),
                all == self@.peak,
                all.dom().finite(),
                total_size(all) <= usize::MAX,
                self@.peak_known(),
                forall|i: int|
                    0 <= i < peak.len() ==> all.contains_key((#[trigger] peak[i]).0)
                        && all[peak[i].0] == peak[i].1@,
                forall|i: int, j: int|
                    0 <= i < j < peak.len() ==> (#[trigger] peak[i]).0 != (#[trigger] peak[j]).0,
                lists_sums(
                    by_call@,
                    combined(all.restrict(first_addresses(peak@, k as int)), sites),
                ),
                forall|i: int|
                    0 <= i < by_call.len() ==> places@.contains_key((#[trigger] by_call[i]).0@)
                        && places@[by_call[i].0@] == i,
                forall|text: Seq<char>| #[trigger]
                    places@.contains_key(text) ==> places@[text] < by_call.len()
                        && by_call[places@[text] as int].0@ == text,
            decreases peak.len() - k,
        {
            let address = peak[k].0;
            let allocation = peak[k].1;
            let ghost part = all.restrict(first_addresses(peak@, k as int));
            let ghost part_with = all.restrict(first_addresses(peak@, k + 1));
            let ghost before = by_call@;
            proof {
                assert(all.contains_key(peak[k as int].0));
                assert(!part.contains_key(address));
                assert(part_with =~= part.insert(address, allocation@));
                lemma_total_size_part(part, all);
                lemma_total_size_part(part_with, all);
                lemma_combined_insert(part, sites, address, allocation@);
                assert forall|i: int| 0 <= i < allocation@.callstack.len() implies
                    id_to_callsite@.contains_key(#[trigger] allocation@.callstack[i]) by {
                    assert(all[address].callstack[i] < self@.call_sites.len());
                    assert(sites.contains_key(allocation@.callstack[i]));
                }
                let shown = rendered_stack(allocation@.callstack, sites);
                lemma_total_size_part(shown_as(part_with, sites, shown), part_with);
                assert(combined(part_with, sites).contains_key(shown));
                assert(combined(part_with, sites)[shown] <= usize::MAX);
            }
            let ghost sums = combined(part, sites);
            let ghost sums_with = combined(part_with, sites);
            let text = allocation.callstack().as_string(&id_to_callsite);
            let ghost shown = text@;
            match places.get(text.as_str()) {
                Some(place) => {
                    let at = *place;
                    assert(before[at as int].0@ == shown);
                    assert(sums.contains_key(shown) && sums[shown] == before[at as int].1);
                    let sum = by_call[at].1 + allocation.size();
                    by_call.set(at, (text, sum));
                    proof {
                        assert forall|i: int| 0 <= i < by_call.len() implies (
                        #[trigger] by_call[i]).0@ == before[i].0@ by {}
                        assert forall|i: int| 0 <= i < by_call.len() implies sums_with.contains_key(
                            (#[trigger] by_call[i]).0@,
                        ) && sums_with[by_call[i].0@] == by_call[i].1 by {
                            if i != at {
                                assert(by_call[i] == before[i]);
                                assert(before[i].0@ != before[at as int].0@);
                                assert(sums.contains_key(before[i].0@));
                            }
                        }
                        assert forall|other: Seq<char>| #[trigger]
                            sums_with.contains_key(other) implies exists|i: int|
                            0 <= i < by_call.len() && (#[trigger] by_call[i]).0@ == other by {
                            if other == shown {
                                assert(by_call[at as int].0@ == other);
                            } else {
                                assert(sums.contains_key(other));
                                let i = choose|i: int|
                                    0 <= i < before.len() && (#[trigger] before[i]).0@ == other;
                                assert(by_call[i].0@ == other);
                            }
                        }
                        assert forall|i: int, j: int| 0 <= i < j < by_call.len() implies (
                        #[trigger] by_call[i]).0@ != (#[trigger] by_call[j]).0@ by {
                            assert(before[i].0@ != before[j].0@);
                        }
                    }
                },
                None => {
                    proof {
                        if sums.contains_key(shown) {
                            let i = choose|i: int|
                                0 <= i < before.len() && (#[trigger] before[i]).0@ == shown;
                            assert(places@.contains_key(before[i].0@));
                        }
                    }
                    places.insert(text.clone(), by_call.len());
                    by_call.push((text, allocation.size()));
                    proof {
                        let last = before.len() as int;
                        assert forall|i: int| 0 <= i < before.len() implies (
                        #[trigger] by_call[i]) == before[i] by {}
                        assert forall|i: int| 0 <= i < by_call.len() implies sums_with.contains_key(
                            (#[trigger] by_call[i]).0@,
                        ) && sums_with[by_call[i].0@] == by_call[i].1 by {
                            if i != last {
                                assert(by_call[i] == before[i]);
                                assert(sums.contains_key(before[i].0@));
                            }
                        }
                        assert forall|other: Seq<char>| #[trigger]
                            sums_with.contains_key(other) implies exists|i: int|
                            0 <= i < by_call.len() && (#[trigger] by_call[i]).0@ == other by {
                            if other == shown {
                                assert(by_call[last].0@ == other);
                            } else {
                                assert(sums.contains_key(other));
                                let i = choose|i: int|
                                    0 <= i < before.len() && (#[trigger] before[i]).0@ == other;
                                assert(by_call[i].0@ == other);
                            }
                        }
                        assert forall|i: int, j: int| 0 <= i < j < by_call.len() implies (
                        #[trigger] by_call[i]).0@ != (#[trigger] by_call[j]).0@ by {
                            if j == last {
                                assert(sums.contains_key(before[i].0@));
                            } else {
                                assert(before[i].0@ != before[j].0@);
                            }
                        }
                        assert forall|i: int| 0 <= i < by_call.len() implies places@.contains_key(
                            (#[trigger] by_call[i]).0@,
                        ) && places@[by_call[i].0@] == i by {
                            if i != last {
                                assert(by_call[i] == before[i]);
                                assert(sums.contains_key(before[i].0@));
                            }
                        }
                    }
                },
            }
            k = k + 1;
        }
        proof {
            assert(first_addresses(peak@, peak.len() as int) =~= all.dom());
            assert(all.restrict(all.dom()) =~= all);
        }
        by_call
    }
}

/// One line of the raw profile: the text of a call stack, a space, and the
/// bytes in base ten.
pub open spec fn line(text: Seq<char>, bytes: nat) -> Seq<char> {
    text + seq![' '] + decimal(bytes)
}

/// `shown` is the line of one of the texts of `sums`.
pub open spec fn line_of_some(shown: Seq<char>, sums: Map<Seq<char>, nat>) -> bool {
    exists|text: Seq<char>| #[trigger] sums.contains_key(text) && shown == line(text, sums[text])
}

/// `lines` holds one line for each text of `sums`, and nothing else.
pub open spec fn lists_lines(lines: Seq<String>, sums: Map<Seq<char>, nat>) -> bool {
    &&& sums.dom().finite()
    &&& lines.len() == sums.dom().len()
    &&& forall|i: int| 0 <= i < lines.len() ==> line_of_some((#[trigger] lines[i])@, sums)
    &&& forall|text: Seq<char>| #[trigger]
        sums.contains_key(text) ==> exists|i: int|
            0 <= i < lines.len() && (#[trigger] lines[i])@ == line(text, sums[text])
}

/// A list that holds each text of `sums` once is as long as `sums` has texts.
pub proof fn lemma_lists_sums_len(by_call: Seq<(String, usize)>, sums: Map<Seq<char>, nat>)
    requires
        lists_sums(by_call, sums),
    ensures
        sums.dom().finite(),
        sums.dom().len() == by_call.len(),
{
    let names = by_call.map_values(|pair: (String, usize)| pair.0@);
    assert(names.no_duplicates()) by {
        assert forall|i: int, j: int|
            0 <= i < names.len() && 0 <= j < names.len() && i != j implies names[i]
            != names[j] by {
            if i < j {
                assert(by_call[i].0@ != by_call[j].0@);
            } else {
                assert(by_call[j].0@ != by_call[i].0@);
            }
        }
    }
    assert(names.to_set() =~= sums.dom()) by {
        assert forall|text: Seq<char>| names.to_set().contains(text) == sums.dom().contains(
            text,
        ) by {
            if names.to_set().contains(text) {
                let i = choose|i: int| 0 <= i < names.len() && names[i] == text;
                assert(sums.contains_key(by_call[i].0@));
            }
            if sums.contains_key(text) {
                let i = choose|i: int|
                    0 <= i < by_call.len() && (#[trigger] by_call[i]).0@ == text;
                assert(names[i] == text);
            }
        }
    }
    names.unique_seq_to_set();
    vstd::seq_lib::seq_to_set_is_finite(names);
}

/// What is to be done about the directory that a profile is written to.
#[derive(Clone, Copy, Debug, PartialEq, Eq)]
pub enum DirectoryAction {
    /// Nothing is at the path: the directory is to be made.
    Create,
    /// A directory is at the path: it is used as it is.
    Keep,
    /// Something else is at the path: nothing can be written.
    Refuse,
}

/// What is to be done about the directory that a profile is written to, given
/// whether anything is at its path and whether that is a directory.
pub fn directory_action(exists: bool, is_directory: bool) -> (action: DirectoryAction)
    ensures
        !exists ==> action == DirectoryAction::Create,
        exists && is_directory ==> action == DirectoryAction::Keep,
        exists && !is_directory ==> action == DirectoryAction::Refuse,
{
    if !exists {
        DirectoryAction::Create
    } else if !is_directory {
        DirectoryAction::Refuse
    } else {
        DirectoryAction::Keep
    }
}

/// Add to the function stack of a thread: the call site is registered if it
/// was not, and the thread enters a call of it.
pub fn start_call(tracker: &mut AllocationTracker, callstack: &mut Callstack, call_site: CallSite)
    requires
        old(tracker).wf(),
        old(tracker)@.call_sites.contains(call_site@) || old(tracker)@.call_sites.len()
            < u32::MAX,
    ensures
        final(tracker).wf(),
        final(tracker)@ == (TrackerState {
            call_sites: interned(old(tracker)@.call_sites, call_site@),
            ..old(tracker)@
        }),
        final(callstack)@ == old(callstack)@.push(
            id_in(old(tracker)@.call_sites, call_site@) as CallSiteId,
        ),
{
    let id = tracker.get_or_insert_id(call_site);
    callstack.start_call(id);
}

/// Finish off the current function in the function stack of a thread.
pub fn finish_call(callstack: &mut Callstack)
    ensures
        old(callstack)@.len() > 0 ==> final(callstack)@ == old(callstack)@.drop_last(),
        old(callstack)@.len() == 0 ==> final(callstack)@ == old(callstack)@,
{
    callstack.finish_call();
}

/// Add a new allocation based off the current callstack of a thread, of which
/// the tracker keeps a copy.
pub fn add_allocation(
    tracker: &mut AllocationTracker,
    callstack: &Callstack,
    address: usize,
    size: libc::size_t,
)
    requires
        old(tracker).wf(),
        old(tracker)@.current_bytes + size <= usize::MAX,
    ensures
        final(tracker).wf(),
        final(tracker)@ == old(tracker)@.add(
            address,
            AllocationView { callstack: callstack@, size },
        ),
{
    tracker.add_allocation(address, size, callstack.clone());
}

/// Free an existing allocation.
pub fn free_allocation(tracker: &mut AllocationTracker, address: usize)
    requires
        old(tracker).wf(),
    ensures
        final(tracker).wf(),
        final(tracker)@ == old(tracker)@.free(address),
{
    tracker.free_allocation(address);
}

/// Reset internal state: the tracker is replaced, whole, by one that has seen
/// nothing.
pub fn reset(tracker: &mut AllocationTracker)
    ensures
        final(tracker).wf(),
        final(tracker)@ == TrackerState::empty(),
{
    *tracker = AllocationTracker::new();
}

/// Dump all callstacks in peak memory usage to the format used by
/// flamegraph: one line for each text that a call stack at the peak is shown
/// as, with the bytes allocated under it.
pub fn dump_peak_to_flamegraph(tracker: &AllocationTracker) -> (lines: Vec<String>)
    requires
        tracker.wf(),
        tracker@.peak_known(),
    ensures
        lists_lines(lines@, combined(tracker@.peak, by_id(tracker@.call_sites))),
{
    let by_call = tracker.combine_callstacks();
    let ghost sums = combined(tracker@.peak, by_id(tracker@.call_sites));
    let mut lines: Vec<String> = Vec::new();
    let mut i: usize = 0;
    proof {
        reveal_strlit(" ");
    }
    while i < by_call.len()
        invariant
            i <= by_call.len(),
            lines.len() == i,
            " "@ == seq![' '],
            lists_sums(by_call@, sums),
            forall|j: int|
                0 <= j < i ==> (#[trigger] lines[j])@ == line(by_call[j].0@, by_call[j].1 as nat),
        decreases by_call.len() - i,
    {
        let mut text = by_call[i].0.clone();
        text.append(" ");
        text.append(to_decimal(by_call[i].1).as_str());
        lines.push(text);
        i = i + 1;
    }
    proof {
        lemma_lists_sums_len(by_call@, sums);
        assert forall|j: int| 0 <= j < lines.len() implies line_of_some(
            (#[trigger] lines[j])@,
            sums,
        ) by {
            let text = by_call[j].0@;
            assert(sums.contains_key(text) && lines[j]@ == line(text, sums[text]));
        }
        assert forall|text: Seq<char>| #[trigger] sums.contains_key(text) implies exists|j: int|
            0 <= j < lines.len() && (#[trigger] lines[j])@ == line(text, sums[text]) by {
            let j = choose|j: int| 0 <= j < by_call.len() && (#[trigger] by_call[j]).0@ == text;
            assert(lines[j]@ == line(text, sums[text]));
        }
    }
    lines
}

} // verus!

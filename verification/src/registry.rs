//! The registry compiler: from the paths of definition files to the entry
//! list of every registry, the integer each entry is known by, and one packet
//! per registry.

use crate::names::{
    is_sorted, keyed, lemma_insert_sorted, lemma_keyed_at, lemma_keyed_insert, lemma_keyed_update,
    lemma_located, lemma_sorted_unique, same_name, search, sorted,
};
use crate::paths::{file_name, join, joined, json_stem, namespace, namespaced, packet_file_name, stem};
use crate::wire::{
    fits, has_room, string_bytes, varint_bytes, write_string, write_varint, MAX_VALUE,
};
use vstd::prelude::*;

verus! {

/// Why a compilation was given up.
#[derive(Debug, Clone, Copy, PartialEq, Eq)]
pub enum CompileError {
    /// A name is longer, or a list has more items, than the format can state.
    TooLarge,
}

/// Whether the format can state the length of every name of `list`.
fn all_have_room(list: &Vec<String>) -> (r: bool)
    ensures
        r == forall|j: int| 0 <= j < list.len() ==> fits(#[trigger] list[j]@),
{
    let mut j: usize = 0;
    while j < list.len()
        invariant
            j <= list.len(),
            forall|k: int| 0 <= k < j ==> fits(#[trigger] list[k]@),
        decreases list.len() - j,
    {
        if !has_room(list[j].as_str()) {
            return false;
        }
        j += 1;
    }
    true
}

/// What a registry's entry list has to satisfy: at least one name, no more
/// names than the format can count, in strictly increasing order, each of a
/// length the format can state.
pub open spec fn entry_list(list: Seq<Seq<char>>) -> bool {
    &&& 1 <= list.len() <= MAX_VALUE
    &&& sorted(list)
    &&& forall|j: int| 0 <= j < list.len() ==> fits(#[trigger] list[j])
}

/// The registry and the entry that the definition file at `path` stands for.
/// A path with a `tags` component, without the `.json` ending, or with no
/// directory above the file stands for none.
pub open spec fn registry_entry(path: Seq<Seq<char>>) -> Option<(Seq<char>, Seq<char>)> {
    if path.len() > 0 && !path.contains("tags"@) && json_stem(path.last()) is Some && joined(
        path.drop_last(),
    ).len() > 0 {
        Some(
            (namespaced(joined(path.drop_last())), namespaced(json_stem(path.last()).unwrap())),
        )
    } else {
        None
    }
}

/// Derives the registry and the entry a definition file stands for.
pub fn identify(path: &Vec<String>) -> (r: Option<(String, String)>)
    ensures
        match r {
            Some((registry, entry)) => registry_entry(path.deep_view()) == Some(
                (registry@, entry@),
            ),
            None => registry_entry(path.deep_view()) is None,
        },
{
    let n = path.len();
    if n == 0 {
        return None;
    }
    let ghost parts = path.deep_view();
    let mut i: usize = 0;
    while i < n
        invariant
            i <= n == path.len(),
            parts == path.deep_view(),
            forall|k: int| 0 <= k < i ==> parts[k] != "tags"@,
        decreases n - i,
    {
        if same_name(path[i].as_str(), "tags") {
            assert(parts[i as int] == "tags"@);
            return None;
        }
        i += 1;
    }
    let entry = match stem(path[n - 1].as_str()) {
        Some(entry) => entry,
        None => {
            return None;
        },
    };
    let parent = join(path, 0, n - 1);
    assert(parts.subrange(0, n - 1) =~= parts.drop_last());
    if parent.as_str().is_empty() {
        return None;
    }
    Some((namespace(parent.as_str()), namespace(entry.as_str())))
}

/// The entries of every registry, each list in increasing order. An entry is
/// known by its position in its registry's list.
#[derive(Debug, Clone, PartialEq, Eq)]
pub struct RegistryMappings {
    /// The names of the registries, in increasing order.
    pub names: Vec<String>,
    /// For each registry, at the same position, the names of its entries.
    pub entries: Vec<Vec<String>>,
}

impl View for RegistryMappings {
    type V = Map<Seq<char>, Seq<Seq<char>>>;

    /// From the name of each registry to the list of its entries.
    open spec fn view(&self) -> Map<Seq<char>, Seq<Seq<char>>> {
        keyed(self.names.deep_view(), self.entries.deep_view())
    }
}

/// The integer that `entry` is known by in `registry`, if it is listed there.
pub open spec fn entry_id(
    mappings: Map<Seq<char>, Seq<Seq<char>>>,
    registry: Seq<char>,
    entry: Seq<char>,
) -> Option<int> {
    if mappings.contains_key(registry) && mappings[registry].contains(entry) {
        Some(mappings[registry].index_of(entry))
    } else {
        None
    }
}

impl RegistryMappings {
    /// The invariant of the type.
    pub open spec fn wf(&self) -> bool {
        &&& self.names.len() == self.entries.len()
        &&& sorted(self.names.deep_view())
        &&& forall|i: int| 0 <= i < self.names.len() ==> fits(#[trigger] self.names[i]@)
        &&& forall|i: int|
            0 <= i < self.entries.len() ==> entry_list(#[trigger] self.entries[i].deep_view())
    }

    /// Whether `entry` is listed under `registry`.
    pub open spec fn holds(&self, registry: Seq<char>, entry: Seq<char>) -> bool {
        self@.contains_key(registry) && self@[registry].contains(entry)
    }

    /// How many entries `registry` has.
    pub open spec fn count(&self, registry: Seq<char>) -> nat {
        if self@.contains_key(registry) {
            self@[registry].len()
        } else {
            0
        }
    }

    /// The registry at position `i` is a key of the view and its list the
    /// value there.
    pub proof fn lemma_at(&self, i: int)
        requires
            self.wf(),
            0 <= i < self.names.len(),
        ensures
            self@.contains_key(self.names[i]@),
            self@[self.names[i]@] == self.entries[i].deep_view(),
    {
        lemma_keyed_at(self.names.deep_view(), self.entries.deep_view(), i);
    }

    /// Whether the invariant of the type holds. Mappings that this library
    /// built satisfy it; the test is for values that come from elsewhere.
    pub fn is_valid(&self) -> (r: bool)
        ensures
            r == self.wf(),
    {
        if self.names.len() != self.entries.len() || !is_sorted(&self.names) || !all_have_room(
            &self.names,
        ) {
            return false;
        }
        let mut i: usize = 0;
        while i < self.entries.len()
            invariant
                i <= self.entries.len(),
                forall|k: int| 0 <= k < i ==> entry_list(#[trigger] self.entries[k].deep_view()),
            decreases self.entries.len() - i,
        {
            let list = &self.entries[i];
            let ghost names = list.deep_view();
            assert forall|j: int| 0 <= j < list.len() implies names[j] == list[j]@ by {}
            let whole = 1 <= list.len() && list.len() <= MAX_VALUE && is_sorted(list)
                && all_have_room(list);
            if !whole {
                assert(!entry_list(names)) by {
                    if 1 <= list.len() <= MAX_VALUE && sorted(names) {
                        let j = choose|j: int| 0 <= j < list.len() && !fits(#[trigger] list[j]@);
                        assert(!fits(names[j]));
                    }
                }
                return false;
            }
            i += 1;
        }
        true
    }

    /// Mappings without a registry.
    pub fn new() -> (r: Self)
        ensures
            r.wf(),
            r@ == Map::<Seq<char>, Seq<Seq<char>>>::empty(),
    {
        let r = RegistryMappings { names: Vec::new(), entries: Vec::new() };
        assert(r@ =~= Map::<Seq<char>, Seq<Seq<char>>>::empty());
        r
    }

    /// The position of `registry` among the registries.
    pub fn find(&self, registry: &str) -> (r: Option<usize>)
        requires
            self.wf(),
        ensures
            match r {
                Some(i) => i < self.names.len() && self.names[i as int]@ == registry@
                    && self@.contains_key(registry@) && self@[registry@]
                    == self.entries[i as int].deep_view(),
                None => !self@.contains_key(registry@),
            },
    {
        let (at, found) = search(&self.names, registry);
        proof {
            lemma_located(self.names.deep_view(), registry@, at as int, found);
            if found {
                self.lemma_at(at as int);
            }
        }
        if found {
            Some(at)
        } else {
            None
        }
    }

    /// The integer that `entry` is known by in `registry`.
    pub fn id_of(&self, registry: &str, entry: &str) -> (r: Option<i32>)
        requires
            self.wf(),
        ensures
            match r {
                Some(id) => entry_id(self@, registry@, entry@) == Some(id as int),
                None => entry_id(self@, registry@, entry@) is None,
            },
    {
        match self.find(registry) {
            Some(i) => {
                let (at, found) = search(&self.entries[i], entry);
                proof {
                    lemma_located(self.entries[i as int].deep_view(), entry@, at as int, found);
                }
                if found {
                    Some(at as i32)
                } else {
                    None
                }
            },
            None => None,
        }
    }

    /// Lists `entry` under `registry`, creating the registry if it is new.
    /// Fails, changing nothing, when a name is too long or the registry full.
    pub fn insert(&mut self, registry: String, entry: String) -> (r: Result<(), CompileError>)
        requires
            old(self).wf(),
        ensures
            final(self).wf(),
            r is Err <==> !fits(registry@) || !fits(entry@) || (old(self).count(registry@)
                >= MAX_VALUE && !old(self).holds(registry@, entry@)),
            r is Err ==> *final(self) == *old(self),
            r is Ok ==> final(self)@.dom() == old(self)@.dom().insert(registry@),
            r is Ok ==> forall|other: Seq<char>|
                other != registry@ && old(self)@.contains_key(other) ==> #[trigger] final(self)@[other]
                    == old(self)@[other],
            r is Ok ==> forall|e: Seq<char>|
                #[trigger] final(self)@[registry@].contains(e) <==> e == entry@ || old(self).holds(
                    registry@,
                    e,
                ),
            r is Ok ==> final(self).count(registry@) <= old(self).count(registry@) + 1,
    {
        if !has_room(registry.as_str()) || !has_room(entry.as_str()) {
            return Err(CompileError::TooLarge);
        }
        let ghost names = self.names.deep_view();
        let ghost lists = self.entries.deep_view();
        let ghost name = registry@;
        let ghost added = entry@;
        let (i, found) = search(&self.names, registry.as_str());
        proof {
            lemma_located(names, name, i as int, found);
        }
        if found {
            let ghost list = self.entries[i as int].deep_view();
            let (j, listed) = search(&self.entries[i], entry.as_str());
            proof {
                self.lemma_at(i as int);
                lemma_located(list, added, j as int, listed);
            }
            if listed {
                assert(self@.dom().insert(name) =~= self@.dom());
                return Ok(());
            }
            if self.entries[i].len() >= MAX_VALUE {
                return Err(CompileError::TooLarge);
            }
            self.entries[i].insert(j, entry);
            proof {
                let list2 = list.insert(j as int, added);
                assert(self.entries[i as int].deep_view() =~= list2);
                lemma_insert_sorted(list, j as int, added);
                lemma_inserted(list, j as int, added);
                assert(self.names.deep_view() =~= names);
                assert(self.entries.deep_view() =~= lists.update(i as int, list2));
                assert forall|k: int| 0 <= k < self.entries.len() implies entry_list(
                    #[trigger] self.entries[k].deep_view(),
                ) by {
                    if k != i {
                        assert(self.entries[k] == old(self).entries[k]);
                    }
                }
                lemma_keyed_update(names, lists, i as int, list2);
                assert(self@.dom() =~= old(self)@.dom().insert(name));
            }
            Ok(())
        } else {
            let mut list: Vec<String> = Vec::new();
            list.push(entry);
            self.names.insert(i, registry);
            self.entries.insert(i, list);
            proof {
                let list2 = Seq::<Seq<char>>::empty().insert(0, added);
                assert(self.entries[i as int].deep_view() =~= list2);
                lemma_inserted(Seq::<Seq<char>>::empty(), 0, added);
                assert(self.names.deep_view() =~= names.insert(i as int, name));
                assert(self.entries.deep_view() =~= lists.insert(i as int, list2));
                lemma_keyed_insert(names, lists, i as int, name, list2);
                assert forall|k: int| 0 <= k < self.names.len() implies fits(
                    #[trigger] self.names[k]@,
                ) by {
                    if k < i {
                        assert(self.names[k] == old(self).names[k]);
                    } else if k > i {
                        assert(self.names[k] == old(self).names[k - 1]);
                    }
                }
                assert forall|k: int| 0 <= k < self.entries.len() implies entry_list(
                    #[trigger] self.entries[k].deep_view(),
                ) by {
                    if k < i {
                        assert(self.entries[k] == old(self).entries[k]);
                    } else if k > i {
                        assert(self.entries[k] == old(self).entries[k - 1]);
                    }
                }
                assert(self@.dom() =~= old(self)@.dom().insert(name));
            }
            Ok(())
        }
    }
}

/// A list with `name` put in at `at` holds that name and those it held, and
/// keeps every property its names had and the new name has.
proof fn lemma_inserted(list: Seq<Seq<char>>, at: int, name: Seq<char>)
    requires
        0 <= at <= list.len(),
    ensures
        forall|e: Seq<char>| #[trigger]
            list.insert(at, name).contains(e) <==> e == name || list.contains(e),
        fits(name) && (forall|k: int| 0 <= k < list.len() ==> fits(#[trigger] list[k]))
            ==> forall|k: int|
            0 <= k < list.insert(at, name).len() ==> fits(#[trigger] list.insert(at, name)[k]),
{
    let list2 = list.insert(at, name);
    assert forall|e: Seq<char>| #[trigger] list2.contains(e) <==> e == name || list.contains(e) by {
        if list2.contains(e) {
            let k = choose|k: int| 0 <= k < list2.len() && list2[k] == e;
            if k < at {
                assert(list[k] == e);
            } else if k > at {
                assert(list[k - 1] == e);
            }
        }
        if list.contains(e) {
            let k = choose|k: int| 0 <= k < list.len() && list[k] == e;
            if k < at {
                assert(list2[k] == e);
            } else {
                assert(list2[k + 1] == e);
            }
        }
        if e == name {
            assert(list2[at] == e);
        }
    }
    if fits(name) && (forall|k: int| 0 <= k < list.len() ==> fits(#[trigger] list[k])) {
        assert forall|k: int| 0 <= k < list2.len() implies fits(#[trigger] list2[k]) by {
            if k < at {
                assert(list2[k] == list[k]);
            } else if k > at {
                assert(list2[k] == list[k - 1]);
            }
        }
    }
}

/// The entry part of a registry packet: each name as a length-prefixed
/// string, followed by a zero byte that says no data is attached.
pub open spec fn entries_bytes(entries: Seq<Seq<char>>) -> Seq<u8>
    decreases entries.len(),
{
    if entries.len() == 0 {
        Seq::empty()
    } else {
        entries_bytes(entries.drop_last()) + string_bytes(entries.last()) + seq![0u8]
    }
}

/// A registry packet: the registry's name, the number of entries, the entries.
pub open spec fn registry_packet(name: Seq<char>, entries: Seq<Seq<char>>) -> Seq<u8> {
    string_bytes(name) + varint_bytes(entries.len()) + entries_bytes(entries)
}

/// Encodes the packet of one registry.
pub fn encode_registry(name: &str, entries: &Vec<String>) -> (r: Vec<u8>)
    requires
        fits(name@),
        entries.len() <= MAX_VALUE,
        forall|j: int| 0 <= j < entries.len() ==> fits(#[trigger] entries[j]@),
    ensures
        r@ == registry_packet(name@, entries.deep_view()),
{
    let mut buffer: Vec<u8> = Vec::new();
    write_string(&mut buffer, name);
    write_varint(&mut buffer, entries.len() as i32);
    let ghost head = buffer@;
    let ghost all = entries.deep_view();
    assert(head == string_bytes(name@) + varint_bytes(all.len()));
    assert(all.take(0) =~= Seq::empty());
    let mut j: usize = 0;
    while j < entries.len()
        invariant
            j <= entries.len(),
            all == entries.deep_view(),
            forall|k: int| 0 <= k < entries.len() ==> fits(#[trigger] entries[k]@),
            buffer@ == head + entries_bytes(all.take(j as int)),
        decreases entries.len() - j,
    {
        let ghost done = buffer@;
        write_string(&mut buffer, entries[j].as_str());
        buffer.push(0x00);
        proof {
            let next = all.take(j + 1);
            assert(next.drop_last() =~= all.take(j as int));
            assert(next.last() == entries[j as int]@);
            assert(buffer@ =~= head + (entries_bytes(all.take(j as int)) + string_bytes(
                entries[j as int]@,
            ) + seq![0u8]));
        }
        j += 1;
    }
    assert(all.take(entries.len() as int) =~= all);
    buffer
}

/// A packet and the name of the file it is to be written to.
#[derive(Debug, Clone, PartialEq, Eq)]
pub struct PacketFile {
    pub name: String,
    pub bytes: Vec<u8>,
}

/// Whether `files` holds the packets of `mappings`: one per registry, in the
/// order of the registries.
pub open spec fn packets_of(mappings: RegistryMappings, files: Seq<PacketFile>) -> bool {
    &&& files.len() == mappings.names.len()
    &&& forall|i: int|
        0 <= i < files.len() ==> (#[trigger] files[i]).name@ == packet_file_name(
            mappings.names[i]@,
        ) && files[i].bytes@ == registry_packet(
            mappings.names[i]@,
            mappings.entries[i].deep_view(),
        )
}

/// Encodes the packet of every registry.
pub fn encode_registries(mappings: &RegistryMappings) -> (r: Vec<PacketFile>)
    requires
        mappings.wf(),
    ensures
        packets_of(*mappings, r@),
{
    let mut files: Vec<PacketFile> = Vec::new();
    let mut i: usize = 0;
    while i < mappings.names.len()
        invariant
            i <= mappings.names.len(),
            mappings.wf(),
            files.len() == i,
            forall|k: int|
                0 <= k < i ==> (#[trigger] files@[k]).name@ == packet_file_name(
                    mappings.names[k]@,
                ) && files@[k].bytes@ == registry_packet(
                    mappings.names[k]@,
                    mappings.entries[k].deep_view(),
                ),
        decreases mappings.names.len() - i,
    {
        let name = mappings.names[i].as_str();
        let entries = &mappings.entries[i];
        proof {
            let list = entries.deep_view();
            assert(entry_list(list));
            assert forall|j: int| 0 <= j < entries.len() implies fits(#[trigger] entries[j]@) by {
                assert(list[j] == entries[j]@);
            }
        }
        let bytes = encode_registry(name, entries);
        files.push(PacketFile { name: file_name(name), bytes });
        i += 1;
    }
    files
}

/// Whether one of `paths` stands for `entry` in `registry`.
pub open spec fn defines(paths: Seq<Seq<Seq<char>>>, registry: Seq<char>, entry: Seq<char>) -> bool {
    exists|k: int|
        0 <= k < paths.len() && #[trigger] registry_entry(paths[k]) == Some((registry, entry))
}

/// Whether the registry or the entry that `path` stands for has a name too
/// long for the format.
pub open spec fn oversized(path: Seq<Seq<char>>) -> bool {
    match registry_entry(path) {
        Some((registry, entry)) => !fits(registry) || !fits(entry),
        None => false,
    }
}

/// Whether `paths` cannot be compiled: there are more of them than the format
/// can count, or one of them yields a name that is too long.
pub open spec fn too_large(paths: Seq<Seq<Seq<char>>>) -> bool {
    paths.len() > MAX_VALUE || exists|k: int| 0 <= k < paths.len() && oversized(#[trigger] paths[k])
}

/// Collects the registries and their entries from the paths of the
/// definition files. Paths that stand for no entry are passed over.
pub fn collect_registries(paths: &Vec<Vec<String>>) -> (r: Result<RegistryMappings, CompileError>)
    ensures
        r is Err <==> too_large(paths.deep_view()),
        r matches Ok(mappings) ==> mappings.wf() && forall|registry: Seq<char>, entry: Seq<char>|
            mappings.holds(registry, entry) <==> defines(paths.deep_view(), registry, entry),
{
    if paths.len() > MAX_VALUE {
        return Err(CompileError::TooLarge);
    }
    let ghost all = paths.deep_view();
    let mut mappings = RegistryMappings::new();
    let mut k: usize = 0;
    while k < paths.len()
        invariant
            k <= paths.len() <= MAX_VALUE,
            all == paths.deep_view(),
            mappings.wf(),
            forall|j: int| 0 <= j < k ==> !oversized(#[trigger] all[j]),
            forall|registry: Seq<char>| #[trigger] mappings.count(registry) <= k,
            forall|registry: Seq<char>, entry: Seq<char>|
                mappings.holds(registry, entry) <==> defines(all.take(k as int), registry, entry),
        decreases paths.len() - k,
    {
        let ghost before = mappings;
        assert(all[k as int] == paths[k as int].deep_view());
        match identify(&paths[k]) {
            Some((registry, entry)) => {
                let ghost name = registry@;
                let ghost added = entry@;
                assert(before.count(name) <= k);
                match mappings.insert(registry, entry) {
                    Ok(()) => {},
                    Err(e) => {
                        assert(oversized(all[k as int]));
                        return Err(e);
                    },
                }
                proof {
                    assert forall|r: Seq<char>| #[trigger] mappings.count(r) <= k + 1 by {
                        assert(before.count(r) <= k);
                        if r != name && before@.contains_key(r) {
                            assert(mappings@[r] == before@[r]);
                        }
                        if r != name && !before@.contains_key(r) {
                            assert(!mappings@.dom().contains(r));
                        }
                    }
                    assert forall|r: Seq<char>, e: Seq<char>|
                        mappings.holds(r, e) <==> defines(all.take(k + 1), r, e) by {
                        lemma_defines_step(all, k as int, r, e);
                        assert(before.holds(r, e) <==> defines(all.take(k as int), r, e));
                        if r == name {
                            assert(mappings@.dom().contains(r));
                            assert(mappings@[name].contains(e) <==> e == added || before.holds(
                                name,
                                e,
                            ));
                        } else {
                            assert(mappings@.dom().contains(r) <==> before@.dom().contains(r));
                            if before@.contains_key(r) {
                                assert(mappings@[r] == before@[r]);
                            }
                        }
                    }
                }
            },
            None => {
                proof {
                    assert forall|r: Seq<char>, e: Seq<char>|
                        mappings.holds(r, e) <==> defines(all.take(k + 1), r, e) by {
                        lemma_defines_step(all, k as int, r, e);
                        assert(before.holds(r, e) <==> defines(all.take(k as int), r, e));
                    }
                }
            },
        }
        k += 1;
    }
    assert(all.take(paths.len() as int) =~= all);
    Ok(mappings)
}

/// The paths up to and with the one at `k` define what those before it
/// define, and what it stands for itself.
proof fn lemma_defines_step(paths: Seq<Seq<Seq<char>>>, k: int, registry: Seq<char>, entry: Seq<char>)
    requires
        0 <= k < paths.len(),
    ensures
        defines(paths.take(k + 1), registry, entry) <==> defines(paths.take(k), registry, entry)
            || registry_entry(paths[k]) == Some((registry, entry)),
{
    let shorter = paths.take(k);
    let longer = paths.take(k + 1);
    if defines(longer, registry, entry) {
        let j = choose|j: int|
            0 <= j < longer.len() && #[trigger] registry_entry(longer[j]) == Some(
                (registry, entry),
            );
        if j < k {
            assert(shorter[j] == longer[j]);
        }
    }
    if defines(shorter, registry, entry) {
        let j = choose|j: int|
            0 <= j < shorter.len() && #[trigger] registry_entry(shorter[j]) == Some(
                (registry, entry),
            );
        assert(longer[j] == shorter[j]);
    }
    if registry_entry(paths[k]) == Some((registry, entry)) {
        assert(longer[k] == paths[k]);
    }
}

/// What compiling the registries yields.
#[derive(Debug, Clone, PartialEq, Eq)]
pub struct RegistryOutput {
    /// The entries of every registry; the tag compiler resolves against it.
    pub mappings: RegistryMappings,
    /// One packet per registry, in the order of the registries.
    pub files: Vec<PacketFile>,
}

/// What compiling `paths` has to yield. It fails exactly if the paths are
/// too large. Otherwise the mappings list an entry under a registry exactly
/// if one of the paths stands for it, each list in increasing order, and the
/// files hold one packet per registry.
pub open spec fn registries_compiled(
    paths: Seq<Seq<Seq<char>>>,
    r: Result<RegistryOutput, CompileError>,
) -> bool {
    match r {
        Ok(out) => {
            &&& !too_large(paths)
            &&& out.mappings.wf()
            &&& forall|registry: Seq<char>, entry: Seq<char>|
                out.mappings.holds(registry, entry) <==> defines(paths, registry, entry)
            &&& packets_of(out.mappings, out.files@)
        },
        Err(e) => too_large(paths),
    }
}

/// Compiles the registries: collects the entries of each from the paths of
/// the definition files, gives each entry the integer of its rank among the
/// entries of its registry, and encodes one packet per registry.
pub fn compile_registries(paths: &Vec<Vec<String>>) -> (r: Result<RegistryOutput, CompileError>)
    ensures
        registries_compiled(paths.deep_view(), r),
{
    match collect_registries(paths) {
        Ok(mappings) => {
            let files = encode_registries(&mappings);
            Ok(RegistryOutput { mappings, files })
        },
        Err(e) => Err(e),
    }
}

/// Whether two lists of files agree in names and bytes.
pub open spec fn same_files(a: Seq<PacketFile>, b: Seq<PacketFile>) -> bool {
    &&& a.len() == b.len()
    &&& forall|i: int|
        0 <= i < a.len() ==> (#[trigger] a[i]).name@ == b[i].name@ && a[i].bytes@ == b[i].bytes@
}

/// A list of names holds each of its names.
proof fn lemma_listed(list: Seq<Seq<char>>, j: int)
    requires
        0 <= j < list.len(),
    ensures
        list.contains(list[j]),
{
}

/// Mappings are determined by what they list: two that list the same
/// entries under the same registries have the same registries, in the same
/// order, each with the same entries in the same order.
pub proof fn lemma_mappings_unique(a: RegistryMappings, b: RegistryMappings)
    requires
        a.wf(),
        b.wf(),
        forall|registry: Seq<char>, entry: Seq<char>|
            a.holds(registry, entry) <==> b.holds(registry, entry),
    ensures
        a.names.deep_view() == b.names.deep_view(),
        a.entries.deep_view() == b.entries.deep_view(),
        a@ == b@,
{
    let names_a = a.names.deep_view();
    let names_b = b.names.deep_view();
    assert forall|x: Seq<char>| names_a.contains(x) <==> names_b.contains(x) by {
        if names_a.contains(x) {
            let i = choose|i: int| 0 <= i < names_a.len() && names_a[i] == x;
            a.lemma_at(i);
            assert(entry_list(a.entries[i].deep_view()));
            lemma_listed(a.entries[i].deep_view(), 0);
            assert(a.holds(x, a.entries[i].deep_view()[0]));
            assert(b.holds(x, a.entries[i].deep_view()[0]));
        }
        if names_b.contains(x) {
            let i = choose|i: int| 0 <= i < names_b.len() && names_b[i] == x;
            b.lemma_at(i);
            assert(entry_list(b.entries[i].deep_view()));
            lemma_listed(b.entries[i].deep_view(), 0);
            assert(b.holds(x, b.entries[i].deep_view()[0]));
            assert(a.holds(x, b.entries[i].deep_view()[0]));
        }
    }
    lemma_sorted_unique(names_a, names_b);
    let lists_a = a.entries.deep_view();
    let lists_b = b.entries.deep_view();
    assert forall|i: int| 0 <= i < lists_a.len() implies lists_a[i] == lists_b[i] by {
        a.lemma_at(i);
        b.lemma_at(i);
        assert(names_a[i] == names_b[i]);
        let name = names_a[i];
        assert(entry_list(a.entries[i].deep_view()));
        assert(entry_list(b.entries[i].deep_view()));
        assert forall|e: Seq<char>| lists_a[i].contains(e) <==> lists_b[i].contains(e) by {
            assert(a.holds(name, e) <==> b.holds(name, e));
        }
        lemma_sorted_unique(lists_a[i], lists_b[i]);
    }
    assert(lists_a =~= lists_b);
}

/// Compiling is a function of the paths: two compilations of the same paths
/// fail together, and if they succeed they yield the same mappings and
/// files of the same names and bytes, in the same order.
pub proof fn lemma_registries_deterministic(
    paths: Seq<Seq<Seq<char>>>,
    first: Result<RegistryOutput, CompileError>,
    second: Result<RegistryOutput, CompileError>,
)
    requires
        registries_compiled(paths, first),
        registries_compiled(paths, second),
    ensures
        first is Err <==> second is Err,
        first is Ok ==> first->Ok_0.mappings@ == second->Ok_0.mappings@,
        first is Ok ==> same_files(first->Ok_0.files@, second->Ok_0.files@),
{
    if first is Ok {
        let a = first->Ok_0;
        let b = second->Ok_0;
        assert forall|registry: Seq<char>, entry: Seq<char>|
            a.mappings.holds(registry, entry) <==> b.mappings.holds(registry, entry) by {
            assert(a.mappings.holds(registry, entry) <==> defines(paths, registry, entry));
            assert(b.mappings.holds(registry, entry) <==> defines(paths, registry, entry));
        }
        lemma_mappings_unique(a.mappings, b.mappings);
        assert forall|i: int| 0 <= i < a.files.len() implies (#[trigger] a.files@[i]).name@
            == b.files@[i].name@ && a.files@[i].bytes@ == b.files@[i].bytes@ by {
            assert(a.mappings.names.deep_view()[i] == b.mappings.names.deep_view()[i]);
            assert(a.mappings.entries.deep_view()[i] == b.mappings.entries.deep_view()[i]);
        }
    }
}

/// The integers of a registry's entries are the positions in its list: each
/// position below the number of entries is the integer of the entry that
/// stands there, and of no other, and no entry has another integer.
pub proof fn lemma_ids_contiguous(mappings: RegistryMappings, registry: Seq<char>)
    requires
        mappings.wf(),
        mappings@.contains_key(registry),
    ensures
        forall|id: int|
            0 <= id < mappings@[registry].len() ==> entry_id(
                mappings@,
                registry,
                #[trigger] mappings@[registry][id],
            ) == Some(id),
        forall|entry: Seq<char>|
            (#[trigger] entry_id(mappings@, registry, entry)) matches Some(id) ==> 0 <= id
                < mappings@[registry].len() && mappings@[registry][id] == entry,
{
    let names = mappings.names.deep_view();
    let i = choose|i: int| 0 <= i < names.len() && names[i] == registry;
    mappings.lemma_at(i);
    let list = mappings@[registry];
    assert(entry_list(mappings.entries[i].deep_view()));
    assert forall|id: int| 0 <= id < list.len() implies entry_id(
        mappings@,
        registry,
        #[trigger] list[id],
    ) == Some(id) by {
        lemma_located(list, list[id], id, true);
    }
}

/// The registries stand among the files, and the entries of each in its
/// packet, in strictly increasing order of their names.
pub proof fn lemma_registry_packets_sorted(
    paths: Seq<Seq<Seq<char>>>,
    r: Result<RegistryOutput, CompileError>,
)
    requires
        registries_compiled(paths, r),
        r is Ok,
    ensures
        sorted(r->Ok_0.mappings.names.deep_view()),
        forall|i: int|
            0 <= i < r->Ok_0.files.len() ==> sorted(
                #[trigger] r->Ok_0.mappings.entries[i].deep_view(),
            ) && r->Ok_0.files[i].bytes@ == registry_packet(
                r->Ok_0.mappings.names[i]@,
                r->Ok_0.mappings.entries[i].deep_view(),
            ),
{
    let out = r->Ok_0;
    assert forall|i: int| 0 <= i < out.files.len() implies sorted(
        #[trigger] out.mappings.entries[i].deep_view(),
    ) && out.files[i].bytes@ == registry_packet(
        out.mappings.names[i]@,
        out.mappings.entries[i].deep_view(),
    ) by {
        assert(entry_list(out.mappings.entries[i].deep_view()));
        assert(out.files@[i].bytes@ == registry_packet(
            out.mappings.names[i]@,
            out.mappings.entries[i].deep_view(),
        ));
    }
}

} // verus!

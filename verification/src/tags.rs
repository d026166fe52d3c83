//! The tag compiler: from tag definition files to the table of every
//! registry's tags, each with the integers of the entries it names, and the
//! one packet that states the table.

use crate::json::{json_document, json_member, tag_file_values, TagFile};
use crate::names::{
    keyed, lemma_keyed_at, lemma_keyed_insert, lemma_keyed_update, lemma_located,
    lemma_sorted_unique, located, search, sorted,
};
use crate::paths::{indirect, is_indirect, join, joined, json_stem, namespace, namespaced, stem};
use crate::registry::{CompileError, PacketFile, RegistryMappings};
use crate::wire::{
    fits, has_room, string_bytes, varint_bytes, write_string, write_varint, MAX_VALUE,
};
use vstd::prelude::*;

verus! {

/// The registry and the tag that the tag definition file at `path` stands
/// for: the first component names the registry, the rest of the path, without
/// the `.json` ending, the tag. A path of one component, or without that
/// ending, stands for none.
pub open spec fn tag_identity(path: Seq<Seq<char>>) -> Option<(Seq<char>, Seq<char>)> {
    if path.len() >= 2 && json_stem(path.last()) is Some {
        Some(
            (
                namespaced(path[0]),
                namespaced(
                    joined(
                        path.subrange(1, path.len() - 1).push(json_stem(path.last()).unwrap()),
                    ),
                ),
            ),
        )
    } else {
        None
    }
}

/// Derives the registry and the tag a tag definition file stands for.
pub fn identify_tag(path: &Vec<String>) -> (r: Option<(String, String)>)
    ensures
        match r {
            Some((registry, tag)) => tag_identity(path.deep_view()) == Some((registry@, tag@)),
            None => tag_identity(path.deep_view()) is None,
        },
{
    let n = path.len();
    if n < 2 {
        return None;
    }
    let last = match stem(path[n - 1].as_str()) {
        Some(last) => last,
        None => {
            return None;
        },
    };
    let ghost parts = path.deep_view();
    let ghost middle = parts.subrange(1, n - 1);
    let mut tag = join(path, 1, n - 1);
    proof {
        assert(middle.push(last@).drop_last() =~= middle);
        assert(parts[n - 1] == path[n - 1]@);
    }
    if n > 2 {
        proof {
            reveal_strlit("/");
            assert("/"@ =~= seq!['/']);
        }
        tag.append("/");
    } else {
        assert(tag@ + last@ =~= last@);
    }
    tag.append(last.as_str());
    assert(parts[0] == path[0]@);
    Some((namespace(path[0].as_str()), namespace(tag.as_str())))
}

/// The integer a reference resolves to: the position of the entry it names.
/// A reference to another tag, or to a name that is no entry, resolves to
/// none.
pub open spec fn reference_id(reference: Seq<char>, entries: Seq<Seq<char>>) -> Option<i32> {
    if !is_indirect(reference) && entries.contains(reference) {
        Some(entries.index_of(reference) as i32)
    } else {
        None
    }
}

/// The integers of the references that resolve, in the order of the
/// references; one that occurs twice is resolved twice.
pub open spec fn resolved(references: Seq<Seq<char>>, entries: Seq<Seq<char>>) -> Seq<i32>
    decreases references.len(),
{
    if references.len() == 0 {
        Seq::empty()
    } else {
        let before = resolved(references.drop_last(), entries);
        match reference_id(references.last(), entries) {
            Some(id) => before.push(id),
            None => before,
        }
    }
}

/// Every integer of a resolved list is the position of an entry, and the
/// list is no longer than the list of references.
pub proof fn lemma_resolved_in_range(references: Seq<Seq<char>>, entries: Seq<Seq<char>>)
    requires
        entries.len() <= MAX_VALUE,
    ensures
        resolved(references, entries).len() <= references.len(),
        forall|k: int|
            0 <= k < resolved(references, entries).len() ==> 0 <= #[trigger] resolved(
                references,
                entries,
            )[k] < entries.len(),
    decreases references.len(),
{
    if references.len() > 0 {
        lemma_resolved_in_range(references.drop_last(), entries);
    }
}

/// Resolves the references of a tag against the entries of its registry.
pub fn resolve(references: &Vec<String>, entries: &Vec<String>) -> (ids: Vec<i32>)
    requires
        sorted(entries.deep_view()),
        entries.len() <= MAX_VALUE,
    ensures
        ids@ == resolved(references.deep_view(), entries.deep_view()),
        ids.len() <= references.len(),
        forall|k: int| 0 <= k < ids.len() ==> 0 <= #[trigger] ids[k] < entries.len(),
{
    let mut ids: Vec<i32> = Vec::new();
    let ghost all = references.deep_view();
    let ghost list = entries.deep_view();
    assert(all.take(0) =~= Seq::empty());
    let mut i: usize = 0;
    while i < references.len()
        invariant
            i <= references.len(),
            all == references.deep_view(),
            list == entries.deep_view(),
            sorted(list),
            entries.len() <= MAX_VALUE,
            ids@ == resolved(all.take(i as int), list),
        decreases references.len() - i,
    {
        let reference = references[i].as_str();
        proof {
            let next = all.take(i + 1);
            assert(next.drop_last() =~= all.take(i as int));
            assert(next.last() == reference@);
        }
        if !indirect(reference) {
            let (at, found) = search(entries, reference);
            proof {
                lemma_located(list, reference@, at as int, found);
            }
            if found {
                ids.push(at as i32);
            }
        }
        i += 1;
    }
    proof {
        assert(all.take(references.len() as int) =~= all);
        lemma_resolved_in_range(all, list);
    }
    ids
}

/// What the list of integers of a tag has to satisfy: no more integers than
/// the format can count, none of them negative.
pub open spec fn id_list(ids: Seq<i32>) -> bool {
    &&& ids.len() <= MAX_VALUE
    &&& forall|k: int| 0 <= k < ids.len() ==> #[trigger] ids[k] >= 0
}

/// The views of a list of lists of integers.
pub open spec fn id_lists(lists: Seq<Vec<i32>>) -> Seq<Seq<i32>> {
    lists.map_values(|list: Vec<i32>| list@)
}

/// The tags of one registry, in increasing order of their names.
#[derive(Debug, Clone, PartialEq, Eq)]
pub struct TagGroup {
    /// The names of the tags, in increasing order.
    pub names: Vec<String>,
    /// For each tag, at the same position, the integers of its entries.
    pub ids: Vec<Vec<i32>>,
}

impl View for TagGroup {
    type V = Map<Seq<char>, Seq<i32>>;

    /// From the name of each tag to the integers of its entries.
    open spec fn view(&self) -> Map<Seq<char>, Seq<i32>> {
        keyed(self.names.deep_view(), id_lists(self.ids@))
    }
}

impl TagGroup {
    /// The tags as plain values: their names, and the integers of each.
    pub open spec fn model(&self) -> (Seq<Seq<char>>, Seq<Seq<i32>>) {
        (self.names.deep_view(), id_lists(self.ids@))
    }

    /// The invariant of the type.
    pub open spec fn wf(&self) -> bool {
        &&& self.names.len() == self.ids.len()
        &&& 1 <= self.names.len() <= MAX_VALUE
        &&& sorted(self.names.deep_view())
        &&& forall|j: int| 0 <= j < self.names.len() ==> fits(#[trigger] self.names[j]@)
        &&& forall|j: int| 0 <= j < self.ids.len() ==> id_list(#[trigger] self.ids[j]@)
    }

    /// The tag at position `j` is a key of the view and its integers the
    /// value there.
    pub proof fn lemma_at(&self, j: int)
        requires
            self.wf(),
            0 <= j < self.names.len(),
        ensures
            self@.contains_key(self.names[j]@),
            self@[self.names[j]@] == self.ids[j]@,
    {
        lemma_keyed_at(self.names.deep_view(), id_lists(self.ids@), j);
    }

    /// A group of one tag.
    fn single(tag: String, ids: Vec<i32>) -> (r: Self)
        requires
            fits(tag@),
            id_list(ids@),
        ensures
            r.wf(),
            r.names.len() == 1,
            r@ == Map::<Seq<char>, Seq<i32>>::empty().insert(tag@, ids@),
    {
        let ghost name = tag@;
        let ghost list = ids@;
        let mut names: Vec<String> = Vec::new();
        names.push(tag);
        let mut lists: Vec<Vec<i32>> = Vec::new();
        lists.push(ids);
        let r = TagGroup { names, ids: lists };
        proof {
            let none = Seq::<Seq<char>>::empty();
            let nothing = Seq::<Seq<i32>>::empty();
            assert(r.names.deep_view() =~= none.insert(0, name));
            assert(id_lists(r.ids@) =~= nothing.insert(0, list));
            lemma_keyed_insert(none, nothing, 0, name, list);
            assert(keyed(none, nothing) =~= Map::<Seq<char>, Seq<i32>>::empty());
        }
        r
    }

    /// Sets the integers of `tag`, whose place `search` has reported,
    /// replacing those it had.
    fn place(&mut self, at: usize, found: bool, tag: String, ids: Vec<i32>)
        requires
            old(self).wf(),
            fits(tag@),
            id_list(ids@),
            located(old(self).names.deep_view(), tag@, at as int, found),
            found || old(self).names.len() < MAX_VALUE,
        ensures
            final(self).wf(),
            final(self)@ == old(self)@.insert(tag@, ids@),
            final(self).names.len() == old(self).names.len() + (if found {
                0int
            } else {
                1int
            }),
    {
        let ghost names = self.names.deep_view();
        let ghost lists = id_lists(self.ids@);
        let ghost name = tag@;
        let ghost list = ids@;
        if found {
            self.ids.set(at, ids);
            proof {
                assert(id_lists(self.ids@) =~= lists.update(at as int, list));
                lemma_keyed_update(names, lists, at as int, list);
                assert forall|k: int| 0 <= k < self.ids.len() implies id_list(
                    #[trigger] self.ids[k]@,
                ) by {
                    if k != at {
                        assert(self.ids[k] == old(self).ids[k]);
                    }
                }
            }
        } else {
            self.names.insert(at, tag);
            self.ids.insert(at, ids);
            proof {
                assert(self.names.deep_view() =~= names.insert(at as int, name));
                assert(id_lists(self.ids@) =~= lists.insert(at as int, list));
                lemma_keyed_insert(names, lists, at as int, name, list);
                assert forall|k: int| 0 <= k < self.names.len() implies fits(
                    #[trigger] self.names[k]@,
                ) by {
                    if k < at {
                        assert(self.names[k] == old(self).names[k]);
                    } else if k > at {
                        assert(self.names[k] == old(self).names[k - 1]);
                    }
                }
                assert forall|k: int| 0 <= k < self.ids.len() implies id_list(
                    #[trigger] self.ids[k]@,
                ) by {
                    if k < at {
                        assert(self.ids[k] == old(self).ids[k]);
                    } else if k > at {
                        assert(self.ids[k] == old(self).ids[k - 1]);
                    }
                }
            }
        }
    }
}

/// The views of a list of groups.
pub open spec fn group_views(groups: Seq<TagGroup>) -> Seq<Map<Seq<char>, Seq<i32>>> {
    groups.map_values(|g: TagGroup| g@)
}

/// A list of groups as plain values.
pub open spec fn group_models(groups: Seq<TagGroup>) -> Seq<(Seq<Seq<char>>, Seq<Seq<i32>>)> {
    groups.map_values(|g: TagGroup| g.model())
}

/// The tags of every registry that has one, in increasing order of the
/// registries' names.
#[derive(Debug, Clone, PartialEq, Eq)]
pub struct TagTable {
    /// The names of the registries, in increasing order.
    pub registries: Vec<String>,
    /// For each registry, at the same position, its tags.
    pub groups: Vec<TagGroup>,
}

impl View for TagTable {
    type V = Map<Seq<char>, Map<Seq<char>, Seq<i32>>>;

    /// From the name of each registry to its tags, each with its integers.
    open spec fn view(&self) -> Map<Seq<char>, Map<Seq<char>, Seq<i32>>> {
        keyed(self.registries.deep_view(), group_views(self.groups@))
    }
}

/// The tags that `table` has for `registry`: none if the registry is not in
/// the table.
pub open spec fn tags_of(
    table: Map<Seq<char>, Map<Seq<char>, Seq<i32>>>,
    registry: Seq<char>,
) -> Map<Seq<char>, Seq<i32>> {
    if table.contains_key(registry) {
        table[registry]
    } else {
        Map::empty()
    }
}

/// The integers that `table` has for `tag` of `registry`.
pub open spec fn tag_lookup(
    table: Map<Seq<char>, Map<Seq<char>, Seq<i32>>>,
    registry: Seq<char>,
    tag: Seq<char>,
) -> Option<Seq<i32>> {
    if tags_of(table, registry).contains_key(tag) {
        Some(table[registry][tag])
    } else {
        None
    }
}

impl TagTable {
    /// The invariant of the type.
    pub open spec fn wf(&self) -> bool {
        &&& self.registries.len() == self.groups.len()
        &&& self.registries.len() <= MAX_VALUE
        &&& sorted(self.registries.deep_view())
        &&& forall|i: int| 0 <= i < self.registries.len() ==> fits(#[trigger] self.registries[i]@)
        &&& forall|i: int| 0 <= i < self.groups.len() ==> (#[trigger] self.groups[i]).wf()
    }

    /// How many tags the table has for `registry`.
    pub open spec fn group_size(&self, registry: Seq<char>) -> nat {
        if self.registries.deep_view().contains(registry) {
            self.groups[self.registries.deep_view().index_of(registry)].names.len() as nat
        } else {
            0
        }
    }

    /// The registry at position `i` is a key of the view and its group the
    /// value there.
    pub proof fn lemma_at(&self, i: int)
        requires
            self.wf(),
            0 <= i < self.registries.len(),
        ensures
            self@.contains_key(self.registries[i]@),
            self@[self.registries[i]@] == self.groups[i]@,
            self.group_size(self.registries[i]@) == self.groups[i].names.len(),
    {
        let names = self.registries.deep_view();
        lemma_keyed_at(names, group_views(self.groups@), i);
        lemma_located(names, names[i], i, true);
    }

    /// A table without a registry.
    pub fn new() -> (r: Self)
        ensures
            r.wf(),
            r@ == Map::<Seq<char>, Map<Seq<char>, Seq<i32>>>::empty(),
            r.registries.len() == 0,
    {
        let r = TagTable { registries: Vec::new(), groups: Vec::new() };
        assert(r@ =~= Map::<Seq<char>, Map<Seq<char>, Seq<i32>>>::empty());
        r
    }

    /// Sets the integers of `tag` of `registry`, replacing those it had.
    /// Fails, changing nothing, when a name or the list is too long, or when
    /// the registry or the tag is new and there is no room for it.
    pub fn insert(&mut self, registry: String, tag: String, ids: Vec<i32>) -> (r: Result<
        (),
        CompileError,
    >)
        requires
            old(self).wf(),
            forall|k: int| 0 <= k < ids.len() ==> #[trigger] ids[k] >= 0,
        ensures
            final(self).wf(),
            r is Err <==> !fits(registry@) || !fits(tag@) || ids.len() > MAX_VALUE || (!old(
                self,
            )@.contains_key(registry@) && old(self).registries.len() >= MAX_VALUE) || (old(
                self,
            )@.contains_key(registry@) && !old(self)@[registry@].contains_key(tag@) && old(
                self,
            ).group_size(registry@) >= MAX_VALUE),
            r is Err ==> *final(self) == *old(self),
            r is Ok ==> final(self)@ == old(self)@.insert(
                registry@,
                tags_of(old(self)@, registry@).insert(tag@, ids@),
            ),
            final(self).registries.len() <= old(self).registries.len() + 1,
            forall|other: Seq<char>| #[trigger]
                final(self).group_size(other) <= old(self).group_size(other) + 1,
    {
        if !has_room(registry.as_str()) || !has_room(tag.as_str()) || ids.len() > MAX_VALUE {
            return Err(CompileError::TooLarge);
        }
        let ghost names = self.registries.deep_view();
        let ghost views = group_views(self.groups@);
        let ghost name = registry@;
        let (i, found) = search(&self.registries, registry.as_str());
        proof {
            lemma_located(names, name, i as int, found);
        }
        if found {
            let (j, listed) = search(&self.groups[i].names, tag.as_str());
            proof {
                self.lemma_at(i as int);
                lemma_located(self.groups[i as int].names.deep_view(), tag@, j as int, listed);
            }
            if !listed && self.groups[i].names.len() >= MAX_VALUE {
                return Err(CompileError::TooLarge);
            }
            self.groups[i].place(j, listed, tag, ids);
            proof {
                let group = self.groups[i as int];
                assert(self.registries == old(self).registries);
                assert forall|k: int| 0 <= k < self.groups.len() implies (
                #[trigger] self.groups[k]).wf() by {
                    if k != i {
                        assert(self.groups[k] == old(self).groups[k]);
                    }
                }
                assert(group_views(self.groups@) =~= views.update(i as int, group@));
                lemma_keyed_update(names, views, i as int, group@);
                assert forall|other: Seq<char>| #[trigger]
                    self.group_size(other) <= old(self).group_size(other) + 1 by {
                    if names.contains(other) {
                        let k = names.index_of(other);
                        if k != i {
                            assert(self.groups[k] == old(self).groups[k]);
                        }
                    }
                }
            }
            Ok(())
        } else {
            if self.registries.len() >= MAX_VALUE {
                return Err(CompileError::TooLarge);
            }
            let group = TagGroup::single(tag, ids);
            self.registries.insert(i, registry);
            self.groups.insert(i, group);
            proof {
                let names2 = self.registries.deep_view();
                assert(names2 =~= names.insert(i as int, name));
                assert(group_views(self.groups@) =~= views.insert(i as int, group@));
                lemma_keyed_insert(names, views, i as int, name, group@);
                assert forall|k: int| 0 <= k < self.registries.len() implies fits(
                    #[trigger] self.registries[k]@,
                ) by {
                    if k < i {
                        assert(self.registries[k] == old(self).registries[k]);
                    } else if k > i {
                        assert(self.registries[k] == old(self).registries[k - 1]);
                    }
                }
                assert forall|k: int| 0 <= k < self.groups.len() implies (
                #[trigger] self.groups[k]).wf() by {
                    if k < i {
                        assert(self.groups[k] == old(self).groups[k]);
                    } else if k > i {
                        assert(self.groups[k] == old(self).groups[k - 1]);
                    }
                }
                assert forall|other: Seq<char>| #[trigger]
                    self.group_size(other) <= old(self).group_size(other) + 1 by {
                    if names2.contains(other) {
                        let k2 = names2.index_of(other);
                        if k2 < i {
                            lemma_located(names, other, k2, true);
                            assert(self.groups[k2] == old(self).groups[k2]);
                        } else if k2 > i {
                            assert(names[k2 - 1] == other);
                            lemma_located(names, other, k2 - 1, true);
                            assert(self.groups[k2] == old(self).groups[k2 - 1]);
                        }
                    }
                }
            }
            Ok(())
        }
    }
}

/// The integers of a tag, each as a variable-length integer.
pub open spec fn ids_bytes(ids: Seq<i32>) -> Seq<u8>
    decreases ids.len(),
{
    if ids.len() == 0 {
        Seq::empty()
    } else {
        ids_bytes(ids.drop_last()) + varint_bytes(ids.last() as nat)
    }
}

/// The tags of a registry: for each its name, the number of its integers and
/// the integers.
pub open spec fn tags_bytes(names: Seq<Seq<char>>, lists: Seq<Seq<i32>>) -> Seq<u8>
    decreases names.len(),
{
    if names.len() == 0 || lists.len() == 0 {
        Seq::empty()
    } else {
        tags_bytes(names.drop_last(), lists.drop_last()) + string_bytes(names.last())
            + varint_bytes(lists.last().len()) + ids_bytes(lists.last())
    }
}

/// One registry of the tag packet: its name, the number of its tags, the tags.
pub open spec fn group_bytes(registry: Seq<char>, group: (Seq<Seq<char>>, Seq<Seq<i32>>)) -> Seq<
    u8,
> {
    string_bytes(registry) + varint_bytes(group.0.len()) + tags_bytes(group.0, group.1)
}

/// The registries of the tag packet, one after the other.
pub open spec fn groups_bytes(
    registries: Seq<Seq<char>>,
    groups: Seq<(Seq<Seq<char>>, Seq<Seq<i32>>)>,
) -> Seq<u8>
    decreases registries.len(),
{
    if registries.len() == 0 || groups.len() == 0 {
        Seq::empty()
    } else {
        groups_bytes(registries.drop_last(), groups.drop_last()) + group_bytes(
            registries.last(),
            groups.last(),
        )
    }
}

/// The tag packet: the number of registries, then each registry with its
/// tags, registries and tags in the order of the lists.
pub open spec fn packet_bytes(
    registries: Seq<Seq<char>>,
    groups: Seq<(Seq<Seq<char>>, Seq<Seq<i32>>)>,
) -> Seq<u8> {
    varint_bytes(registries.len()) + groups_bytes(registries, groups)
}

/// The tag packet of a table: registries and tags in increasing order of
/// their names.
pub open spec fn tag_packet(table: TagTable) -> Seq<u8> {
    packet_bytes(table.registries.deep_view(), group_models(table.groups@))
}

/// Appends the integers of one tag to `buf`.
fn write_ids(buf: &mut Vec<u8>, ids: &Vec<i32>)
    requires
        id_list(ids@),
    ensures
        final(buf)@ == old(buf)@ + ids_bytes(ids@),
{
    let mut k: usize = 0;
    assert(ids@.take(0) =~= Seq::empty());
    assert(buf@ + Seq::<u8>::empty() =~= buf@);
    while k < ids.len()
        invariant
            k <= ids.len(),
            id_list(ids@),
            buf@ == old(buf)@ + ids_bytes(ids@.take(k as int)),
        decreases ids.len() - k,
    {
        write_varint(buf, ids[k]);
        proof {
            let next = ids@.take(k + 1);
            assert(next.drop_last() =~= ids@.take(k as int));
            assert(next.last() == ids[k as int]);
            assert(buf@ =~= old(buf)@ + (ids_bytes(ids@.take(k as int)) + varint_bytes(
                ids[k as int] as nat,
            )));
        }
        k += 1;
    }
    assert(ids@.take(ids.len() as int) =~= ids@);
}

/// Appends one registry and its tags to `buf`.
fn write_group(buf: &mut Vec<u8>, registry: &str, group: &TagGroup)
    requires
        fits(registry@),
        group.wf(),
    ensures
        final(buf)@ == old(buf)@ + group_bytes(registry@, group.model()),
{
    write_string(buf, registry);
    write_varint(buf, group.names.len() as i32);
    let ghost head = buf@;
    let ghost names = group.names.deep_view();
    let ghost lists = id_lists(group.ids@);
    assert(names.take(0) =~= Seq::empty());
    assert(head + Seq::<u8>::empty() =~= head);
    let mut j: usize = 0;
    while j < group.names.len()
        invariant
            j <= group.names.len(),
            group.wf(),
            names == group.names.deep_view(),
            lists == id_lists(group.ids@),
            buf@ == head + tags_bytes(names.take(j as int), lists.take(j as int)),
        decreases group.names.len() - j,
    {
        write_string(buf, group.names[j].as_str());
        write_varint(buf, group.ids[j].len() as i32);
        write_ids(buf, &group.ids[j]);
        proof {
            let n2 = names.take(j + 1);
            let l2 = lists.take(j + 1);
            assert(n2.drop_last() =~= names.take(j as int));
            assert(l2.drop_last() =~= lists.take(j as int));
            assert(n2.last() == group.names[j as int]@);
            assert(l2.last() == group.ids[j as int]@);
            assert(buf@ =~= head + (tags_bytes(names.take(j as int), lists.take(j as int))
                + string_bytes(n2.last()) + varint_bytes(l2.last().len()) + ids_bytes(
                l2.last(),
            )));
        }
        j += 1;
    }
    proof {
        assert(names.take(group.names.len() as int) =~= names);
        assert(lists.take(group.names.len() as int) =~= lists);
        assert(buf@ =~= old(buf)@ + (string_bytes(registry@) + varint_bytes(names.len())
            + tags_bytes(names, lists)));
    }
}

/// Encodes the tag packet.
pub fn encode_tags(table: &TagTable) -> (r: Vec<u8>)
    requires
        table.wf(),
    ensures
        r@ == tag_packet(*table),
{
    let mut buffer: Vec<u8> = Vec::new();
    write_varint(&mut buffer, table.registries.len() as i32);
    let ghost head = buffer@;
    let ghost names = table.registries.deep_view();
    let ghost groups = group_models(table.groups@);
    assert(names.take(0) =~= Seq::empty());
    assert(head + Seq::<u8>::empty() =~= head);
    let mut i: usize = 0;
    while i < table.registries.len()
        invariant
            i <= table.registries.len(),
            table.wf(),
            names == table.registries.deep_view(),
            groups == group_models(table.groups@),
            buffer@ == head + groups_bytes(names.take(i as int), groups.take(i as int)),
        decreases table.registries.len() - i,
    {
        write_group(&mut buffer, table.registries[i].as_str(), &table.groups[i]);
        proof {
            let n2 = names.take(i + 1);
            let g2 = groups.take(i + 1);
            assert(n2.drop_last() =~= names.take(i as int));
            assert(g2.drop_last() =~= groups.take(i as int));
            assert(n2.last() == table.registries[i as int]@);
            assert(g2.last() == table.groups[i as int].model());
            assert(buffer@ =~= head + (groups_bytes(names.take(i as int), groups.take(i as int))
                + group_bytes(n2.last(), g2.last())));
        }
        i += 1;
    }
    proof {
        assert(names.take(table.registries.len() as int) =~= names);
        assert(groups.take(table.registries.len() as int) =~= groups);
        assert(head =~= varint_bytes(names.len()));
    }
    buffer
}

/// A tag definition file: its path below the root of the tag definitions,
/// and what it holds.
#[derive(Debug, Clone, PartialEq, Eq)]
pub struct TagSource {
    pub path: Vec<String>,
    pub content: String,
}

impl DeepView for TagSource {
    type V = (Seq<Seq<char>>, Seq<char>);

    open spec fn deep_view(&self) -> (Seq<Seq<char>>, Seq<char>) {
        (self.path.deep_view(), self.content@)
    }
}

/// Whether the file at `path` defines a tag of a registry that `mappings`
/// knows. Other files are passed over, whatever they hold.
pub open spec fn is_wanted(path: Seq<Seq<char>>, mappings: Map<Seq<char>, Seq<Seq<char>>>) -> bool {
    match tag_identity(path) {
        Some((registry, tag)) => mappings.contains_key(registry),
        None => false,
    }
}

/// What a tag definition file adds to the table: the registry, the tag and
/// the integers that the names listed in the file resolve to.
pub open spec fn tag_entry(
    file: (Seq<Seq<char>>, Seq<char>),
    mappings: Map<Seq<char>, Seq<Seq<char>>>,
) -> Option<(Seq<char>, Seq<char>, Seq<i32>)> {
    match tag_identity(file.0) {
        Some((registry, tag)) => if mappings.contains_key(registry) {
            Some((registry, tag, resolved(tag_file_values(file.1), mappings[registry])))
        } else {
            None
        },
        None => None,
    }
}

/// The integers of `tag` of `registry` as the last of `files` that defines
/// that tag states them.
pub open spec fn last_entry(
    files: Seq<(Seq<Seq<char>>, Seq<char>)>,
    mappings: Map<Seq<char>, Seq<Seq<char>>>,
    registry: Seq<char>,
    tag: Seq<char>,
) -> Option<Seq<i32>>
    decreases files.len(),
{
    if files.len() == 0 {
        None
    } else {
        match tag_entry(files.last(), mappings) {
            Some((r, t, ids)) => if r == registry && t == tag {
                Some(ids)
            } else {
                last_entry(files.drop_last(), mappings, registry, tag)
            },
            None => last_entry(files.drop_last(), mappings, registry, tag),
        }
    }
}

/// Whether what `file` adds cannot be stated: the tag's name is too long, or
/// it has more integers than the format can count.
pub open spec fn tag_oversized(
    file: (Seq<Seq<char>>, Seq<char>),
    mappings: Map<Seq<char>, Seq<Seq<char>>>,
) -> bool {
    match tag_entry(file, mappings) {
        Some((registry, tag, ids)) => !fits(tag) || ids.len() > MAX_VALUE,
        None => false,
    }
}

/// Whether `files` cannot be compiled: there are more of them than the format
/// can count, or one of them adds what cannot be stated.
pub open spec fn tags_too_large(
    files: Seq<(Seq<Seq<char>>, Seq<char>)>,
    mappings: Map<Seq<char>, Seq<Seq<char>>>,
) -> bool {
    files.len() > MAX_VALUE || exists|k: int|
        0 <= k < files.len() && tag_oversized(#[trigger] files[k], mappings)
}

/// Whether the tag compiler will read the file at `path`.
pub fn wanted(path: &Vec<String>, mappings: &RegistryMappings) -> (r: bool)
    requires
        mappings.wf(),
    ensures
        r == is_wanted(path.deep_view(), mappings@),
{
    match identify_tag(path) {
        Some((registry, tag)) => mappings.find(registry.as_str()).is_some(),
        None => false,
    }
}

/// Collects the tags from the tag definition files. A file that stands for
/// no tag, or for a tag of a registry that `mappings` does not know, is
/// passed over; of two files that stand for the same tag the later counts.
pub fn collect_tags(files: &Vec<TagSource>, mappings: &RegistryMappings) -> (r: Result<
    TagTable,
    CompileError,
>)
    requires
        mappings.wf(),
    ensures
        r is Err <==> tags_too_large(files.deep_view(), mappings@),
        r matches Ok(table) ==> {
            &&& table.wf()
            &&& forall|registry: Seq<char>, tag: Seq<char>|
                tag_lookup(table@, registry, tag) == last_entry(
                    files.deep_view(),
                    mappings@,
                    registry,
                    tag,
                )
            &&& forall|registry: Seq<char>| #[trigger]
                table@.contains_key(registry) ==> mappings@.contains_key(registry)
        },
{
    if files.len() > MAX_VALUE {
        return Err(CompileError::TooLarge);
    }
    let ghost all = files.deep_view();
    let ghost known = mappings@;
    let mut table = TagTable::new();
    let mut k: usize = 0;
    assert(all.take(0) =~= Seq::empty());
    while k < files.len()
        invariant
            k <= files.len() <= MAX_VALUE,
            all == files.deep_view(),
            known == mappings@,
            mappings.wf(),
            table.wf(),
            table.registries.len() <= k,
            forall|registry: Seq<char>| #[trigger] table.group_size(registry) <= k,
            forall|j: int| 0 <= j < k ==> !tag_oversized(#[trigger] all[j], known),
            forall|registry: Seq<char>, tag: Seq<char>|
                tag_lookup(table@, registry, tag) == last_entry(
                    all.take(k as int),
                    known,
                    registry,
                    tag,
                ),
            forall|registry: Seq<char>| #[trigger]
                table@.contains_key(registry) ==> known.contains_key(registry),
        decreases files.len() - k,
    {
        let file = &files[k];
        let ghost before = table;
        proof {
            assert(all[k as int] == (file.path.deep_view(), file.content@));
            assert(all.take(k + 1).drop_last() =~= all.take(k as int));
            assert(all.take(k + 1).last() == all[k as int]);
        }
        match identify_tag(&file.path) {
            Some((registry, tag)) => {
                match mappings.find(registry.as_str()) {
                    Some(i) => {
                        let parsed = TagFile::parse(file.content.as_str());
                        let ids = resolve(&parsed.values, &mappings.entries[i]);
                        let ghost name = registry@;
                        let ghost label = tag@;
                        let ghost list = ids@;
                        assert(tag_entry(all[k as int], known) == Some((name, label, list)));
                        assert(before.group_size(name) <= k);
                        match table.insert(registry, tag, ids) {
                            Ok(()) => {},
                            Err(e) => {
                                assert(tag_oversized(all[k as int], known));
                                return Err(e);
                            },
                        }
                        proof {
                            assert forall|r: Seq<char>| #[trigger]
                                table.group_size(r) <= k + 1 by {
                                assert(before.group_size(r) <= k);
                            }
                            assert forall|r: Seq<char>, t: Seq<char>|
                                tag_lookup(table@, r, t) == last_entry(
                                    all.take(k + 1),
                                    known,
                                    r,
                                    t,
                                ) by {
                                assert(tag_lookup(before@, r, t) == last_entry(
                                    all.take(k as int),
                                    known,
                                    r,
                                    t,
                                ));
                            }
                        }
                    },
                    None => {},
                }
            },
            None => {},
        }
        k += 1;
    }
    assert(all.take(files.len() as int) =~= all);
    Ok(table)
}

/// What compiling the tags yields.
#[derive(Debug, Clone, PartialEq, Eq)]
pub struct TagOutput {
    /// The tags of every registry that has one.
    pub table: TagTable,
    /// The one packet that states the table.
    pub file: PacketFile,
}

/// What compiling `files` against `mappings` has to yield. It fails exactly
/// if the files are too large. Otherwise the table has for every tag the
/// integers that the last file defining it states, registries and tags in
/// increasing order, no registry that the mappings do not know, and the file
/// holds the packet of the table.
pub open spec fn tags_compiled(
    files: Seq<(Seq<Seq<char>>, Seq<char>)>,
    mappings: Map<Seq<char>, Seq<Seq<char>>>,
    r: Result<TagOutput, CompileError>,
) -> bool {
    match r {
        Ok(out) => {
            &&& !tags_too_large(files, mappings)
            &&& out.table.wf()
            &&& forall|registry: Seq<char>, tag: Seq<char>|
                tag_lookup(out.table@, registry, tag) == last_entry(files, mappings, registry, tag)
            &&& forall|registry: Seq<char>| #[trigger]
                out.table@.contains_key(registry) ==> mappings.contains_key(registry)
            &&& out.file.name@ == "packet_tags.bin"@
            &&& out.file.bytes@ == tag_packet(out.table)
        },
        Err(e) => tags_too_large(files, mappings),
    }
}

/// Compiles the tags: collects them from the tag definition files, resolving
/// the names each lists against `mappings`, and encodes the tag packet.
pub fn compile_tags(files: &Vec<TagSource>, mappings: &RegistryMappings) -> (r: Result<
    TagOutput,
    CompileError,
>)
    requires
        mappings.wf(),
    ensures
        tags_compiled(files.deep_view(), mappings@, r),
{
    match collect_tags(files, mappings) {
        Ok(table) => {
            let bytes = encode_tags(&table);
            let file = PacketFile { name: String::from_str("packet_tags.bin"), bytes };
            Ok(TagOutput { table, file })
        },
        Err(e) => Err(e),
    }
}

/// A table is determined by what it has for every tag: two tables that
/// agree on every tag of every registry have the same registries and tags,
/// in the same order, with the same integers.
pub proof fn lemma_table_unique(a: TagTable, b: TagTable)
    requires
        a.wf(),
        b.wf(),
        forall|registry: Seq<char>, tag: Seq<char>|
            tag_lookup(a@, registry, tag) == tag_lookup(b@, registry, tag),
    ensures
        a.registries.deep_view() == b.registries.deep_view(),
        group_models(a.groups@) == group_models(b.groups@),
        tag_packet(a) == tag_packet(b),
{
    let names_a = a.registries.deep_view();
    let names_b = b.registries.deep_view();
    assert forall|x: Seq<char>| names_a.contains(x) <==> names_b.contains(x) by {
        if names_a.contains(x) {
            let i = choose|i: int| 0 <= i < names_a.len() && names_a[i] == x;
            a.lemma_at(i);
            a.groups[i].lemma_at(0);
            let t = a.groups[i].names[0]@;
            assert(tag_lookup(a@, x, t) is Some);
            assert(tag_lookup(b@, x, t) is Some);
        }
        if names_b.contains(x) {
            let i = choose|i: int| 0 <= i < names_b.len() && names_b[i] == x;
            b.lemma_at(i);
            b.groups[i].lemma_at(0);
            let t = b.groups[i].names[0]@;
            assert(tag_lookup(b@, x, t) is Some);
            assert(tag_lookup(a@, x, t) is Some);
        }
    }
    lemma_sorted_unique(names_a, names_b);
    let models_a = group_models(a.groups@);
    let models_b = group_models(b.groups@);
    assert forall|i: int| 0 <= i < models_a.len() implies models_a[i] == models_b[i] by {
        a.lemma_at(i);
        b.lemma_at(i);
        assert(names_a[i] == names_b[i]);
        let name = names_a[i];
        let ga = a.groups[i];
        let gb = b.groups[i];
        let tags_a = ga.names.deep_view();
        let tags_b = gb.names.deep_view();
        assert forall|t: Seq<char>| tags_a.contains(t) <==> tags_b.contains(t) by {
            assert(tag_lookup(a@, name, t) == tag_lookup(b@, name, t));
        }
        lemma_sorted_unique(tags_a, tags_b);
        assert forall|j: int| 0 <= j < ga.ids.len() implies id_lists(ga.ids@)[j] == id_lists(
            gb.ids@,
        )[j] by {
            ga.lemma_at(j);
            gb.lemma_at(j);
            assert(tags_a[j] == tags_b[j]);
            assert(tag_lookup(a@, name, tags_a[j]) == tag_lookup(b@, name, tags_a[j]));
        }
        assert(id_lists(ga.ids@) =~= id_lists(gb.ids@));
    }
    assert(models_a =~= models_b);
}

/// Compiling is a function of the files and the mappings: two compilations
/// of the same files against the same mappings fail together, and if they
/// succeed they yield the same table and a file of the same name and bytes.
pub proof fn lemma_tags_deterministic(
    files: Seq<(Seq<Seq<char>>, Seq<char>)>,
    mappings: Map<Seq<char>, Seq<Seq<char>>>,
    first: Result<TagOutput, CompileError>,
    second: Result<TagOutput, CompileError>,
)
    requires
        tags_compiled(files, mappings, first),
        tags_compiled(files, mappings, second),
    ensures
        first is Err <==> second is Err,
        first is Ok ==> first->Ok_0.file.name@ == second->Ok_0.file.name@,
        first is Ok ==> first->Ok_0.file.bytes@ == second->Ok_0.file.bytes@,
        first is Ok ==> first->Ok_0.table@ == second->Ok_0.table@,
{
    if first is Ok {
        let a = first->Ok_0.table;
        let b = second->Ok_0.table;
        assert forall|registry: Seq<char>, tag: Seq<char>|
            tag_lookup(a@, registry, tag) == tag_lookup(b@, registry, tag) by {
            assert(tag_lookup(a@, registry, tag) == last_entry(files, mappings, registry, tag));
            assert(tag_lookup(b@, registry, tag) == last_entry(files, mappings, registry, tag));
        }
        lemma_table_unique(a, b);
        assert(a@ =~= b@) by {
            assert forall|registry: Seq<char>| a@.contains_key(registry) implies a@[registry]
                =~= b@[registry] by {
                let i = choose|i: int|
                    0 <= i < a.registries.deep_view().len() && a.registries.deep_view()[i]
                        == registry;
                a.lemma_at(i);
                b.lemma_at(i);
                assert(group_models(a.groups@)[i] == group_models(b.groups@)[i]);
            }
        }
    }
}

/// A file that stands for no tag, or for a tag of a registry that the
/// mappings do not know, adds nothing: with it and without it every tag has
/// the same integers.
pub proof fn lemma_unwanted_file_adds_nothing(
    files: Seq<(Seq<Seq<char>>, Seq<char>)>,
    mappings: Map<Seq<char>, Seq<Seq<char>>>,
    k: int,
    registry: Seq<char>,
    tag: Seq<char>,
)
    requires
        0 <= k < files.len(),
        !is_wanted(files[k].0, mappings),
    ensures
        last_entry(files, mappings, registry, tag) == last_entry(
            files.remove(k),
            mappings,
            registry,
            tag,
        ),
    decreases files.len(),
{
    if k == files.len() - 1 {
        assert(files.remove(k) =~= files.drop_last());
    } else {
        let shorter = files.remove(k);
        assert(shorter.last() == files.last());
        assert(shorter.drop_last() =~= files.drop_last().remove(k));
        lemma_unwanted_file_adds_nothing(files.drop_last(), mappings, k, registry, tag);
    }
}

/// A tag definition that is no valid JSON, or has no `values` key, lists no
/// names, and the tag it defines has no integers.
pub proof fn lemma_malformed_file_lists_nothing(
    file: (Seq<Seq<char>>, Seq<char>),
    mappings: Map<Seq<char>, Seq<Seq<char>>>,
)
    requires
        json_document(file.1) is None || json_member(json_document(file.1).unwrap(), "values"@)
            is None,
    ensures
        tag_file_values(file.1) == Seq::<Seq<char>>::empty(),
        tag_entry(file, mappings) matches Some((registry, tag, ids)) ==> ids == Seq::<
            i32,
        >::empty(),
{
}

/// The registries stand in the tag packet, and the tags of each registry
/// among its tags, in strictly increasing order of their names.
pub proof fn lemma_tag_packet_sorted(
    files: Seq<(Seq<Seq<char>>, Seq<char>)>,
    mappings: Map<Seq<char>, Seq<Seq<char>>>,
    r: Result<TagOutput, CompileError>,
)
    requires
        tags_compiled(files, mappings, r),
        r is Ok,
    ensures
        sorted(r->Ok_0.table.registries.deep_view()),
        forall|i: int|
            0 <= i < r->Ok_0.table.groups.len() ==> sorted(
                #[trigger] r->Ok_0.table.groups[i].names.deep_view(),
            ),
        r->Ok_0.file.bytes@ == packet_bytes(
            r->Ok_0.table.registries.deep_view(),
            group_models(r->Ok_0.table.groups@),
        ),
{
    let table = r->Ok_0.table;
    assert forall|i: int| 0 <= i < table.groups.len() implies sorted(
        #[trigger] table.groups[i].names.deep_view(),
    ) by {
        assert(table.groups[i].wf());
    }
}

/// The integers of a tag are integers of entries of its registry: each is
/// the position of an entry in the registry's list.
pub proof fn lemma_tag_ids_exist(
    files: Seq<(Seq<Seq<char>>, Seq<char>)>,
    mappings: Map<Seq<char>, Seq<Seq<char>>>,
    registry: Seq<char>,
    tag: Seq<char>,
)
    requires
        forall|r: Seq<char>| mappings.contains_key(r) ==> (#[trigger] mappings[r]).len() <= MAX_VALUE,
    ensures
        last_entry(files, mappings, registry, tag) matches Some(ids) ==> mappings.contains_key(
            registry,
        ) && forall|k: int| 0 <= k < ids.len() ==> 0 <= #[trigger] ids[k] < mappings[registry].len(),
    decreases files.len(),
{
    if files.len() > 0 {
        lemma_tag_ids_exist(files.drop_last(), mappings, registry, tag);
        match tag_entry(files.last(), mappings) {
            Some((r, t, ids)) => {
                if r == registry && t == tag {
                    lemma_resolved_in_range(tag_file_values(files.last().1), mappings[registry]);
                }
            },
            None => {},
        }
    }
}

} // verus!

//! The store as mathematics: the table of notes and the two indices as
//! maps, what each operation makes of them, and the rules that tie them
//! together.

use crate::order::sorted_keys;
use crate::resource::ResourceView;
use crate::sync::{sync_action, SyncActionView};
use crate::tokenizer::tokens;
use vstd::prelude::*;

verus! {

/// The members filed under `key`; none where the index has no such key.
pub open spec fn entry_or_empty(
    index: Map<Seq<char>, Set<Seq<char>>>,
    key: Seq<char>,
) -> Set<Seq<char>> {
    if index.contains_key(key) {
        index[key]
    } else {
        Set::empty()
    }
}

/// The index after `member` was filed under `key`.
pub open spec fn added(
    index: Map<Seq<char>, Set<Seq<char>>>,
    key: Seq<char>,
    member: Seq<char>,
) -> Map<Seq<char>, Set<Seq<char>>> {
    index.insert(key, entry_or_empty(index, key).insert(member))
}

/// The index after `member` was taken from under `key`. The key keeps its
/// entry, even where that is left empty.
pub open spec fn dropped(
    index: Map<Seq<char>, Set<Seq<char>>>,
    key: Seq<char>,
    member: Seq<char>,
) -> Map<Seq<char>, Set<Seq<char>>> {
    if index.contains_key(key) {
        index.insert(key, index[key].remove(member))
    } else {
        index
    }
}

/// The index after `member` was filed under each of `keys`.
pub open spec fn linked(
    index: Map<Seq<char>, Set<Seq<char>>>,
    keys: Set<Seq<char>>,
    member: Seq<char>,
) -> Map<Seq<char>, Set<Seq<char>>> {
    Map::new(
        |k: Seq<char>| index.contains_key(k) || keys.contains(k),
        |k: Seq<char>|
            if keys.contains(k) {
                entry_or_empty(index, k).insert(member)
            } else {
                entry_or_empty(index, k)
            },
    )
}

/// The index after `member` was taken from under each of `keys`.
pub open spec fn unlinked(
    index: Map<Seq<char>, Set<Seq<char>>>,
    keys: Set<Seq<char>>,
    member: Seq<char>,
) -> Map<Seq<char>, Set<Seq<char>>> {
    Map::new(
        |k: Seq<char>| index.contains_key(k),
        |k: Seq<char>|
            if keys.contains(k) {
                index[k].remove(member)
            } else {
                index[k]
            },
    )
}

/// Filing under no key changes nothing.
pub proof fn lemma_linked_none(index: Map<Seq<char>, Set<Seq<char>>>, member: Seq<char>)
    ensures
        linked(index, Set::empty(), member) == index,
{
    assert(linked(index, Set::empty(), member) =~= index);
}

/// Filing under one more key.
pub proof fn lemma_linked_one_more(
    index: Map<Seq<char>, Set<Seq<char>>>,
    keys: Set<Seq<char>>,
    key: Seq<char>,
    member: Seq<char>,
)
    ensures
        added(linked(index, keys, member), key, member) == linked(
            index,
            keys.insert(key),
            member,
        ),
{
    let left = added(linked(index, keys, member), key, member);
    let right = linked(index, keys.insert(key), member);
    assert forall|k: Seq<char>| left.contains_key(k) implies left[k] =~= right[k] by {}
    assert(left =~= right);
}

/// Taking from under no key changes nothing.
pub proof fn lemma_unlinked_none(index: Map<Seq<char>, Set<Seq<char>>>, member: Seq<char>)
    ensures
        unlinked(index, Set::empty(), member) == index,
{
    assert(unlinked(index, Set::empty(), member) =~= index);
}

/// Taking from under one more key.
pub proof fn lemma_unlinked_one_more(
    index: Map<Seq<char>, Set<Seq<char>>>,
    keys: Set<Seq<char>>,
    key: Seq<char>,
    member: Seq<char>,
)
    ensures
        dropped(unlinked(index, keys, member), key, member) == unlinked(
            index,
            keys.insert(key),
            member,
        ),
{
    let left = dropped(unlinked(index, keys, member), key, member);
    let right = unlinked(index, keys.insert(key), member);
    assert forall|k: Seq<char>| left.contains_key(k) implies left[k] =~= right[k] by {}
    assert(left =~= right);
}

/// The tokens that occur in a text.
pub open spec fn token_set(content: Seq<char>) -> Set<Seq<char>> {
    tokens(content).to_set()
}

/// The notes of `resources` whose text holds `token`.
pub open spec fn holders(
    resources: Map<Seq<char>, ResourceView>,
    token: Seq<char>,
) -> Set<Seq<char>> {
    Set::new(
        |h: Seq<char>| resources.contains_key(h) && token_set(resources[h].content).contains(token),
    )
}

/// The word index that belongs to a table of notes: every token of every
/// text, with the notes that hold it, and nothing else.
pub open spec fn word_index_of(resources: Map<Seq<char>, ResourceView>) -> Map<
    Seq<char>,
    Set<Seq<char>>,
> {
    Map::new(
        |t: Seq<char>| exists|h: Seq<char>| #[trigger] holders(resources, t).contains(h),
        |t: Seq<char>| holders(resources, t),
    )
}

/// Indexing one more note extends the word index of the others to the word
/// index of all.
pub proof fn lemma_word_index_one_more(
    resources: Map<Seq<char>, ResourceView>,
    hash: Seq<char>,
    resource: ResourceView,
)
    requires
        !resources.contains_key(hash),
    ensures
        linked(word_index_of(resources), token_set(resource.content), hash) == word_index_of(
            resources.insert(hash, resource),
        ),
{
    let more = resources.insert(hash, resource);
    let left = linked(word_index_of(resources), token_set(resource.content), hash);
    let right = word_index_of(more);
    assert forall|t: Seq<char>| left.contains_key(t) <==> right.contains_key(t) by {
        if word_index_of(resources).contains_key(t) {
            let h = choose|h: Seq<char>| #[trigger] holders(resources, t).contains(h);
            assert(holders(more, t).contains(h));
        }
        if token_set(resource.content).contains(t) {
            assert(holders(more, t).contains(hash));
        }
        if right.contains_key(t) {
            let h = choose|h: Seq<char>| #[trigger] holders(more, t).contains(h);
            if h != hash {
                assert(holders(resources, t).contains(h));
            }
        }
    }
    assert forall|t: Seq<char>| left.contains_key(t) implies left[t] =~= right[t] by {
        assert forall|h: Seq<char>| left[t].contains(h) <==> right[t].contains(h) by {
            if !word_index_of(resources).contains_key(t) {
                assert(!holders(resources, t).contains(h));
            }
        }
    }
    assert(left =~= right);
}

/// The steps that bring every snapshot file up to date, one for each note,
/// in ascending order of the identifiers.
pub open spec fn sync_plan(dir: Seq<char>, resources: Map<Seq<char>, ResourceView>) -> Seq<
    SyncActionView,
> {
    sorted_keys(resources.dom()).map_values(|h: Seq<char>| sync_action(dir, resources[h]))
}

/// The table of notes with its tag index and its word index.
pub ghost struct StateView {
    /// Each note under its identifier.
    pub resources: Map<Seq<char>, ResourceView>,
    /// Under each tag, the identifiers of the notes that carry it.
    pub tag_index: Map<Seq<char>, Set<Seq<char>>>,
    /// Under each token, the identifiers of the notes whose text holds it.
    pub word_index: Map<Seq<char>, Set<Seq<char>>>,
}

impl StateView {
    /// The store that holds nothing.
    pub open spec fn empty() -> StateView {
        StateView { resources: Map::empty(), tag_index: Map::empty(), word_index: Map::empty() }
    }

    /// Every note is filed under its own identifier.
    pub open spec fn keyed_by_hash(self) -> bool {
        forall|h: Seq<char>| #[trigger]
            self.resources.contains_key(h) ==> self.resources[h].hash == h
    }

    /// Whatever the tag index lists under a tag is a note that carries it.
    pub open spec fn tag_index_sound(self) -> bool {
        forall|tag: Seq<char>, h: Seq<char>|
            self.tag_index.contains_key(tag) && #[trigger] self.tag_index[tag].contains(h)
                ==> self.resources.contains_key(h) && self.resources[h].tags.contains(tag)
    }

    /// Every tag of every note is listed in the tag index.
    pub open spec fn tag_index_complete(self) -> bool {
        forall|h: Seq<char>, tag: Seq<char>|
            self.resources.contains_key(h) && #[trigger] self.resources[h].tags.contains(tag)
                ==> self.tag_index.contains_key(tag) && self.tag_index[tag].contains(h)
    }

    /// The word index is the one that belongs to the notes in the table.
    pub open spec fn word_index_exact(self) -> bool {
        self.word_index == word_index_of(self.resources)
    }

    /// The table and the two indices agree.
    pub open spec fn consistent(self) -> bool {
        &&& self.keyed_by_hash()
        &&& self.tag_index_sound()
        &&& self.tag_index_complete()
        &&& self.word_index_exact()
    }

    /// The store with its word index built anew from the table.
    pub open spec fn reindexed(self) -> StateView {
        StateView {
            resources: self.resources,
            tag_index: self.tag_index,
            word_index: word_index_of(self.resources),
        }
    }

    /// The store without the note `hash`. Its tags keep their entries in
    /// the tag index. Without such a note the store stays as it is.
    pub open spec fn without_resource(self, hash: Seq<char>) -> StateView {
        if self.resources.contains_key(hash) {
            StateView {
                resources: self.resources.remove(hash),
                tag_index: unlinked(self.tag_index, self.resources[hash].tags, hash),
                word_index: word_index_of(self.resources.remove(hash)),
            }
        } else {
            self
        }
    }

    /// The store after `resource` was added. A note with the same
    /// identifier is removed first, so the new one replaces it.
    pub open spec fn with_resource(self, resource: ResourceView) -> StateView {
        let base = self.without_resource(resource.hash);
        StateView {
            resources: base.resources.insert(resource.hash, resource),
            tag_index: linked(base.tag_index, resource.tags, resource.hash),
            word_index: linked(base.word_index, token_set(resource.content), resource.hash),
        }
    }

    /// The store after each of `resources` was added, from first to last.
    pub open spec fn with_all(self, resources: Seq<ResourceView>) -> StateView
        decreases resources.len(),
    {
        if resources.len() == 0 {
            self
        } else {
            self.with_all(resources.drop_last()).with_resource(resources.last())
        }
    }

    /// The table after the notes listed under `tag` lost that tag.
    pub open spec fn resources_without_tag(self, tag: Seq<char>) -> Map<
        Seq<char>,
        ResourceView,
    > {
        Map::new(
            |h: Seq<char>| self.resources.contains_key(h),
            |h: Seq<char>|
                if self.tag_index[tag].contains(h) {
                    self.resources[h].untagged(tag)
                } else {
                    self.resources[h]
                },
        )
    }

    /// The store after `tag` was removed: no note carries it any more and
    /// the tag index has no entry for it. An unknown tag leaves the store
    /// as it is.
    pub open spec fn without_tag(self, tag: Seq<char>) -> StateView {
        if self.tag_index.contains_key(tag) {
            StateView {
                resources: self.resources_without_tag(tag),
                tag_index: self.tag_index.remove(tag),
                word_index: word_index_of(self.resources_without_tag(tag)),
            }
        } else {
            self
        }
    }

    /// The notes that hold every one of `terms` that the word index
    /// knows. Unknown terms do not count; where all are unknown, no note
    /// is found.
    pub open spec fn search(self, terms: Seq<Seq<char>>) -> Set<Seq<char>> {
        Set::new(
            |h: Seq<char>|
                {
                    &&& exists|i: int|
                        0 <= i < terms.len() && self.word_index.contains_key(#[trigger] terms[i])
                    &&& forall|i: int|
                        0 <= i < terms.len() && self.word_index.contains_key(#[trigger] terms[i])
                            ==> self.word_index[terms[i]].contains(h)
                },
        )
    }

    /// The steps that follow the adding of `resource`: where it replaced a
    /// note, all the remaining snapshots are brought up to date first;
    /// then, if asked for, its own.
    pub open spec fn add_plan(self, dir: Seq<char>, resource: ResourceView, persist: bool) -> Seq<
        SyncActionView,
    > {
        let first = if self.resources.contains_key(resource.hash) {
            sync_plan(dir, self.without_resource(resource.hash).resources)
        } else {
            Seq::empty()
        };
        if persist {
            first.push(sync_action(dir, resource))
        } else {
            first
        }
    }

    /// The steps that follow the adding of each of `resources` without
    /// writing them out.
    pub open spec fn load_plan(self, dir: Seq<char>, resources: Seq<ResourceView>) -> Seq<
        SyncActionView,
    >
        decreases resources.len(),
    {
        if resources.len() == 0 {
            Seq::empty()
        } else {
            self.load_plan(dir, resources.drop_last()) + self.with_all(
                resources.drop_last(),
            ).add_plan(dir, resources.last(), false)
        }
    }
}

/// The empty store is consistent.
pub proof fn lemma_empty_consistent()
    ensures
        StateView::empty().consistent(),
{
    let s = StateView::empty();
    assert forall|t: Seq<char>| !word_index_of(s.resources).contains_key(t) by {
        assert forall|h: Seq<char>| !holders(s.resources, t).contains(h) by {}
    }
    assert(s.word_index =~= word_index_of(s.resources));
}

/// Building the word index anew makes it exact and leaves the rest alone.
pub proof fn lemma_reindexed_exact(s: StateView)
    ensures
        s.reindexed().word_index_exact(),
        s.consistent() ==> s.reindexed() == s,
{
}

/// Building the word index twice gives what building it once gives.
pub proof fn lemma_reindexed_idempotent(s: StateView)
    ensures
        s.reindexed().reindexed() == s.reindexed(),
{
}

/// Removing a note keeps the store consistent.
pub proof fn lemma_without_resource_consistent(s: StateView, hash: Seq<char>)
    requires
        s.consistent(),
    ensures
        s.without_resource(hash).consistent(),
        !s.without_resource(hash).resources.contains_key(hash),
{
    let t = s.without_resource(hash);
    if s.resources.contains_key(hash) {
        assert(t.keyed_by_hash());
        assert(t.tag_index_sound()) by {
            assert forall|tag: Seq<char>, h: Seq<char>|
                t.tag_index.contains_key(tag) && #[trigger] t.tag_index[tag].contains(
                    h,
                ) implies t.resources.contains_key(h) && t.resources[h].tags.contains(tag) by {
                assert(s.tag_index[tag].contains(h));
                if h == hash {
                    assert(s.resources[hash].tags.contains(tag));
                }
            }
        }
        assert(t.tag_index_complete()) by {
            assert forall|h: Seq<char>, tag: Seq<char>|
                t.resources.contains_key(h) && #[trigger] t.resources[h].tags.contains(
                    tag,
                ) implies t.tag_index.contains_key(tag) && t.tag_index[tag].contains(h) by {
                assert(s.resources[h].tags.contains(tag));
                assert(s.tag_index[tag].contains(h));
            }
        }
    }
}

/// Adding a note keeps the store consistent.
pub proof fn lemma_with_resource_consistent(s: StateView, resource: ResourceView)
    requires
        s.consistent(),
    ensures
        s.with_resource(resource).consistent(),
{
    let base = s.without_resource(resource.hash);
    lemma_without_resource_consistent(s, resource.hash);
    let t = s.with_resource(resource);
    let hash = resource.hash;
    assert(t.keyed_by_hash());
    assert(t.tag_index_sound()) by {
        assert forall|tag: Seq<char>, h: Seq<char>|
            t.tag_index.contains_key(tag) && #[trigger] t.tag_index[tag].contains(
                h,
            ) implies t.resources.contains_key(h) && t.resources[h].tags.contains(tag) by {
            if h != hash {
                assert(base.tag_index.contains_key(tag));
                assert(base.tag_index[tag].contains(h));
            } else if !resource.tags.contains(tag) {
                assert(base.tag_index.contains_key(tag));
                assert(base.tag_index[tag].contains(h));
            }
        }
    }
    assert(t.tag_index_complete()) by {
        assert forall|h: Seq<char>, tag: Seq<char>|
            t.resources.contains_key(h) && #[trigger] t.resources[h].tags.contains(
                tag,
            ) implies t.tag_index.contains_key(tag) && t.tag_index[tag].contains(h) by {
            if h != hash {
                assert(base.resources[h].tags.contains(tag));
                assert(base.tag_index[tag].contains(h));
            }
        }
    }
    lemma_word_index_one_more(base.resources, hash, resource);
}

/// Adding notes one after the other keeps the store consistent.
pub proof fn lemma_with_all_consistent(s: StateView, resources: Seq<ResourceView>)
    requires
        s.consistent(),
    ensures
        s.with_all(resources).consistent(),
    decreases resources.len(),
{
    if resources.len() > 0 {
        lemma_with_all_consistent(s, resources.drop_last());
        lemma_with_resource_consistent(s.with_all(resources.drop_last()), resources.last());
    }
}

/// Removing a tag keeps the store consistent.
pub proof fn lemma_without_tag_consistent(s: StateView, tag: Seq<char>)
    requires
        s.consistent(),
    ensures
        s.without_tag(tag).consistent(),
        !s.without_tag(tag).tag_index.contains_key(tag),
        forall|h: Seq<char>| #[trigger]
            s.without_tag(tag).resources.contains_key(h) ==> !s.without_tag(
                tag,
            ).resources[h].tags.contains(tag),
{
    let t = s.without_tag(tag);
    if s.tag_index.contains_key(tag) {
        assert(t.keyed_by_hash());
        assert(t.tag_index_sound()) by {
            assert forall|a: Seq<char>, h: Seq<char>|
                t.tag_index.contains_key(a) && #[trigger] t.tag_index[a].contains(
                    h,
                ) implies t.resources.contains_key(h) && t.resources[h].tags.contains(a) by {
                assert(s.tag_index[a].contains(h));
                assert(s.resources[h].tags.contains(a));
            }
        }
        assert(t.tag_index_complete()) by {
            assert forall|h: Seq<char>, a: Seq<char>|
                t.resources.contains_key(h) && #[trigger] t.resources[h].tags.contains(
                    a,
                ) implies t.tag_index.contains_key(a) && t.tag_index[a].contains(h) by {
                assert(s.resources[h].tags.contains(a));
                assert(s.tag_index[a].contains(h));
            }
        }
        assert forall|h: Seq<char>| #[trigger] t.resources.contains_key(h) implies !t.resources[h].tags.contains(
            tag,
        ) by {
            if s.resources[h].tags.contains(tag) {
                assert(s.tag_index[tag].contains(h));
            }
        }
    } else {
        assert forall|h: Seq<char>| #[trigger] t.resources.contains_key(h) implies !t.resources[h].tags.contains(
            tag,
        ) by {
            if s.resources[h].tags.contains(tag) {
                assert(s.tag_index.contains_key(tag));
            }
        }
    }
}

/// A search in which the word index knows none of the terms finds nothing.
pub proof fn lemma_search_without_known_term(s: StateView, terms: Seq<Seq<char>>)
    requires
        forall|i: int| 0 <= i < terms.len() ==> !s.word_index.contains_key(#[trigger] terms[i]),
    ensures
        s.search(terms) == Set::<Seq<char>>::empty(),
{
    assert(s.search(terms) =~= Set::<Seq<char>>::empty());
}

/// A search in which the word index knows exactly one of the terms finds
/// all the notes listed under that term.
pub proof fn lemma_search_with_one_known_term(s: StateView, terms: Seq<Seq<char>>, known: int)
    requires
        0 <= known < terms.len(),
        s.word_index.contains_key(terms[known]),
        forall|i: int|
            0 <= i < terms.len() && s.word_index.contains_key(#[trigger] terms[i]) ==> terms[i]
                == terms[known],
    ensures
        s.search(terms) == s.word_index[terms[known]],
{
    assert(s.search(terms) =~= s.word_index[terms[known]]);
}

/// A note is found by a search that knows some term exactly if it is
/// listed under every known term.
pub proof fn lemma_search_is_intersection(s: StateView, terms: Seq<Seq<char>>, hash: Seq<char>)
    requires
        exists|i: int| 0 <= i < terms.len() && s.word_index.contains_key(#[trigger] terms[i]),
    ensures
        s.search(terms).contains(hash) <==> forall|i: int|
            0 <= i < terms.len() && s.word_index.contains_key(#[trigger] terms[i])
                ==> s.word_index[terms[i]].contains(hash),
{
}

/// Of two notes with one identifier that are added one after the other,
/// the store keeps the second alone: one entry, with the tags of the
/// second, and both indices as if the first had never been added.
pub proof fn lemma_second_add_replaces_first(
    s: StateView,
    first: ResourceView,
    second: ResourceView,
)
    requires
        s.consistent(),
        first.hash == second.hash,
    ensures
        s.with_resource(first).with_resource(second).resources == s.with_resource(
            second,
        ).resources,
        s.with_resource(first).with_resource(second).resources[second.hash] == second,
        s.with_resource(first).with_resource(second).word_index == s.with_resource(
            second,
        ).word_index,
        forall|tag: Seq<char>|
            s.with_resource(first).with_resource(second).tag_index.contains_key(tag) ==> (
            #[trigger] s.with_resource(first).with_resource(second).tag_index[tag].contains(
                second.hash,
            ) <==> second.tags.contains(tag)),
{
    let hash = second.hash;
    let a = s.with_resource(first);
    let b = a.with_resource(second);
    let c = s.with_resource(second);
    lemma_with_resource_consistent(s, first);
    lemma_with_resource_consistent(a, second);
    lemma_with_resource_consistent(s, second);
    assert(b.resources =~= c.resources);
    assert forall|tag: Seq<char>| b.tag_index.contains_key(tag) implies (
    #[trigger] b.tag_index[tag].contains(hash) <==> second.tags.contains(tag)) by {
        if b.tag_index[tag].contains(hash) {
            assert(b.resources[hash].tags.contains(tag));
        }
        if second.tags.contains(tag) {
            assert(b.resources[hash].tags.contains(tag));
        }
    }
}

} // verus!

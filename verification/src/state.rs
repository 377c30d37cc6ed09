//! The store: a table of notes by identifier, an index from tags to the
//! notes that carry them, and an index from tokens to the notes whose text
//! holds them. Every change keeps the three in step and says which
//! snapshot files have to be written or deleted.

use crate::model::{added, dropped, lemma_empty_consistent, lemma_linked_none,
    lemma_linked_one_more, lemma_unlinked_none,
    lemma_unlinked_one_more, lemma_with_resource_consistent, lemma_without_resource_consistent,
    lemma_without_tag_consistent, lemma_word_index_one_more, linked,
    sync_plan, token_set, unlinked, word_index_of, StateView};
use crate::order::{is_listing, lemma_ascending_distinct, lemma_listing_is_sorted_keys,
    sorted_keys};
use crate::resource::{Resource, ResourceView};
use crate::sorted::{lemma_prefix_set_grows, texts};
use crate::str_map::StrMap;
use crate::str_set::StrSet;
use crate::sync::{plan_sync, steps, sync_action, SyncAction, SyncActionView};
use crate::tokenizer::{split_words, tokens};
use vstd::prelude::*;
use vstd::string::StringExecFns;

verus! {

/// The sets of an index, as mathematical sets.
pub open spec fn set_views(index: Map<Seq<char>, StrSet>) -> Map<Seq<char>, Set<Seq<char>>> {
    index.map_values(|s: StrSet| s@)
}

/// The notes of a table, as mathematical values.
pub open spec fn resource_views(table: Map<Seq<char>, Resource>) -> Map<
    Seq<char>,
    ResourceView,
> {
    table.map_values(|r: Resource| r@)
}

/// The notes held by a vector, in the vector's order.
pub open spec fn resource_seq(items: Seq<Resource>) -> Seq<ResourceView> {
    items.map_values(|r: Resource| r@)
}

/// Files `member` under `key`, with a new entry where the key has none.
fn link(index: &mut StrMap<StrSet>, key: &str, member: &str)
    ensures
        set_views(final(index)@) == added(set_views(old(index)@), key@, member@),
{
    let ghost before = index@;
    let mut set = match index.remove(key) {
        Some(set) => set,
        None => StrSet::new(),
    };
    set.insert(String::from_str(member));
    index.insert(String::from_str(key), set);
    assert(set_views(index@) =~= added(set_views(before), key@, member@));
}

/// Takes `member` from under `key`; the key keeps its entry.
fn unlink(index: &mut StrMap<StrSet>, key: &str, member: &str)
    ensures
        set_views(final(index)@) == dropped(set_views(old(index)@), key@, member@),
{
    let ghost before = index@;
    match index.remove(key) {
        Some(set) => {
            let mut set = set;
            set.remove(member);
            index.insert(String::from_str(key), set);
            assert(set_views(index@) =~= dropped(set_views(before), key@, member@));
        },
        None => {
            assert(index@ =~= before);
        },
    }
}

/// Files the note under each token of its text.
fn index_into(indices: &mut StrMap<StrSet>, resource: &Resource)
    ensures
        set_views(final(indices)@) == linked(
            set_views(old(indices)@),
            token_set(resource@.content),
            resource@.hash,
        ),
{
    let words = split_words(resource.content.as_str());
    let ghost start = set_views(indices@);
    let ghost found = texts(words@);
    let ghost hash = resource@.hash;
    proof {
        lemma_linked_none(start, hash);
        assert(found.take(0).to_set() =~= Set::<Seq<char>>::empty());
    }
    let mut i: usize = 0;
    while i < words.len()
        invariant
            0 <= i <= words.len(),
            found == texts(words@),
            found == tokens(resource@.content),
            hash == resource@.hash,
            set_views(indices@) == linked(start, found.take(i as int).to_set(), hash),
        decreases words.len() - i,
    {
        link(indices, words[i].as_str(), resource.hash.as_str());
        proof {
            lemma_linked_one_more(start, found.take(i as int).to_set(), found[i as int], hash);
            lemma_prefix_set_grows(found, i as int);
        }
        i = i + 1;
    }
    assert(found.take(i as int) =~= found);
}

/// Files the note under each of its tags.
fn tag_into(cache: &mut StrMap<StrSet>, resource: &Resource)
    ensures
        set_views(final(cache)@) == linked(
            set_views(old(cache)@),
            resource@.tags,
            resource@.hash,
        ),
{
    let ghost start = set_views(cache@);
    let ghost tags = resource.tags.elements();
    let ghost hash = resource@.hash;
    proof {
        lemma_linked_none(start, hash);
        assert(tags.take(0).to_set() =~= Set::<Seq<char>>::empty());
    }
    let n = resource.tags.len();
    let mut i: usize = 0;
    while i < n
        invariant
            0 <= i <= n,
            n == tags.len(),
            tags == resource.tags.elements(),
            hash == resource@.hash,
            set_views(cache@) == linked(start, tags.take(i as int).to_set(), hash),
        decreases n - i,
    {
        link(cache, resource.tags.get(i).as_str(), resource.hash.as_str());
        proof {
            lemma_linked_one_more(start, tags.take(i as int).to_set(), tags[i as int], hash);
            lemma_prefix_set_grows(tags, i as int);
        }
        i = i + 1;
    }
    assert(tags.take(i as int) =~= tags);
}

/// Takes the note `hash` from under each of `tags`.
fn untag_from(cache: &mut StrMap<StrSet>, tags: &StrSet, hash: &str)
    ensures
        set_views(final(cache)@) == unlinked(set_views(old(cache)@), tags@, hash@),
{
    let ghost start = set_views(cache@);
    let ghost names = tags.elements();
    proof {
        lemma_unlinked_none(start, hash@);
        assert(names.take(0).to_set() =~= Set::<Seq<char>>::empty());
    }
    let n = tags.len();
    let mut i: usize = 0;
    while i < n
        invariant
            0 <= i <= n,
            n == names.len(),
            names == tags.elements(),
            set_views(cache@) == unlinked(start, names.take(i as int).to_set(), hash@),
        decreases n - i,
    {
        unlink(cache, tags.get(i).as_str(), hash);
        proof {
            lemma_unlinked_one_more(start, names.take(i as int).to_set(), names[i as int], hash@);
            lemma_prefix_set_grows(names, i as int);
        }
        i = i + 1;
    }
    assert(names.take(i as int) =~= names);
}

/// Builds the word index of a table of notes.
fn index_table(table: &StrMap<Resource>) -> (indices: StrMap<StrSet>)
    requires
        forall|h: Seq<char>| #[trigger] table@.contains_key(h) ==> table@[h]@.hash == h,
    ensures
        set_views(indices@) == word_index_of(resource_views(table@)),
{
    let mut indices: StrMap<StrSet> = StrMap::new();
    let n = table.len();
    let ghost keys = table.keys();
    let ghost all = resource_views(table@);
    proof {
        lemma_ascending_distinct(keys);
        let none = all.restrict(keys.take(0).to_set());
        assert(none =~= Map::<Seq<char>, ResourceView>::empty());
        assert forall|t: Seq<char>| !word_index_of(none).contains_key(t) by {
            assert forall|h: Seq<char>| !crate::model::holders(none, t).contains(h) by {}
        }
        assert(set_views(indices@) =~= word_index_of(none));
    }
    let mut i: usize = 0;
    while i < n
        invariant
            0 <= i <= n,
            n == keys.len(),
            keys == table.keys(),
            keys.no_duplicates(),
            table.indexed(),
            all == resource_views(table@),
            forall|h: Seq<char>| #[trigger] table@.contains_key(h) ==> table@[h]@.hash == h,
            set_views(indices@) == word_index_of(all.restrict(keys.take(i as int).to_set())),
        decreases n - i,
    {
        let resource = table.value_at(i);
        let ghost some = all.restrict(keys.take(i as int).to_set());
        let ghost key = keys[i as int];
        index_into(&mut indices, resource);
        proof {
            assert(table@.contains_key(key));
            assert(resource@.hash == key);
            assert(!keys.take(i as int).contains(key)) by {
                if keys.take(i as int).contains(key) {
                    let j = choose|j: int|
                        0 <= j < keys.take(i as int).len() && keys.take(i as int)[j] == key;
                    assert(keys[j] == keys[i as int]);
                }
            }
            lemma_word_index_one_more(some, key, resource@);
            lemma_prefix_set_grows(keys, i as int);
            assert(some.insert(key, resource@) =~= all.restrict(
                keys.take(i as int + 1).to_set(),
            ));
        }
        i = i + 1;
    }
    proof {
        assert(keys.take(i as int) =~= keys);
        assert(all.restrict(keys.to_set()) =~= all);
    }
    indices
}

/// The store. `dir` is the directory in which the snapshot files lie.
#[derive(Debug)]
pub struct State {
    dir: String,
    resource_lookup: StrMap<Resource>,
    tag_cache: StrMap<StrSet>,
    search_indices: StrMap<StrSet>,
}

impl View for State {
    type V = StateView;

    closed spec fn view(&self) -> StateView {
        StateView {
            resources: resource_views(self.resource_lookup@),
            tag_index: set_views(self.tag_cache@),
            word_index: set_views(self.search_indices@),
        }
    }
}

impl State {
    /// The table and the two indices agree: every note is filed under its
    /// own identifier, the tag index lists exactly the tags that the notes
    /// carry, and the word index is the one that belongs to their texts.
    pub open spec fn wf(&self) -> bool {
        self@.consistent()
    }

    /// The directory in which the snapshot files lie.
    pub closed spec fn directory(&self) -> Seq<char> {
        self.dir@
    }

    /// The directory in which the snapshot files lie.
    pub fn dir(&self) -> (dir: &str)
        ensures
            dir@ == self.directory(),
    {
        self.dir.as_str()
    }

    /// An empty store for the directory `dir`.
    pub fn new(dir: String) -> (state: State)
        ensures
            state@ == StateView::empty(),
            state.directory() == dir@,
            state.wf(),
    {
        let state = State {
            dir,
            resource_lookup: StrMap::new(),
            tag_cache: StrMap::new(),
            search_indices: StrMap::new(),
        };
        proof {
            lemma_empty_consistent();
            assert(state@.resources =~= StateView::empty().resources);
            assert(state@.tag_index =~= StateView::empty().tag_index);
            assert(state@.word_index =~= StateView::empty().word_index);
        }
        state
    }

    /// The note with the identifier `hash`, if the store holds it.
    pub fn get(&self, hash: &str) -> (found: Option<&Resource>)
        ensures
            found is Some == self@.resources.contains_key(hash@),
            found is Some ==> found->0@ == self@.resources[hash@],
    {
        self.resource_lookup.get(hash)
    }

    /// The identifiers of the notes that carry `tag`; nothing for a tag
    /// that the index does not know.
    pub fn lookup_by_tag(&self, tag: &str) -> (found: Option<&StrSet>)
        ensures
            found is Some == self@.tag_index.contains_key(tag@),
            found is Some ==> found->0@ == self@.tag_index[tag@],
    {
        self.tag_cache.get(tag)
    }

    /// The identifiers of the notes whose text holds `token`; nothing for
    /// a token that the index does not know.
    pub fn lookup_by_token(&self, token: &str) -> (found: Option<&StrSet>)
        ensures
            found is Some == self@.word_index.contains_key(token@),
            found is Some ==> found->0@ == self@.word_index[token@],
    {
        self.search_indices.get(token)
    }

    /// All the tags that the index knows, in ascending order.
    pub fn tags(&self) -> (names: Vec<String>)
        ensures
            is_listing(texts(names@), self@.tag_index.dom()),
            texts(names@) == sorted_keys(self@.tag_index.dom()),
    {
        assert(self@.tag_index.dom() =~= self.tag_cache@.dom());
        self.tag_cache.key_list()
    }

    /// All the tokens that the word index knows, in ascending order.
    pub fn tokens(&self) -> (names: Vec<String>)
        ensures
            is_listing(texts(names@), self@.word_index.dom()),
            texts(names@) == sorted_keys(self@.word_index.dom()),
    {
        assert(self@.word_index.dom() =~= self.search_indices@.dom());
        self.search_indices.key_list()
    }

    /// The identifiers of all the notes in the table, in ascending order.
    pub fn hashes(&self) -> (names: Vec<String>)
        ensures
            is_listing(texts(names@), self@.resources.dom()),
            texts(names@) == sorted_keys(self@.resources.dom()),
    {
        assert(self@.resources.dom() =~= self.resource_lookup@.dom());
        self.resource_lookup.key_list()
    }

    /// The notes that hold every one of `terms` that the word index
    /// knows. The terms are taken as they are, as keys of the word index.
    pub fn search(&self, terms: &Vec<String>) -> (hits: StrSet)
        ensures
            hits@ == self@.search(texts(terms@)),
    {
        match self.search_known(terms) {
            Some(hits) => hits,
            None => {
                let hits = StrSet::new();
                assert(hits@ =~= self@.search(texts(terms@)));
                hits
            },
        }
    }

    /// As `search`, but tells apart the search in which the word index
    /// knows none of `terms`: it alone yields nothing at all.
    pub fn search_known(&self, terms: &Vec<String>) -> (hits: Option<StrSet>)
        ensures
            hits is Some <==> exists|i: int|
                0 <= i < terms.len() && self@.word_index.contains_key(#[trigger] texts(terms@)[i]),
            hits is Some ==> hits->0@ == self@.search(texts(terms@)),
    {
        let ghost wanted = texts(terms@);
        let ghost index = self@.word_index;
        let mut hits: Option<StrSet> = None;
        let mut i: usize = 0;
        while i < terms.len()
            invariant
                0 <= i <= terms.len(),
                wanted == texts(terms@),
                index == self@.word_index,
                hits is None <==> forall|j: int|
                    0 <= j < i ==> !index.contains_key(#[trigger] wanted[j]),
                hits is Some ==> forall|h: Seq<char>|
                    hits->0@.contains(h) <==> forall|j: int|
                        0 <= j < i && index.contains_key(#[trigger] wanted[j])
                            ==> index[wanted[j]].contains(h),
            decreases terms.len() - i,
        {
            assert(wanted[i as int] == terms[i as int]@);
            match self.search_indices.get(terms[i].as_str()) {
                None => {},
                Some(set) => {
                    let next = match hits {
                        None => set.clone(),
                        Some(so_far) => so_far.intersection(set),
                    };
                    hits = Some(next);
                },
            }
            i = i + 1;
        }
        proof {
            if hits is Some {
                assert(hits->0@ =~= self@.search(wanted));
            }
        }
        hits
    }

    /// Files `resource` in the word index under each token of its text.
    /// The table and the tag index stay as they are.
    pub fn index_resource(&mut self, resource: &Resource)
        ensures
            final(self)@.word_index == linked(
                old(self)@.word_index,
                token_set(resource@.content),
                resource@.hash,
            ),
            final(self)@.resources == old(self)@.resources,
            final(self)@.tag_index == old(self)@.tag_index,
            final(self).directory() == old(self).directory(),
    {
        index_into(&mut self.search_indices, resource);
    }

    /// Throws the word index away and builds it anew from the texts of
    /// the notes in the table.
    pub fn index_all_resources(&mut self)
        requires
            old(self)@.keyed_by_hash(),
        ensures
            final(self)@ == old(self)@.reindexed(),
            final(self).directory() == old(self).directory(),
    {
        proof {
            assert forall|h: Seq<char>| #[trigger]
                self.resource_lookup@.contains_key(h) implies self.resource_lookup@[h]@.hash
                == h by {
                assert(self@.resources.contains_key(h));
            }
        }
        self.search_indices = index_table(&self.resource_lookup);
    }

    /// The step that brings the snapshot file of `resource` up to date.
    pub fn sync_resource_to_fs(&self, resource: &Resource) -> (action: SyncAction)
        ensures
            action@ == sync_action(self.directory(), resource@),
    {
        plan_sync(self.dir.as_str(), resource)
    }

    /// The steps that bring all snapshot files up to date: one for each
    /// note, in ascending order of the identifiers.
    pub fn sync_to_fs(&self) -> (plan: Vec<SyncAction>)
        ensures
            steps(plan@) == sync_plan(self.directory(), self@.resources),
    {
        let n = self.resource_lookup.len();
        let ghost keys = self.resource_lookup.keys();
        let ghost all = self@.resources;
        let ghost goal = keys.map_values(|h: Seq<char>| sync_action(self.directory(), all[h]));
        let mut plan: Vec<SyncAction> = Vec::new();
        let mut i: usize = 0;
        while i < n
            invariant
                0 <= i <= n,
                n == keys.len(),
                keys == self.resource_lookup.keys(),
                self.resource_lookup.indexed(),
                all == self@.resources,
                goal == keys.map_values(|h: Seq<char>| sync_action(self.directory(), all[h])),
                steps(plan@) == goal.take(i as int),
            decreases n - i,
        {
            let ghost planned = steps(plan@);
            let resource = self.resource_lookup.value_at(i);
            let action = self.sync_resource_to_fs(resource);
            plan.push(action);
            proof {
                assert(self.resource_lookup@.contains_key(keys[i as int]));
                assert(all[keys[i as int]] == resource@);
                assert(steps(plan@) =~= planned.push(goal[i as int]));
                assert(steps(plan@) =~= goal.take(i as int + 1));
            }
            i = i + 1;
        }
        proof {
            assert(goal.take(i as int) =~= goal);
            assert(all.dom() =~= self.resource_lookup@.dom());
            lemma_listing_is_sorted_keys(keys, all.dom());
        }
        plan
    }

    /// Removes the note `resource_hash` from the table and from every
    /// index. Its tags keep their entries in the tag index. The steps
    /// that are handed back bring every remaining snapshot file up to
    /// date. Without such a note nothing happens.
    pub fn rm_resource(&mut self, resource_hash: &str) -> (plan: Vec<SyncAction>)
        requires
            old(self).wf(),
        ensures
            final(self)@ == old(self)@.without_resource(resource_hash@),
            final(self).wf(),
            final(self).directory() == old(self).directory(),
            steps(plan@) == if old(self)@.resources.contains_key(resource_hash@) {
                sync_plan(old(self).directory(), final(self)@.resources)
            } else {
                Seq::empty()
            },
    {
        let ghost before = self@;
        let resource = match self.resource_lookup.remove(resource_hash) {
            None => {
                proof {
                    assert(self@.resources =~= before.resources);
                    assert(steps(Seq::<SyncAction>::empty()) =~= Seq::<SyncActionView>::empty());
                }
                return Vec::new();
            },
            Some(resource) => resource,
        };
        proof {
            assert(before.resources.contains_key(resource_hash@));
            assert(resource@ == before.resources[resource_hash@]);
            assert(resource.hash@ == resource_hash@);
            assert(self@.resources =~= before.resources.remove(resource_hash@));
        }
        untag_from(&mut self.tag_cache, &resource.tags, resource.hash.as_str());
        proof {
            lemma_without_resource_consistent(before, resource_hash@);
            assert(self@.keyed_by_hash());
        }
        self.index_all_resources();
        self.sync_to_fs()
    }

    /// Removes `tag`: every note listed under it loses it, and the tag
    /// index loses its entry. The steps that are handed back bring every
    /// snapshot file up to date. An unknown tag changes nothing.
    pub fn rm_tag(&mut self, tag: &str) -> (plan: Vec<SyncAction>)
        requires
            old(self).wf(),
        ensures
            final(self)@ == old(self)@.without_tag(tag@),
            final(self).wf(),
            final(self).directory() == old(self).directory(),
            steps(plan@) == if old(self)@.tag_index.contains_key(tag@) {
                sync_plan(old(self).directory(), final(self)@.resources)
            } else {
                Seq::empty()
            },
    {
        let ghost before = self@;
        let set = match self.tag_cache.remove(tag) {
            None => {
                proof {
                    assert(self@.tag_index =~= before.tag_index);
                    assert(steps(Seq::<SyncAction>::empty()) =~= Seq::<SyncActionView>::empty());
                }
                return Vec::new();
            },
            Some(set) => set,
        };
        let n = set.len();
        let ghost listed = set.elements();
        proof {
            assert(before.tag_index.contains_key(tag@));
            assert(set@ == before.tag_index[tag@]);
            assert(self@.tag_index =~= before.tag_index.remove(tag@));
            lemma_ascending_distinct(listed);
            assert(self@.resources =~= Map::new(
                |h: Seq<char>| before.resources.contains_key(h),
                |h: Seq<char>|
                    if listed.take(0).contains(h) {
                        before.resources[h].untagged(tag@)
                    } else {
                        before.resources[h]
                    },
            ));
        }
        let mut i: usize = 0;
        while i < n
            invariant
                0 <= i <= n,
                n == listed.len(),
                listed == set.elements(),
                listed.no_duplicates(),
                before.consistent(),
                before.tag_index.contains_key(tag@),
                listed.to_set() == before.tag_index[tag@],
                self.directory() == old(self).directory(),
                self@.tag_index == before.tag_index.remove(tag@),
                self@.word_index == before.word_index,
                self@.resources == Map::new(
                    |h: Seq<char>| before.resources.contains_key(h),
                    |h: Seq<char>|
                        if listed.take(i as int).contains(h) {
                            before.resources[h].untagged(tag@)
                        } else {
                            before.resources[h]
                        },
                ),
            decreases n - i,
        {
            let hash = set.get(i);
            let ghost now = self@.resources;
            proof {
                assert(listed.to_set().contains(listed[i as int]));
                assert(before.tag_index[tag@].contains(hash@));
                assert(before.resources.contains_key(hash@));
                assert(!listed.take(i as int).contains(hash@)) by {
                    if listed.take(i as int).contains(hash@) {
                        let j = choose|j: int|
                            0 <= j < listed.take(i as int).len() && listed.take(i as int)[j]
                                == hash@;
                        assert(listed[j] == listed[i as int]);
                    }
                }
            }
            let ghost raw = self.resource_lookup@;
            assert(now.contains_key(hash@));
            assert(now == resource_views(raw));
            assert(raw.contains_key(hash@));
            assert(now[hash@] == raw[hash@]@);
            match self.resource_lookup.remove(hash.as_str()) {
                Some(resource) => {
                    let mut resource = resource;
                    let _ = resource.rm_tag(tag);
                    assert(resource@ == before.resources[hash@].untagged(tag@));
                    self.resource_lookup.insert(hash.clone(), resource);
                    assert(self.resource_lookup@ =~= raw.insert(hash@, resource));
                },
                None => {},
            }
            proof {
                assert(self@.resources =~= now.insert(
                    hash@,
                    before.resources[hash@].untagged(tag@),
                ));
                lemma_prefix_set_grows(listed, i as int);
                assert forall|h: Seq<char>|
                    listed.take(i as int + 1).contains(h) <==> (listed.take(i as int).contains(h)
                        || h == hash@) by {
                    crate::str_set::lemma_push_contains(listed.take(i as int), hash@, h);
                }
                assert(self@.resources =~= Map::new(
                    |h: Seq<char>| before.resources.contains_key(h),
                    |h: Seq<char>|
                        if listed.take(i as int + 1).contains(h) {
                            before.resources[h].untagged(tag@)
                        } else {
                            before.resources[h]
                        },
                ));
            }
            i = i + 1;
        }
        proof {
            assert(listed.take(i as int) =~= listed);
            assert(self@.resources =~= before.resources_without_tag(tag@));
            lemma_without_tag_consistent(before, tag@);
            assert(self@.keyed_by_hash());
        }
        self.index_all_resources();
        self.sync_to_fs()
    }

    /// Adds `resource` to the table and files it under its tags and under
    /// the tokens of its text. A note with the same identifier is removed
    /// first, so the new one replaces it. The steps that are handed back
    /// are those of that removal, followed, where `sync_to_fs` is set, by
    /// the step for the snapshot of `resource` itself.
    pub fn add_resource(&mut self, resource: &Resource, sync_to_fs: bool) -> (plan: Vec<
        SyncAction,
    >)
        requires
            old(self).wf(),
        ensures
            final(self)@ == old(self)@.with_resource(resource@),
            final(self).wf(),
            final(self).directory() == old(self).directory(),
            steps(plan@) == old(self)@.add_plan(old(self).directory(), resource@, sync_to_fs),
    {
        let ghost before = self@;
        let ghost base = before.without_resource(resource@.hash);
        let mut plan = if self.resource_lookup.contains_key(resource.hash.as_str()) {
            self.rm_resource(resource.hash.as_str())
        } else {
            proof {
                assert(steps(Seq::<SyncAction>::empty()) =~= Seq::<SyncActionView>::empty());
            }
            Vec::new()
        };
        assert(self@ == base);
        self.resource_lookup.insert(resource.hash.clone(), resource.clone());
        assert(self@.resources =~= base.resources.insert(resource@.hash, resource@));
        tag_into(&mut self.tag_cache, resource);
        self.index_resource(resource);
        if sync_to_fs {
            let ghost planned = steps(plan@);
            let action = self.sync_resource_to_fs(resource);
            plan.push(action);
            assert(steps(plan@) =~= planned.push(sync_action(self.directory(), resource@)));
        }
        proof {
            lemma_with_resource_consistent(before, resource@);
        }
        plan
    }

    /// Fills the store with the notes that were read from the snapshot
    /// files, from first to last, without writing any of them out.
    pub fn initialize(&mut self, loaded: Vec<Resource>) -> (plan: Vec<SyncAction>)
        requires
            old(self).wf(),
        ensures
            final(self)@ == old(self)@.with_all(resource_seq(loaded@)),
            final(self).wf(),
            final(self).directory() == old(self).directory(),
            steps(plan@) == old(self)@.load_plan(old(self).directory(), resource_seq(loaded@)),
    {
        let ghost before = self@;
        let ghost all = resource_seq(loaded@);
        let mut plan: Vec<SyncAction> = Vec::new();
        proof {
            assert(steps(plan@) =~= Seq::<SyncActionView>::empty());
            assert(all.take(0) =~= Seq::<ResourceView>::empty());
        }
        let mut i: usize = 0;
        while i < loaded.len()
            invariant
                0 <= i <= loaded.len(),
                all == resource_seq(loaded@),
                before.consistent(),
                self.wf(),
                self.directory() == old(self).directory(),
                self@ == before.with_all(all.take(i as int)),
                steps(plan@) == before.load_plan(self.directory(), all.take(i as int)),
            decreases loaded.len() - i,
        {
            let ghost planned = steps(plan@);
            let mut more = self.add_resource(&loaded[i], false);
            let ghost added_steps = steps(more@);
            plan.append(&mut more);
            proof {
                assert(all.take(i as int + 1).drop_last() =~= all.take(i as int));
                assert(all.take(i as int + 1).last() == loaded[i as int]@);
                assert(steps(plan@) =~= planned + added_steps);
            }
            i = i + 1;
        }
        assert(all.take(i as int) =~= all);
        plan
    }
}

} // verus!

//! What each command of the shell asks of the store: the line that the
//! user typed goes in, what is to be shown or done on disk comes out.

use crate::digest::{hashable, sha1_hex};
use crate::order::{is_listing, sorted_keys};
use crate::resource::{Resource, ResourceView};
use crate::sorted::texts;
use crate::state::State;
use crate::str_set::StrSet;
use crate::sync::{steps, SyncAction};
use crate::model::{sync_plan, StateView};
use crate::tokenizer::{split_whitespace, words};
use vstd::prelude::*;

verus! {

/// The texts of the notes `hashes`, in ascending order of the identifiers.
pub open spec fn contents_of(store: StateView, hashes: Set<Seq<char>>) -> Seq<Seq<char>> {
    sorted_keys(hashes).map_values(|h: Seq<char>| store.resources[h].content)
}

/// What a lookup of one tag shows: nothing for an unknown tag, else the
/// texts of the notes that carry it.
pub open spec fn tag_answer(store: StateView, tag: Seq<char>) -> Option<Seq<Seq<char>>> {
    if store.tag_index.contains_key(tag) {
        Some(contents_of(store, store.tag_index[tag]))
    } else {
        None
    }
}

/// The texts held by an answer.
pub open spec fn answer_texts(answer: Option<Vec<String>>) -> Option<Seq<Seq<char>>> {
    match answer {
        Some(lines) => Some(texts(lines@)),
        None => None,
    }
}

/// The note that the command `new` makes of its two inputs.
pub open spec fn composed(tags_line: Seq<char>, content: Seq<char>) -> ResourceView {
    ResourceView { tags: words(tags_line).to_set(), content, hash: sha1_hex(content) }
}

/// The texts of the notes `hashes`, in ascending order of the identifiers.
fn contents(state: &State, hashes: &StrSet) -> (lines: Vec<String>)
    requires
        forall|h: Seq<char>| hashes@.contains(h) ==> state@.resources.contains_key(h),
    ensures
        texts(lines@) == contents_of(state@, hashes@),
{
    let n = hashes.len();
    let ghost listed = hashes.elements();
    let ghost goal = listed.map_values(|h: Seq<char>| state@.resources[h].content);
    let mut lines: Vec<String> = Vec::new();
    let mut i: usize = 0;
    while i < n
        invariant
            0 <= i <= n,
            n == listed.len(),
            listed == hashes.elements(),
            forall|h: Seq<char>| hashes@.contains(h) ==> state@.resources.contains_key(h),
            goal == listed.map_values(|h: Seq<char>| state@.resources[h].content),
            texts(lines@) == goal.take(i as int),
        decreases n - i,
    {
        let ghost shown = texts(lines@);
        let hash = hashes.get(i);
        assert(hashes@.contains(listed[i as int]));
        match state.get(hash.as_str()) {
            Some(resource) => {
                lines.push(resource.content.clone());
            },
            None => {},
        }
        proof {
            assert(texts(lines@) =~= shown.push(goal[i as int]));
            assert(texts(lines@) =~= goal.take(i as int + 1));
        }
        i = i + 1;
    }
    proof {
        assert(goal.take(i as int) =~= goal);
        crate::order::lemma_listing_is_sorted_keys(listed, hashes@);
    }
    lines
}

/// The command `new`: makes a note of the tags named in `tags_line` and
/// of the text `content`, adds it to the store and asks for its snapshot
/// to be written.
pub fn new_command(state: &mut State, tags_line: &str, content: String) -> (plan: Vec<
    SyncAction,
>)
    requires
        old(state).wf(),
        hashable(content@),
    ensures
        final(state)@ == old(state)@.with_resource(composed(tags_line@, content@)),
        final(state).wf(),
        final(state).directory() == old(state).directory(),
        steps(plan@) == old(state)@.add_plan(
            old(state).directory(),
            composed(tags_line@, content@),
            true,
        ),
{
    let tags = StrSet::from_vec(split_whitespace(tags_line));
    let resource = Resource::new(tags, content);
    assert(resource@ == composed(tags_line@, content@));
    state.add_resource(&resource, true)
}

/// The command `tag`: for each tag named in `tags_line`, in ascending
/// order and each once, what its lookup shows.
pub fn tag_command(state: &State, tags_line: &str) -> (answers: Vec<Option<Vec<String>>>)
    requires
        state.wf(),
    ensures
        answers@.len() == sorted_keys(words(tags_line@).to_set()).len(),
        forall|i: int|
            0 <= i < answers@.len() ==> answer_texts(#[trigger] answers@[i]) == tag_answer(
                state@,
                sorted_keys(words(tags_line@).to_set())[i],
            ),
{
    let tags = StrSet::from_vec(split_whitespace(tags_line));
    let n = tags.len();
    let ghost names = tags.elements();
    proof {
        crate::order::lemma_listing_is_sorted_keys(names, tags@);
    }
    let mut answers: Vec<Option<Vec<String>>> = Vec::new();
    let mut i: usize = 0;
    while i < n
        invariant
            0 <= i <= n,
            n == names.len(),
            names == tags.elements(),
            state.wf(),
            answers@.len() == i,
            forall|j: int|
                0 <= j < i ==> answer_texts(#[trigger] answers@[j]) == tag_answer(
                    state@,
                    names[j],
                ),
        decreases n - i,
    {
        let answer = match state.lookup_by_tag(tags.get(i).as_str()) {
            None => None,
            Some(hashes) => {
                assert forall|h: Seq<char>| hashes@.contains(h) implies state@.resources.contains_key(
                    h,
                ) by {
                    assert(state@.tag_index[names[i as int]].contains(h));
                }
                Some(contents(state, hashes))
            },
        };
        answers.push(answer);
        i = i + 1;
    }
    answers
}

/// The command `index`: the identifiers of the notes whose text holds
/// the token `args[0]`, in ascending order; nothing for an unknown token.
pub fn index_command(state: &State, args: &[&str]) -> (answer: Option<Vec<String>>)
    requires
        args@.len() >= 1,
    ensures
        answer is Some == state@.word_index.contains_key(args@[0]@),
        answer is Some ==> texts(answer->0@) == sorted_keys(state@.word_index[args@[0]@]),
        answer is Some ==> is_listing(texts(answer->0@), state@.word_index[args@[0]@]),
{
    match state.lookup_by_token(args[0]) {
        None => None,
        Some(hashes) => Some(hashes.to_vec()),
    }
}

/// The command `search`: the texts of the notes that hold every term of
/// `terms_line` that the word index knows, in ascending order of the
/// identifiers. Where it knows none of the terms there is nothing to show,
/// not even an empty list.
pub fn search_command(state: &State, terms_line: &str) -> (answer: Option<Vec<String>>)
    requires
        state.wf(),
    ensures
        answer is Some <==> exists|i: int|
            0 <= i < words(terms_line@).len() && state@.word_index.contains_key(
                #[trigger] words(terms_line@)[i],
            ),
        answer is Some ==> texts(answer->0@) == contents_of(
            state@,
            state@.search(words(terms_line@)),
        ),
{
    let terms = split_whitespace(terms_line);
    match state.search_known(&terms) {
        None => None,
        Some(hits) => {
            proof {
                let wanted = words(terms_line@);
                assert forall|h: Seq<char>| hits@.contains(h) implies state@.resources.contains_key(
                    h,
                ) by {
                    let i = choose|i: int|
                        0 <= i < wanted.len() && state@.word_index.contains_key(
                            #[trigger] wanted[i],
                        );
                    assert(state@.word_index[wanted[i]].contains(h));
                    assert(crate::model::holders(state@.resources, wanted[i]).contains(h));
                }
            }
            Some(contents(state, &hits))
        },
    }
}

/// The command `ls`: all the tags that the store knows, in ascending order.
pub fn list_command(state: &State) -> (names: Vec<String>)
    ensures
        texts(names@) == sorted_keys(state@.tag_index.dom()),
        is_listing(texts(names@), state@.tag_index.dom()),
{
    state.tags()
}

/// The command `rm`: removes the tag `args[0]` from the store.
pub fn remove_command(state: &mut State, args: &[&str]) -> (plan: Vec<SyncAction>)
    requires
        old(state).wf(),
        args@.len() >= 1,
    ensures
        final(state)@ == old(state)@.without_tag(args@[0]@),
        final(state).wf(),
        final(state).directory() == old(state).directory(),
        steps(plan@) == if old(state)@.tag_index.contains_key(args@[0]@) {
            sync_plan(old(state).directory(), final(state)@.resources)
        } else {
            Seq::empty()
        },
{
    state.rm_tag(args[0])
}

} // verus!

use scribe::{Resource, State, StrSet, SyncAction};

fn strings(items: &[&str]) -> Vec<String> {
    items.iter().map(|s| s.to_string()).collect()
}

fn set_of(items: &[&str]) -> StrSet {
    StrSet::from_vec(strings(items))
}

fn note(tags: &[&str], content: &str) -> Resource {
    Resource::new(set_of(tags), content.to_string())
}

fn listed(set: Option<&StrSet>) -> Option<Vec<String>> {
    set.map(|s| s.to_vec())
}

/// Checks by hand what the store promises: every note under its own
/// identifier, the tag index in step with the tags, the word index in
/// step with the texts.
fn assert_consistent(state: &State) {
    for hash in state.hashes() {
        let resource = state.get(&hash).expect("listed note");
        assert_eq!(resource.hash, hash);
        for tag in resource.tags.to_vec() {
            let under = state.lookup_by_tag(&tag).expect("tag of a note");
            assert!(under.contains(&hash));
        }
        for token in scribe::tokenizer::split_words(&resource.content) {
            let under = state.lookup_by_token(&token).expect("token of a note");
            assert!(under.contains(&hash));
        }
    }
    for tag in state.tags() {
        for hash in state.lookup_by_tag(&tag).unwrap().to_vec() {
            let resource = state.get(&hash).expect("note listed under a tag");
            assert!(resource.tags.contains(&tag));
        }
    }
    for token in state.tokens() {
        let under = state.lookup_by_token(&token).unwrap().to_vec();
        assert!(!under.is_empty());
        for hash in under {
            let resource = state.get(&hash).expect("note listed under a token");
            assert!(scribe::tokenizer::split_words(&resource.content).contains(&token));
        }
    }
}

#[test]
fn new_store_is_empty() {
    let state = State::new("notes".to_string());
    assert_eq!(state.dir(), "notes");
    assert!(state.hashes().is_empty());
    assert!(state.tags().is_empty());
    assert!(state.tokens().is_empty());
    assert!(state.sync_to_fs().is_empty());
    assert_consistent(&state);
}

#[test]
fn add_files_note_under_tags_and_tokens() {
    let mut state = State::new("notes".to_string());
    let r = note(&["work", "idea"], "Alpha beta, alpha!");
    let plan = state.add_resource(&r, true);
    assert_eq!(plan.len(), 1);
    match &plan[0] {
        SyncAction::Write { path, resource } => {
            assert_eq!(path, &format!("notes/{}.json", r.hash));
            assert_eq!(resource.hash, r.hash);
            assert_eq!(resource.content, "Alpha beta, alpha!");
            assert_eq!(resource.tags.to_vec(), strings(&["idea", "work"]));
        }
        SyncAction::Remove { .. } => panic!("a tagged note is written"),
    }
    assert_eq!(state.hashes(), vec![r.hash.clone()]);
    assert_eq!(state.tags(), strings(&["idea", "work"]));
    assert_eq!(state.tokens(), strings(&["alpha", "beta"]));
    assert_eq!(listed(state.lookup_by_tag("work")), Some(vec![r.hash.clone()]));
    assert_eq!(listed(state.lookup_by_token("alpha")), Some(vec![r.hash.clone()]));
    assert_eq!(listed(state.lookup_by_token("Alpha")), None);
    assert_eq!(listed(state.lookup_by_tag("nothing")), None);
    assert_consistent(&state);
}

#[test]
fn add_without_persist_plans_nothing() {
    let mut state = State::new("notes".to_string());
    let plan = state.add_resource(&note(&["a"], "one"), false);
    assert!(plan.is_empty());
    assert_eq!(state.hashes().len(), 1);
}

#[test]
fn second_add_with_same_content_replaces_the_first() {
    let mut state = State::new("notes".to_string());
    let first = note(&["old", "shared"], "same text");
    let second = note(&["new", "shared"], "same text");
    assert_eq!(first.hash, second.hash);
    state.add_resource(&first, true);
    let other = note(&["old"], "another text");
    state.add_resource(&other, true);
    let plan = state.add_resource(&second, true);

    assert_eq!(state.hashes().len(), 2);
    let kept = state.get(&second.hash).unwrap();
    assert_eq!(kept.tags.to_vec(), strings(&["new", "shared"]));
    assert_eq!(listed(state.lookup_by_tag("new")), Some(vec![second.hash.clone()]));
    assert_eq!(listed(state.lookup_by_tag("shared")), Some(vec![second.hash.clone()]));
    // the tag of the replaced note keeps its entry, without the note
    assert_eq!(listed(state.lookup_by_tag("old")), Some(vec![other.hash.clone()]));
    // the removal brings the remaining snapshot up to date, then the new one is written
    assert_eq!(plan.len(), 2);
    match &plan[0] {
        SyncAction::Write { resource, .. } => assert_eq!(resource.hash, other.hash),
        SyncAction::Remove { .. } => panic!("the other note has a tag"),
    }
    match &plan[1] {
        SyncAction::Write { resource, .. } => assert_eq!(resource.hash, second.hash),
        SyncAction::Remove { .. } => panic!("the new note has tags"),
    }
    assert_consistent(&state);
}

#[test]
fn replacing_without_persist_still_resyncs_the_rest() {
    let mut state = State::new("d".to_string());
    let other = note(&["t"], "other");
    state.add_resource(&other, false);
    state.add_resource(&note(&["a"], "text"), false);
    let plan = state.add_resource(&note(&["b"], "text"), false);
    assert_eq!(plan.len(), 1);
    match &plan[0] {
        SyncAction::Write { resource, .. } => assert_eq!(resource.hash, other.hash),
        SyncAction::Remove { .. } => panic!("the other note has a tag"),
    }
}

#[test]
fn tag_index_stays_in_step_through_all_operations() {
    let mut state = State::new("notes".to_string());
    let a = note(&["x", "y"], "first note about rust");
    let b = note(&["x"], "second note, about verus");
    let c = note(&[], "third: no tags at all");
    state.add_resource(&a, true);
    assert_consistent(&state);
    state.add_resource(&b, true);
    assert_consistent(&state);
    state.add_resource(&c, true);
    assert_consistent(&state);
    state.rm_tag("x");
    assert_consistent(&state);
    state.rm_resource(&a.hash);
    assert_consistent(&state);
    state.add_resource(&note(&["z"], "second note, about verus"), false);
    assert_consistent(&state);
    state.rm_tag("unknown");
    assert_consistent(&state);
    state.rm_resource("no such hash");
    assert_consistent(&state);
}

#[test]
fn search_intersects_the_known_terms() {
    let mut state = State::new("notes".to_string());
    let r1 = note(&[], "alpha beta");
    let r2 = note(&[], "beta gamma");
    state.add_resource(&r1, false);
    state.add_resource(&r2, false);
    let mut both = vec![r1.hash.clone(), r2.hash.clone()];
    both.sort();

    assert_eq!(state.search(&strings(&["beta"])).to_vec(), both);
    assert!(state.search(&strings(&["alpha", "gamma"])).to_vec().is_empty());
    assert_eq!(state.search(&strings(&["alpha", "beta"])).to_vec(), vec![r1.hash.clone()]);
}

#[test]
fn search_skips_unknown_terms() {
    let mut state = State::new("notes".to_string());
    let r1 = note(&[], "alpha beta");
    let r2 = note(&[], "beta gamma");
    state.add_resource(&r1, false);
    state.add_resource(&r2, false);

    assert_eq!(state.search(&strings(&["nowhere", "alpha"])).to_vec(), vec![r1.hash.clone()]);
    assert_eq!(state.search(&strings(&["gamma", "nowhere"])).to_vec(), vec![r2.hash.clone()]);
    assert!(state.search(&strings(&["nowhere"])).to_vec().is_empty());
    assert!(state.search(&Vec::new()).to_vec().is_empty());
    assert!(state.search_known(&strings(&["nowhere"])).is_none());
    assert!(state.search_known(&strings(&["alpha", "gamma"])).unwrap().is_empty());
    // terms are keys as they stand: they are not put into lower case
    assert!(state.search(&strings(&["Alpha"])).to_vec().is_empty());
}

#[test]
fn tag_removal_cascades() {
    let mut state = State::new("notes".to_string());
    let r1 = note(&["x", "y"], "first");
    let r2 = note(&["x"], "second");
    state.add_resource(&r1, true);
    state.add_resource(&r2, true);

    let plan = state.rm_tag("x");

    assert!(state.lookup_by_tag("x").is_none());
    assert_eq!(state.tags(), strings(&["y"]));
    assert_eq!(state.get(&r1.hash).unwrap().tags.to_vec(), strings(&["y"]));
    assert!(state.get(&r2.hash).unwrap().tags.is_empty());
    assert_eq!(plan.len(), 2);
    let mut removed = Vec::new();
    let mut written = Vec::new();
    for action in &plan {
        match action {
            SyncAction::Remove { path } => removed.push(path.clone()),
            SyncAction::Write { path, resource } => {
                written.push(path.clone());
                assert_eq!(resource.tags.to_vec(), strings(&["y"]));
                assert_eq!(resource.content, "first");
            }
        }
    }
    assert_eq!(removed, vec![format!("notes/{}.json", r2.hash)]);
    assert_eq!(written, vec![format!("notes/{}.json", r1.hash)]);
    assert_consistent(&state);
}

#[test]
fn removing_an_unknown_tag_changes_nothing() {
    let mut state = State::new("notes".to_string());
    let r = note(&["x"], "text");
    state.add_resource(&r, true);
    let plan = state.rm_tag("y");
    assert!(plan.is_empty());
    assert_eq!(state.tags(), strings(&["x"]));
    assert_eq!(state.get(&r.hash).unwrap().tags.to_vec(), strings(&["x"]));
}

#[test]
fn removing_a_note_leaves_its_tags_with_empty_entries() {
    let mut state = State::new("notes".to_string());
    let r1 = note(&["x", "y"], "first words");
    let r2 = note(&["x"], "second words");
    state.add_resource(&r1, true);
    state.add_resource(&r2, true);

    let plan = state.rm_resource(&r1.hash);

    assert!(state.get(&r1.hash).is_none());
    assert_eq!(state.tags(), strings(&["x", "y"]));
    assert_eq!(listed(state.lookup_by_tag("y")), Some(Vec::new()));
    assert_eq!(listed(state.lookup_by_tag("x")), Some(vec![r2.hash.clone()]));
    assert_eq!(state.tokens(), strings(&["second", "words"]));
    assert_eq!(plan.len(), 1);
    match &plan[0] {
        SyncAction::Write { resource, .. } => assert_eq!(resource.hash, r2.hash),
        SyncAction::Remove { .. } => panic!("the remaining note has a tag"),
    }
}

#[test]
fn removing_an_unknown_note_changes_nothing() {
    let mut state = State::new("notes".to_string());
    let r = note(&["x"], "text");
    state.add_resource(&r, true);
    let plan = state.rm_resource("0000");
    assert!(plan.is_empty());
    assert_eq!(state.hashes(), vec![r.hash.clone()]);
    assert_eq!(state.tokens(), strings(&["text"]));
}

#[test]
fn rebuilding_the_word_index_twice_changes_nothing() {
    let mut state = State::new("notes".to_string());
    state.add_resource(&note(&["a"], "the quick brown fox"), false);
    state.add_resource(&note(&["b"], "the lazy dog; the end"), false);
    state.add_resource(&note(&[], "Quick: a fox_dog's tale"), false);
    let snapshot = |s: &State| -> Vec<(String, Vec<String>)> {
        s.tokens()
            .into_iter()
            .map(|t| {
                let under = s.lookup_by_token(&t).unwrap().to_vec();
                (t, under)
            })
            .collect()
    };
    let live = snapshot(&state);
    state.index_all_resources();
    let once = snapshot(&state);
    state.index_all_resources();
    let twice = snapshot(&state);
    assert_eq!(live, once);
    assert_eq!(once, twice);
    assert_consistent(&state);
}

#[test]
fn index_resource_files_the_tokens_only() {
    let mut state = State::new("notes".to_string());
    let r = note(&["t"], "Some some words");
    state.index_resource(&r);
    assert!(state.hashes().is_empty());
    assert!(state.tags().is_empty());
    assert_eq!(state.tokens(), strings(&["some", "words"]));
    assert_eq!(listed(state.lookup_by_token("some")), Some(vec![r.hash.clone()]));
    state.index_all_resources();
    assert!(state.tokens().is_empty());
}

#[test]
fn sync_plan_lists_every_note_in_order_of_the_hashes() {
    let mut state = State::new("base".to_string());
    let tagged = note(&["t"], "one");
    let bare = note(&[], "two");
    let other = note(&["t", "u"], "three");
    state.add_resource(&tagged, false);
    state.add_resource(&bare, false);
    state.add_resource(&other, false);
    let plan = state.sync_to_fs();
    let hashes = state.hashes();
    let mut sorted = hashes.clone();
    sorted.sort();
    assert_eq!(hashes, sorted);
    assert_eq!(plan.len(), 3);
    for (action, hash) in plan.iter().zip(hashes.iter()) {
        match action {
            SyncAction::Remove { path } => {
                assert_eq!(hash, &bare.hash);
                assert_eq!(path, &format!("base/{}.json", hash));
            }
            SyncAction::Write { path, resource } => {
                assert_ne!(hash, &bare.hash);
                assert_eq!(&resource.hash, hash);
                assert_eq!(path, &format!("base/{}.json", hash));
            }
        }
    }
}

#[test]
fn sync_of_one_note_deletes_or_writes() {
    let state = State::new("d".to_string());
    match state.sync_resource_to_fs(&note(&[], "text")) {
        SyncAction::Remove { path } => {
            assert_eq!(path, "d/372ea08cab33e71c02c651dbc83a474d32c676ea.json")
        }
        SyncAction::Write { .. } => panic!("a note without tags has no snapshot"),
    }
    match state.sync_resource_to_fs(&note(&["k"], "text")) {
        SyncAction::Write { path, resource } => {
            assert_eq!(path, "d/372ea08cab33e71c02c651dbc83a474d32c676ea.json");
            assert_eq!(resource.content, "text");
            assert_eq!(resource.tags.to_vec(), strings(&["k"]));
            assert_eq!(resource.hash, "372ea08cab33e71c02c651dbc83a474d32c676ea");
        }
        SyncAction::Remove { .. } => panic!("a tagged note is written"),
    }
}

#[test]
fn initialize_adds_every_loaded_note_without_writing() {
    let mut state = State::new("notes".to_string());
    let a = note(&["x"], "alpha");
    let b = note(&["y"], "beta");
    let plan = state.initialize(vec![a.clone(), b.clone()]);
    assert!(plan.is_empty());
    let mut hashes = vec![a.hash.clone(), b.hash.clone()];
    hashes.sort();
    assert_eq!(state.hashes(), hashes);
    assert_eq!(state.tags(), strings(&["x", "y"]));
    assert_consistent(&state);
}

#[test]
fn initialize_lets_a_later_note_replace_an_earlier_one() {
    let mut state = State::new("notes".to_string());
    let a = note(&["x"], "alpha");
    let again = note(&["z"], "alpha");
    let b = note(&["y"], "beta");
    let plan = state.initialize(vec![a, b.clone(), again.clone()]);
    assert_eq!(state.hashes().len(), 2);
    assert_eq!(state.get(&again.hash).unwrap().tags.to_vec(), strings(&["z"]));
    assert_eq!(plan.len(), 1);
    match &plan[0] {
        SyncAction::Write { resource, .. } => assert_eq!(resource.hash, b.hash),
        SyncAction::Remove { .. } => panic!("the remaining note has a tag"),
    }
    assert_consistent(&state);
}

#[test]
fn loaded_note_keeps_the_hash_it_came_with() {
    let mut state = State::new("notes".to_string());
    let odd = Resource {
        tags: set_of(&["t"]),
        content: "words here".to_string(),
        hash: "not-a-digest".to_string(),
    };
    state.initialize(vec![odd]);
    assert_eq!(state.hashes(), strings(&["not-a-digest"]));
    assert_eq!(listed(state.lookup_by_token("words")), Some(strings(&["not-a-digest"])));
    assert_consistent(&state);
}

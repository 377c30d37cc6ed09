use scribe::{index_command, list_command, new_command, remove_command, search_command,
    tag_command};
use scribe::{Resource, State, StrSet, SyncAction};

fn strings(items: &[&str]) -> Vec<String> {
    items.iter().map(|s| s.to_string()).collect()
}

fn filled() -> (State, String, String) {
    let mut state = State::new("notes".to_string());
    let first = new_command(&mut state, "work idea", "Alpha beta".to_string());
    assert_eq!(first.len(), 1);
    new_command(&mut state, "work", "beta gamma".to_string());
    let h1 = scribe::digest::content_hash("Alpha beta");
    let h2 = scribe::digest::content_hash("beta gamma");
    (state, h1, h2)
}

#[test]
fn new_command_adds_a_note_and_asks_for_its_snapshot() {
    let mut state = State::new("notes".to_string());
    let plan = new_command(&mut state, "  b a\tb ", "Some text".to_string());
    let hash = scribe::digest::content_hash("Some text");
    assert_eq!(plan.len(), 1);
    match &plan[0] {
        SyncAction::Write { path, resource } => {
            assert_eq!(path, &format!("notes/{}.json", hash));
            assert_eq!(resource.tags.to_vec(), strings(&["a", "b"]));
            assert_eq!(resource.content, "Some text");
        }
        SyncAction::Remove { .. } => panic!("a tagged note is written"),
    }
    let bare = new_command(&mut state, "", "No tags".to_string());
    assert!(matches!(bare[0], SyncAction::Remove { .. }));
    assert_eq!(state.hashes().len(), 2);
}

#[test]
fn tag_command_answers_for_each_tag_once_in_order() {
    let (state, _, _) = filled();
    let answers = tag_command(&state, "work none idea work");
    // idea, none, work
    assert_eq!(answers.len(), 3);
    assert_eq!(answers[0], Some(strings(&["Alpha beta"])));
    assert_eq!(answers[1], None);
    let mut both = answers[2].clone().unwrap();
    both.sort();
    assert_eq!(both, strings(&["Alpha beta", "beta gamma"]));
    assert!(tag_command(&state, "").is_empty());
}

#[test]
fn tag_command_lists_contents_in_order_of_the_hashes() {
    let (state, h1, h2) = filled();
    let answers = tag_command(&state, "work");
    let expected = if h1 < h2 {
        strings(&["Alpha beta", "beta gamma"])
    } else {
        strings(&["beta gamma", "Alpha beta"])
    };
    assert_eq!(answers, vec![Some(expected)]);
}

#[test]
fn index_command_lists_the_hashes_under_a_token() {
    let (state, h1, h2) = filled();
    assert_eq!(index_command(&state, &["alpha"]), Some(vec![h1.clone()]));
    let mut both = vec![h1, h2];
    both.sort();
    assert_eq!(index_command(&state, &["beta", "ignored"]), Some(both));
    assert_eq!(index_command(&state, &["Alpha"]), None);
    assert_eq!(index_command(&state, &["delta"]), None);
}

#[test]
fn search_command_shows_the_common_notes() {
    let (state, _, _) = filled();
    assert_eq!(search_command(&state, "alpha beta"), Some(strings(&["Alpha beta"])));
    assert_eq!(search_command(&state, "gamma"), Some(strings(&["beta gamma"])));
    assert_eq!(search_command(&state, "alpha gamma"), Some(Vec::new()));
    assert_eq!(search_command(&state, "alpha nowhere"), Some(strings(&["Alpha beta"])));
    assert_eq!(search_command(&state, "nowhere"), None);
    assert_eq!(search_command(&state, ""), None);
}

#[test]
fn list_command_lists_the_tags_in_order() {
    let (state, _, _) = filled();
    assert_eq!(list_command(&state), strings(&["idea", "work"]));
    assert!(list_command(&State::new("d".to_string())).is_empty());
}

#[test]
fn remove_command_removes_the_tag_it_is_given() {
    let (mut state, h1, h2) = filled();
    let plan = remove_command(&mut state, &["work"]);
    assert_eq!(list_command(&state), strings(&["idea"]));
    assert_eq!(state.get(&h1).unwrap().tags.to_vec(), strings(&["idea"]));
    assert!(state.get(&h2).unwrap().tags.is_empty());
    assert_eq!(plan.len(), 2);
    for action in &plan {
        match action {
            SyncAction::Remove { path } => assert_eq!(path, &format!("notes/{}.json", h2)),
            SyncAction::Write { resource, .. } => assert_eq!(resource.hash, h1),
        }
    }
    assert!(remove_command(&mut state, &["work"]).is_empty());
}

#[test]
fn commands_work_on_a_store_filled_by_hand() {
    let mut state = State::new("d".to_string());
    let r = Resource::new(StrSet::from_vec(strings(&["t"])), "Hand made".to_string());
    state.add_resource(&r, false);
    assert_eq!(tag_command(&state, "t"), vec![Some(strings(&["Hand made"]))]);
    assert_eq!(search_command(&state, "hand made"), Some(strings(&["Hand made"])));
}

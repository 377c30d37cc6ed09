use scribe::order::{compare, Rank};
use scribe::prompt::{trim, LongPrompt};
use scribe::str_map::StrMap;
use scribe::sync::{is_snapshot_name, snapshot_file};
use scribe::tokenizer::{is_punct, is_whitespace, split_runs, split_whitespace, split_words,
    strip_quotes};
use scribe::StrSet;
use std::cmp::Ordering;

fn strings(items: &[&str]) -> Vec<String> {
    items.iter().map(|s| s.to_string()).collect()
}

#[test]
fn words_are_cut_at_white_space_and_punctuation() {
    assert_eq!(split_words("alpha beta"), strings(&["alpha", "beta"]));
    assert_eq!(split_words("Hello, World!"), strings(&["hello", "world"]));
    assert_eq!(split_words("  tabs\tand\nlines\r\n"), strings(&["tabs", "and", "lines"]));
    assert_eq!(split_words("a.b/c-d(e)f[g]h{i}j"), strings(&["a", "b", "c", "d", "e", "f", "g", "h", "i", "j"]));
}

#[test]
fn underscore_apostrophe_and_colon_stay_in_a_word() {
    assert_eq!(split_words("it's snake_case key:value"), strings(&["it's", "snake_case", "key:value"]));
    assert_eq!(split_words("_ ' :"), strings(&["_", "'", ":"]));
}

#[test]
fn empty_pieces_are_dropped() {
    assert_eq!(split_words(""), Vec::<String>::new());
    assert_eq!(split_words("   "), Vec::<String>::new());
    assert_eq!(split_words("?!,."), Vec::<String>::new());
    assert_eq!(split_words("a,,b"), strings(&["a", "b"]));
    assert_eq!(split_words("end."), strings(&["end"]));
    assert_eq!(split_words(",start"), strings(&["start"]));
}

#[test]
fn tokens_are_in_lower_case() {
    assert_eq!(split_words("ABC Def gHi"), strings(&["abc", "def", "ghi"]));
    assert_eq!(split_words("ÄRGER Émile"), strings(&["ärger", "émile"]));
    assert_eq!(split_words("ΟΔΟΣ"), strings(&["οδος"]));
}

#[test]
fn repeated_tokens_are_listed_each_time() {
    assert_eq!(split_words("the cat the hat"), strings(&["the", "cat", "the", "hat"]));
}

#[test]
fn double_quotes_never_reach_a_token() {
    assert_eq!(split_words("say \"hi\" now"), strings(&["say", "hi", "now"]));
    assert_eq!(strip_quotes("a\"b\"\"c"), "abc");
    assert_eq!(strip_quotes("\""), "");
    assert_eq!(strip_quotes("plain"), "plain");
}

#[test]
fn other_characters_stay_as_they_are() {
    assert_eq!(split_words("caf\u{e9}\u{1}x 100% 日本語"), strings(&["caf\u{e9}\u{1}x", "100", "日本語"]));
    assert_eq!(split_words("a\u{a0}b\u{3000}c\u{2003}d"), strings(&["a", "b", "c", "d"]));
}

#[test]
fn lines_are_cut_at_white_space_only() {
    assert_eq!(split_whitespace("  To-Do  later,maybe \t x "), strings(&["To-Do", "later,maybe", "x"]));
    assert_eq!(split_whitespace(""), Vec::<String>::new());
    let line = " a\u{85}b \u{1680} mixed Case\n";
    let expected: Vec<String> = line.split_whitespace().map(String::from).collect();
    assert_eq!(split_whitespace(line), expected);
}

#[test]
fn white_space_is_what_the_standard_library_says() {
    for code in 0u32..=0x10ffff {
        if let Some(c) = char::from_u32(code) {
            assert_eq!(is_whitespace(c), c.is_whitespace(), "U+{:04X}", code);
        }
    }
}

#[test]
fn punctuation_is_ascii_without_underscore_apostrophe_colon() {
    for code in 0u32..=0x10ffff {
        if let Some(c) = char::from_u32(code) {
            let expected = c.is_ascii_punctuation() && c != '_' && c != '\'' && c != ':';
            assert_eq!(is_punct(c), expected, "U+{:04X}", code);
        }
    }
}

#[test]
fn compare_orders_strings_by_their_bytes() {
    let samples = ["", "a", "ab", "abc", "abd", "b", "B", "Z", "z", "é", "e", "日本", "日", "\u{10ffff}", "\u{7f}", "\u{80}", "\u{ffff}", "~"];
    for a in samples {
        for b in samples {
            let expected = match a.cmp(b) {
                Ordering::Less => Rank::Before,
                Ordering::Equal => Rank::Same,
                Ordering::Greater => Rank::After,
            };
            assert_eq!(compare(a, b), expected, "{:?} against {:?}", a, b);
        }
    }
    assert_eq!(compare("apple", "apples"), Rank::Before);
    assert_eq!(compare("b", "apple"), Rank::After);
}

#[test]
fn set_keeps_each_string_once_in_order() {
    let mut set = StrSet::new();
    assert!(set.is_empty());
    assert!(set.insert("pear".to_string()));
    assert!(set.insert("apple".to_string()));
    assert!(set.insert("zebra".to_string()));
    assert!(!set.insert("pear".to_string()));
    assert_eq!(set.len(), 3);
    assert_eq!(set.to_vec(), strings(&["apple", "pear", "zebra"]));
    assert_eq!(set.get(1), "pear");
    assert!(set.contains("apple"));
    assert!(!set.contains("app"));
    assert!(set.remove("apple"));
    assert!(!set.remove("apple"));
    assert_eq!(set.to_vec(), strings(&["pear", "zebra"]));
    assert_eq!(set.clone().to_vec(), set.to_vec());
}

#[test]
fn set_intersection_keeps_the_common_strings() {
    let a = StrSet::from_vec(strings(&["d", "a", "c", "b"]));
    let b = StrSet::from_vec(strings(&["e", "d", "b"]));
    assert_eq!(a.intersection(&b).to_vec(), strings(&["b", "d"]));
    assert_eq!(b.intersection(&a).to_vec(), strings(&["b", "d"]));
    assert!(a.intersection(&StrSet::new()).is_empty());
    assert_eq!(a.intersection(&a).to_vec(), strings(&["a", "b", "c", "d"]));
}

#[test]
fn map_keeps_one_value_for_each_key_in_order() {
    let mut map: StrMap<u32> = StrMap::new();
    assert_eq!(map.insert("m".to_string(), 1), None);
    assert_eq!(map.insert("c".to_string(), 2), None);
    assert_eq!(map.insert("x".to_string(), 3), None);
    assert_eq!(map.insert("m".to_string(), 4), Some(1));
    assert_eq!(map.len(), 3);
    assert_eq!(map.key_list(), strings(&["c", "m", "x"]));
    assert_eq!(map.get("m"), Some(&4));
    assert_eq!(map.get("n"), None);
    assert!(map.contains_key("x"));
    assert_eq!(map.key_at(0), "c");
    assert_eq!(*map.value_at(0), 2);
    assert_eq!(map.remove("c"), Some(2));
    assert_eq!(map.remove("c"), None);
    assert_eq!(map.key_list(), strings(&["m", "x"]));
    assert_eq!(*map.value_at(1), 3);
}

#[test]
fn snapshot_files_are_named_after_the_hash() {
    assert_eq!(snapshot_file("/home/me/.notes", "abc123"), "/home/me/.notes/abc123.json");
    assert_eq!(snapshot_file("", ""), "/.json");
}

#[test]
fn snapshot_names_end_in_json() {
    assert!(is_snapshot_name("abc.json"));
    assert!(is_snapshot_name("dir/abc.json"));
    assert!(is_snapshot_name("json"));
    assert!(is_snapshot_name("notjson"));
    assert!(!is_snapshot_name("abc.jso"));
    assert!(!is_snapshot_name("abc.json.bak"));
    assert!(!is_snapshot_name("abc.JSON"));
    assert!(!is_snapshot_name(""));
    assert!(!is_snapshot_name("son"));
    assert!(is_snapshot_name("日本json"));
}

#[test]
fn trim_removes_white_space_at_both_ends() {
    assert_eq!(trim("  a b \n"), "a b");
    assert_eq!(trim("\t\u{a0}x\u{3000}"), "x");
    assert_eq!(trim("   "), "");
    assert_eq!(trim(""), "");
    assert_eq!(trim("plain"), "plain");
    for sample in ["  two  words  ", "\n\nline\n", "\u{2028}é ü\u{85}", "a", " a", "a "] {
        assert_eq!(trim(sample), sample.trim());
    }
}

#[test]
fn long_prompt_ends_after_enough_blank_lines() {
    let mut text = LongPrompt::new(2);
    assert!(!text.feed("first line\n"));
    assert!(!text.feed("\n"));
    assert!(!text.feed("second line\n"));
    assert!(!text.feed("\n"));
    assert!(text.feed("\n"));
    assert_eq!(text.finish(), "first line\n\nsecond line");
}

#[test]
fn long_prompt_counts_short_lines_as_blank() {
    let mut text = LongPrompt::new(1);
    assert!(!text.feed("ab"));
    assert!(text.feed("a"));
    assert_eq!(text.finish(), "ab");
    let mut at_once = LongPrompt::new(0);
    assert!(at_once.feed(""));
    assert_eq!(at_once.finish(), "");
    let mut never_blank = LongPrompt::new(3);
    assert!(!never_blank.feed("\n"));
    assert!(!never_blank.feed("\n"));
    assert!(!never_blank.feed("xy\n"));
    assert!(!never_blank.feed("\n"));
    assert!(!never_blank.feed("é"));
    assert!(!never_blank.feed("\n"));
    assert!(!never_blank.feed(""));
    assert!(never_blank.feed("\n"));
    assert_eq!(never_blank.finish(), "xy\n\né");
}

#[test]
fn can_hash_accepts_ordinary_text() {
    assert!(scribe::digest::can_hash(""));
    assert!(scribe::digest::can_hash("some text"));
}

#[test]
fn runs_are_cut_with_or_without_punctuation() {
    assert_eq!(split_runs("Keep, Case! here", true), strings(&["Keep", "Case", "here"]));
    assert_eq!(split_runs("Keep, Case! here", false), strings(&["Keep,", "Case!", "here"]));
    assert_eq!(split_runs("", true), Vec::<String>::new());
}

//! Turning free text into index tokens: the text is cut at white space and
//! punctuation, and each piece is put into lower case.

use crate::sorted::texts;
use vstd::prelude::*;

verus! {

/// Characters with the Unicode property White_Space.
pub open spec fn white_space(c: char) -> bool {
    let u = c as u32;
    ||| 0x09 <= u <= 0x0d
    ||| u == 0x20
    ||| u == 0x85
    ||| u == 0xa0
    ||| u == 0x1680
    ||| 0x2000 <= u <= 0x200a
    ||| u == 0x2028
    ||| u == 0x2029
    ||| u == 0x202f
    ||| u == 0x205f
    ||| u == 0x3000
}

/// ASCII punctuation at which words are cut. The underscore, the apostrophe
/// and the colon are not among it: they stay inside a word.
pub open spec fn punctuation(c: char) -> bool {
    let u = c as u32;
    ||| 0x21 <= u <= 0x26
    ||| 0x28 <= u <= 0x2f
    ||| 0x3b <= u <= 0x40
    ||| 0x5b <= u <= 0x5e
    ||| u == 0x60
    ||| 0x7b <= u <= 0x7e
}

/// Whether a piece of text ends at `c`. White space always cuts; punctuation
/// cuts only where `punct` is set.
pub open spec fn separator(c: char, punct: bool) -> bool {
    white_space(c) || (punct && punctuation(c))
}

/// Whether `c` is white space.
pub fn is_whitespace(c: char) -> (b: bool)
    ensures
        b == white_space(c),
{
    let u: u32 = c as u32;
    (0x09 <= u && u <= 0x0d) || u == 0x20 || u == 0x85 || u == 0xa0 || u == 0x1680 || (0x2000 <= u
        && u <= 0x200a) || u == 0x2028 || u == 0x2029 || u == 0x202f || u == 0x205f || u
        == 0x3000
}

/// Whether `c` is punctuation that cuts a word.
pub fn is_punct(c: char) -> (b: bool)
    ensures
        b == punctuation(c),
{
    let u: u32 = c as u32;
    (0x21 <= u && u <= 0x26) || (0x28 <= u && u <= 0x2f) || (0x3b <= u && u <= 0x40) || (0x5b <= u
        && u <= 0x5e) || u == 0x60 || (0x7b <= u && u <= 0x7e)
}

/// Length of the longest prefix of `s` that holds no separator.
pub open spec fn run_len(s: Seq<char>, punct: bool) -> nat
    decreases s.len(),
{
    if s.len() == 0 || separator(s[0], punct) {
        0
    } else {
        1 + run_len(s.drop_first(), punct)
    }
}

/// The maximal runs of characters between separators, from left to right.
/// No run is empty.
pub open spec fn fragments(s: Seq<char>, punct: bool) -> Seq<Seq<char>>
    decreases s.len(),
{
    if s.len() == 0 {
        Seq::empty()
    } else if separator(s[0], punct) {
        fragments(s.drop_first(), punct)
    } else {
        let n = run_len(s, punct) as int;
        proof {
            lemma_run_len_bound(s, punct);
        }
        seq![s.take(n)] + fragments(s.skip(n), punct)
    }
}

/// A run is no longer than the text, and not empty where the text starts
/// with a character that is no separator.
pub proof fn lemma_run_len_bound(s: Seq<char>, punct: bool)
    ensures
        run_len(s, punct) <= s.len(),
        s.len() > 0 && !separator(s[0], punct) ==> run_len(s, punct) >= 1,
    decreases s.len(),
{
    if s.len() > 0 && !separator(s[0], punct) {
        lemma_run_len_bound(s.drop_first(), punct);
    }
}

/// A text without its double quotes.
pub open spec fn without_quotes(s: Seq<char>) -> Seq<char> {
    s.filter(|c: char| c != '"')
}

/// The lower-case form of a text, as Unicode defines it for whole strings.
pub uninterp spec fn lowercase(text: Seq<char>) -> Seq<char>;

/// `str::to_lowercase` of the standard library. The contract is taken on
/// trust; it claims no more than that the result depends on the text
/// alone, and gives that result its name.
pub assume_specification[ str::to_lowercase ](text: &str) -> (lower: String)
    ensures
        lower@ == lowercase(text@),
;

/// `String::push` of the standard library. The contract is taken on
/// trust; it claims that the call appends the one character and changes
/// nothing else.
pub assume_specification[ String::push ](text: &mut String, c: char)
    ensures
        final(text)@ == old(text)@.push(c),
;

/// The form under which a piece of text is indexed.
pub open spec fn normalized(piece: Seq<char>) -> Seq<char> {
    without_quotes(lowercase(piece))
}

/// The words of a line: its pieces between white space.
pub open spec fn words(line: Seq<char>) -> Seq<Seq<char>> {
    fragments(line, false)
}

/// The index tokens of a text: its pieces between white space and
/// punctuation, each in normal form.
pub open spec fn tokens(content: Seq<char>) -> Seq<Seq<char>> {
    fragments(content, true).map_values(|piece: Seq<char>| normalized(piece))
}

/// A run without separators that is followed by a separator, or by nothing,
/// is the first fragment.
proof fn lemma_run_then_rest(run: Seq<char>, rest: Seq<char>, punct: bool)
    requires
        forall|i: int| 0 <= i < run.len() ==> !separator(run[i], punct),
        rest.len() == 0 || separator(rest[0], punct),
    ensures
        run_len(run + rest, punct) == run.len(),
        run.len() > 0 ==> fragments(run + rest, punct) == seq![run] + fragments(rest, punct),
    decreases run.len(),
{
    let all = run + rest;
    if run.len() == 0 {
        assert(all =~= rest);
    } else {
        assert(all[0] == run[0]);
        assert(all.drop_first() =~= run.drop_first() + rest);
        lemma_run_then_rest(run.drop_first(), rest, punct);
        assert(all.take(run.len() as int) =~= run);
        assert(all.skip(run.len() as int) =~= rest);
    }
}

/// The first run of a text holds no separator.
proof fn lemma_run_is_clean(s: Seq<char>, punct: bool)
    ensures
        forall|j: int| 0 <= j < run_len(s, punct) ==> !separator(#[trigger] s[j], punct),
    decreases s.len(),
{
    lemma_run_len_bound(s, punct);
    if s.len() > 0 && !separator(s[0], punct) {
        let rest = s.drop_first();
        lemma_run_is_clean(rest, punct);
        assert forall|j: int| 0 <= j < run_len(s, punct) implies !separator(
            #[trigger] s[j],
            punct,
        ) by {
            if j > 0 {
                assert(s[j] == rest[j - 1]);
            }
        }
    }
}

/// No fragment is empty and none holds a separator.
pub proof fn lemma_fragments_are_clean(s: Seq<char>, punct: bool)
    ensures
        forall|i: int|
            0 <= i < fragments(s, punct).len() ==> (#[trigger] fragments(s, punct)[i]).len() > 0,
        forall|i: int, j: int|
            0 <= i < fragments(s, punct).len() && 0 <= j < fragments(s, punct)[i].len()
                ==> !separator(#[trigger] fragments(s, punct)[i][j], punct),
    decreases s.len(),
{
    if s.len() == 0 {
        assert(fragments(s, punct).len() == 0);
    } else if separator(s[0], punct) {
        lemma_fragments_are_clean(s.drop_first(), punct);
        assert(fragments(s, punct) == fragments(s.drop_first(), punct));
    } else {
        let n = run_len(s, punct) as int;
        lemma_run_len_bound(s, punct);
        lemma_run_is_clean(s, punct);
        lemma_fragments_are_clean(s.skip(n), punct);
        let rest = fragments(s.skip(n), punct);
        let all = fragments(s, punct);
        assert(all =~= seq![s.take(n)] + rest);
        assert forall|i: int| 0 <= i < all.len() implies (#[trigger] all[i]).len() > 0 by {
            if i > 0 {
                assert(all[i] == rest[i - 1]);
            }
        }
        assert forall|i: int, j: int|
            0 <= i < all.len() && 0 <= j < all[i].len() implies !separator(
            #[trigger] all[i][j],
            punct,
        ) by {
            if i > 0 {
                assert(all[i] == rest[i - 1]);
            } else {
                assert(all[0][j] == s[j]);
            }
        }
    }
}

/// Cuts `text` into its runs between separators: at white space, and at
/// punctuation too where `punct` is set.
pub fn split_runs(text: &str, punct: bool) -> (pieces: Vec<String>)
    ensures
        texts(pieces@) == fragments(text@, punct),
{
    let mut pieces: Vec<String> = Vec::new();
    let mut run = String::new();
    let ghost whole = text@;
    proof {
        assert(run@ + whole.skip(0) =~= whole);
        assert(texts(pieces@) + fragments(whole, punct) =~= fragments(whole, punct));
    }
    for c in it: text.chars()
        invariant
            it.seq() == whole,
            forall|i: int| 0 <= i < run@.len() ==> !separator(run@[i], punct),
            fragments(whole, punct) == texts(pieces@) + fragments(
                run@ + whole.skip(it.index() as int),
                punct,
            ),
    {
        let ghost rest = whole.skip(it.index() as int);
        let ghost done = texts(pieces@);
        assert(rest.len() > 0 && rest[0] == c);
        assert(rest.drop_first() =~= whole.skip(it.index() + 1));
        if is_whitespace(c) || (punct && is_punct(c)) {
            if run.as_str().is_empty() {
                assert(run@ + rest =~= rest);
            } else {
                let ghost piece = run@;
                proof {
                    lemma_run_then_rest(piece, rest, punct);
                }
                pieces.push(run);
                run = String::new();
                assert(texts(pieces@) =~= done + seq![piece]);
            }
            assert(run@ + rest.drop_first() =~= rest.drop_first());
        } else {
            let ghost before = run@;
            run.push(c);
            assert(run@ + rest.drop_first() =~= before + rest);
        }
    }
    proof {
        let rest = whole.skip(whole.len() as int);
        assert(rest =~= Seq::<char>::empty());
        lemma_run_then_rest(run@, rest, punct);
        assert(run@ + rest =~= run@);
    }
    if !run.as_str().is_empty() {
        let ghost done = texts(pieces@);
        let ghost piece = run@;
        pieces.push(run);
        assert(texts(pieces@) =~= done + seq![piece]);
    }
    pieces
}

/// The words of `line`: its pieces between white space, in order.
pub fn split_whitespace(line: &str) -> (found: Vec<String>)
    ensures
        texts(found@) == words(line@),
{
    split_runs(line, false)
}

/// A copy of `word` without its double quotes.
pub fn strip_quotes(word: &str) -> (bare: String)
    ensures
        bare@ == without_quotes(word@),
{
    let mut bare = String::new();
    let ghost whole = word@;
    for c in it: word.chars()
        invariant
            it.seq() == whole,
            bare@ == without_quotes(whole.take(it.index() as int)),
    {
        proof {
            reveal(Seq::filter);
            let i = it.index() as int;
            assert(whole.take(i + 1).drop_last() =~= whole.take(i));
        }
        if c != '"' {
            bare.push(c);
        }
    }
    assert(whole.take(whole.len() as int) =~= whole);
    bare
}

/// The index tokens of `content`, in the order in which they occur. A token
/// that occurs several times is listed each time.
pub fn split_words(content: &str) -> (found: Vec<String>)
    ensures
        texts(found@) == tokens(content@),
{
    let pieces = split_runs(content, true);
    let mut found: Vec<String> = Vec::new();
    let mut i: usize = 0;
    while i < pieces.len()
        invariant
            0 <= i <= pieces.len(),
            texts(pieces@) == fragments(content@, true),
            texts(found@) == tokens(content@).take(i as int),
        decreases pieces.len() - i,
    {
        let ghost done = texts(found@);
        let lower = pieces[i].as_str().to_lowercase();
        found.push(strip_quotes(lower.as_str()));
        assert(texts(pieces@)[i as int] == pieces[i as int]@);
        assert(texts(found@) =~= done.push(normalized(pieces[i as int]@)));
        assert(texts(found@) =~= tokens(content@).take(i as int + 1));
        i = i + 1;
    }
    assert(tokens(content@).take(i as int) =~= tokens(content@));
    found
}

} // verus!

//! Taking text from the user: what counts as the end of a text of several
//! lines, and how an answer is freed of the white space round it.

use crate::tokenizer::{is_whitespace, white_space};
use vstd::prelude::*;
use vstd::string::StringExecFns;
use vstd::string::StringSliceAdditionalSpecFns;
use vstd::utf8::encode_utf8;

verus! {

/// Number of white-space characters with which `s` begins.
pub open spec fn leading_space(s: Seq<char>) -> nat
    decreases s.len(),
{
    if s.len() > 0 && white_space(s[0]) {
        1 + leading_space(s.drop_first())
    } else {
        0
    }
}

/// Number of white-space characters with which `s` ends.
pub open spec fn trailing_space(s: Seq<char>) -> nat
    decreases s.len(),
{
    if s.len() > 0 && white_space(s.last()) {
        1 + trailing_space(s.drop_last())
    } else {
        0
    }
}

/// `s` without the white space at its two ends.
pub open spec fn trimmed(s: Seq<char>) -> Seq<char> {
    let rest = s.skip(leading_space(s) as int);
    rest.take(rest.len() - trailing_space(rest))
}

/// A line that ends a paragraph: one of fewer than two bytes, such as a
/// bare line break or the empty line at the end of the input.
pub open spec fn blank(line: Seq<char>) -> bool {
    encode_utf8(line).len() < 2
}

proof fn lemma_leading_space(s: Seq<char>, k: int)
    requires
        0 <= k <= s.len(),
        forall|i: int| 0 <= i < k ==> white_space(s[i]),
        k == s.len() || !white_space(s[k]),
    ensures
        leading_space(s) == k,
    decreases k,
{
    if k > 0 {
        lemma_leading_space(s.drop_first(), k - 1);
    }
}

proof fn lemma_trailing_space(s: Seq<char>, k: int)
    requires
        0 <= k <= s.len(),
        forall|i: int| s.len() - k <= i < s.len() ==> white_space(s[i]),
        k == s.len() || !white_space(s[s.len() - k - 1]),
    ensures
        trailing_space(s) == k,
    decreases k,
{
    if k > 0 {
        lemma_trailing_space(s.drop_last(), k - 1);
    }
}

/// A copy of `text` without the white space at its two ends.
pub fn trim(text: &str) -> (bare: String)
    ensures
        bare@ == trimmed(text@),
{
    let mut chars: Vec<char> = Vec::new();
    let ghost whole = text@;
    for c in it: text.chars()
        invariant
            it.seq() == whole,
            chars@ == whole.take(it.index() as int),
    {
        chars.push(c);
        assert(chars@ =~= whole.take(it.index() + 1));
    }
    assert(chars@ =~= whole);
    let mut start: usize = 0;
    while start < chars.len() && is_whitespace(chars[start])
        invariant
            0 <= start <= chars.len(),
            forall|i: int| 0 <= i < start ==> white_space(chars@[i]),
        decreases chars.len() - start,
    {
        start = start + 1;
    }
    let mut end: usize = chars.len();
    while end > start && is_whitespace(chars[end - 1])
        invariant
            start <= end <= chars.len(),
            forall|i: int| end <= i < chars.len() ==> white_space(chars@[i]),
        decreases end - start,
    {
        end = end - 1;
    }
    let ghost rest = whole.skip(start as int);
    proof {
        lemma_leading_space(whole, start as int);
        lemma_trailing_space(rest, chars.len() - end);
        assert(rest.take(rest.len() - trailing_space(rest)) =~= whole.subrange(
            start as int,
            end as int,
        ));
    }
    let mut bare = String::new();
    let mut i: usize = start;
    while i < end
        invariant
            start <= i <= end <= chars.len(),
            chars@ == whole,
            bare@ == whole.subrange(start as int, i as int),
        decreases end - i,
    {
        bare.push(chars[i]);
        assert(bare@ =~= whole.subrange(start as int, i as int + 1));
        i = i + 1;
    }
    bare
}

/// The text of several lines that is being typed in: the lines so far and
/// the number of blank lines at their end. The text is complete when that
/// number reaches the limit.
#[derive(Debug)]
pub struct LongPrompt {
    text: String,
    blank_lines: isize,
    limit: isize,
}

impl LongPrompt {
    /// The lines taken so far, each with its line break.
    pub closed spec fn text(&self) -> Seq<char> {
        self.text@
    }

    /// The number of blank lines at the end of the lines taken so far.
    pub closed spec fn blank_lines(&self) -> int {
        self.blank_lines as int
    }

    /// The number of blank lines in a row that ends the text.
    pub closed spec fn limit(&self) -> int {
        self.limit as int
    }

    #[verifier::type_invariant]
    spec fn counted(&self) -> bool {
        0 <= self.blank_lines && (self.blank_lines == 0 || self.blank_lines < self.limit)
    }

    /// An empty text that ends after `num_blank_lines` blank lines in a
    /// row.
    pub fn new(num_blank_lines: isize) -> (prompt: LongPrompt)
        ensures
            prompt.text() == Seq::<char>::empty(),
            prompt.blank_lines() == 0,
            prompt.limit() == num_blank_lines,
    {
        LongPrompt { text: String::new(), blank_lines: 0, limit: num_blank_lines }
    }

    /// Takes the next line as it was read, line break included. Says
    /// whether the text is complete; the line that completes it is not
    /// part of it.
    pub fn feed(&mut self, line: &str) -> (done: bool)
        ensures
            done == (blank(line@) && old(self).blank_lines() + 1 >= old(self).limit()),
            final(self).limit() == old(self).limit(),
            done ==> final(self).text() == old(self).text() && final(self).blank_lines() == old(
                self,
            ).blank_lines(),
            !done ==> final(self).text() == old(self).text() + line@,
            !done ==> final(self).blank_lines() == if blank(line@) {
                old(self).blank_lines() + 1
            } else {
                0
            },
    {
        proof {
            use_type_invariant(&*self);
        }
        let mut taken = LongPrompt { text: String::new(), blank_lines: 0, limit: self.limit };
        std::mem::swap(self, &mut taken);
        let LongPrompt { mut text, mut blank_lines, limit } = taken;
        let mut done = false;
        if line.as_bytes().len() < 2 {
            if blank_lines + 1 >= limit {
                done = true;
            } else {
                blank_lines = blank_lines + 1;
                text.append(line);
            }
        } else {
            blank_lines = 0;
            text.append(line);
        }
        *self = LongPrompt { text, blank_lines, limit };
        done
    }

    /// The text that was typed in, without the white space at its two
    /// ends.
    pub fn finish(&self) -> (text: String)
        ensures
            text@ == trimmed(self.text()),
    {
        trim(self.text.as_str())
    }
}

} // verus!

//! Whole-file normalization and line splitting.
//!
//! The corpus carries known dirtiness: a stray space after a tab separator,
//! a stray space before a line break, and doubled inter-token spacing. Each
//! is repaired once over the whole text, before any line is parsed, and the
//! text is made to end with a newline so that the last record sees the same
//! delimiter as every other.

use vstd::prelude::*;

use crate::grammar::find_char;
use crate::grammar::lemma_find_char;
use crate::text::{chars_to_vec, string_from_chars, string_of_range};

verus! {

// ---------------------------------------------------------------------------
// Normalization
// ---------------------------------------------------------------------------

/// One repair rule: scanning left to right, every occurrence of the pair
/// `c1 c2` becomes the single character `d`; a replaced pair is not
/// revisited.
pub open spec fn collapse(s: Seq<char>, c1: char, c2: char, d: char) -> Seq<char>
    decreases s.len(),
{
    if s.len() == 0 {
        Seq::empty()
    } else if s.len() >= 2 && s[0] == c1 && s[1] == c2 {
        seq![d] + collapse(s.skip(2), c1, c2, d)
    } else {
        seq![s[0]] + collapse(s.skip(1), c1, c2, d)
    }
}

/// The whole normalization pass: drop a stray space after every tab, drop a
/// stray space before every newline, halve doubled spaces, and end the text
/// with a newline. Empty text stays empty: it holds no records.
pub open spec fn normalize_spec(s: Seq<char>) -> Seq<char> {
    let a = collapse(s, '\t', ' ', '\t');
    let b = collapse(a, ' ', '\n', '\n');
    let c = collapse(b, ' ', ' ', ' ');
    if c.len() == 0 || c.last() == '\n' {
        c
    } else {
        c.push('\n')
    }
}

/// Applies one repair rule over the whole text.
fn collapse_pairs(s: &Vec<char>, c1: char, c2: char, d: char) -> (r: Vec<char>)
    ensures
        r@ == collapse(s@, c1, c2, d),
{
    let mut out: Vec<char> = Vec::new();
    let mut i: usize = 0;
    proof {
        assert(s@.skip(0) =~= s@);
    }
    while i < s.len()
        invariant
            i <= s.len(),
            collapse(s@, c1, c2, d) == out@ + collapse(s@.skip(i as int), c1, c2, d),
        decreases s.len() - i,
    {
        let ghost prev = out@;
        proof {
            assert(s@.skip(i as int)[0] == s@[i as int]);
            if i + 1 < s.len() {
                assert(s@.skip(i as int)[1] == s@[i + 1 as int]);
            }
        }
        if i + 1 < s.len() && s[i] == c1 && s[i + 1] == c2 {
            out.push(d);
            proof {
                assert(s@.skip(i as int).skip(2) =~= s@.skip(i + 2 as int));
                assert(prev + (seq![d] + collapse(s@.skip(i + 2 as int), c1, c2, d)) =~= out@
                    + collapse(s@.skip(i + 2 as int), c1, c2, d));
            }
            i = i + 2;
        } else {
            out.push(s[i]);
            proof {
                assert(s@.skip(i as int).skip(1) =~= s@.skip(i + 1 as int));
                assert(prev + (seq![s@[i as int]] + collapse(s@.skip(i + 1 as int), c1, c2, d))
                    =~= out@ + collapse(s@.skip(i + 1 as int), c1, c2, d));
            }
            i = i + 1;
        }
    }
    proof {
        assert(s@.skip(s.len() as int).len() == 0);
        assert(out@ + collapse(s@.skip(s.len() as int), c1, c2, d) =~= out@);
    }
    out
}

/// Repairs the known corpus irregularities in one pass over the whole text
/// and guarantees a trailing newline (empty text stays empty).
pub fn normalize(text: &str) -> (r: String)
    ensures
        r@ == normalize_spec(text@),
{
    let v = chars_to_vec(text);
    let a = collapse_pairs(&v, '\t', ' ', '\t');
    let b = collapse_pairs(&a, ' ', '\n', '\n');
    let mut c = collapse_pairs(&b, ' ', ' ', ' ');
    if c.len() > 0 && c[c.len() - 1] != '\n' {
        c.push('\n');
    }
    string_from_chars(c.as_slice())
}

// ---------------------------------------------------------------------------
// Line splitting
// ---------------------------------------------------------------------------

/// Length of the first line of `s`, its newline included; the whole of `s`
/// when no newline remains.
pub open spec fn first_line_len(s: Seq<char>) -> int {
    let k = find_char(s, '\n');
    if k == s.len() {
        s.len() as int
    } else {
        k + 1
    }
}

/// The lines of `s`, each retaining its terminating newline (the last line
/// may lack one when the text does not end with a newline).
pub open spec fn split_lines_spec(s: Seq<char>) -> Seq<Seq<char>>
    decreases s.len(),
{
    if s.len() == 0 {
        Seq::empty()
    } else {
        let n = first_line_len(s);
        if 0 < n <= s.len() {
            seq![s.take(n)] + split_lines_spec(s.skip(n))
        } else {
            // Never reached: the first line of non-empty text is non-empty
            // and no longer than the text (see `lemma_split_lines_unfold`).
            Seq::empty()
        }
    }
}

/// Unfolds one step of the line splitter on non-empty text.
pub proof fn lemma_split_lines_unfold(s: Seq<char>)
    requires
        s.len() > 0,
    ensures
        0 < first_line_len(s) <= s.len(),
        split_lines_spec(s) == seq![s.take(first_line_len(s))] + split_lines_spec(
            s.skip(first_line_len(s)),
        ),
{
    lemma_find_char(s, '\n');
}

/// Walks a text line by line; each returned line keeps its newline.
pub struct LinesWithEndings {
    chars: Vec<char>,
    pos: usize,
}

impl LinesWithEndings {
    /// The text not yet handed out.
    pub closed spec fn remaining(&self) -> Seq<char> {
        self.chars@.skip(self.pos as int)
    }

    pub closed spec fn wf(&self) -> bool {
        self.pos <= self.chars.len()
    }

    /// Starts the walk at the beginning of `input`.
    pub fn from(input: &str) -> (it: LinesWithEndings)
        ensures
            it.wf(),
            it.remaining() == input@,
    {
        let chars = chars_to_vec(input);
        proof {
            assert(chars@.skip(0) =~= chars@);
        }
        LinesWithEndings { chars, pos: 0 }
    }

    /// Hands out the next line, or `None` when the text is exhausted.
    pub fn next(&mut self) -> (line: Option<String>)
        requires
            old(self).wf(),
        ensures
            final(self).wf(),
            match line {
                Some(l) => {
                    &&& old(self).remaining().len() > 0
                    &&& l@ == old(self).remaining().take(first_line_len(old(self).remaining()))
                    &&& final(self).remaining() == old(self).remaining().skip(
                        first_line_len(old(self).remaining()),
                    )
                },
                None => {
                    &&& old(self).remaining().len() == 0
                    &&& *final(self) == *old(self)
                },
            },
    {
        let ghost rem = self.remaining();
        if self.pos >= self.chars.len() {
            return None;
        }
        let k = crate::grammar::scan_char(&self.chars, self.pos, '\n');
        let end = if k == self.chars.len() {
            k
        } else {
            k + 1
        };
        proof {
            lemma_find_char(rem, '\n');
            assert(rem.len() == self.chars@.len() - self.pos);
            // find_char over the remainder equals k - pos, so `end - pos`
            // is the first line's length.
            assert(first_line_len(rem) == end - self.pos);
            assert(rem.take(end - self.pos as int) =~= self.chars@.subrange(
                self.pos as int,
                end as int,
            ));
            assert(rem.skip(end - self.pos as int) =~= self.chars@.skip(end as int));
        }
        let l = string_of_range(&self.chars, self.pos, end);
        self.pos = end;
        Some(l)
    }
}

} // verus!

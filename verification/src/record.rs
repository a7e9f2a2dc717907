//! The record parser: one corpus line to one [`ExampleSentence`].
//!
//! A line is `<u32> TAB <u32> TAB <text> TAB <text> TAB <index-word>+`,
//! where the index words run to the end of the input and each consumes its
//! own trailing space or newline. The parser performs no recovery: a line
//! either parses fully or fails at the first mismatch.

use vstd::prelude::*;

use crate::example_sentences::{ExampleSentence, ExampleSentenceView, IndexWord, IndexWordView,
    ParseError};
use crate::grammar::{digit_prefix_len, digit_of, find_char, is_digit_char,
    lemma_seq_val_prefix_le, lemma_seq_val_snoc, scan_char, seq_val, spec_parse_index_word,
    parse_index_word};
use crate::text::{chars_to_vec, string_of_range};

verus! {

// ---------------------------------------------------------------------------
// The record grammar, as specification functions
// ---------------------------------------------------------------------------

/// An unsigned sentence identifier: the longest digit run at the head of
/// `s`, which must be non-empty and fit in a `u32`.
pub open spec fn spec_parse_u32(s: Seq<char>) -> Result<(int, Seq<char>), ParseError> {
    let n = digit_prefix_len(s);
    if n == 0 {
        Err(ParseError::MalformedIdentifier)
    } else if seq_val(s.take(n)) > u32::MAX {
        Err(ParseError::MalformedIdentifier)
    } else {
        Ok((seq_val(s.take(n)), s.skip(n)))
    }
}

/// A single mandatory tab separator.
pub open spec fn spec_expect_tab(s: Seq<char>) -> Result<Seq<char>, ParseError> {
    if s.len() > 0 && s[0] == '\t' {
        Ok(s.skip(1))
    } else {
        Err(ParseError::MissingSeparator)
    }
}

/// A text field: everything before the next tab, consuming the tab as well.
pub open spec fn spec_take_until_tab(s: Seq<char>) -> Result<(Seq<char>, Seq<char>), ParseError> {
    let k = find_char(s, '\t');
    if k == s.len() {
        Err(ParseError::MissingSeparator)
    } else {
        Ok((s.take(k), s.skip(k + 1)))
    }
}

/// Index words repeated until the input is exhausted; the final word's
/// delimiter is expected to coincide with the end of the line.
pub open spec fn spec_parse_index_words(s: Seq<char>) -> Result<Seq<IndexWordView>, ParseError>
    decreases s.len(),
{
    if s.len() == 0 {
        Ok(Seq::empty())
    } else {
        match spec_parse_index_word(s) {
            Err(e) => Err(e),
            Ok((w, r)) => if r.len() < s.len() {
                match spec_parse_index_words(r) {
                    Err(e) => Err(e),
                    Ok(ws) => Ok(seq![w] + ws),
                }
            } else {
                // Never reached: a word always consumes at least one
                // character (see `lemma_word_consumes`).
                Err(ParseError::MissingSeparator)
            },
        }
    }
}

/// One whole corpus record. The index-word list must hold at least one
/// word: a line whose fifth field is empty is rejected.
pub open spec fn spec_parse_record(s: Seq<char>) -> Result<ExampleSentenceView, ParseError> {
    match spec_parse_u32(s) {
        Err(e) => Err(e),
        Ok((jid, r1)) => match spec_expect_tab(r1) {
            Err(e) => Err(e),
            Ok(r2) => match spec_parse_u32(r2) {
                Err(e) => Err(e),
                Ok((eid, r3)) => match spec_expect_tab(r3) {
                    Err(e) => Err(e),
                    Ok(r4) => match spec_take_until_tab(r4) {
                        Err(e) => Err(e),
                        Ok((jt, r5)) => match spec_take_until_tab(r5) {
                            Err(e) => Err(e),
                            Ok((et, r6)) => match spec_parse_index_words(r6) {
                                Err(e) => Err(e),
                                Ok(ws) => if ws.len() == 0 {
                                    Err(ParseError::MissingSeparator)
                                } else {
                                    Ok(ExampleSentenceView {
                                        japanese_sentence_id: jid as u32,
                                        english_sentence_id: eid as u32,
                                        japanese_text: jt,
                                        english_text: et,
                                        indices: ws,
                                    })
                                },
                            },
                        },
                    },
                },
            },
        },
    }
}

// ---------------------------------------------------------------------------
// Executable parsing
// ---------------------------------------------------------------------------

/// Advances past the longest digit run starting at `i`.
fn scan_digits(s: &Vec<char>, i: usize) -> (j: usize)
    requires
        i <= s.len(),
    ensures
        i <= j <= s.len(),
        j - i == digit_prefix_len(s@.skip(i as int)),
{
    let mut j = i;
    while j < s.len() && digit_of(s[j]) < 10
        invariant
            i <= j <= s.len(),
            digit_prefix_len(s@.skip(i as int)) == j - i + digit_prefix_len(s@.skip(j as int)),
        decreases s.len() - j,
    {
        proof {
            assert(s@.skip(j as int)[0] == s@[j as int]);
            assert(s@.skip(j as int).skip(1) =~= s@.skip(j + 1 as int));
        }
        j = j + 1;
    }
    proof {
        if j < s.len() {
            assert(s@.skip(j as int)[0] == s@[j as int]);
        }
        assert(digit_prefix_len(s@.skip(j as int)) == 0);
    }
    j
}

/// Parses an unsigned sentence identifier at position `i`; on success
/// returns the value and the position just past its digits.
pub(crate) fn parse_u32_at(s: &Vec<char>, i: usize) -> (r: Result<(u32, usize), ParseError>)
    requires
        i <= s.len(),
    ensures
        match r {
            Ok((v, j)) => {
                let sp = spec_parse_u32(s@.skip(i as int));
                &&& i <= j <= s.len()
                &&& sp is Ok
                &&& sp->Ok_0.0 == v as int
                &&& sp->Ok_0.1 == s@.skip(j as int)
            },
            Err(err) => {
                let sp = spec_parse_u32(s@.skip(i as int));
                sp is Err && sp->Err_0 == err
            },
        },
{
    let ghost t = s@.skip(i as int);
    let j = scan_digits(s, i);
    let ghost n = digit_prefix_len(t);
    if j == i {
        return Err(ParseError::MalformedIdentifier);
    }
    proof {
        crate::grammar::lemma_digit_prefix_len(t);
    }
    let mut k = i;
    let mut acc: u64 = 0;
    proof {
        assert(t.take(0) =~= Seq::<char>::empty());
    }
    while k < j
        invariant
            i <= k <= j <= s.len(),
            t == s@.skip(i as int),
            n == digit_prefix_len(t),
            j - i == n,
            forall|m: int| 0 <= m < n ==> is_digit_char(#[trigger] t[m]),
            acc == seq_val(t.take(k - i)),
            acc <= u32::MAX,
        decreases j - k,
    {
        let d = digit_of(s[k]);
        proof {
            assert(t[k - i] == s@[k as int]);
            lemma_seq_val_snoc(t, k - i);
        }
        let acc2: u64 = acc * 10 + (d as u64);
        if acc2 > 0xFFFF_FFFF {
            // The whole digit run is at least this prefix, so it cannot be
            // a u32 whatever digits follow.
            proof {
                assert(t.take(n).take(k - i + 1) =~= t.take(k - i + 1));
                lemma_seq_val_prefix_le(t.take(n), k - i + 1);
            }
            return Err(ParseError::MalformedIdentifier);
        }
        acc = acc2;
        k = k + 1;
    }
    proof {
        assert(t.take(j - i) =~= t.take(n));
        assert(t.skip(n) =~= s@.skip(j as int));
    }
    Ok((acc as u32, j))
}

/// Relates the whole index-word repetition to the words already collected
/// (`done`) and the repetition still ahead (`rest`).
pub open spec fn words_continuation(
    full: Result<Seq<IndexWordView>, ParseError>,
    done: Seq<IndexWordView>,
    rest: Result<Seq<IndexWordView>, ParseError>,
) -> bool {
    match (full, rest) {
        (Ok(wf), Ok(wr)) => wf == done + wr,
        (Err(ef), Err(er)) => ef == er,
        _ => false,
    }
}

/// Parses one whole corpus line, given as a character vector.
#[verifier::rlimit(100)]
pub fn parse_record_chars(s: &Vec<char>) -> (r: Result<ExampleSentence, ParseError>)
    ensures
        match r {
            Ok(sent) => spec_parse_record(s@) is Ok && spec_parse_record(s@)->Ok_0 == sent@,
            Err(err) => spec_parse_record(s@) is Err && spec_parse_record(s@)->Err_0 == err,
        },
{
    proof {
        assert(s@.skip(0) =~= s@);
    }
    let (japanese_sentence_id, p1) = match parse_u32_at(s, 0) {
        Ok(v) => v,
        Err(e) => {
            return Err(e);
        },
    };
    if p1 >= s.len() || s[p1] != '\t' {
        proof {
            if p1 < s.len() {
                assert(s@.skip(p1 as int)[0] == s@[p1 as int]);
            }
        }
        return Err(ParseError::MissingSeparator);
    }
    proof {
        assert(s@.skip(p1 as int)[0] == s@[p1 as int]);
        assert(s@.skip(p1 as int).skip(1) =~= s@.skip(p1 + 1 as int));
    }
    let (english_sentence_id, p2) = match parse_u32_at(s, p1 + 1) {
        Ok(v) => v,
        Err(e) => {
            return Err(e);
        },
    };
    if p2 >= s.len() || s[p2] != '\t' {
        proof {
            if p2 < s.len() {
                assert(s@.skip(p2 as int)[0] == s@[p2 as int]);
            }
        }
        return Err(ParseError::MissingSeparator);
    }
    proof {
        assert(s@.skip(p2 as int)[0] == s@[p2 as int]);
        assert(s@.skip(p2 as int).skip(1) =~= s@.skip(p2 + 1 as int));
    }
    let p3 = p2 + 1;
    let k1 = scan_char(s, p3, '\t');
    if k1 == s.len() {
        return Err(ParseError::MissingSeparator);
    }
    let japanese_text = string_of_range(s, p3, k1);
    proof {
        assert(s@.skip(p3 as int).take(k1 - p3 as int) =~= s@.subrange(p3 as int, k1 as int));
        assert(s@.skip(p3 as int).skip(k1 - p3 + 1 as int) =~= s@.skip(k1 + 1 as int));
    }
    let p4 = k1 + 1;
    let k2 = scan_char(s, p4, '\t');
    if k2 == s.len() {
        return Err(ParseError::MissingSeparator);
    }
    let english_text = string_of_range(s, p4, k2);
    proof {
        assert(s@.skip(p4 as int).take(k2 - p4 as int) =~= s@.subrange(p4 as int, k2 as int));
        assert(s@.skip(p4 as int).skip(k2 - p4 + 1 as int) =~= s@.skip(k2 + 1 as int));
    }
    let start = k2 + 1;
    let mut indices: Vec<IndexWord> = Vec::new();
    let mut pos = start;
    proof {
        assert(indices.deep_view() =~= Seq::<IndexWordView>::empty());
        match spec_parse_index_words(s@.skip(start as int)) {
            Ok(ws) => {
                assert(indices.deep_view() + ws =~= ws);
            },
            Err(_) => {},
        }
    }
    loop
        invariant
            start <= pos <= s.len(),
            words_continuation(
                spec_parse_index_words(s@.skip(start as int)),
                indices.deep_view(),
                spec_parse_index_words(s@.skip(pos as int)),
            ),
            spec_parse_u32(s@) is Ok,
            spec_parse_u32(s@)->Ok_0.0 == japanese_sentence_id as int,
            spec_parse_u32(s@)->Ok_0.1 == s@.skip(p1 as int),
            p1 < s.len() && s@[p1 as int] == '\t',
            spec_expect_tab(s@.skip(p1 as int)) is Ok,
            spec_expect_tab(s@.skip(p1 as int))->Ok_0 == s@.skip(p1 + 1 as int),
            spec_parse_u32(s@.skip(p1 + 1 as int)) is Ok,
            spec_parse_u32(s@.skip(p1 + 1 as int))->Ok_0.0 == english_sentence_id as int,
            spec_parse_u32(s@.skip(p1 + 1 as int))->Ok_0.1 == s@.skip(p2 as int),
            p2 < s.len() && s@[p2 as int] == '\t',
            spec_expect_tab(s@.skip(p2 as int)) is Ok,
            spec_expect_tab(s@.skip(p2 as int))->Ok_0 == s@.skip(p3 as int),
            p3 == p2 + 1,
            spec_take_until_tab(s@.skip(p3 as int)) is Ok,
            spec_take_until_tab(s@.skip(p3 as int))->Ok_0.0 == japanese_text@,
            spec_take_until_tab(s@.skip(p3 as int))->Ok_0.1 == s@.skip(p4 as int),
            p4 == k1 + 1,
            spec_take_until_tab(s@.skip(p4 as int)) is Ok,
            spec_take_until_tab(s@.skip(p4 as int))->Ok_0.0 == english_text@,
            spec_take_until_tab(s@.skip(p4 as int))->Ok_0.1 == s@.skip(start as int),
        decreases s.len() - pos,
    {
        if pos >= s.len() {
            proof {
                assert(s@.skip(pos as int).len() == 0);
                assert(indices.deep_view().len() == indices@.len());
            }
            if indices.len() == 0 {
                // The grammar demands at least one index word per record.
                return Err(ParseError::MissingSeparator);
            }
            let sent = ExampleSentence {
                japanese_sentence_id,
                english_sentence_id,
                japanese_text,
                english_text,
                indices,
            };
            proof {
                assert(sent@ =~= spec_parse_record(s@)->Ok_0);
            }
            return Ok(sent);
        }
        let ghost prev = indices.deep_view();
        match parse_index_word(s, pos) {
            Ok((w, j)) => {
                indices.push(w);
                proof {
                    assert(indices.deep_view() =~= prev.push(w@));
                    match spec_parse_index_words(s@.skip(j as int)) {
                        Ok(ws2) => {
                            assert(prev + (seq![w@] + ws2) =~= prev.push(w@) + ws2);
                        },
                        Err(_) => {},
                    }
                }
                pos = j;
            },
            Err(err) => {
                return Err(err);
            },
        }
    }
}

/// Parses one corpus line into an [`ExampleSentence`], or reports why it
/// cannot be one.
pub fn wwwjdict_parser(input: &str) -> (r: Result<ExampleSentence, ParseError>)
    ensures
        match r {
            Ok(sent) => spec_parse_record(input@) is Ok && spec_parse_record(input@)->Ok_0
                == sent@,
            Err(err) => spec_parse_record(input@) is Err && spec_parse_record(input@)->Err_0
                == err,
        },
{
    let v = chars_to_vec(input);
    parse_record_chars(&v)
}

} // verus!

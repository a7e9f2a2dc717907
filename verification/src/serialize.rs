//! Re-serialization of an index word to its token text, and the round-trip
//! law: a canonical token parses back to exactly the word it was written
//! from.
//!
//! Canonical token order is headword, then `(reading)`, `[sense]`, `{form}`
//! and `~`, each at most once, with the sense number in canonical decimal.
//! Real corpus tokens may deviate (duplicated or reordered annotations,
//! leading zeros, `|1` markers); those normalize away and are outside the
//! round trip.

use vstd::prelude::*;

use crate::example_sentences::{IndexElementView, IndexWord, IndexWordView, ParseError};
use crate::grammar::{digit_char, digit_val, is_digit_char, is_headword_char, is_token_delimiter,
    seq_val, all_digits};
use crate::text::{chars_to_vec, string_from_chars};

verus! {

// ---------------------------------------------------------------------------
// Canonical decimal text
// ---------------------------------------------------------------------------

/// Canonical decimal digits of a non-negative number: no leading zeros,
/// except that zero itself is "0".
pub open spec fn dec_rep(n: nat) -> Seq<char>
    decreases n,
{
    if n < 10 {
        seq![digit_char(n as int)]
    } else {
        dec_rep(n / 10).push(digit_char((n % 10) as int))
    }
}

/// Canonical decimal text of an integer, `-` first when negative.
pub open spec fn int_rep(n: int) -> Seq<char> {
    if n < 0 {
        seq!['-'] + dec_rep((-n) as nat)
    } else {
        dec_rep(n as nat)
    }
}

pub proof fn lemma_dec_rep(n: nat)
    ensures
        dec_rep(n).len() >= 1,
        all_digits(dec_rep(n)),
        seq_val(dec_rep(n)) == n,
    decreases n,
{
    if n < 10 {
        assert(dec_rep(n).drop_last() =~= Seq::<char>::empty());
        assert(dec_rep(n).last() == digit_char(n as int));
        assert(seq_val(Seq::<char>::empty()) == 0);
        assert(digit_val(digit_char(n as int)) == n);
    } else {
        lemma_dec_rep(n / 10);
        let d = digit_char((n % 10) as int);
        assert(dec_rep(n).drop_last() =~= dec_rep(n / 10));
        assert(dec_rep(n).last() == d);
        assert(digit_val(d) == n % 10);
        assert(seq_val(dec_rep(n)) == (n / 10) * 10 + n % 10);
        assert forall|i: int| 0 <= i < dec_rep(n).len() implies is_digit_char(
            #[trigger] dec_rep(n)[i],
        ) by {
            if i < dec_rep(n / 10).len() {
                assert(dec_rep(n)[i] == dec_rep(n / 10)[i]);
            }
        }
    }
}

// ---------------------------------------------------------------------------
// The serializer, spec and exec
// ---------------------------------------------------------------------------

/// The token text of an index word: headword, then each present annotation
/// in canonical order.
pub open spec fn serialize_spec(w: IndexWordView) -> Seq<char> {
    w.headword + (match w.reading {
        Some(r) => seq!['('] + r + seq![')'],
        None => Seq::empty(),
    }) + (match w.sense_number {
        Some(n) => seq!['['] + int_rep(n) + seq![']'],
        None => Seq::empty(),
    }) + (match w.form_in_sentence {
        Some(f) => seq!['{'] + f + seq!['}'],
        None => Seq::empty(),
    }) + (if w.good_and_checked {
        seq!['~']
    } else {
        Seq::empty()
    })
}

/// The digit character for a value below ten.
fn digit_char_of(d: u64) -> (c: char)
    requires
        d < 10,
    ensures
        c == digit_char(d as int),
{
    match d {
        0 => '0',
        1 => '1',
        2 => '2',
        3 => '3',
        4 => '4',
        5 => '5',
        6 => '6',
        7 => '7',
        8 => '8',
        _ => '9',
    }
}

/// Appends the canonical decimal digits of `n`.
fn push_u64_digits(n: u64, v: &mut Vec<char>)
    ensures
        final(v)@ == old(v)@ + dec_rep(n as nat),
    decreases n,
{
    if n < 10 {
        v.push(digit_char_of(n));
        proof {
            assert(final(v)@ =~= old(v)@ + dec_rep(n as nat));
        }
    } else {
        push_u64_digits(n / 10, v);
        v.push(digit_char_of(n % 10));
        proof {
            assert(final(v)@ =~= old(v)@ + dec_rep(n as nat));
        }
    }
}

/// Appends the canonical decimal text of `n`, sign included.
fn push_i32_text(n: i32, v: &mut Vec<char>)
    ensures
        final(v)@ == old(v)@ + int_rep(n as int),
{
    if n < 0 {
        v.push('-');
        let mag: u64 = (-(n as i64)) as u64;
        push_u64_digits(mag, v);
        proof {
            assert(final(v)@ =~= old(v)@ + int_rep(n as int));
        }
    } else {
        push_u64_digits(n as u64, v);
    }
}

/// Writes an index word back as one token: the headword, then each present
/// annotation in canonical order. The token delimiter is not included.
pub fn serialize_index_word(w: &IndexWord) -> (r: String)
    ensures
        r@ == serialize_spec(w@),
{
    let mut v = chars_to_vec(w.headword.as_str());
    if let Some(reading) = &w.reading {
        v.push('(');
        let mut rv = chars_to_vec(reading.as_str());
        v.append(&mut rv);
        v.push(')');
    }
    if let Some(n) = w.sense_number {
        v.push('[');
        push_i32_text(n, &mut v);
        v.push(']');
    }
    if let Some(form) = &w.form_in_sentence {
        v.push('{');
        let mut fv = chars_to_vec(form.as_str());
        v.append(&mut fv);
        v.push('}');
    }
    if w.good_and_checked {
        v.push('~');
    }
    proof {
        assert(v@ =~= serialize_spec(w@));
    }
    string_from_chars(v.as_slice())
}

// ---------------------------------------------------------------------------
// The round-trip law
// ---------------------------------------------------------------------------

/// An index word whose serialization is a well-formed token: the headword is
/// non-empty and free of delimiters, the reading holds no `)`, the form no
/// `}`, and the sense number fits in an `i32`.
pub open spec fn valid_word(w: IndexWordView) -> bool {
    &&& w.headword.len() > 0
    &&& forall|i: int| 0 <= i < w.headword.len() ==> is_headword_char(#[trigger] w.headword[i])
    &&& match w.reading {
        Some(r) => forall|i: int| 0 <= i < r.len() ==> #[trigger] r[i] != ')',
        None => true,
    }
    &&& match w.sense_number {
        Some(n) => i32::MIN <= n <= i32::MAX,
        None => true,
    }
    &&& match w.form_in_sentence {
        Some(f) => forall|i: int| 0 <= i < f.len() ==> #[trigger] f[i] != '}',
        None => true,
    }
}

proof fn lemma_headword_len_concat(h: Seq<char>, rest: Seq<char>)
    requires
        forall|i: int| 0 <= i < h.len() ==> is_headword_char(#[trigger] h[i]),
        rest.len() > 0,
        !is_headword_char(rest[0]),
    ensures
        crate::grammar::headword_len(h + rest) == h.len(),
    decreases h.len(),
{
    if h.len() == 0 {
        assert(h + rest =~= rest);
    } else {
        assert((h + rest)[0] == h[0]);
        assert((h + rest).skip(1) =~= h.skip(1) + rest);
        assert forall|i: int| 0 <= i < h.skip(1).len() implies is_headword_char(
            #[trigger] h.skip(1)[i],
        ) by {
            assert(h.skip(1)[i] == h[i + 1]);
        }
        lemma_headword_len_concat(h.skip(1), rest);
    }
}

proof fn lemma_find_char_concat(content: Seq<char>, c: char, rest: Seq<char>)
    requires
        forall|i: int| 0 <= i < content.len() ==> #[trigger] content[i] != c,
    ensures
        crate::grammar::find_char(content + seq![c] + rest, c) == content.len(),
    decreases content.len(),
{
    let s = content + seq![c] + rest;
    if content.len() == 0 {
        assert(s[0] == c);
    } else {
        assert(s[0] == content[0]);
        assert(s.skip(1) =~= content.skip(1) + seq![c] + rest);
        assert forall|i: int| 0 <= i < content.skip(1).len() implies #[trigger] content.skip(1)[i]
            != c by {
            assert(content.skip(1)[i] == content[i + 1]);
        }
        lemma_find_char_concat(content.skip(1), c, rest);
    }
}

/// A well-formed annotation at the head of the input is recognized exactly,
/// leaving `rest`.
proof fn lemma_parse_annotation(open: char, content: Seq<char>, rest: Seq<char>, n: int)
    requires
        open == '(' || open == '[' || open == '{',
        forall|i: int| 0 <= i < content.len() ==> #[trigger] content[i]
            != crate::grammar::close_of(open),
        open == '[' ==> crate::grammar::spec_parse_i32(content) == Some(n),
    ensures
        ({
            let s = seq![open] + content + seq![crate::grammar::close_of(open)] + rest;
            let r = crate::grammar::spec_parse_index_element(s);
            &&& r is Ok
            &&& r->Ok_0.1 == rest
            &&& open == '(' ==> r->Ok_0.0 == IndexElementView::Reading(content)
            &&& open == '[' ==> r->Ok_0.0 == IndexElementView::Sense(n)
            &&& open == '{' ==> r->Ok_0.0 == IndexElementView::FormInSentence(content)
        }),
{
    let close = crate::grammar::close_of(open);
    let s = seq![open] + content + seq![close] + rest;
    assert(s[0] == open);
    let body = s.skip(1);
    assert(body =~= content + seq![close] + rest);
    lemma_find_char_concat(content, close, rest);
    let k = crate::grammar::find_char(body, close);
    assert(k == content.len());
    assert(body.take(k) =~= content);
    assert(body.skip(k + 1) =~= rest);
}

/// Chains one recognized element onto a recognized repetition.
proof fn lemma_parse_elements_cons(s: Seq<char>)
    requires
        s.len() > 0,
        !is_token_delimiter(s[0]),
        crate::grammar::spec_parse_index_element(s) is Ok,
        crate::grammar::spec_parse_index_elements(
            crate::grammar::spec_parse_index_element(s)->Ok_0.1,
        ) is Ok,
    ensures
        ({
            let e = crate::grammar::spec_parse_index_element(s)->Ok_0;
            let tailr = crate::grammar::spec_parse_index_elements(e.1)->Ok_0;
            let r = crate::grammar::spec_parse_index_elements(s);
            &&& r is Ok
            &&& r->Ok_0.0 == seq![e.0] + tailr.0
            &&& r->Ok_0.1 == tailr.1
        }),
{
    crate::grammar::lemma_element_consumes(s);
}

/// The canonical decimal text of an `i32` parses back to its value.
proof fn lemma_parse_int_rep(n: int)
    requires
        i32::MIN <= n <= i32::MAX,
    ensures
        crate::grammar::spec_parse_i32(int_rep(n)) == Some(n),
{
    let s = int_rep(n);
    if n < 0 {
        lemma_dec_rep((-n) as nat);
        assert(s[0] == '-');
        assert(s.skip(1) =~= dec_rep((-n) as nat));
        assert(digit_val('-') == 10);
        assert(seq_val(s.skip(1)) == -n);
    } else {
        lemma_dec_rep(n as nat);
        assert(s[0] == dec_rep(n as nat)[0]);
        assert(is_digit_char(s[0]));
        assert(s[0] != '-' && s[0] != '+');
        assert(seq_val(s) == n);
    }
}

/// Every character of an integer's canonical text is the sign or a digit.
proof fn lemma_int_rep_chars(n: int)
    ensures
        forall|i: int| 0 <= i < int_rep(n).len() ==> (#[trigger] int_rep(n)[i] == '-'
            || is_digit_char(int_rep(n)[i])),
{
    if n < 0 {
        lemma_dec_rep((-n) as nat);
        assert forall|i: int| 0 <= i < int_rep(n).len() implies (#[trigger] int_rep(n)[i] == '-'
            || is_digit_char(int_rep(n)[i])) by {
            if i > 0 {
                assert(int_rep(n)[i] == dec_rep((-n) as nat)[i - 1]);
            }
        }
    } else {
        lemma_dec_rep(n as nat);
    }
}

// ---------------------------------------------------------------------------
// Token text of an element list, in its own order
// ---------------------------------------------------------------------------

/// The token text of one index element. A `Bare` marker has none: it is an
/// artifact that serialization drops.
pub open spec fn element_text(e: IndexElementView) -> Seq<char> {
    match e {
        IndexElementView::Reading(r) => seq!['('] + r + seq![')'],
        IndexElementView::Sense(n) => seq!['['] + int_rep(n) + seq![']'],
        IndexElementView::FormInSentence(f) => seq!['{'] + f + seq!['}'],
        IndexElementView::GoodAndChecked => seq!['~'],
        IndexElementView::Bare => Seq::empty(),
    }
}

/// The annotation text of a whole element list, element by element, in the
/// order the list gives them.
pub open spec fn elements_text(es: Seq<IndexElementView>) -> Seq<char>
    decreases es.len(),
{
    if es.len() == 0 {
        Seq::empty()
    } else {
        element_text(es[0]) + elements_text(es.skip(1))
    }
}

/// An element whose text is a well-formed annotation: payloads free of their
/// closing delimiter, the sense number an `i32`, and no `Bare` markers,
/// which have no text of their own.
pub open spec fn valid_element(e: IndexElementView) -> bool {
    match e {
        IndexElementView::Reading(r) => forall|i: int| 0 <= i < r.len() ==> #[trigger] r[i]
            != ')',
        IndexElementView::Sense(n) => i32::MIN <= n <= i32::MAX,
        IndexElementView::FormInSentence(f) => forall|i: int| 0 <= i < f.len() ==> #[trigger] f[i]
            != '}',
        IndexElementView::GoodAndChecked => true,
        IndexElementView::Bare => false,
    }
}

pub open spec fn valid_elements(es: Seq<IndexElementView>) -> bool {
    forall|i: int| 0 <= i < es.len() ==> valid_element(#[trigger] es[i])
}

proof fn lemma_elements_text_concat(xs: Seq<IndexElementView>, ys: Seq<IndexElementView>)
    ensures
        elements_text(xs + ys) == elements_text(xs) + elements_text(ys),
    decreases xs.len(),
{
    if xs.len() == 0 {
        assert(xs + ys =~= ys);
        assert(elements_text(xs) + elements_text(ys) =~= elements_text(ys));
    } else {
        assert((xs + ys)[0] == xs[0]);
        assert((xs + ys).skip(1) =~= xs.skip(1) + ys);
        lemma_elements_text_concat(xs.skip(1), ys);
        assert(element_text(xs[0]) + (elements_text(xs.skip(1)) + elements_text(ys))
            =~= (element_text(xs[0]) + elements_text(xs.skip(1))) + elements_text(ys));
    }
}

/// The annotation text of any well-formed element list, closed by a token
/// delimiter, is recognized back to exactly those elements, in their order.
proof fn lemma_parse_elements_text(es: Seq<IndexElementView>, d: char)
    requires
        valid_elements(es),
        is_token_delimiter(d),
    ensures
        ({
            let r = crate::grammar::spec_parse_index_elements(elements_text(es) + seq![d]);
            &&& r is Ok
            &&& r->Ok_0.0 == es
            &&& r->Ok_0.1 == Seq::<char>::empty()
        }),
    decreases es.len(),
{
    let s = elements_text(es) + seq![d];
    if es.len() == 0 {
        assert(s =~= seq![d]);
        assert(s[0] == d);
        assert(s.skip(1) =~= Seq::<char>::empty());
        assert(crate::grammar::spec_parse_index_elements(s)->Ok_0.0 =~= es);
    } else {
        let e = es[0];
        assert(valid_element(e));
        assert forall|i: int| 0 <= i < es.skip(1).len() implies valid_element(
            #[trigger] es.skip(1)[i],
        ) by {
            assert(es.skip(1)[i] == es[i + 1]);
        }
        lemma_parse_elements_text(es.skip(1), d);
        let rest = elements_text(es.skip(1)) + seq![d];
        assert(s =~= element_text(e) + rest);
        match e {
            IndexElementView::Reading(r) => {
                assert(s =~= seq!['('] + r + seq![')'] + rest);
                lemma_parse_annotation('(', r, rest, 0);
                assert(s[0] == '(');
            },
            IndexElementView::Sense(n) => {
                lemma_parse_int_rep(n);
                lemma_int_rep_chars(n);
                assert(s =~= seq!['['] + int_rep(n) + seq![']'] + rest);
                lemma_parse_annotation('[', int_rep(n), rest, n);
                assert(s[0] == '[');
            },
            IndexElementView::FormInSentence(f) => {
                assert(s =~= seq!['{'] + f + seq!['}'] + rest);
                lemma_parse_annotation('{', f, rest, 0);
                assert(s[0] == '{');
            },
            IndexElementView::GoodAndChecked => {
                assert(s[0] == '~');
                assert(s.skip(1) =~= rest);
            },
            IndexElementView::Bare => {
                assert(false);
            },
        }
        lemma_parse_elements_cons(s);
        assert(seq![e] + es.skip(1) =~= es);
    }
}

/// Law (round trip, any annotation order): a token written as a headword
/// followed by the texts of any well-formed elements — in whatever order
/// the corpus put them, duplicated kinds included — parses, with its
/// delimiter, to exactly the word that keeps the first element of each
/// kind, with nothing left over. Re-serializing that word in the order the
/// elements occur in the token is `elements_text` of those elements, so a
/// token free of the normalized artifacts (`|1`/`|2` markers, duplicated
/// annotation kinds, non-canonical sense digits) is reproduced byte for
/// byte.
pub proof fn lemma_word_round_trip(h: Seq<char>, es: Seq<IndexElementView>, d: char)
    requires
        h.len() > 0,
        forall|i: int| 0 <= i < h.len() ==> is_headword_char(#[trigger] h[i]),
        valid_elements(es),
        is_token_delimiter(d),
    ensures
        ({
            let r = crate::grammar::spec_parse_index_word((h + elements_text(es)).push(d));
            &&& r is Ok
            &&& r->Ok_0.0 == crate::grammar::reduce_elements(h, es)
            &&& r->Ok_0.1 == Seq::<char>::empty()
        }),
{
    let t = (h + elements_text(es)).push(d);
    let tail = elements_text(es) + seq![d];
    assert(t =~= h + tail);
    assert(tail.len() > 0);
    // The headword's run ends exactly where the first annotation, flag or
    // delimiter begins.
    assert(!is_headword_char(tail[0])) by {
        if es.len() == 0 {
            assert(tail =~= seq![d]);
            assert(tail[0] == d);
        } else {
            assert(valid_elements(es));
            assert(valid_element(es[0]));
            let rest = elements_text(es.skip(1)) + seq![d];
            assert(tail =~= element_text(es[0]) + rest);
            match es[0] {
                IndexElementView::Reading(r) => {
                    assert(element_text(es[0])[0] == '(');
                    assert(tail[0] == '(');
                },
                IndexElementView::Sense(n) => {
                    assert(element_text(es[0])[0] == '[');
                    assert(tail[0] == '[');
                },
                IndexElementView::FormInSentence(f) => {
                    assert(element_text(es[0])[0] == '{');
                    assert(tail[0] == '{');
                },
                IndexElementView::GoodAndChecked => {
                    assert(element_text(es[0])[0] == '~');
                    assert(tail[0] == '~');
                },
                IndexElementView::Bare => {
                    assert(false);
                },
            }
        }
    }
    lemma_headword_len_concat(h, tail);
    assert(t.take(h.len() as int) =~= h);
    assert(t.skip(h.len() as int) =~= tail);
    lemma_parse_elements_text(es, d);
}

proof fn lemma_first_reading_concat(xs: Seq<IndexElementView>, ys: Seq<IndexElementView>)
    ensures
        crate::grammar::first_reading(xs + ys) == (if crate::grammar::first_reading(xs) is Some {
            crate::grammar::first_reading(xs)
        } else {
            crate::grammar::first_reading(ys)
        }),
    decreases xs.len(),
{
    reveal_with_fuel(crate::grammar::first_reading, 2);
    if xs.len() == 0 {
        assert(xs + ys =~= ys);
    } else {
        assert((xs + ys)[0] == xs[0]);
        assert((xs + ys).skip(1) =~= xs.skip(1) + ys);
        lemma_first_reading_concat(xs.skip(1), ys);
    }
    let lhs = crate::grammar::first_reading(xs + ys);
    let rhs = if crate::grammar::first_reading(xs) is Some {
        crate::grammar::first_reading(xs)
    } else {
        crate::grammar::first_reading(ys)
    };
    assert(lhs =~= rhs);
}

proof fn lemma_first_sense_concat(xs: Seq<IndexElementView>, ys: Seq<IndexElementView>)
    ensures
        crate::grammar::first_sense(xs + ys) == (if crate::grammar::first_sense(xs) is Some {
            crate::grammar::first_sense(xs)
        } else {
            crate::grammar::first_sense(ys)
        }),
    decreases xs.len(),
{
    reveal_with_fuel(crate::grammar::first_sense, 2);
    if xs.len() == 0 {
        assert(xs + ys =~= ys);
    } else {
        assert((xs + ys)[0] == xs[0]);
        assert((xs + ys).skip(1) =~= xs.skip(1) + ys);
        lemma_first_sense_concat(xs.skip(1), ys);
    }
    let lhs = crate::grammar::first_sense(xs + ys);
    let rhs = if crate::grammar::first_sense(xs) is Some {
        crate::grammar::first_sense(xs)
    } else {
        crate::grammar::first_sense(ys)
    };
    assert(lhs =~= rhs);
}

proof fn lemma_first_form_concat(xs: Seq<IndexElementView>, ys: Seq<IndexElementView>)
    ensures
        crate::grammar::first_form(xs + ys) == (if crate::grammar::first_form(xs) is Some {
            crate::grammar::first_form(xs)
        } else {
            crate::grammar::first_form(ys)
        }),
    decreases xs.len(),
{
    reveal_with_fuel(crate::grammar::first_form, 2);
    if xs.len() == 0 {
        assert(xs + ys =~= ys);
    } else {
        assert((xs + ys)[0] == xs[0]);
        assert((xs + ys).skip(1) =~= xs.skip(1) + ys);
        lemma_first_form_concat(xs.skip(1), ys);
    }
    let lhs = crate::grammar::first_form(xs + ys);
    let rhs = if crate::grammar::first_form(xs) is Some {
        crate::grammar::first_form(xs)
    } else {
        crate::grammar::first_form(ys)
    };
    assert(lhs =~= rhs);
}

proof fn lemma_any_good_concat(xs: Seq<IndexElementView>, ys: Seq<IndexElementView>)
    ensures
        crate::grammar::any_good(xs + ys) == (crate::grammar::any_good(xs)
            || crate::grammar::any_good(ys)),
{
    let s = xs + ys;
    if crate::grammar::any_good(xs) {
        let i = choose|i: int| 0 <= i < xs.len() && xs[i] is GoodAndChecked;
        assert(s[i] is GoodAndChecked);
    }
    if crate::grammar::any_good(ys) {
        let i = choose|i: int| 0 <= i < ys.len() && ys[i] is GoodAndChecked;
        assert(s[xs.len() + i] is GoodAndChecked);
    }
    if crate::grammar::any_good(s) {
        let i = choose|i: int| 0 <= i < s.len() && s[i] is GoodAndChecked;
        if i < xs.len() {
            assert(xs[i] is GoodAndChecked);
        } else {
            assert(ys[i - xs.len()] is GoodAndChecked);
        }
    }
}

/// Law (round trip): serializing a well-formed index word and parsing the
/// result back — with a token delimiter appended, as the grammar demands —
/// recovers exactly the original word, with nothing left over. Canonical
/// tokens therefore survive a parse/serialize round trip byte for byte;
/// only normalized artifacts (duplicate or reordered annotations, leading
/// zeros in the sense number, `|1`/`|2` markers) are rewritten.
#[verifier::rlimit(100)]
pub proof fn lemma_round_trip(w: IndexWordView, d: char)
    requires
        valid_word(w),
        is_token_delimiter(d),
    ensures
        ({
            let r = crate::grammar::spec_parse_index_word(serialize_spec(w).push(d));
            &&& r is Ok
            &&& r->Ok_0.0 == w
            &&& r->Ok_0.1 == Seq::<char>::empty()
        }),
{
    // The canonical element list of the word: one element per present
    // field, in canonical order.
    let gl: Seq<IndexElementView> = if w.good_and_checked {
        seq![IndexElementView::GoodAndChecked]
    } else {
        Seq::empty()
    };
    let fl: Seq<IndexElementView> = match w.form_in_sentence {
        Some(f) => seq![IndexElementView::FormInSentence(f)],
        None => Seq::empty(),
    };
    let sl: Seq<IndexElementView> = match w.sense_number {
        Some(n) => seq![IndexElementView::Sense(n)],
        None => Seq::empty(),
    };
    let rl: Seq<IndexElementView> = match w.reading {
        Some(r) => seq![IndexElementView::Reading(r)],
        None => Seq::empty(),
    };
    let ces = rl + (sl + (fl + gl));

    // Each piece holds at most one element, and a valid one.
    assert(valid_elements(ces)) by {
        assert forall|i: int| 0 <= i < ces.len() implies valid_element(#[trigger] ces[i]) by {
            if i < rl.len() {
                assert(ces[i] == rl[0]);
            } else if i - rl.len() < sl.len() {
                assert(ces[i] == sl[0]);
            } else if i - rl.len() - sl.len() < fl.len() {
                assert(ces[i] == fl[0]);
            } else {
                assert(ces[i] == gl[0]);
            }
        }
    }

    // The serialization is the headword followed by the canonical elements'
    // own text.
    reveal_with_fuel(elements_text, 2);
    assert(rl.len() == 1 ==> rl.skip(1) =~= Seq::<IndexElementView>::empty());
    assert(sl.len() == 1 ==> sl.skip(1) =~= Seq::<IndexElementView>::empty());
    assert(fl.len() == 1 ==> fl.skip(1) =~= Seq::<IndexElementView>::empty());
    assert(gl.len() == 1 ==> gl.skip(1) =~= Seq::<IndexElementView>::empty());
    lemma_elements_text_concat(rl, sl + (fl + gl));
    lemma_elements_text_concat(sl, fl + gl);
    lemma_elements_text_concat(fl, gl);
    assert(serialize_spec(w) =~= w.headword + elements_text(ces));
    assert(serialize_spec(w).push(d) =~= (w.headword + elements_text(ces)).push(d));

    lemma_word_round_trip(w.headword, ces, d);

    // Reducing the canonical elements recovers the five fields exactly.
    lemma_first_reading_concat(rl, sl + (fl + gl));
    lemma_first_reading_concat(sl, fl + gl);
    lemma_first_reading_concat(fl, gl);
    lemma_first_sense_concat(rl, sl + (fl + gl));
    lemma_first_sense_concat(sl, fl + gl);
    lemma_first_sense_concat(fl, gl);
    lemma_first_form_concat(rl, sl + (fl + gl));
    lemma_first_form_concat(sl, fl + gl);
    lemma_first_form_concat(fl, gl);
    lemma_any_good_concat(rl, sl + (fl + gl));
    lemma_any_good_concat(sl, fl + gl);
    lemma_any_good_concat(fl, gl);
    reveal_with_fuel(crate::grammar::first_reading, 2);
    reveal_with_fuel(crate::grammar::first_sense, 2);
    reveal_with_fuel(crate::grammar::first_form, 2);
    assert(crate::grammar::reduce_elements(w.headword, ces) =~~= w);
}

/// Law (round trip, token form): a canonical token — the serialization of
/// some well-formed index word — parses, with its delimiter, to a word that
/// re-serializes to the very same character sequence.
pub proof fn lemma_token_round_trip(t: Seq<char>, w: IndexWordView, d: char)
    requires
        valid_word(w),
        t == serialize_spec(w),
        is_token_delimiter(d),
    ensures
        ({
            let r = crate::grammar::spec_parse_index_word(t.push(d));
            &&& r is Ok
            &&& serialize_spec(r->Ok_0.0) == t
            &&& r->Ok_0.1 == Seq::<char>::empty()
        }),
{
    lemma_round_trip(w, d);
}

} // verus!

//! The index-word grammar: recognizes one headword with its optional inline
//! annotations from a whitespace-delimited token.
//!
//! A token is the longest run of non-delimiter characters (the headword),
//! followed by any number of index elements — `(reading)`, `[sense]`,
//! `{form}`, `~`, or `|1`/`|2` — and is terminated by a single space or
//! newline. The recognizer is deliberately order-agnostic over the elements:
//! real corpus data deviates from the documented canonical order.

use vstd::prelude::*;

use crate::example_sentences::{IndexElement, IndexElementView, IndexWord, IndexWordView,
    ParseError};
use crate::text::string_of_range;

verus! {

// ---------------------------------------------------------------------------
// Character classes
// ---------------------------------------------------------------------------

/// A headword may contain any character that is neither an element opener
/// nor a token delimiter.
pub open spec fn is_headword_char(c: char) -> bool {
    c != '(' && c != '[' && c != '{' && c != '~' && c != '|' && c != ' ' && c != '\n'
}

/// A token ends at a single space or newline.
pub open spec fn is_token_delimiter(c: char) -> bool {
    c == ' ' || c == '\n'
}

/// The decimal value of a digit character, or 10 for any other character.
pub open spec fn digit_val(c: char) -> int {
    if c == '0' { 0 } else if c == '1' { 1 } else if c == '2' { 2 } else if c == '3' { 3 }
    else if c == '4' { 4 } else if c == '5' { 5 } else if c == '6' { 6 } else if c == '7' { 7 }
    else if c == '8' { 8 } else if c == '9' { 9 } else { 10 }
}

pub open spec fn is_digit_char(c: char) -> bool {
    digit_val(c) < 10
}

/// The digit character for a value between 0 and 9.
pub open spec fn digit_char(d: int) -> char {
    if d == 0 { '0' } else if d == 1 { '1' } else if d == 2 { '2' } else if d == 3 { '3' }
    else if d == 4 { '4' } else if d == 5 { '5' } else if d == 6 { '6' } else if d == 7 { '7' }
    else if d == 8 { '8' } else { '9' }
}

/// The closing delimiter paired with an element opener; `'_'` for characters
/// that open nothing.
pub open spec fn close_of(c: char) -> char {
    if c == '(' { ')' } else if c == '[' { ']' } else if c == '{' { '}' } else if c == '~' { '~' }
    else if c == '\n' { '\n' } else { '_' }
}

// ---------------------------------------------------------------------------
// Prefix scans over character sequences
// ---------------------------------------------------------------------------

/// Length of the longest headword-character prefix of `s`.
pub open spec fn headword_len(s: Seq<char>) -> int
    decreases s.len(),
{
    if s.len() == 0 || !is_headword_char(s[0]) {
        0
    } else {
        1 + headword_len(s.skip(1))
    }
}

/// Length of the longest digit prefix of `s`.
pub open spec fn digit_prefix_len(s: Seq<char>) -> int
    decreases s.len(),
{
    if s.len() == 0 || !is_digit_char(s[0]) {
        0
    } else {
        1 + digit_prefix_len(s.skip(1))
    }
}

/// Index of the first occurrence of `c` in `s`, or `s.len()` if absent.
pub open spec fn find_char(s: Seq<char>, c: char) -> int
    decreases s.len(),
{
    if s.len() == 0 {
        0
    } else if s[0] == c {
        0
    } else {
        1 + find_char(s.skip(1), c)
    }
}

/// The decimal value of a sequence of digit characters.
pub open spec fn seq_val(s: Seq<char>) -> int
    decreases s.len(),
{
    if s.len() == 0 {
        0
    } else {
        seq_val(s.drop_last()) * 10 + digit_val(s.last())
    }
}

pub open spec fn all_digits(s: Seq<char>) -> bool {
    forall|i: int| 0 <= i < s.len() ==> is_digit_char(#[trigger] s[i])
}

// ---------------------------------------------------------------------------
// Properties of the prefix scans
// ---------------------------------------------------------------------------

pub proof fn lemma_headword_len(s: Seq<char>)
    ensures
        0 <= headword_len(s) <= s.len(),
        forall|i: int| 0 <= i < headword_len(s) ==> is_headword_char(#[trigger] s[i]),
        headword_len(s) < s.len() ==> !is_headword_char(s[headword_len(s)]),
    decreases s.len(),
{
    if s.len() != 0 && is_headword_char(s[0]) {
        lemma_headword_len(s.skip(1));
        assert forall|i: int| 0 <= i < headword_len(s) implies is_headword_char(#[trigger] s[i]) by {
            if i > 0 {
                assert(s.skip(1)[i - 1] == s[i]);
            }
        }
        if headword_len(s) < s.len() {
            assert(s.skip(1)[headword_len(s) - 1] == s[headword_len(s)]);
        }
    }
}

pub proof fn lemma_digit_prefix_len(s: Seq<char>)
    ensures
        0 <= digit_prefix_len(s) <= s.len(),
        forall|i: int| 0 <= i < digit_prefix_len(s) ==> is_digit_char(#[trigger] s[i]),
        digit_prefix_len(s) < s.len() ==> !is_digit_char(s[digit_prefix_len(s)]),
    decreases s.len(),
{
    if s.len() != 0 && is_digit_char(s[0]) {
        lemma_digit_prefix_len(s.skip(1));
        assert forall|i: int| 0 <= i < digit_prefix_len(s) implies is_digit_char(#[trigger] s[i]) by {
            if i > 0 {
                assert(s.skip(1)[i - 1] == s[i]);
            }
        }
        if digit_prefix_len(s) < s.len() {
            assert(s.skip(1)[digit_prefix_len(s) - 1] == s[digit_prefix_len(s)]);
        }
    }
}

pub proof fn lemma_find_char(s: Seq<char>, c: char)
    ensures
        0 <= find_char(s, c) <= s.len(),
        forall|i: int| 0 <= i < find_char(s, c) ==> #[trigger] s[i] != c,
        find_char(s, c) < s.len() ==> s[find_char(s, c)] == c,
    decreases s.len(),
{
    if s.len() != 0 && s[0] != c {
        lemma_find_char(s.skip(1), c);
        assert forall|i: int| 0 <= i < find_char(s, c) implies #[trigger] s[i] != c by {
            if i > 0 {
                assert(s.skip(1)[i - 1] == s[i]);
            }
        }
        if find_char(s, c) < s.len() {
            assert(s.skip(1)[find_char(s, c) - 1] == s[find_char(s, c)]);
        }
    }
}

// ---------------------------------------------------------------------------
// The grammar, as specification functions
// ---------------------------------------------------------------------------

/// The value of a `[...]` payload: an optional sign, then one or more digits,
/// nothing else, and the result must fit in an `i32`.
pub open spec fn spec_parse_i32(s: Seq<char>) -> Option<int> {
    let neg = s.len() > 0 && s[0] == '-';
    let ds = if s.len() > 0 && (s[0] == '-' || s[0] == '+') {
        s.skip(1)
    } else {
        s
    };
    if ds.len() == 0 || !all_digits(ds) {
        None
    } else {
        let v = if neg {
            -seq_val(ds)
        } else {
            seq_val(ds)
        };
        if i32::MIN <= v <= i32::MAX {
            Some(v)
        } else {
            None
        }
    }
}

/// Recognizes one index element at the head of `s` and returns it together
/// with the unconsumed remainder.
pub open spec fn spec_parse_index_element(s: Seq<char>) -> Result<
    (IndexElementView, Seq<char>),
    ParseError,
> {
    if s.len() == 0 {
        Err(ParseError::MissingSeparator)
    } else if s[0] == '~' {
        Ok((IndexElementView::GoodAndChecked, s.skip(1)))
    } else if s[0] == '|' {
        if s.len() >= 2 && (s[1] == '1' || s[1] == '2') {
            Ok((IndexElementView::Bare, s.skip(2)))
        } else {
            Err(ParseError::UnrecognizedElementMarker)
        }
    } else if s[0] == '(' || s[0] == '[' || s[0] == '{' {
        let body = s.skip(1);
        let k = find_char(body, close_of(s[0]));
        if k == body.len() {
            Err(ParseError::UnterminatedAnnotation)
        } else {
            let content = body.take(k);
            let rest = body.skip(k + 1);
            if s[0] == '(' {
                Ok((IndexElementView::Reading(content), rest))
            } else if s[0] == '{' {
                Ok((IndexElementView::FormInSentence(content), rest))
            } else {
                match spec_parse_i32(content) {
                    Some(n) => Ok((IndexElementView::Sense(n), rest)),
                    None => Err(ParseError::InvalidSenseNumber),
                }
            }
        }
    } else {
        Err(ParseError::UnrecognizedElementMarker)
    }
}

/// Recognizes index elements until a token delimiter is reached, consuming
/// the delimiter itself.
pub open spec fn spec_parse_index_elements(s: Seq<char>) -> Result<
    (Seq<IndexElementView>, Seq<char>),
    ParseError,
>
    decreases s.len(),
{
    if s.len() == 0 {
        Err(ParseError::MissingSeparator)
    } else if is_token_delimiter(s[0]) {
        Ok((Seq::empty(), s.skip(1)))
    } else {
        match spec_parse_index_element(s) {
            Err(e) => Err(e),
            Ok((e, r)) => if r.len() < s.len() {
                match spec_parse_index_elements(r) {
                    Err(e2) => Err(e2),
                    Ok((es, r2)) => Ok((seq![e] + es, r2)),
                }
            } else {
                // Never reached: an element always consumes at least one
                // character (see `lemma_element_consumes`).
                Err(ParseError::MissingSeparator)
            },
        }
    }
}

/// First `Reading` payload among the elements, if any.
pub open spec fn first_reading(es: Seq<IndexElementView>) -> Option<Seq<char>>
    decreases es.len(),
{
    if es.len() == 0 {
        None
    } else {
        match es[0] {
            IndexElementView::Reading(s) => Some(s),
            _ => first_reading(es.skip(1)),
        }
    }
}

/// First `Sense` payload among the elements, if any.
pub open spec fn first_sense(es: Seq<IndexElementView>) -> Option<int>
    decreases es.len(),
{
    if es.len() == 0 {
        None
    } else {
        match es[0] {
            IndexElementView::Sense(n) => Some(n),
            _ => first_sense(es.skip(1)),
        }
    }
}

/// First `FormInSentence` payload among the elements, if any.
pub open spec fn first_form(es: Seq<IndexElementView>) -> Option<Seq<char>>
    decreases es.len(),
{
    if es.len() == 0 {
        None
    } else {
        match es[0] {
            IndexElementView::FormInSentence(s) => Some(s),
            _ => first_form(es.skip(1)),
        }
    }
}

/// Whether any element is the `~` flag.
pub open spec fn any_good(es: Seq<IndexElementView>) -> bool {
    exists|i: int| 0 <= i < es.len() && es[i] is GoodAndChecked
}

/// Reduces a headword and its collected elements to the five index-word
/// fields: the first element of each kind wins, independently per kind.
pub open spec fn reduce_elements(h: Seq<char>, es: Seq<IndexElementView>) -> IndexWordView {
    IndexWordView {
        headword: h,
        reading: first_reading(es),
        sense_number: first_sense(es),
        form_in_sentence: first_form(es),
        good_and_checked: any_good(es),
    }
}

/// Recognizes one whole index word at the head of `s`, including its
/// terminating space or newline, and returns the unconsumed remainder.
pub open spec fn spec_parse_index_word(s: Seq<char>) -> Result<
    (IndexWordView, Seq<char>),
    ParseError,
> {
    let hl = headword_len(s);
    if hl == 0 {
        if s.len() == 0 {
            Err(ParseError::MissingSeparator)
        } else {
            Err(ParseError::UnrecognizedElementMarker)
        }
    } else {
        match spec_parse_index_elements(s.skip(hl)) {
            Err(e) => Err(e),
            Ok((es, r)) => Ok((reduce_elements(s.take(hl), es), r)),
        }
    }
}

// ---------------------------------------------------------------------------
// Consumption: every successful parse strictly shortens the input
// ---------------------------------------------------------------------------

/// A recognized element consumes at least one character, and its remainder
/// is a suffix of the input.
pub proof fn lemma_element_consumes(s: Seq<char>)
    requires
        spec_parse_index_element(s) is Ok,
    ensures
        spec_parse_index_element(s)->Ok_0.1.len() < s.len(),
{
    if s.len() > 0 && (s[0] == '(' || s[0] == '[' || s[0] == '{') {
        lemma_find_char(s.skip(1), close_of(s[0]));
    }
}

/// A recognized index word consumes at least two characters (headword and
/// delimiter).
pub proof fn lemma_word_consumes(s: Seq<char>)
    requires
        spec_parse_index_word(s) is Ok,
    ensures
        spec_parse_index_word(s)->Ok_0.1.len() < s.len(),
{
    let hl = headword_len(s);
    lemma_headword_len(s);
    lemma_elements_consume(s.skip(hl));
}

/// Element repetition consumes at least the terminating delimiter.
pub proof fn lemma_elements_consume(s: Seq<char>)
    requires
        spec_parse_index_elements(s) is Ok,
    ensures
        spec_parse_index_elements(s)->Ok_0.1.len() < s.len(),
    decreases s.len(),
{
    if s.len() == 0 {
    } else if is_token_delimiter(s[0]) {
    } else {
        match spec_parse_index_element(s) {
            Err(_) => {},
            Ok((e, r)) => {
                lemma_element_consumes(s);
                lemma_elements_consume(r);
            },
        }
    }
}

// ---------------------------------------------------------------------------
// Decimal values of digit runs
// ---------------------------------------------------------------------------

/// Extending a digit run by one character multiplies its value by ten and
/// adds the digit.
pub proof fn lemma_seq_val_snoc(t: Seq<char>, m: int)
    requires
        0 <= m < t.len(),
    ensures
        seq_val(t.take(m + 1)) == seq_val(t.take(m)) * 10 + digit_val(t[m]),
{
    assert(t.take(m + 1).drop_last() =~= t.take(m));
    assert(t.take(m + 1).last() == t[m]);
}

/// A decimal value is never negative.
pub proof fn lemma_seq_val_nonneg(t: Seq<char>)
    ensures
        seq_val(t) >= 0,
    decreases t.len(),
{
    if t.len() > 0 {
        lemma_seq_val_nonneg(t.drop_last());
    }
}

/// A prefix of a digit run is worth no more than the whole run.
pub proof fn lemma_seq_val_prefix_le(t: Seq<char>, m: int)
    requires
        0 <= m <= t.len(),
    ensures
        seq_val(t.take(m)) <= seq_val(t),
    decreases t.len() - m,
{
    if m == t.len() {
        assert(t.take(m) =~= t);
    } else {
        lemma_seq_val_snoc(t, m);
        lemma_seq_val_nonneg(t.take(m));
        lemma_seq_val_prefix_le(t, m + 1);
    }
}

// ---------------------------------------------------------------------------
// Executable character helpers
// ---------------------------------------------------------------------------

/// Tests whether a character may stand inside a headword.
pub(crate) fn headword_char(c: char) -> (b: bool)
    ensures
        b == is_headword_char(c),
{
    c != '(' && c != '[' && c != '{' && c != '~' && c != '|' && c != ' ' && c != '\n'
}

/// Tests whether a character terminates a token.
pub(crate) fn token_delimiter(c: char) -> (b: bool)
    ensures
        b == is_token_delimiter(c),
{
    c == ' ' || c == '\n'
}

/// The closing delimiter paired with an element opener.
pub fn match_delimiter(delimiter_open: char) -> (c: char)
    ensures
        c == close_of(delimiter_open),
{
    match delimiter_open {
        '(' => ')',
        '[' => ']',
        '{' => '}',
        '~' => '~',
        '\n' => '\n',
        _ => '_',
    }
}

/// The value of a digit character, or 10 for any other character.
pub(crate) fn digit_of(c: char) -> (d: u32)
    ensures
        d == digit_val(c),
{
    match c {
        '0' => 0,
        '1' => 1,
        '2' => 2,
        '3' => 3,
        '4' => 4,
        '5' => 5,
        '6' => 6,
        '7' => 7,
        '8' => 8,
        '9' => 9,
        _ => 10,
    }
}

// ---------------------------------------------------------------------------
// Executable scans
// ---------------------------------------------------------------------------

/// Advances past the longest headword-character run starting at `i`.
pub(crate) fn scan_headword(s: &Vec<char>, i: usize) -> (j: usize)
    requires
        i <= s.len(),
    ensures
        i <= j <= s.len(),
        j - i == headword_len(s@.skip(i as int)),
{
    let mut j = i;
    while j < s.len() && headword_char(s[j])
        invariant
            i <= j <= s.len(),
            headword_len(s@.skip(i as int)) == j - i + headword_len(s@.skip(j as int)),
        decreases s.len() - j,
    {
        proof {
            assert(s@.skip(j as int)[0] == s@[j as int]);
            assert(s@.skip(j as int).skip(1) =~= s@.skip(j + 1 as int));
        }
        j = j + 1;
    }
    proof {
        if j < s.len() {
            assert(s@.skip(j as int)[0] == s@[j as int]);
        }
        assert(headword_len(s@.skip(j as int)) == 0);
    }
    j
}

/// Finds the first occurrence of `c` at or after position `i`; returns
/// `s.len()` when there is none.
pub(crate) fn scan_char(s: &Vec<char>, i: usize, c: char) -> (k: usize)
    requires
        i <= s.len(),
    ensures
        i <= k <= s.len(),
        k - i == find_char(s@.skip(i as int), c),
{
    let mut k = i;
    while k < s.len() && s[k] != c
        invariant
            i <= k <= s.len(),
            find_char(s@.skip(i as int), c) == k - i + find_char(s@.skip(k as int), c),
        decreases s.len() - k,
    {
        proof {
            assert(s@.skip(k as int)[0] == s@[k as int]);
            assert(s@.skip(k as int).skip(1) =~= s@.skip(k + 1 as int));
        }
        k = k + 1;
    }
    proof {
        if k < s.len() {
            assert(s@.skip(k as int)[0] == s@[k as int]);
        }
        assert(find_char(s@.skip(k as int), c) == 0);
    }
    k
}

/// Parses the characters between positions `i` and `j` as a signed 32-bit
/// integer, exactly as the `[...]` sense payload demands.
pub(crate) fn parse_i32_range(s: &Vec<char>, i: usize, j: usize) -> (r: Option<i32>)
    requires
        i <= j <= s.len(),
    ensures
        match r {
            Some(n) => spec_parse_i32(s@.subrange(i as int, j as int)) == Some(n as int),
            None => spec_parse_i32(s@.subrange(i as int, j as int)) is None,
        },
{
    let ghost t = s@.subrange(i as int, j as int);
    if i == j {
        return None;
    }
    let neg = s[i] == '-';
    let di: usize = if s[i] == '-' || s[i] == '+' {
        i + 1
    } else {
        i
    };
    let ghost ds = s@.subrange(di as int, j as int);
    proof {
        assert(t[0] == s@[i as int]);
        if di == i + 1 {
            assert(t.skip(1) =~= ds);
        } else {
            assert(t =~= ds);
        }
    }
    if di == j {
        return None;
    }
    let mut k = di;
    let mut acc: u64 = 0;
    while k < j
        invariant
            di <= k <= j <= s.len(),
            i < j,
            di == i || di == i + 1,
            t == s@.subrange(i as int, j as int),
            ds == s@.subrange(di as int, j as int),
            (di == i + 1) == (t[0] == '-' || t[0] == '+'),
            neg == (t[0] == '-'),
            di == i + 1 ==> ds == t.skip(1),
            di == i ==> ds == t,
            all_digits(ds.take(k - di)),
            acc == seq_val(ds.take(k - di)),
            acc <= 2147483648,
        decreases j - k,
    {
        let d = digit_of(s[k]);
        proof {
            assert(ds[k - di] == s@[k as int]);
        }
        if d == 10 {
            // A non-digit anywhere in the payload rejects it.
            proof {
                assert(!is_digit_char(ds[k - di]));
                assert(!all_digits(ds));
            }
            return None;
        }
        let acc2: u64 = acc * 10 + (d as u64);
        proof {
            lemma_seq_val_snoc(ds, k - di);
            assert(ds.take(k - di + 1).len() == k - di + 1);
        }
        if acc2 > 2147483648 {
            // The digits seen already exceed every i32, whatever follows.
            proof {
                if all_digits(ds) {
                    lemma_seq_val_prefix_le(ds, k - di + 1);
                    assert(seq_val(ds) >= acc2 > 2147483648);
                    assert(spec_parse_i32(t) is None);
                } else {
                    assert(spec_parse_i32(t) is None);
                }
            }
            return None;
        }
        acc = acc2;
        k = k + 1;
    }
    proof {
        assert(ds.take(j - di) =~= ds);
    }
    if neg {
        let n: i64 = -(acc as i64);
        return Some(n as i32);
    }
    if acc > 2147483647 {
        return None;
    }
    Some(acc as i32)
}

// ---------------------------------------------------------------------------
// Reduction of collected elements to the five index-word fields
// ---------------------------------------------------------------------------

pub open spec fn str_opt_view(o: Option<String>) -> Option<Seq<char>> {
    match o {
        Some(s) => Some(s@),
        None => None,
    }
}

pub open spec fn i32_opt_view(o: Option<i32>) -> Option<int> {
    match o {
        Some(n) => Some(n as int),
        None => None,
    }
}

pub proof fn lemma_first_reading_snoc(es: Seq<IndexElementView>, e: IndexElementView)
    ensures
        first_reading(es.push(e)) == (if first_reading(es) is Some {
            first_reading(es)
        } else {
            match e {
                IndexElementView::Reading(s) => Some(s),
                _ => None,
            }
        }),
    decreases es.len(),
{
    reveal_with_fuel(first_reading, 3);
    if es.len() == 0 {
        assert(es.push(e)[0] == e);
        assert(es.push(e).skip(1) =~= Seq::<IndexElementView>::empty());
    } else {
        assert(es.push(e)[0] == es[0]);
        assert(es.push(e).skip(1) =~= es.skip(1).push(e));
        lemma_first_reading_snoc(es.skip(1), e);
    }
    let rhs = if first_reading(es) is Some {
        first_reading(es)
    } else {
        match e {
            IndexElementView::Reading(s) => Some(s),
            _ => None,
        }
    };
    assert(first_reading(es.push(e)) =~= rhs);
}

pub proof fn lemma_first_sense_snoc(es: Seq<IndexElementView>, e: IndexElementView)
    ensures
        first_sense(es.push(e)) == (if first_sense(es) is Some {
            first_sense(es)
        } else {
            match e {
                IndexElementView::Sense(n) => Some(n),
                _ => None,
            }
        }),
    decreases es.len(),
{
    reveal_with_fuel(first_sense, 3);
    if es.len() == 0 {
        assert(es.push(e)[0] == e);
        assert(es.push(e).skip(1) =~= Seq::<IndexElementView>::empty());
    } else {
        assert(es.push(e)[0] == es[0]);
        assert(es.push(e).skip(1) =~= es.skip(1).push(e));
        lemma_first_sense_snoc(es.skip(1), e);
    }
    let rhs = if first_sense(es) is Some {
        first_sense(es)
    } else {
        match e {
            IndexElementView::Sense(n) => Some(n),
            _ => None,
        }
    };
    assert(first_sense(es.push(e)) =~= rhs);
}

pub proof fn lemma_first_form_snoc(es: Seq<IndexElementView>, e: IndexElementView)
    ensures
        first_form(es.push(e)) == (if first_form(es) is Some {
            first_form(es)
        } else {
            match e {
                IndexElementView::FormInSentence(s) => Some(s),
                _ => None,
            }
        }),
    decreases es.len(),
{
    reveal_with_fuel(first_form, 3);
    if es.len() == 0 {
        assert(es.push(e)[0] == e);
        assert(es.push(e).skip(1) =~= Seq::<IndexElementView>::empty());
    } else {
        assert(es.push(e)[0] == es[0]);
        assert(es.push(e).skip(1) =~= es.skip(1).push(e));
        lemma_first_form_snoc(es.skip(1), e);
    }
    let rhs = if first_form(es) is Some {
        first_form(es)
    } else {
        match e {
            IndexElementView::FormInSentence(s) => Some(s),
            _ => None,
        }
    };
    assert(first_form(es.push(e)) =~= rhs);
}

pub proof fn lemma_any_good_snoc(es: Seq<IndexElementView>, e: IndexElementView)
    ensures
        any_good(es.push(e)) == (any_good(es) || e is GoodAndChecked),
{
    if any_good(es) {
        let i = choose|i: int| 0 <= i < es.len() && es[i] is GoodAndChecked;
        assert(es.push(e)[i] is GoodAndChecked);
    }
    if e is GoodAndChecked {
        assert(es.push(e)[es.len() as int] is GoodAndChecked);
    }
    if any_good(es.push(e)) && !(e is GoodAndChecked) {
        let i = choose|i: int| 0 <= i < es.push(e).len() && es.push(e)[i] is GoodAndChecked;
        assert(0 <= i < es.len() && es[i] is GoodAndChecked);
    }
}

/// Folds the collected elements into the five index-word fields: for each
/// kind, the first occurrence wins; any `~` sets the flag; `Bare` elements
/// contribute nothing.
fn reduce(headword: String, elements: &Vec<IndexElement>) -> (w: IndexWord)
    ensures
        w@ == reduce_elements(headword@, elements.deep_view()),
{
    let ghost es = elements.deep_view();
    let mut reading: Option<String> = None;
    let mut sense_number: Option<i32> = None;
    let mut form_in_sentence: Option<String> = None;
    let mut good_and_checked = false;
    let mut idx: usize = 0;
    proof {
        assert(es.take(0) =~= Seq::<IndexElementView>::empty());
    }
    while idx < elements.len()
        invariant
            idx <= elements.len(),
            es == elements.deep_view(),
            str_opt_view(reading) == first_reading(es.take(idx as int)),
            i32_opt_view(sense_number) == first_sense(es.take(idx as int)),
            str_opt_view(form_in_sentence) == first_form(es.take(idx as int)),
            good_and_checked == any_good(es.take(idx as int)),
        decreases elements.len() - idx,
    {
        proof {
            assert(es.take(idx + 1 as int) =~= es.take(idx as int).push(es[idx as int]));
            lemma_first_reading_snoc(es.take(idx as int), es[idx as int]);
            lemma_first_sense_snoc(es.take(idx as int), es[idx as int]);
            lemma_first_form_snoc(es.take(idx as int), es[idx as int]);
            lemma_any_good_snoc(es.take(idx as int), es[idx as int]);
        }
        match &elements[idx] {
            IndexElement::Reading(s) => {
                if reading.is_none() {
                    reading = Some(s.clone());
                }
            },
            IndexElement::Sense(n) => {
                if sense_number.is_none() {
                    sense_number = Some(*n);
                }
            },
            IndexElement::FormInSentence(s) => {
                if form_in_sentence.is_none() {
                    form_in_sentence = Some(s.clone());
                }
            },
            IndexElement::GoodAndChecked => {
                good_and_checked = true;
            },
            IndexElement::Bare => {},
        }
        idx = idx + 1;
    }
    proof {
        assert(es.take(elements.len() as int) =~= es);
    }
    IndexWord { headword, reading, sense_number, form_in_sentence, good_and_checked }
}

// ---------------------------------------------------------------------------
// Executable element and word parsers
// ---------------------------------------------------------------------------

/// Recognizes one index element at position `i` of `s`; on success returns
/// the element and the position just past it.
pub fn parse_index_element(s: &Vec<char>, i: usize) -> (r: Result<(IndexElement, usize), ParseError>)
    requires
        i <= s.len(),
    ensures
        match r {
            Ok((e, j)) => {
                let sp = spec_parse_index_element(s@.skip(i as int));
                &&& i < j <= s.len()
                &&& sp is Ok
                &&& sp->Ok_0.0 == e@
                &&& sp->Ok_0.1 == s@.skip(j as int)
            },
            Err(err) => {
                let sp = spec_parse_index_element(s@.skip(i as int));
                sp is Err && sp->Err_0 == err
            },
        },
{
    let ghost t = s@.skip(i as int);
    if i >= s.len() {
        return Err(ParseError::MissingSeparator);
    }
    proof {
        assert(t[0] == s@[i as int]);
    }
    let c = s[i];
    if c == '~' {
        proof {
            assert(t.skip(1) =~= s@.skip(i + 1 as int));
        }
        return Ok((IndexElement::GoodAndChecked, i + 1));
    }
    if c == '|' {
        if i + 1 < s.len() {
            let c2 = s[i + 1];
            proof {
                assert(t[1] == s@[i + 1 as int]);
            }
            if c2 == '1' || c2 == '2' {
                proof {
                    assert(t.skip(2) =~= s@.skip(i + 2 as int));
                }
                return Ok((IndexElement::Bare, i + 2));
            }
        }
        return Err(ParseError::UnrecognizedElementMarker);
    }
    if c == '(' || c == '[' || c == '{' {
        let close = match_delimiter(c);
        let k = scan_char(s, i + 1, close);
        proof {
            assert(t.skip(1) =~= s@.skip(i + 1 as int));
        }
        if k == s.len() {
            return Err(ParseError::UnterminatedAnnotation);
        }
        proof {
            assert(t.skip(1).take(k - (i + 1) as int) =~= s@.subrange(i + 1 as int, k as int));
            assert(t.skip(1).skip(k - (i + 1) + 1 as int) =~= s@.skip(k + 1 as int));
        }
        if c == '(' {
            let content = string_of_range(s, i + 1, k);
            return Ok((IndexElement::Reading(content), k + 1));
        }
        if c == '{' {
            let content = string_of_range(s, i + 1, k);
            return Ok((IndexElement::FormInSentence(content), k + 1));
        }
        match parse_i32_range(s, i + 1, k) {
            Some(n) => {
                return Ok((IndexElement::Sense(n), k + 1));
            },
            None => {
                return Err(ParseError::InvalidSenseNumber);
            },
        }
    }
    Err(ParseError::UnrecognizedElementMarker)
}

/// Relates the whole element repetition to the elements already collected
/// (`done`) and the repetition still ahead (`rest`).
pub open spec fn elements_continuation(
    full: Result<(Seq<IndexElementView>, Seq<char>), ParseError>,
    done: Seq<IndexElementView>,
    rest: Result<(Seq<IndexElementView>, Seq<char>), ParseError>,
) -> bool {
    match (full, rest) {
        (Ok(pf), Ok(pr)) => pf.0 == done + pr.0 && pf.1 == pr.1,
        (Err(ef), Err(er)) => ef == er,
        _ => false,
    }
}

/// Recognizes one whole index word at position `i` of `s`, including its
/// terminating space or newline; on success returns the word and the
/// position just past the delimiter.
pub fn parse_index_word(s: &Vec<char>, i: usize) -> (r: Result<(IndexWord, usize), ParseError>)
    requires
        i <= s.len(),
    ensures
        match r {
            Ok((w, j)) => {
                let sp = spec_parse_index_word(s@.skip(i as int));
                &&& i < j <= s.len()
                &&& sp is Ok
                &&& sp->Ok_0.0 == w@
                &&& sp->Ok_0.1 == s@.skip(j as int)
            },
            Err(err) => {
                let sp = spec_parse_index_word(s@.skip(i as int));
                sp is Err && sp->Err_0 == err
            },
        },
{
    let ghost t = s@.skip(i as int);
    let hw_end = scan_headword(s, i);
    if hw_end == i {
        if i >= s.len() {
            return Err(ParseError::MissingSeparator);
        }
        return Err(ParseError::UnrecognizedElementMarker);
    }
    let headword = string_of_range(s, i, hw_end);
    proof {
        assert(t.take(hw_end - i as int) =~= s@.subrange(i as int, hw_end as int));
        assert(t.skip(hw_end - i as int) =~= s@.skip(hw_end as int));
    }
    let mut elements: Vec<IndexElement> = Vec::new();
    let mut pos = hw_end;
    proof {
        assert(elements.deep_view() =~= Seq::<IndexElementView>::empty());
        match spec_parse_index_elements(s@.skip(hw_end as int)) {
            Ok(p) => {
                assert(elements.deep_view() + p.0 =~= p.0);
            },
            Err(_) => {},
        }
    }
    loop
        invariant
            i <= s.len(),
            i < hw_end <= pos <= s.len(),
            t == s@.skip(i as int),
            headword_len(t) == hw_end - i,
            headword@ == t.take(hw_end - i as int),
            t.skip(hw_end - i as int) == s@.skip(hw_end as int),
            elements_continuation(
                spec_parse_index_elements(s@.skip(hw_end as int)),
                elements.deep_view(),
                spec_parse_index_elements(s@.skip(pos as int)),
            ),
        decreases s.len() - pos,
    {
        if pos >= s.len() {
            proof {
                assert(s@.skip(pos as int).len() == 0);
            }
            return Err(ParseError::MissingSeparator);
        }
        let c = s[pos];
        proof {
            assert(s@.skip(pos as int)[0] == s@[pos as int]);
        }
        if token_delimiter(c) {
            proof {
                assert(s@.skip(pos as int).skip(1) =~= s@.skip(pos + 1 as int));
                assert(elements.deep_view() + Seq::<IndexElementView>::empty() =~= elements.deep_view());
            }
            let w = reduce(headword, &elements);
            return Ok((w, pos + 1));
        }
        let ghost prev = elements.deep_view();
        match parse_index_element(s, pos) {
            Ok((e, j)) => {
                elements.push(e);
                proof {
                    assert(elements.deep_view() =~= prev.push(e@));
                    match spec_parse_index_elements(s@.skip(j as int)) {
                        Ok(p2) => {
                            assert(prev + (seq![e@] + p2.0) =~= prev.push(e@) + p2.0);
                        },
                        Err(_) => {},
                    }
                }
                pos = j;
            },
            Err(err) => {
                return Err(err);
            },
        }
    }
}

} // verus!

//! The reverse index: headword to every sentence that exercises it.
//!
//! The index is an association list of buckets, one per headword, in order
//! of first appearance. A sentence is appended to a headword's bucket once
//! per occurrence of that headword among its index words, so bucket order
//! equals corpus order and duplicates are retained.

use vstd::prelude::*;
use vstd::string::StrSliceExecFns;

use crate::example_sentences::{ExampleSentence, ExampleSentenceView, IndexWordView, ParseError};
use crate::normalize::{normalize, normalize_spec, split_lines_spec, lemma_split_lines_unfold,
    first_line_len, LinesWithEndings};
use crate::record::{spec_parse_record, wwwjdict_parser};

verus! {

// ---------------------------------------------------------------------------
// Buckets and the map
// ---------------------------------------------------------------------------

/// One bucket of the reverse index: a headword and, in corpus order, every
/// sentence that cites it (once per citation).
#[derive(Debug, PartialEq, Eq)]
pub struct Bucket {
    pub headword: String,
    pub sentences: Vec<ExampleSentence>,
}

/// Mathematical model of a [`Bucket`].
#[verifier::ext_equal]
pub ghost struct BucketView {
    pub headword: Seq<char>,
    pub sentences: Seq<ExampleSentenceView>,
}

impl View for Bucket {
    type V = BucketView;

    open spec fn view(&self) -> BucketView {
        BucketView { headword: self.headword@, sentences: self.sentences.deep_view() }
    }
}

impl DeepView for Bucket {
    type V = BucketView;

    open spec fn deep_view(&self) -> BucketView {
        self.view()
    }
}

/// The reverse index from headword to sentences.
#[derive(Debug, PartialEq, Eq)]
pub struct SentenceMap {
    buckets: Vec<Bucket>,
}

impl View for SentenceMap {
    type V = Seq<BucketView>;

    closed spec fn view(&self) -> Seq<BucketView> {
        self.buckets.deep_view()
    }
}

/// Every headword owns at most one bucket.
pub open spec fn distinct_keys(m: Seq<BucketView>) -> bool {
    forall|i: int, j: int| 0 <= i < j < m.len() ==> #[trigger] m[i].headword != #[trigger] m[j].headword
}

// ---------------------------------------------------------------------------
// The fold that builds the index, as specification functions
// ---------------------------------------------------------------------------

/// Position of the bucket keyed `w`, or `m.len()` when there is none.
pub open spec fn find_key(m: Seq<BucketView>, w: Seq<char>) -> int
    decreases m.len(),
{
    if m.len() == 0 {
        0
    } else if m[0].headword == w {
        0
    } else {
        1 + find_key(m.skip(1), w)
    }
}

pub proof fn lemma_find_key(m: Seq<BucketView>, w: Seq<char>)
    ensures
        0 <= find_key(m, w) <= m.len(),
        forall|i: int| 0 <= i < find_key(m, w) ==> (#[trigger] m[i]).headword != w,
        find_key(m, w) < m.len() ==> m[find_key(m, w)].headword == w,
    decreases m.len(),
{
    if m.len() != 0 && m[0].headword != w {
        lemma_find_key(m.skip(1), w);
        assert forall|i: int| 0 <= i < find_key(m, w) implies (#[trigger] m[i]).headword != w by {
            if i > 0 {
                assert(m.skip(1)[i - 1] == m[i]);
            }
        }
        if find_key(m, w) < m.len() {
            assert(m.skip(1)[find_key(m, w) - 1] == m[find_key(m, w)]);
        }
    }
}

/// The sentences indexed under `w`: the keyed bucket's contents, or nothing.
pub open spec fn bucket_of(m: Seq<BucketView>, w: Seq<char>) -> Seq<ExampleSentenceView> {
    let k = find_key(m, w);
    if k < m.len() {
        m[k].sentences
    } else {
        Seq::empty()
    }
}

/// Appends `s` to the bucket keyed `w`, creating the bucket at the end when
/// absent.
pub open spec fn add_one(m: Seq<BucketView>, w: Seq<char>, s: ExampleSentenceView) -> Seq<
    BucketView,
> {
    let k = find_key(m, w);
    if k < m.len() {
        m.update(k, BucketView { headword: w, sentences: m[k].sentences.push(s) })
    } else {
        m.push(BucketView { headword: w, sentences: seq![s] })
    }
}

/// Appends `s` under each of the index words `ws`, in order.
pub open spec fn add_words(
    m: Seq<BucketView>,
    s: ExampleSentenceView,
    ws: Seq<IndexWordView>,
) -> Seq<BucketView>
    decreases ws.len(),
{
    if ws.len() == 0 {
        m
    } else {
        add_words(add_one(m, ws[0].headword, s), s, ws.skip(1))
    }
}

/// Indexes one sentence under every one of its index words.
pub open spec fn add_sentence(m: Seq<BucketView>, s: ExampleSentenceView) -> Seq<BucketView> {
    add_words(m, s, s.indices)
}

/// Folds the sentences into `m`, in order.
pub open spec fn build_from(m: Seq<BucketView>, ss: Seq<ExampleSentenceView>) -> Seq<BucketView>
    decreases ss.len(),
{
    if ss.len() == 0 {
        m
    } else {
        build_from(add_sentence(m, ss[0]), ss.skip(1))
    }
}

/// The index of a whole corpus: the fold starting from the empty map.
pub open spec fn build_spec(ss: Seq<ExampleSentenceView>) -> Seq<BucketView> {
    build_from(Seq::empty(), ss)
}

pub proof fn lemma_add_words_snoc(
    m: Seq<BucketView>,
    s: ExampleSentenceView,
    ws: Seq<IndexWordView>,
    w: IndexWordView,
)
    ensures
        add_words(m, s, ws.push(w)) == add_one(add_words(m, s, ws), w.headword, s),
    decreases ws.len(),
{
    reveal_with_fuel(add_words, 2);
    if ws.len() == 0 {
        assert(ws.push(w)[0] == w);
        assert(ws.push(w).skip(1) =~= Seq::<IndexWordView>::empty());
    } else {
        assert(ws.push(w)[0] == ws[0]);
        assert(ws.push(w).skip(1) =~= ws.skip(1).push(w));
        lemma_add_words_snoc(add_one(m, ws[0].headword, s), s, ws.skip(1), w);
    }
}

pub proof fn lemma_build_from_snoc(
    m: Seq<BucketView>,
    ss: Seq<ExampleSentenceView>,
    s: ExampleSentenceView,
)
    ensures
        build_from(m, ss.push(s)) == add_sentence(build_from(m, ss), s),
    decreases ss.len(),
{
    reveal_with_fuel(build_from, 2);
    if ss.len() == 0 {
        assert(ss.push(s)[0] == s);
        assert(ss.push(s).skip(1) =~= Seq::<ExampleSentenceView>::empty());
    } else {
        assert(ss.push(s)[0] == ss[0]);
        assert(ss.push(s).skip(1) =~= ss.skip(1).push(s));
        lemma_build_from_snoc(add_sentence(m, ss[0]), ss.skip(1), s);
    }
}

/// `add_one` keeps keys distinct.
pub proof fn lemma_add_one_distinct(m: Seq<BucketView>, w: Seq<char>, s: ExampleSentenceView)
    requires
        distinct_keys(m),
    ensures
        distinct_keys(add_one(m, w, s)),
{
    lemma_find_key(m, w);
    let k = find_key(m, w);
    let m2 = add_one(m, w, s);
    if k < m.len() {
        assert forall|i: int, j: int| 0 <= i < j < m2.len() implies (#[trigger] m2[i]).headword
            != (#[trigger] m2[j]).headword by {
            assert(m[i].headword != m[j].headword);
        }
    } else {
        assert forall|i: int, j: int| 0 <= i < j < m2.len() implies (#[trigger] m2[i]).headword
            != (#[trigger] m2[j]).headword by {
            if j < m.len() {
                assert(m[i].headword != m[j].headword);
            } else {
                assert(m2[i] == m[i]);
                assert(m[i].headword != w);
            }
        }
    }
}

// ---------------------------------------------------------------------------
// Executable map operations
// ---------------------------------------------------------------------------

impl SentenceMap {
    /// An empty index.
    pub fn new() -> (m: SentenceMap)
        ensures
            m@ == Seq::<BucketView>::empty(),
            distinct_keys(m@),
    {
        let m = SentenceMap { buckets: Vec::new() };
        proof {
            assert(m@ =~= Seq::<BucketView>::empty());
        }
        m
    }

    /// Appends one citation of `sentence` under `headword`.
    fn append(&mut self, headword: &String, sentence: &ExampleSentence)
        requires
            distinct_keys(old(self)@),
        ensures
            final(self)@ == add_one(old(self)@, headword@, sentence@),
            distinct_keys(final(self)@),
    {
        let ghost m0 = self@;
        proof {
            lemma_find_key(m0, headword@);
            lemma_add_one_distinct(m0, headword@, sentence@);
        }
        let n = self.buckets.len();
        let mut i: usize = 0;
        while i < n
            invariant
                i <= n,
                n == self.buckets.len(),
                self@ == m0,
                m0 == old(self)@,
                distinct_keys(m0),
                forall|k: int| 0 <= k < i ==> (#[trigger] m0[k]).headword != headword@,
            decreases n - i,
        {
            if self.buckets[i].headword == *headword {
                proof {
                    assert(m0[i as int] == self.buckets@[i as int].deep_view());
                }
                proof {
                    lemma_find_key(m0, headword@);
                    lemma_add_one_distinct(m0, headword@, sentence@);
                    // The scan stopped at the first match, which is exactly
                    // where `find_key` points.
                    if find_key(m0, headword@) < i {
                        assert(m0[find_key(m0, headword@)].headword != headword@);
                    }
                    assert(find_key(m0, headword@) == i);
                }
                let s2 = sentence.clone();
                self.buckets[i].sentences.push(s2);
                proof {
                    assert(self.buckets@[i as int].sentences.deep_view() =~~= m0[i as int]
                        .sentences.push(sentence@));
                    assert(self@ =~~= add_one(m0, headword@, sentence@));
                }
                return;
            }
            i = i + 1;
        }
        proof {
            if find_key(m0, headword@) < m0.len() {
                assert(m0[find_key(m0, headword@)].headword == headword@);
            }
            assert(find_key(m0, headword@) == m0.len());
        }
        let s2 = sentence.clone();
        let mut cited: Vec<ExampleSentence> = Vec::new();
        cited.push(s2);
        proof {
            assert(cited.deep_view() =~~= seq![sentence@]);
        }
        let hw = headword.clone();
        self.buckets.push(Bucket { headword: hw, sentences: cited });
        proof {
            assert(self@ =~~= add_one(m0, headword@, sentence@));
        }
    }

    /// The sentences indexed under `headword`, in corpus order; empty when
    /// the headword never occurs. Never an error.
    pub fn lookup(&self, headword: &str) -> (r: Vec<ExampleSentence>)
        ensures
            r.deep_view() == bucket_of(self@, headword@),
    {
        let ghost m = self@;
        proof {
            lemma_find_key(m, headword@);
        }
        let key = String::from_str(headword);
        let mut i: usize = 0;
        while i < self.buckets.len()
            invariant
                i <= self.buckets.len(),
                m == self@,
                key@ == headword@,
                forall|k: int| 0 <= k < i ==> (#[trigger] m[k]).headword != headword@,
            decreases self.buckets.len() - i,
        {
            if self.buckets[i].headword == key {
                proof {
                    assert(m[i as int] == self.buckets@[i as int].deep_view());
                    lemma_find_key(m, headword@);
                    if find_key(m, headword@) < i {
                        assert(m[find_key(m, headword@)].headword != headword@);
                    }
                    assert(find_key(m, headword@) == i);
                }
                let r = clone_sentences(&self.buckets[i].sentences);
                return r;
            }
            i = i + 1;
        }
        proof {
            if find_key(m, headword@) < m.len() {
                assert(m[find_key(m, headword@)].headword == headword@);
            }
            assert(bucket_of(m, headword@) == Seq::<ExampleSentenceView>::empty());
        }
        let r: Vec<ExampleSentence> = Vec::new();
        proof {
            assert(r.deep_view() =~= Seq::<ExampleSentenceView>::empty());
        }
        r
    }
}

/// Clones a list of sentences element by element, preserving the model.
fn clone_sentences(v: &Vec<ExampleSentence>) -> (res: Vec<ExampleSentence>)
    ensures
        res.deep_view() == v.deep_view(),
{
    let mut res: Vec<ExampleSentence> = Vec::new();
    let mut i: usize = 0;
    while i < v.len()
        invariant
            i <= v.len(),
            res@.len() == i,
            forall|j: int| 0 <= j < i ==> (#[trigger] res@[j])@ == v@[j]@,
        decreases v.len() - i,
    {
        res.push(v[i].clone());
        i = i + 1;
    }
    proof {
        assert forall|j: int| 0 <= j < v@.len() implies res.deep_view()[j] == v.deep_view()[j] by {
            assert(res.deep_view()[j] == res@[j].deep_view());
            assert(v.deep_view()[j] == v@[j].deep_view());
        }
        assert(res.deep_view() =~~= v.deep_view());
    }
    res
}

/// Folds already-parsed sentences into a fresh index: each sentence is
/// appended under every one of its index words, in order.
pub fn build_index(sentences: &Vec<ExampleSentence>) -> (m: SentenceMap)
    ensures
        m@ == build_spec(sentences.deep_view()),
        distinct_keys(m@),
{
    let ghost ss = sentences.deep_view();
    let mut m = SentenceMap::new();
    let mut i: usize = 0;
    proof {
        assert(build_from(Seq::<BucketView>::empty(), ss.take(0)) == Seq::<BucketView>::empty());
    }
    while i < sentences.len()
        invariant
            i <= sentences.len(),
            ss == sentences.deep_view(),
            m@ == build_from(Seq::<BucketView>::empty(), ss.take(i as int)),
            distinct_keys(m@),
        decreases sentences.len() - i,
    {
        let ghost mi = m@;
        let sentence = &sentences[i];
        let ghost sv = ss[i as int];
        proof {
            assert(sentence.deep_view() == sv);
        }
        let nw = sentence.indices.len();
        let mut k: usize = 0;
        proof {
            assert(sv.indices.take(0) =~= Seq::<IndexWordView>::empty());
        }
        while k < nw
            invariant
                k <= nw,
                ss == sentences.deep_view(),
                i < sentences.len(),
                nw == sentences[i as int].indices.len(),
                sv == ss[i as int],
                sv == sentences[i as int].deep_view(),
                sv.indices.len() == nw,
                m@ == add_words(mi, sv, sv.indices.take(k as int)),
                distinct_keys(m@),
            decreases nw - k,
        {
            let sentence = &sentences[i];
            let w = &sentence.indices[k];
            proof {
                assert(sv.indices[k as int] == w@);
                assert(sv.indices.take(k + 1 as int) =~= sv.indices.take(k as int).push(w@));
                lemma_add_words_snoc(mi, sv, sv.indices.take(k as int), w@);
            }
            m.append(&w.headword, sentence);
            k = k + 1;
        }
        proof {
            assert(sv.indices.take(nw as int) =~= sv.indices);
            assert(ss.take(i + 1 as int) =~= ss.take(i as int).push(sv));
            lemma_build_from_snoc(Seq::<BucketView>::empty(), ss.take(i as int), sv);
        }
        i = i + 1;
    }
    proof {
        assert(ss.take(sentences.len() as int) =~= ss);
    }
    m
}

// ---------------------------------------------------------------------------
// Loading a whole corpus
// ---------------------------------------------------------------------------

/// One corpus line that failed to parse: its 1-based line number and why.
#[derive(Debug, Clone, Copy, PartialEq, Eq, Structural)]
pub struct LineError {
    pub line_number: usize,
    pub error: ParseError,
}

impl View for LineError {
    type V = (int, ParseError);

    open spec fn view(&self) -> (int, ParseError) {
        (self.line_number as int, self.error)
    }
}

impl DeepView for LineError {
    type V = (int, ParseError);

    open spec fn deep_view(&self) -> (int, ParseError) {
        self.view()
    }
}

/// The sentences of the lines that parse, in line order.
pub open spec fn ok_sentences(ls: Seq<Seq<char>>) -> Seq<ExampleSentenceView>
    decreases ls.len(),
{
    if ls.len() == 0 {
        Seq::empty()
    } else {
        let rest = ok_sentences(ls.drop_last());
        match spec_parse_record(ls.last()) {
            Ok(v) => rest.push(v),
            Err(_) => rest,
        }
    }
}

/// The lines that fail to parse, each as its 1-based line number and error,
/// in line order.
pub open spec fn line_errors(ls: Seq<Seq<char>>) -> Seq<(int, ParseError)>
    decreases ls.len(),
{
    if ls.len() == 0 {
        Seq::empty()
    } else {
        let rest = line_errors(ls.drop_last());
        match spec_parse_record(ls.last()) {
            Ok(_) => rest,
            Err(e) => rest.push((ls.len() as int, e)),
        }
    }
}

/// Loads a whole corpus: normalizes the text, splits it into lines, parses
/// every line, and folds the sentences that parse into the reverse index.
///
/// A line that fails to parse is skipped and reported with its line number;
/// it never aborts the load and is never dropped silently.
pub fn load(corpus: &str) -> (r: (SentenceMap, Vec<LineError>))
    ensures
        ({
            let ls = split_lines_spec(normalize_spec(corpus@));
            &&& r.0@ == build_spec(ok_sentences(ls))
            &&& distinct_keys(r.0@)
            &&& r.1.deep_view() == line_errors(ls)
        }),
{
    let normalized = normalize(corpus);
    let ghost whole = normalized@;
    let ghost all_lines = split_lines_spec(whole);
    let total = normalized.as_str().unicode_len();
    let mut it = LinesWithEndings::from(normalized.as_str());
    let mut sentences: Vec<ExampleSentence> = Vec::new();
    let mut errors: Vec<LineError> = Vec::new();
    let mut line_number: usize = 0;
    let ghost mut done: Seq<Seq<char>> = Seq::empty();
    proof {
        assert(done + split_lines_spec(it.remaining()) =~= split_lines_spec(it.remaining()));
        assert(sentences.deep_view() =~= Seq::<ExampleSentenceView>::empty());
        assert(errors.deep_view() =~= Seq::<(int, ParseError)>::empty());
    }
    loop
        invariant
            it.wf(),
            whole == normalize_spec(corpus@),
            all_lines == split_lines_spec(whole),
            all_lines == done + split_lines_spec(it.remaining()),
            done.len() + it.remaining().len() <= whole.len(),
            whole.len() == total,
            line_number == done.len(),
            sentences.deep_view() == ok_sentences(done),
            errors.deep_view() == line_errors(done),
        decreases it.remaining().len(),
    {
        let ghost rem = it.remaining();
        let ghost prev_sentences = sentences.deep_view();
        let ghost prev_errors = errors.deep_view();
        match it.next() {
            None => {
                proof {
                    assert(split_lines_spec(rem) =~= Seq::<Seq<char>>::empty());
                    assert(done + split_lines_spec(rem) =~= done);
                }
                let map = build_index(&sentences);
                return (map, errors);
            },
            Some(l) => {
                proof {
                    lemma_split_lines_unfold(rem);
                    assert((seq![l@] + split_lines_spec(rem.skip(first_line_len(rem)))).len()
                        >= 1);
                    assert(done + (seq![l@] + split_lines_spec(rem.skip(first_line_len(rem))))
                        =~= done.push(l@) + split_lines_spec(rem.skip(first_line_len(rem))));
                    assert(done.push(l@).drop_last() =~= done);
                    assert(done.push(l@).last() == l@);
                }
                match wwwjdict_parser(l.as_str()) {
                    Ok(sentence) => {
                        sentences.push(sentence);
                        proof {
                            assert(sentences.deep_view() =~~= prev_sentences.push(
                                spec_parse_record(l@)->Ok_0,
                            ));
                            assert(sentences.deep_view() =~= ok_sentences(done.push(l@)));
                            assert(errors.deep_view() =~= line_errors(done.push(l@)));
                        }
                    },
                    Err(error) => {
                        errors.push(LineError { line_number: line_number + 1, error });
                        proof {
                            assert(errors.deep_view() =~~= prev_errors.push(
                                (done.push(l@).len() as int, spec_parse_record(l@)->Err_0),
                            ));
                            assert(errors.deep_view() =~= line_errors(done.push(l@)));
                            assert(sentences.deep_view() =~= ok_sentences(done.push(l@)));
                        }
                    },
                }
                proof {
                    done = done.push(l@);
                }
                line_number = line_number + 1;
            },
        }
    }
}

} // verus!

//! Laws of the reverse index: what each bucket holds, in what order, and
//! how many entries the whole index carries.

use vstd::prelude::*;

use crate::example_sentences::{ExampleSentenceView, IndexWordView};
use crate::index::{add_one, add_sentence, add_words, bucket_of, build_from, build_spec, find_key,
    lemma_find_key, BucketView};

verus! {

// ---------------------------------------------------------------------------
// Counting citations
// ---------------------------------------------------------------------------

/// How many of the index words `ws` cite the headword `w`.
pub open spec fn count_occurrences(ws: Seq<IndexWordView>, w: Seq<char>) -> nat
    decreases ws.len(),
{
    if ws.len() == 0 {
        0
    } else {
        (if ws[0].headword == w {
            1nat
        } else {
            0nat
        }) + count_occurrences(ws.skip(1), w)
    }
}

/// The sentence `s`, `n` times over.
pub open spec fn repeat_sentence(s: ExampleSentenceView, n: nat) -> Seq<ExampleSentenceView> {
    Seq::new(n, |i: int| s)
}

/// What the corpus contributes to the bucket of `w`: each sentence in line
/// order, once per citation of `w` among its index words.
pub open spec fn bucket_contributions(ss: Seq<ExampleSentenceView>, w: Seq<char>) -> Seq<
    ExampleSentenceView,
>
    decreases ss.len(),
{
    if ss.len() == 0 {
        Seq::empty()
    } else {
        repeat_sentence(ss[0], count_occurrences(ss[0].indices, w)) + bucket_contributions(
            ss.skip(1),
            w,
        )
    }
}

/// Total number of entries over all buckets of the index.
pub open spec fn total_entries(m: Seq<BucketView>) -> nat
    decreases m.len(),
{
    if m.len() == 0 {
        0
    } else {
        m[0].sentences.len() + total_entries(m.skip(1))
    }
}

/// Total number of index words over all sentences.
pub open spec fn total_index_words(ss: Seq<ExampleSentenceView>) -> nat
    decreases ss.len(),
{
    if ss.len() == 0 {
        0
    } else {
        ss[0].indices.len() + total_index_words(ss.skip(1))
    }
}

// ---------------------------------------------------------------------------
// How find_key moves under update and push
// ---------------------------------------------------------------------------

proof fn lemma_find_key_update_same_key(m: Seq<BucketView>, k: int, b: BucketView, w: Seq<char>)
    requires
        0 <= k < m.len(),
        b.headword == m[k].headword,
    ensures
        find_key(m.update(k, b), w) == find_key(m, w),
    decreases m.len(),
{
    let m2 = m.update(k, b);
    assert(m2[0] == if k == 0 {
        b
    } else {
        m[0]
    });
    if m[0].headword != w {
        if k == 0 {
            assert(m2.skip(1) =~= m.skip(1));
        } else {
            assert(m2.skip(1) =~= m.skip(1).update(k - 1, b));
            lemma_find_key_update_same_key(m.skip(1), k - 1, b, w);
        }
    }
}

proof fn lemma_find_key_push(m: Seq<BucketView>, b: BucketView, w: Seq<char>)
    ensures
        find_key(m.push(b), w) == (if find_key(m, w) < m.len() {
            find_key(m, w)
        } else if b.headword == w {
            m.len() as int
        } else {
            m.len() + 1 as int
        }),
    decreases m.len(),
{
    reveal_with_fuel(find_key, 2);
    lemma_find_key(m, w);
    if m.len() == 0 {
        assert(m.push(b)[0] == b);
        assert(m.push(b).skip(1) =~= Seq::<BucketView>::empty());
    } else {
        assert(m.push(b)[0] == m[0]);
        assert(m.push(b).skip(1) =~= m.skip(1).push(b));
        lemma_find_key_push(m.skip(1), b, w);
    }
}

// ---------------------------------------------------------------------------
// How buckets move under the fold
// ---------------------------------------------------------------------------

/// Appending under `w2` pushes onto the bucket of `w2` and leaves every
/// other bucket alone.
proof fn lemma_bucket_add_one(
    m: Seq<BucketView>,
    w2: Seq<char>,
    s: ExampleSentenceView,
    w: Seq<char>,
)
    ensures
        bucket_of(add_one(m, w2, s), w) == (if w == w2 {
            bucket_of(m, w).push(s)
        } else {
            bucket_of(m, w)
        }),
{
    lemma_find_key(m, w);
    lemma_find_key(m, w2);
    let k2 = find_key(m, w2);
    if k2 < m.len() {
        let b2 = BucketView { headword: w2, sentences: m[k2].sentences.push(s) };
        assert(b2.headword == m[k2].headword);
        lemma_find_key_update_same_key(m, k2, b2, w);
        let m2 = m.update(k2, b2);
        let k = find_key(m, w);
        if w == w2 {
            assert(k == k2);
        } else {
            if k < m.len() {
                assert(k != k2);
                assert(m2[k] == m[k]);
            }
        }
    } else {
        let b2 = BucketView { headword: w2, sentences: seq![s] };
        lemma_find_key_push(m, b2, w);
        let m2 = m.push(b2);
        if w == w2 {
            assert(find_key(m, w) == m.len());
            assert(m2[m.len() as int] == b2);
            assert(bucket_of(m, w).push(s) =~= seq![s]);
        } else {
            let k = find_key(m, w);
            if k < m.len() {
                assert(m2[k] == m[k]);
            }
        }
    }
}

/// Indexing one sentence appends it to the bucket of `w` once per citation.
proof fn lemma_bucket_add_words(
    m: Seq<BucketView>,
    s: ExampleSentenceView,
    ws: Seq<IndexWordView>,
    w: Seq<char>,
)
    ensures
        bucket_of(add_words(m, s, ws), w) == bucket_of(m, w) + repeat_sentence(
            s,
            count_occurrences(ws, w),
        ),
    decreases ws.len(),
{
    if ws.len() == 0 {
        assert(bucket_of(m, w) + repeat_sentence(s, 0) =~= bucket_of(m, w));
    } else {
        lemma_bucket_add_one(m, ws[0].headword, s, w);
        lemma_bucket_add_words(add_one(m, ws[0].headword, s), s, ws.skip(1), w);
        let c1 = count_occurrences(ws.skip(1), w);
        if ws[0].headword == w {
            assert((bucket_of(m, w).push(s)) + repeat_sentence(s, c1) =~= bucket_of(m, w)
                + repeat_sentence(s, (c1 + 1) as nat));
        }
    }
}

/// Folding sentences into `m` extends each bucket by that corpus's
/// contributions, in order.
proof fn lemma_bucket_build_from(m: Seq<BucketView>, ss: Seq<ExampleSentenceView>, w: Seq<char>)
    ensures
        bucket_of(build_from(m, ss), w) == bucket_of(m, w) + bucket_contributions(ss, w),
    decreases ss.len(),
{
    if ss.len() == 0 {
        assert(bucket_of(m, w) + bucket_contributions(ss, w) =~= bucket_of(m, w));
    } else {
        lemma_bucket_add_words(m, ss[0], ss[0].indices, w);
        lemma_bucket_build_from(add_sentence(m, ss[0]), ss.skip(1), w);
        assert((bucket_of(m, w) + repeat_sentence(ss[0], count_occurrences(ss[0].indices, w)))
            + bucket_contributions(ss.skip(1), w) =~= bucket_of(m, w) + bucket_contributions(
            ss,
            w,
        ));
    }
}

/// Law: in the index built from a corpus, the bucket of every headword `w`
/// holds exactly the corpus's contributions to `w` — each sentence in line
/// order, once per citation, duplicates retained and nothing else.
pub proof fn lemma_index_bucket(ss: Seq<ExampleSentenceView>, w: Seq<char>)
    ensures
        bucket_of(build_spec(ss), w) == bucket_contributions(ss, w),
{
    lemma_bucket_build_from(Seq::empty(), ss, w);
    assert(find_key(Seq::<BucketView>::empty(), w) == 0);
    assert(bucket_of(Seq::<BucketView>::empty(), w) + bucket_contributions(ss, w)
        =~= bucket_contributions(ss, w));
}

/// Law (absent headword): a headword that no sentence of the corpus cites
/// has an empty bucket in the built index — a lookup returns the empty
/// sequence, never an error.
pub proof fn lemma_lookup_absent(ss: Seq<ExampleSentenceView>, w: Seq<char>)
    requires
        forall|i: int| 0 <= i < ss.len() ==> count_occurrences((#[trigger] ss[i]).indices, w)
            == 0,
    ensures
        bucket_of(build_spec(ss), w) == Seq::<ExampleSentenceView>::empty(),
{
    lemma_index_bucket(ss, w);
    lemma_contributions_absent(ss, w);
}

proof fn lemma_contributions_absent(ss: Seq<ExampleSentenceView>, w: Seq<char>)
    requires
        forall|i: int| 0 <= i < ss.len() ==> count_occurrences((#[trigger] ss[i]).indices, w)
            == 0,
    ensures
        bucket_contributions(ss, w) == Seq::<ExampleSentenceView>::empty(),
    decreases ss.len(),
{
    if ss.len() > 0 {
        assert forall|i: int| 0 <= i < ss.skip(1).len() implies count_occurrences(
            (#[trigger] ss.skip(1)[i]).indices,
            w,
        ) == 0 by {
            assert(ss.skip(1)[i] == ss[i + 1]);
        }
        lemma_contributions_absent(ss.skip(1), w);
        assert(bucket_contributions(ss, w) =~= Seq::<ExampleSentenceView>::empty());
    }
}

// ---------------------------------------------------------------------------
// Law: the order invariant
// ---------------------------------------------------------------------------

/// The contributions of a corpus split around any line boundary.
proof fn lemma_contrib_split(ss: Seq<ExampleSentenceView>, w: Seq<char>, k: int)
    requires
        0 <= k <= ss.len(),
    ensures
        bucket_contributions(ss, w) == bucket_contributions(ss.take(k), w)
            + bucket_contributions(ss.skip(k), w),
    decreases k,
{
    if k == 0 {
        assert(ss.take(0) =~= Seq::<ExampleSentenceView>::empty());
        assert(ss.skip(0) =~= ss);
        assert(bucket_contributions(ss.take(0), w) + bucket_contributions(ss, w)
            =~= bucket_contributions(ss, w));
    } else {
        assert(ss.take(k)[0] == ss[0]);
        assert(ss.take(k).skip(1) =~= ss.skip(1).take(k - 1));
        assert(ss.skip(1).skip(k - 1) =~= ss.skip(k));
        lemma_contrib_split(ss.skip(1), w, k - 1);
        let r = repeat_sentence(ss[0], count_occurrences(ss[0].indices, w));
        assert(r + (bucket_contributions(ss.skip(1).take(k - 1), w) + bucket_contributions(
            ss.skip(k),
            w,
        )) =~= (r + bucket_contributions(ss.skip(1).take(k - 1), w)) + bucket_contributions(
            ss.skip(k),
            w,
        ));
    }
}

/// The block of positions that line `i` occupies in the bucket of `w`.
proof fn lemma_contrib_cites(ss: Seq<ExampleSentenceView>, w: Seq<char>, i: int)
    requires
        0 <= i < ss.len(),
    ensures
        bucket_contributions(ss.take(i), w).len() + count_occurrences(ss[i].indices, w)
            <= bucket_contributions(ss, w).len(),
        forall|t: int|
            0 <= t < count_occurrences(ss[i].indices, w) ==> #[trigger] bucket_contributions(
                ss,
                w,
            )[bucket_contributions(ss.take(i), w).len() + t] == ss[i],
{
    lemma_contrib_split(ss, w, i);
    assert(ss.skip(i)[0] == ss[i]);
    assert(ss.skip(i).skip(1) =~= ss.skip(i + 1));
    let c = count_occurrences(ss[i].indices, w);
    let p = bucket_contributions(ss.take(i), w).len() as int;
    assert(bucket_contributions(ss.skip(i), w) == repeat_sentence(ss[i], c)
        + bucket_contributions(ss.skip(i + 1), w));
    assert forall|t: int| 0 <= t < c implies #[trigger] bucket_contributions(ss, w)[p + t]
        == ss[i] by {
        assert(bucket_contributions(ss.skip(i), w)[t] == ss[i]);
    }
}

/// Law (order invariant): when lines `i < j` of the corpus both cite the
/// headword `w`, every entry that line `i` contributes to `w`'s bucket
/// stands before every entry that line `j` contributes — whatever else the
/// corpus holds. In particular the bucket lists line `i`'s sentence before
/// line `j`'s.
pub proof fn lemma_lookup_order(ss: Seq<ExampleSentenceView>, w: Seq<char>, i: int, j: int)
    requires
        0 <= i < j < ss.len(),
        count_occurrences(ss[i].indices, w) > 0,
        count_occurrences(ss[j].indices, w) > 0,
    ensures
        ({
            let b = bucket_of(build_spec(ss), w);
            let pi = bucket_contributions(ss.take(i), w).len() as int;
            let pj = bucket_contributions(ss.take(j), w).len() as int;
            &&& pi < pj < b.len()
            &&& b[pi] == ss[i]
            &&& b[pj] == ss[j]
        }),
{
    lemma_index_bucket(ss, w);
    lemma_contrib_cites(ss, w, i);
    lemma_contrib_cites(ss, w, j);
    // take(j) still contains line i, so its contributions include line i's
    // whole block: pi + count_i <= pj.
    lemma_contrib_cites(ss.take(j), w, i);
    assert(ss.take(j)[i] == ss[i]);
    assert(ss.take(j).take(i) =~= ss.take(i));
    let pi = bucket_contributions(ss.take(i), w).len() as int;
    let pj = bucket_contributions(ss.take(j), w).len() as int;
    assert(bucket_contributions(ss, w)[pi + 0] == ss[i]);
    assert(bucket_contributions(ss, w)[pj + 0] == ss[j]);
}

// ---------------------------------------------------------------------------
// Law: the total entry count
// ---------------------------------------------------------------------------

proof fn lemma_total_update(m: Seq<BucketView>, k: int, b: BucketView)
    requires
        0 <= k < m.len(),
    ensures
        total_entries(m.update(k, b)) + m[k].sentences.len() == total_entries(m)
            + b.sentences.len(),
    decreases m.len(),
{
    let m2 = m.update(k, b);
    assert(m2[0] == if k == 0 {
        b
    } else {
        m[0]
    });
    if k == 0 {
        assert(m2.skip(1) =~= m.skip(1));
    } else {
        assert(m2.skip(1) =~= m.skip(1).update(k - 1, b));
        lemma_total_update(m.skip(1), k - 1, b);
    }
}

proof fn lemma_total_push(m: Seq<BucketView>, b: BucketView)
    ensures
        total_entries(m.push(b)) == total_entries(m) + b.sentences.len(),
    decreases m.len(),
{
    reveal_with_fuel(total_entries, 2);
    if m.len() == 0 {
        assert(m.push(b)[0] == b);
        assert(m.push(b).skip(1) =~= Seq::<BucketView>::empty());
    } else {
        assert(m.push(b)[0] == m[0]);
        assert(m.push(b).skip(1) =~= m.skip(1).push(b));
        lemma_total_push(m.skip(1), b);
    }
}

/// One appended citation grows the index by exactly one entry.
proof fn lemma_total_add_one(m: Seq<BucketView>, w: Seq<char>, s: ExampleSentenceView)
    ensures
        total_entries(add_one(m, w, s)) == total_entries(m) + 1,
{
    lemma_find_key(m, w);
    let k = find_key(m, w);
    if k < m.len() {
        lemma_total_update(m, k, BucketView { headword: w, sentences: m[k].sentences.push(s) });
    } else {
        lemma_total_push(m, BucketView { headword: w, sentences: seq![s] });
    }
}

proof fn lemma_total_add_words(m: Seq<BucketView>, s: ExampleSentenceView, ws: Seq<IndexWordView>)
    ensures
        total_entries(add_words(m, s, ws)) == total_entries(m) + ws.len(),
    decreases ws.len(),
{
    if ws.len() != 0 {
        lemma_total_add_one(m, ws[0].headword, s);
        lemma_total_add_words(add_one(m, ws[0].headword, s), s, ws.skip(1));
    }
}

proof fn lemma_total_build_from(m: Seq<BucketView>, ss: Seq<ExampleSentenceView>)
    ensures
        total_entries(build_from(m, ss)) == total_entries(m) + total_index_words(ss),
    decreases ss.len(),
{
    if ss.len() != 0 {
        lemma_total_add_words(m, ss[0], ss[0].indices);
        lemma_total_build_from(add_sentence(m, ss[0]), ss.skip(1));
    }
}

/// Law: the index built from a corpus of sentences holds exactly one bucket
/// entry per index word — duplicates retained, nothing deduplicated. For N
/// sentences with k_1, ..., k_N index words, the total bucket-entry count is
/// k_1 + ... + k_N.
pub proof fn lemma_index_total(ss: Seq<ExampleSentenceView>)
    ensures
        total_entries(build_spec(ss)) == total_index_words(ss),
{
    lemma_total_build_from(Seq::empty(), ss);
}

} // verus!

//! Data model for one corpus record: an example sentence and the index
//! words (headword plus optional inline annotations) attached to it.

use vstd::prelude::*;

verus! {

/// One inline annotation recognized after an index headword.
///
/// - `Reading` comes from a `(...)` group,
/// - `Sense` from a `[...]` group (a signed dictionary sense number),
/// - `FormInSentence` from a `{...}` group,
/// - `GoodAndChecked` from a trailing `~`,
/// - `Bare` from a `|1` / `|2` marker, an artifact of a former maintenance
///   system that carries no meaning.
#[derive(Debug, PartialEq, Eq)]
pub enum IndexElement {
    Bare,
    Reading(String),
    Sense(i32),
    FormInSentence(String),
    GoodAndChecked,
}

/// Mathematical model of an [`IndexElement`].
pub ghost enum IndexElementView {
    Bare,
    Reading(Seq<char>),
    Sense(int),
    FormInSentence(Seq<char>),
    GoodAndChecked,
}

impl View for IndexElement {
    type V = IndexElementView;

    open spec fn view(&self) -> IndexElementView {
        match self {
            IndexElement::Bare => IndexElementView::Bare,
            IndexElement::Reading(s) => IndexElementView::Reading(s@),
            IndexElement::Sense(n) => IndexElementView::Sense(*n as int),
            IndexElement::FormInSentence(s) => IndexElementView::FormInSentence(s@),
            IndexElement::GoodAndChecked => IndexElementView::GoodAndChecked,
        }
    }
}

impl DeepView for IndexElement {
    type V = IndexElementView;

    open spec fn deep_view(&self) -> IndexElementView {
        self.view()
    }
}

/// One index entry of a sentence: a dictionary headword together with the
/// annotations that were attached to it in the corpus.
#[derive(Debug, PartialEq, Eq, PartialOrd, Ord, Hash)]
pub struct IndexWord {
    pub headword: String,
    pub reading: Option<String>,
    pub sense_number: Option<i32>,
    pub form_in_sentence: Option<String>,
    pub good_and_checked: bool,
}

/// Mathematical model of an [`IndexWord`].
#[verifier::ext_equal]
pub ghost struct IndexWordView {
    pub headword: Seq<char>,
    pub reading: Option<Seq<char>>,
    pub sense_number: Option<int>,
    pub form_in_sentence: Option<Seq<char>>,
    pub good_and_checked: bool,
}

impl View for IndexWord {
    type V = IndexWordView;

    open spec fn view(&self) -> IndexWordView {
        IndexWordView {
            headword: self.headword@,
            reading: match self.reading {
                Some(s) => Some(s@),
                None => None,
            },
            sense_number: match self.sense_number {
                Some(n) => Some(n as int),
                None => None,
            },
            form_in_sentence: match self.form_in_sentence {
                Some(s) => Some(s@),
                None => None,
            },
            good_and_checked: self.good_and_checked,
        }
    }
}

impl DeepView for IndexWord {
    type V = IndexWordView;

    open spec fn deep_view(&self) -> IndexWordView {
        self.view()
    }
}

impl Clone for IndexWord {
    /// A cloned index word equals the original in every field.
    fn clone(&self) -> (res: Self)
        ensures
            res == *self,
    {
        IndexWord {
            headword: self.headword.clone(),
            reading: match &self.reading {
                Some(s) => Some(s.clone()),
                None => None,
            },
            sense_number: self.sense_number,
            form_in_sentence: match &self.form_in_sentence {
                Some(s) => Some(s.clone()),
                None => None,
            },
            good_and_checked: self.good_and_checked,
        }
    }
}

/// One corpus record: two opaque numeric identifiers, the sentence in both
/// languages, and the ordered list of index words from the fifth field.
#[derive(Debug, PartialEq, Eq)]
pub struct ExampleSentence {
    pub japanese_sentence_id: u32,
    pub english_sentence_id: u32,
    pub japanese_text: String,
    pub english_text: String,
    pub indices: Vec<IndexWord>,
}

/// Mathematical model of an [`ExampleSentence`].
#[verifier::ext_equal]
pub ghost struct ExampleSentenceView {
    pub japanese_sentence_id: u32,
    pub english_sentence_id: u32,
    pub japanese_text: Seq<char>,
    pub english_text: Seq<char>,
    pub indices: Seq<IndexWordView>,
}

impl View for ExampleSentence {
    type V = ExampleSentenceView;

    open spec fn view(&self) -> ExampleSentenceView {
        ExampleSentenceView {
            japanese_sentence_id: self.japanese_sentence_id,
            english_sentence_id: self.english_sentence_id,
            japanese_text: self.japanese_text@,
            english_text: self.english_text@,
            indices: self.indices.deep_view(),
        }
    }
}

impl DeepView for ExampleSentence {
    type V = ExampleSentenceView;

    open spec fn deep_view(&self) -> ExampleSentenceView {
        self.view()
    }
}

impl Clone for ExampleSentence {
    /// A cloned sentence has the same model as the original.
    fn clone(&self) -> (res: Self)
        ensures
            res@ == self@,
    {
        let indices = clone_index_words(&self.indices);
        ExampleSentence {
            japanese_sentence_id: self.japanese_sentence_id,
            english_sentence_id: self.english_sentence_id,
            japanese_text: self.japanese_text.clone(),
            english_text: self.english_text.clone(),
            indices,
        }
    }
}

/// Clones a list of index words element by element, preserving the value.
fn clone_index_words(v: &Vec<IndexWord>) -> (res: Vec<IndexWord>)
    ensures
        res@ == v@,
{
    let mut res: Vec<IndexWord> = Vec::new();
    let mut i: usize = 0;
    while i < v.len()
        invariant
            i <= v.len(),
            res@ == v@.take(i as int),
        decreases v.len() - i,
    {
        res.push(v[i].clone());
        proof {
            assert(res@ =~= v@.take(i + 1 as int));
        }
        i = i + 1;
    }
    proof {
        assert(res@ =~= v@);
    }
    res
}

impl Default for ExampleSentence {
    /// The default sentence: zero identifiers, empty texts, no index words.
    fn default() -> (res: Self)
        ensures
            res.japanese_sentence_id == 0,
            res.english_sentence_id == 0,
            res.japanese_text@ == Seq::<char>::empty(),
            res.english_text@ == Seq::<char>::empty(),
            res.indices@ == Seq::<IndexWord>::empty(),
    {
        ExampleSentence {
            japanese_sentence_id: 0,
            english_sentence_id: 0,
            japanese_text: String::new(),
            english_text: String::new(),
            indices: Vec::new(),
        }
    }
}

/// Why one corpus line failed to parse.
#[derive(Debug, Clone, Copy, PartialEq, Eq, Structural)]
pub enum ParseError {
    /// A sentence-identifier field is not a valid unsigned 32-bit integer.
    MalformedIdentifier,
    /// An expected tab or whitespace delimiter is absent.
    MissingSeparator,
    /// An opening `(`, `[` or `{` has no matching closer before the line ends.
    UnterminatedAnnotation,
    /// The payload of a `[...]` group is not a valid signed 32-bit integer.
    InvalidSenseNumber,
    /// A character at an annotation-start position is none of the recognized
    /// delimiters.
    UnrecognizedElementMarker,
}

} // verus!

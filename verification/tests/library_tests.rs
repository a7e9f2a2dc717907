use wwwjdic_examples::example_sentences::{ExampleSentence, IndexWord, ParseError};
use wwwjdic_examples::index::{build_index, load, LineError, SentenceMap};
use wwwjdic_examples::normalize::{normalize, LinesWithEndings};
use wwwjdic_examples::record::wwwjdict_parser;
use wwwjdic_examples::serialize::serialize_index_word;

fn bare_word(headword: &str) -> IndexWord {
    IndexWord {
        headword: headword.to_string(),
        reading: None,
        sense_number: None,
        form_in_sentence: None,
        good_and_checked: false,
    }
}

#[test]
fn bare_headword_has_no_annotations() {
    // A token with no annotations yields absent optional fields and an
    // unchecked flag.
    let sentence = wwwjdict_parser("1	2	j	e	北\n").unwrap();
    assert_eq!(sentence.indices, vec![bare_word("北")]);
}

#[test]
fn sense_and_flag_token() {
    // 国[02]~ carries sense number 2 and the good-and-checked flag; the
    // reading and the form stay absent.
    let sentence = wwwjdict_parser("1	2	j	e	国[02]~\n").unwrap();
    let word = &sentence.indices[0];
    assert_eq!(word.headword, "国");
    assert_eq!(word.sense_number, Some(2));
    assert!(word.good_and_checked);
    assert_eq!(word.reading, None);
    assert_eq!(word.form_in_sentence, None);
}

#[test]
fn legacy_pipe_contributes_nothing() {
    // は|1 parses like a bare は: the pipe marker is consumed and discarded.
    let with_pipe = wwwjdict_parser("1	2	j	e	は|1\n").unwrap();
    let without = wwwjdict_parser("1	2	j	e	は\n").unwrap();
    assert_eq!(with_pipe, without);
    assert_eq!(with_pipe.indices, vec![bare_word("は")]);
}

#[test]
fn annotations_in_any_order_first_wins() {
    // The grammar is order-agnostic, and the first element of each kind
    // resolves the field.
    let sentence = wwwjdict_parser("1	2	j	e	彼~(かれ)(だれ)[3]\n").unwrap();
    let word = &sentence.indices[0];
    assert_eq!(word.reading, Some("かれ".to_string()));
    assert_eq!(word.sense_number, Some(3));
    assert!(word.good_and_checked);
}

#[test]
fn negative_sense_number() {
    let sentence = wwwjdict_parser("1	2	j	e	国[-5]\n").unwrap();
    assert_eq!(sentence.indices[0].sense_number, Some(-5));
}

#[test]
fn malformed_identifier_is_reported() {
    assert_eq!(
        wwwjdict_parser("x	1	j	e	北\n"),
        Err(ParseError::MalformedIdentifier)
    );
    // An identifier too large for u32 is malformed too.
    assert_eq!(
        wwwjdict_parser("4294967296	1	j	e	北\n"),
        Err(ParseError::MalformedIdentifier)
    );
}

#[test]
fn missing_separator_is_reported() {
    // A space where a tab is expected.
    assert_eq!(
        wwwjdict_parser("1 2	j	e	北\n"),
        Err(ParseError::MissingSeparator)
    );
    // A line without its terminating newline runs out of delimiters.
    assert_eq!(
        wwwjdict_parser("1	2	j	e	北"),
        Err(ParseError::MissingSeparator)
    );
    // Too few fields.
    assert_eq!(wwwjdict_parser("1	2	j\n"), Err(ParseError::MissingSeparator));
}

#[test]
fn empty_index_word_list_is_rejected() {
    // The grammar demands at least one index word: a line that ends right
    // after the fourth tab is no record.
    assert_eq!(wwwjdict_parser("1	2	j	e	"), Err(ParseError::MissingSeparator));
}

#[test]
fn unterminated_annotation_is_reported() {
    assert_eq!(
        wwwjdict_parser("1	2	j	e	国[2\n"),
        Err(ParseError::UnterminatedAnnotation)
    );
    assert_eq!(
        wwwjdict_parser("1	2	j	e	彼(かれ\n"),
        Err(ParseError::UnterminatedAnnotation)
    );
}

#[test]
fn invalid_sense_number_is_reported() {
    assert_eq!(
        wwwjdict_parser("1	2	j	e	国[ab]\n"),
        Err(ParseError::InvalidSenseNumber)
    );
    assert_eq!(
        wwwjdict_parser("1	2	j	e	国[]\n"),
        Err(ParseError::InvalidSenseNumber)
    );
    // Out of i32 range.
    assert_eq!(
        wwwjdict_parser("1	2	j	e	国[2147483648]\n"),
        Err(ParseError::InvalidSenseNumber)
    );
}

#[test]
fn unrecognized_element_marker_is_reported() {
    // After a complete annotation, a stray character is no element start.
    assert_eq!(
        wwwjdict_parser("1	2	j	e	国[2]}\n"),
        Err(ParseError::UnrecognizedElementMarker)
    );
    // A pipe followed by anything but 1 or 2.
    assert_eq!(
        wwwjdict_parser("1	2	j	e	は|3\n"),
        Err(ParseError::UnrecognizedElementMarker)
    );
}

#[test]
fn normalize_repairs_corpus_dirtiness() {
    assert_eq!(normalize("a	 b"), "a	b\n");
    assert_eq!(normalize("a \nb"), "a\nb\n");
    assert_eq!(normalize("a  b"), "a b\n");
    assert_eq!(normalize("a\n"), "a\n");
    assert_eq!(normalize(""), "");
}

#[test]
fn lines_keep_their_endings() {
    let mut it = LinesWithEndings::from("a\nbc\nd");
    assert_eq!(it.next(), Some("a\n".to_string()));
    assert_eq!(it.next(), Some("bc\n".to_string()));
    assert_eq!(it.next(), Some("d".to_string()));
    assert_eq!(it.next(), None);
}

fn small_corpus() -> (SentenceMap, Vec<LineError>) {
    load("10	20	甲	A	北 国[1]\n11	21	乙	B	犬\n12	22	丙	C	北 北\n")
}

#[test]
fn load_indexes_every_citation() {
    // Three lines with 2, 1 and 2 index words: the total bucket-entry count
    // is 5, duplicates retained.
    let (map, errors) = small_corpus();
    assert!(errors.is_empty());
    let total = map.lookup("北").len() + map.lookup("国").len() + map.lookup("犬").len();
    assert_eq!(total, 5);
    assert_eq!(map.lookup("北").len(), 3);
    assert_eq!(map.lookup("国").len(), 1);
    assert_eq!(map.lookup("犬").len(), 1);
}

#[test]
fn lookup_absent_headword_is_empty() {
    let (map, _) = small_corpus();
    assert_eq!(map.lookup("なし"), Vec::<ExampleSentence>::new());
}

#[test]
fn bucket_order_follows_corpus_order() {
    // 北 occurs in line 1 once and in line 3 twice: the bucket lists line
    // 1's sentence first, then line 3's twice.
    let (map, _) = small_corpus();
    let north = map.lookup("北");
    assert_eq!(north.len(), 3);
    assert_eq!(north[0].japanese_sentence_id, 10);
    assert_eq!(north[1].japanese_sentence_id, 12);
    assert_eq!(north[2].japanese_sentence_id, 12);
    assert_eq!(north[1], north[2]);
}

#[test]
fn load_skips_bad_lines_and_reports_them() {
    let (map, errors) = load("10	20	甲	A	北\nxx	20	甲	A	北\n12	22	丙	C	犬\n");
    assert_eq!(errors.len(), 1);
    assert_eq!(
        errors[0],
        LineError { line_number: 2, error: ParseError::MalformedIdentifier }
    );
    assert_eq!(map.lookup("北").len(), 1);
    assert_eq!(map.lookup("犬").len(), 1);
}

#[test]
fn load_normalizes_before_parsing() {
    // A stray space after a tab and before a newline would break the
    // grammar; normalization repairs both.
    let (map, errors) = load("10	 20	甲	A	北 \n");
    assert!(errors.is_empty());
    assert_eq!(map.lookup("北").len(), 1);
}

#[test]
fn build_index_from_parsed_sentences() {
    let s1 = wwwjdict_parser("10	20	甲	A	北\n").unwrap();
    let s2 = wwwjdict_parser("11	21	乙	B	北\n").unwrap();
    let map = build_index(&vec![s1.clone(), s2.clone()]);
    assert_eq!(map.lookup("北"), vec![s1, s2]);
}

#[test]
fn serialize_canonical_word() {
    let word = IndexWord {
        headword: "彼".to_string(),
        reading: Some("かれ".to_string()),
        sense_number: Some(1),
        form_in_sentence: Some("彼の".to_string()),
        good_and_checked: true,
    };
    assert_eq!(serialize_index_word(&word), "彼(かれ)[1]{彼の}~");
    let negative = IndexWord {
        headword: "国".to_string(),
        reading: None,
        sense_number: Some(-5),
        form_in_sentence: None,
        good_and_checked: false,
    };
    assert_eq!(serialize_index_word(&negative), "国[-5]");
}

#[test]
fn parse_then_serialize_reproduces_canonical_tokens() {
    let sentence = wwwjdict_parser("1	2	j	e	彼(かれ)[1]{彼の}~ 愛する{愛してる} 北\n").unwrap();
    assert_eq!(serialize_index_word(&sentence.indices[0]), "彼(かれ)[1]{彼の}~");
    assert_eq!(serialize_index_word(&sentence.indices[1]), "愛する{愛してる}");
    assert_eq!(serialize_index_word(&sentence.indices[2]), "北");
}

#[test]
fn serialize_normalizes_artifacts() {
    // A leading zero in the sense number and a legacy pipe marker are
    // normalized away by a parse/serialize round trip.
    let sentence = wwwjdict_parser("1	2	j	e	国[02]~ は|1\n").unwrap();
    assert_eq!(serialize_index_word(&sentence.indices[0]), "国[2]~");
    assert_eq!(serialize_index_word(&sentence.indices[1]), "は");
}

#[test]
fn default_sentence_is_empty() {
    let sentence = ExampleSentence::default();
    assert_eq!(sentence.japanese_sentence_id, 0);
    assert_eq!(sentence.english_sentence_id, 0);
    assert_eq!(sentence.japanese_text, "");
    assert_eq!(sentence.english_text, "");
    assert!(sentence.indices.is_empty());
}

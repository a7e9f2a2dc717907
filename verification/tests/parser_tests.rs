// The corpus format is described at
// http://www.edrdg.org/wiki/index.php/Sentence-Dictionary_Linking

use wwwjdic_examples::example_sentences::{ExampleSentence, IndexWord};
use wwwjdic_examples::record::wwwjdict_parser;

#[test]
fn test_scheme_basic_index() {
    //4851	1434	愛してる。	I love you.	愛する{愛してる}
    let indexes = vec![IndexWord {
        headword: "愛する".to_string(),
        reading: None,
        sense_number: None,
        form_in_sentence: Some("愛してる".to_string()),
        good_and_checked: false,
    }];

    let example_sentence = ExampleSentence {
        japanese_sentence_id: 4851,
        english_sentence_id: 1434,
        japanese_text: "愛してる。".to_string(),
        english_text: "I love you.".to_string(),
        indices: indexes,
    };
    assert_eq!(
        wwwjdict_parser("4851	1434	愛してる。	I love you.	愛する{愛してる}\n"),
        Ok(example_sentence)
    );
}

#[test]
fn test_scheme_complex_index() {
    let indexes = vec![
        IndexWord {
            headword: "総員".to_string(),
            reading: None,
            sense_number: None,
            form_in_sentence: None,
            good_and_checked: true,
        },
        IndexWord {
            headword: "脱出".to_string(),
            reading: None,
            sense_number: None,
            form_in_sentence: None,
            good_and_checked: false,
        },
        IndexWord {
            headword: "為る".to_string(),
            reading: Some("する".to_string()),
            sense_number: None,
            form_in_sentence: Some("せよ".to_string()),
            good_and_checked: false,
        },
    ];
    let example_sentence = ExampleSentence {
        japanese_sentence_id: 75198,
        english_sentence_id: 328521,
        japanese_text: "総員、脱出せよ！".to_string(),
        english_text: "All hands, abandon ship!".to_string(),
        indices: indexes,
    };

    assert_eq!(
        wwwjdict_parser(
            "75198	328521	総員、脱出せよ！	All hands, abandon ship!	総員~ 脱出 為る(する){せよ}\n"
        ),
        Ok(example_sentence)
    );
}

#[test]
fn another_complex_test_scheme() {
    //男の子(おとこのこ)
    let indexes = vec![
        IndexWord {
            headword: "男の子".to_string(),
            reading: Some("おとこのこ".to_string()),
            sense_number: None,
            form_in_sentence: None,
            good_and_checked: false,
        },
        IndexWord {
            headword: "は".to_string(),
            reading: None,
            sense_number: None,
            form_in_sentence: None,
            good_and_checked: false,
        },
        IndexWord {
            headword: "結局".to_string(),
            reading: None,
            sense_number: None,
            form_in_sentence: None,
            good_and_checked: false,
        },
        IndexWord {
            headword: "男の子".to_string(),
            reading: Some("おとこのこ".to_string()),
            sense_number: None,
            form_in_sentence: None,
            good_and_checked: false,
        },
        IndexWord {
            headword: "である".to_string(),
            reading: None,
            sense_number: None,
            form_in_sentence: None,
            good_and_checked: false,
        },
        IndexWord {
            headword: "事".to_string(),
            reading: Some("こと".to_string()),
            sense_number: None,
            form_in_sentence: Some("こと".to_string()),
            good_and_checked: false,
        },
        IndexWord {
            headword: "を".to_string(),
            reading: None,
            sense_number: None,
            form_in_sentence: None,
            good_and_checked: false,
        },
        IndexWord {
            headword: "思い出す".to_string(),
            reading: None,
            sense_number: None,
            form_in_sentence: Some("思いだした".to_string()),
            good_and_checked: false,
        },
    ];
    let example_sentence = ExampleSentence {
        japanese_sentence_id: 127240,
        english_sentence_id: 276849,
        japanese_text: "男の子は結局男の子であることを思いだした。".to_string(),
        english_text: "I remembered that boys will be boys.".to_string(),
        indices: indexes,
    };

    assert_eq!(
        wwwjdict_parser("127240	276849	男の子は結局男の子であることを思いだした。	I remembered that boys will be boys.	男の子(おとこのこ) は|1 結局 男の子(おとこのこ) である 事(こと){こと} を 思い出す{思いだした}\n"),
        Ok(example_sentence)
    );
}

#[test]
fn test_scheme_complex_index_legacy_pipe_ignore() {
    let indexes = vec![
        IndexWord {
            headword: "北".to_string(),
            reading: None,
            sense_number: None,
            form_in_sentence: None,
            good_and_checked: false,
        },
        IndexWord {
            headword: "の".to_string(),
            reading: None,
            sense_number: None,
            form_in_sentence: None,
            good_and_checked: false,
        },
        IndexWord {
            headword: "国".to_string(),
            reading: None,
            sense_number: Some(2),
            form_in_sentence: None,
            good_and_checked: true,
        },
        IndexWord {
            headword: "から".to_string(),
            reading: None,
            sense_number: None,
            form_in_sentence: None,
            good_and_checked: false,
        },
        IndexWord {
            headword: "は".to_string(),
            reading: None,
            sense_number: None,
            form_in_sentence: None,
            good_and_checked: false,
        },
        IndexWord {
            headword: "北海道".to_string(),
            reading: None,
            sense_number: None,
            form_in_sentence: None,
            good_and_checked: false,
        },
        IndexWord {
            headword: "市".to_string(),
            reading: Some("し".to_string()),
            sense_number: None,
            form_in_sentence: None,
            good_and_checked: false,
        },
        IndexWord {
            headword: "を".to_string(),
            reading: None,
            sense_number: None,
            form_in_sentence: None,
            good_and_checked: false,
        },
        IndexWord {
            headword: "舞台".to_string(),
            reading: None,
            sense_number: None,
            form_in_sentence: None,
            good_and_checked: false,
        },
        IndexWord {
            headword: "に".to_string(),
            reading: None,
            sense_number: None,
            form_in_sentence: None,
            good_and_checked: false,
        },
        IndexWord {
            headword: "為る".to_string(),
            reading: Some("する".to_string()),
            sense_number: None,
            form_in_sentence: Some("した".to_string()),
            good_and_checked: false,
        },
        IndexWord {
            headword: "制作".to_string(),
            reading: None,
            sense_number: None,
            form_in_sentence: None,
            good_and_checked: false,
        },
        // We don't avoid duplicates yet
        IndexWord {
            headword: "の".to_string(),
            reading: None,
            sense_number: None,
            form_in_sentence: None,
            good_and_checked: false,
        },
        IndexWord {
            headword: "テレビドラマ".to_string(),
            reading: None,
            sense_number: None,
            form_in_sentence: None,
            good_and_checked: false,
        },
    ];

    let example_sentence = ExampleSentence {
        japanese_sentence_id: 74031,
        english_sentence_id: 329689,
        japanese_text: "『北の国から』は、北海道富良野市を舞台にしたフジテレビジョン制作のテレビドラマ。".to_string(),
        english_text: "\"From the North Country\" is a TV drama produced by Fuji TV and set in Furano in Hokkaido.".to_string(),
        indices: indexes,
    };

    assert_eq!(
        wwwjdict_parser("74031	329689	『北の国から』は、北海道富良野市を舞台にしたフジテレビジョン制作のテレビドラマ。	\"From the North Country\" is a TV drama produced by Fuji TV and set in Furano in Hokkaido.	北 の 国[02]~ から は|1 北海道 市(し) を 舞台 に 為る(する){した} 制作 の テレビドラマ\n"),
        Ok(example_sentence)
    );
}

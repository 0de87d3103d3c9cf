use phrase_trie::string_handlers::{split_corpus, split_sentence, suffixes};

#[test]
fn string_handlers_it_calculates_suffixes() {
    assert_eq!(
        suffixes(vec![
            "a".to_string(),
            "b".to_string(),
            "c".to_string(),
            "d".to_string()
        ]),
        vec![
            vec![
                "a".to_string(),
                "b".to_string(),
                "c".to_string(),
                "d".to_string()
            ],
            vec!["b".to_string(), "c".to_string(), "d".to_string()],
            vec!["c".to_string(), "d".to_string()],
            vec!["d".to_string()]
        ]
    )
}

#[test]
fn string_handlers_it_splits_a_corpus_to_sentences() {
    assert_eq!(
        split_corpus("a b! c d. e, f? g: h;".to_string()),
        vec![
            "a b".to_string(),
            "c d".to_string(),
            "e f".to_string(),
            "g h".to_string()
        ]
    );
}

#[test]
fn it_splits_a_sentence_to_words() {
    assert_eq!(
        split_sentence("a b c d".to_string()),
        vec![
            "a".to_string(),
            "b".to_string(),
            "c".to_string(),
            "d".to_string()
        ]
    );
}

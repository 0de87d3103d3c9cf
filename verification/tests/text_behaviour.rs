use phrase_trie::string_handlers::{
    chars_of, clean_segment, join_words, normalize_word, split_corpus, split_fields, split_sentence,
    string_of, suffixes, trim, Delimiter,
};

fn chars(text: &str) -> Vec<char> {
    text.chars().collect()
}

fn strings(words: &[&str]) -> Vec<String> {
    words.iter().map(|w| w.to_string()).collect()
}

#[test]
fn suffixes_of_nothing_are_none() {
    assert_eq!(suffixes(Vec::new()), Vec::<Vec<String>>::new());
    assert_eq!(suffixes(strings(&["a"])), vec![strings(&["a"])]);
}

#[test]
fn characters_and_strings_convert_both_ways() {
    assert_eq!(chars_of("héllo"), vec!['h', 'é', 'l', 'l', 'o']);
    assert_eq!(chars_of(""), Vec::<char>::new());
    assert_eq!(string_of(&vec!['a', 'ß', 'c']), "aßc".to_string());
    assert_eq!(string_of(&Vec::new()), String::new());
}

#[test]
fn delimiters_are_told_apart() {
    for c in ['.', '!', '?', ';'] {
        assert!(Delimiter::SentenceEnd.separates(c));
        assert!(!Delimiter::AsciiSpace.separates(c));
    }
    for c in [' ', '\t', '\n', '\x0C', '\r'] {
        assert!(Delimiter::AsciiSpace.separates(c));
        assert!(!Delimiter::SentenceEnd.separates(c));
    }
    for c in [',', ':', 'a', '\x0B', '\u{a0}'] {
        assert!(!Delimiter::AsciiSpace.separates(c));
        assert!(!Delimiter::SentenceEnd.separates(c));
    }
}

#[test]
fn fields_leave_out_empty_runs() {
    assert_eq!(
        split_fields(&chars("..a b.;c!"), Delimiter::SentenceEnd),
        vec![chars("a b"), chars("c")]
    );
    assert_eq!(
        split_fields(&chars("  a \t b\n"), Delimiter::AsciiSpace),
        vec![chars("a"), chars("b")]
    );
    assert_eq!(split_fields(&chars(""), Delimiter::AsciiSpace), Vec::<Vec<char>>::new());
    assert_eq!(split_fields(&chars(" \r "), Delimiter::AsciiSpace), Vec::<Vec<char>>::new());
    assert_eq!(split_fields(&chars("abc"), Delimiter::SentenceEnd), vec![chars("abc")]);
}

#[test]
fn trimming_removes_whitespace_at_both_ends_only() {
    assert_eq!(trim(&chars("  a b \n")), chars("a b"));
    assert_eq!(trim(&chars("\u{a0}a\u{2003}")), chars("a"));
    assert_eq!(trim(&chars(" \t ")), Vec::<char>::new());
    assert_eq!(trim(&chars("")), Vec::<char>::new());
    assert_eq!(trim(&chars("a")), chars("a"));
    assert_eq!(trim(&chars(".a.")), chars(".a."));
}

#[test]
fn words_keep_their_letters_in_lowercase() {
    assert_eq!(normalize_word(&chars("Hello,")), "hello".to_string());
    assert_eq!(normalize_word(&chars("it's")), "its".to_string());
    assert_eq!(normalize_word(&chars("ÀB1c")), "àbc".to_string());
    assert_eq!(normalize_word(&chars("123")), String::new());
    assert_eq!(normalize_word(&chars("")), String::new());
}

#[test]
fn words_are_joined_with_single_spaces() {
    assert_eq!(join_words(&strings(&["a", "b", "c"])), "a b c".to_string());
    assert_eq!(join_words(&strings(&["a"])), "a".to_string());
    assert_eq!(join_words(&Vec::new()), String::new());
    assert_eq!(join_words(&strings(&["", "a"])), " a".to_string());
    assert_eq!(join_words(&strings(&["a", "", "b"])), "a  b".to_string());
}

#[test]
fn a_segment_is_trimmed_split_and_normalized() {
    assert_eq!(clean_segment(&chars("  Hello,  World ")), "hello world".to_string());
    assert_eq!(clean_segment(&chars("a 12 b")), "a  b".to_string());
    assert_eq!(clean_segment(&chars("\u{a0} a")), "a".to_string());
    assert_eq!(clean_segment(&chars("a \u{a0} b")), "a  b".to_string());
    assert_eq!(clean_segment(&chars("   ")), String::new());
}

#[test]
fn a_corpus_is_split_at_sentence_ends_only() {
    assert_eq!(split_corpus("One, two: THREE".to_string()), strings(&["one two three"]));
    assert_eq!(split_corpus(String::new()), Vec::<String>::new());
    assert_eq!(split_corpus("..;!?".to_string()), Vec::<String>::new());
    assert_eq!(split_corpus("a.  .b".to_string()), strings(&["a", "", "b"]));
    assert_eq!(split_corpus("a b c. a b d. a b e".to_string()), strings(&["a b c", "a b d", "a b e"]));
    assert_eq!(split_corpus("Wait... what?!".to_string()), strings(&["wait", "what"]));
}

#[test]
fn a_sentence_is_split_at_ascii_whitespace() {
    assert_eq!(split_sentence("  a\tb\n c  ".to_string()), strings(&["a", "b", "c"]));
    assert_eq!(split_sentence(String::new()), Vec::<String>::new());
    assert_eq!(split_sentence("a  b".to_string()), strings(&["a", "b"]));
    assert_eq!(split_sentence("a\u{a0}b".to_string()), strings(&["a\u{a0}b"]));
}

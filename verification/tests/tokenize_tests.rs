use divot::tokenize::{is_word_char, split_lines, CharTokenizer, WordTokenizer};

#[test]
fn word_tokenizer_round_trips_losslessly() {
    let input = "hello, world!  foo_bar 123";
    let tokens: Vec<&str> = WordTokenizer(input).tokens();
    assert_eq!(tokens.concat(), input);
}

#[test]
fn word_tokenizer_groups_word_chars_together() {
    let tokens: Vec<&str> = WordTokenizer("foo_bar123 baz").tokens();
    assert_eq!(tokens, vec!["foo_bar123", " ", "baz"]);
}

#[test]
fn char_tokenizer_round_trips_losslessly() {
    let input = "héllo wörld";
    let tokens: Vec<char> = CharTokenizer(input).tokenize().collect();
    let rebuilt: String = tokens.into_iter().collect();
    assert_eq!(rebuilt, input);
}

#[test]
fn word_char_classes() {
    assert!(is_word_char('a'));
    assert!(is_word_char('Z'));
    assert!(is_word_char('7'));
    assert!(is_word_char('_'));
    assert!(is_word_char('é'));
    assert!(!is_word_char(' '));
    assert!(!is_word_char(','));
    assert!(!is_word_char('-'));
    assert!(!is_word_char('\n'));
}

#[test]
fn word_tokens_yield_one_run_at_a_time() {
    let mut it = WordTokenizer("ab, c").tokenize();
    assert_eq!(it.next(), Some("ab"));
    assert_eq!(it.next(), Some(", "));
    assert_eq!(it.next(), Some("c"));
    assert_eq!(it.next(), None);
    assert_eq!(it.next(), None);
}

#[test]
fn word_tokens_alternate_classes() {
    let input = "héllo,  wörld__x9 ?!";
    let tokens = WordTokenizer(input).tokens();
    assert_eq!(tokens, vec!["héllo", ",  ", "wörld__x9", " ?!"]);
    for pair in tokens.windows(2) {
        let a = pair[0].chars().next().unwrap();
        let b = pair[1].chars().next().unwrap();
        assert_ne!(is_word_char(a), is_word_char(b));
    }
    for t in &tokens {
        assert!(!t.is_empty());
        let first = is_word_char(t.chars().next().unwrap());
        assert!(t.chars().all(|c| is_word_char(c) == first));
    }
}

#[test]
fn word_tokens_of_empty_text() {
    assert!(WordTokenizer("").tokens().is_empty());
    assert_eq!(WordTokenizer("").tokenize().next(), None);
}

#[test]
fn estimates() {
    assert_eq!(WordTokenizer("").estimate_tokens(), 1);
    assert_eq!(WordTokenizer("abc").estimate_tokens(), 1);
    assert_eq!(WordTokenizer("abcdefghi").estimate_tokens(), 2);
    assert_eq!(CharTokenizer("héllo").estimate_tokens(), 6);
    assert_eq!(CharTokenizer("").estimate_tokens(), 0);
}

#[test]
fn char_tokens_are_the_characters() {
    assert_eq!(CharTokenizer("aé€𝄞").tokens(), vec!['a', 'é', '€', '𝄞']);
    assert!(CharTokenizer("").tokens().is_empty());
}

#[test]
fn lines_keep_their_newlines() {
    assert_eq!(split_lines("a\nb"), vec!["a\n", "b"]);
    assert_eq!(split_lines("a\n\nbc\n"), vec!["a\n", "\n", "bc\n"]);
    assert_eq!(split_lines("x\r\ny"), vec!["x\r\n", "y"]);
    assert_eq!(split_lines("é€\n𝄞"), vec!["é€\n", "𝄞"]);
    assert!(split_lines("").is_empty());
    let text = "one\ntwo\n\nthree";
    assert_eq!(split_lines(text).concat(), text);
}

#[test]
fn repeated_next_yields_the_tokens_then_none() {
    let s = "a1_b -- c";
    let mut it = WordTokenizer(s).tokenize();
    let mut seen = Vec::new();
    while let Some(t) = it.next() {
        seen.push(t);
    }
    assert_eq!(seen, WordTokenizer(s).tokens());
    assert_eq!(seen.concat(), s);
    assert!(seen.len() <= s.chars().count());
    assert_eq!(it.next(), None);
}

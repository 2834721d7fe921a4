use yaml::{Token, Tokenizer, YamlVersion};

/// Collects the tokens of `input` until the stream is exhausted.
fn tokens(input: &str) -> Vec<Token> {
    let mut tokenizer = Tokenizer::new(input.bytes().collect());
    let mut out = Vec::new();
    for _ in 0..1000 {
        match tokenizer.next_token() {
            Some(token) => out.push(token),
            None => return out,
        }
    }
    panic!("the tokenizer did not reach the end of {:?}", input);
}

fn scalar(text: &str) -> Token {
    Token::Scalar(text.to_string())
}

#[test]
fn test_look_ahead() {
    let stream = "--hallo";
    let tokens = tokens(stream);
    assert!(tokens == vec![Token::SequenceEntry, Token::SequenceEntry, scalar("hallo")]);
}

#[test]
fn test_document() {
    let stream = "---\n    - hallo\n    - yolo\n...";
    let tokens = tokens(stream);
    assert!(
        tokens
            == vec![
                Token::DocumentStart,
                Token::SequenceEntry,
                scalar("hallo"),
                Token::SequenceEntry,
                scalar("yolo"),
                Token::DocumentEnd
            ]
    );
}

#[test]
fn flow_sequence() {
    assert_eq!(tokens("[]"), vec![Token::SequenceStart, Token::SequenceEnd]);
}

#[test]
fn document_markers_and_entry() {
    assert_eq!(
        tokens("---[]-..."),
        vec![
            Token::DocumentStart,
            Token::SequenceStart,
            Token::SequenceEnd,
            Token::SequenceEntry,
            Token::DocumentEnd
        ]
    );
}

#[test]
fn yaml_directive() {
    assert_eq!(
        tokens("%YAML 1.1"),
        vec![Token::YamlDirective(YamlVersion { major: 1, minor: 1 })]
    );
}

#[test]
fn yaml_directive_with_several_digits() {
    assert_eq!(
        tokens("%YAML 12.304 x"),
        vec![Token::YamlDirective(YamlVersion { major: 12, minor: 304 }), scalar("x")]
    );
}

#[test]
fn directive_with_other_name_is_other() {
    assert_eq!(tokens("%TAG x"), vec![Token::Other, scalar("TAG"), scalar("x")]);
}

#[test]
fn directive_without_minor_is_other() {
    assert_eq!(tokens("%YAML 1"), vec![Token::Other]);
    assert_eq!(tokens("%YAML 1.x"), vec![Token::Other, scalar("x")]);
    assert_eq!(tokens("%YAML x"), vec![Token::Other, scalar("x")]);
}

#[test]
fn directive_with_too_large_number_is_other() {
    let mut tokenizer = Tokenizer::new(b"%YAML 99999999999999999999999.1".to_vec());
    assert_eq!(tokenizer.next_token(), Some(Token::Other));
    assert_eq!(tokenizer.pop(), Some(b'.'));
}

#[test]
fn single_byte_indicators() {
    assert_eq!(
        tokens("[]{}:,?!'\"|>"),
        vec![
            Token::SequenceStart,
            Token::SequenceEnd,
            Token::MappingStart,
            Token::MappingEnd,
            Token::MappingSeparator,
            Token::CollectionSeparator,
            Token::ComplexKey,
            Token::Tag,
            Token::SingleQuote,
            Token::DoubleQuote,
            Token::Literal,
            Token::Folded
        ]
    );
}

#[test]
fn anchors_and_aliases() {
    assert_eq!(
        tokens("&an-chor_1 *an-chor_1"),
        vec![Token::Anchor("an-chor_1".to_string()), Token::Alias("an-chor_1".to_string())]
    );
}

#[test]
fn anchor_without_name_is_empty() {
    assert_eq!(tokens("& x"), vec![Token::Anchor(String::new()), scalar("x")]);
    assert_eq!(tokens("*"), vec![Token::Alias(String::new())]);
}

#[test]
fn comments_and_whitespace_yield_nothing() {
    assert_eq!(tokens(" \t\n# a comment [ ]\nkey: # more\n value"), vec![
        scalar("key"),
        Token::MappingSeparator,
        scalar("value")
    ]);
    assert_eq!(tokens("a # no line feed at the end"), vec![scalar("a")]);
}

#[test]
fn empty_input_is_exhausted_at_once() {
    assert_eq!(tokens(""), Vec::<Token>::new());
    assert_eq!(tokens(" \n\t"), Vec::<Token>::new());
}

#[test]
fn exhaustion_is_final() {
    let mut tokenizer = Tokenizer::new(b"[ # end".to_vec());
    assert_eq!(tokenizer.next_token(), Some(Token::SequenceStart));
    for _ in 0..5 {
        assert_eq!(tokenizer.next_token(), None);
    }
}

#[test]
fn failed_consume_leaves_the_stream_as_it_was() {
    let mut tokenizer = Tokenizer::new(b"-.x".to_vec());
    assert!(!tokenizer.consume(b"--"));
    assert!(!tokenizer.consume(b"-.y"));
    assert!(!tokenizer.consume(b"-.xz"));
    assert_eq!(tokenizer.pop(), Some(b'-'));
    assert_eq!(tokenizer.pop(), Some(b'.'));
    assert_eq!(tokenizer.pop(), Some(b'x'));
    assert_eq!(tokenizer.pop(), None);
}

#[test]
fn successful_consume_retires_the_literal() {
    let mut tokenizer = Tokenizer::new(b"YAML 1".to_vec());
    assert!(tokenizer.consume(b"YAML "));
    assert_eq!(tokenizer.pop(), Some(b'1'));
    assert_eq!(tokenizer.pop(), None);
    assert!(!tokenizer.consume(b"x"));
    assert!(tokenizer.consume(b""));
}

#[test]
fn lone_dot_starts_an_empty_scalar() {
    let mut tokenizer = Tokenizer::new(b".a".to_vec());
    assert_eq!(tokenizer.next_token(), Some(scalar("")));
    assert_eq!(tokenizer.pop(), Some(b'.'));
    assert_eq!(tokenizer.next_token(), Some(scalar("a")));
    assert_eq!(tokenizer.next_token(), None);
}

#[test]
fn dashes_short_of_a_marker() {
    assert_eq!(tokens("-- -"), vec![
        Token::SequenceEntry,
        Token::SequenceEntry,
        Token::SequenceEntry
    ]);
    assert_eq!(tokens("----"), vec![Token::DocumentStart, Token::SequenceEntry]);
}

#[test]
fn no_byte_is_lost_between_calls() {
    // After each call the stream holds exactly what follows the bytes retired.
    let mut tokenizer = Tokenizer::new(b"  ab:#c\n-x".to_vec());
    assert_eq!(tokenizer.next_token(), Some(scalar("ab")));
    assert_eq!(tokenizer.pop(), Some(b':'));
    assert_eq!(tokenizer.next_token(), Some(Token::SequenceEntry));
    assert_eq!(tokenizer.pop(), Some(b'x'));
    assert_eq!(tokenizer.pop(), None);
}

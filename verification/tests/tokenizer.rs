//! Tokenizer behaviour: run accumulation, block markers, byte offsets.

use tokdiff::tokenizer::{char_type, tokenize, CharType, Token, TokenParser, TokenType};

fn texts(tokens: &[Token]) -> Vec<String> {
    tokens.iter().map(|t| t.text.clone()).collect()
}

fn kinds(tokens: &[Token]) -> Vec<TokenType> {
    tokens.iter().map(|t| t.t).collect()
}

#[test]
fn words_and_whitespace() {
    let tokens = tokenize("a b");
    assert_eq!(texts(&tokens), vec!["a", " ", "b"]);
    assert_eq!(
        kinds(&tokens),
        vec![TokenType::Word, TokenType::WhiteSpace, TokenType::Word]
    );
    assert_eq!(tokens[0].start, 0);
    assert_eq!(tokens[1].start, 1);
    assert_eq!(tokens[2].start, 2);
}

#[test]
fn special_characters_split_words() {
    let tokens = tokenize("a+b");
    assert_eq!(texts(&tokens), vec!["a", "+", "b"]);
    assert_eq!(
        kinds(&tokens),
        vec![TokenType::Word, TokenType::SpecialCharacter, TokenType::Word]
    );
}

#[test]
fn runs_are_maximal() {
    let tokens = tokenize("foo_1  ==bar");
    assert_eq!(texts(&tokens), vec!["foo_1", "  ", "==", "bar"]);
    assert_eq!(
        kinds(&tokens),
        vec![
            TokenType::Word,
            TokenType::WhiteSpace,
            TokenType::SpecialCharacter,
            TokenType::Word
        ]
    );
}

#[test]
fn brackets_come_one_by_one() {
    let tokens = tokenize("(())");
    assert_eq!(texts(&tokens), vec!["(", "(", ")", ")"]);
    for t in &tokens {
        assert_eq!(t.t, TokenType::SpecialCharacter);
    }
}

#[test]
fn block_start_on_indent() {
    let tokens = tokenize("if x:\n  y");
    assert_eq!(
        texts(&tokens),
        vec!["if", " ", "x", ":", "\n  ", "", "y"]
    );
    assert_eq!(tokens[5].t, TokenType::BlockStart(2));
    // The marker sits right after the whitespace run that caused it.
    assert_eq!(tokens[5].start, 8);
    assert_eq!(tokens[6].start, 8);
}

#[test]
fn block_end_carries_previous_indent() {
    let tokens = tokenize("a\n  b\nc");
    let markers: Vec<TokenType> = tokens
        .iter()
        .filter(|t| matches!(t.t, TokenType::BlockStart(_) | TokenType::BlockEnd(_)))
        .map(|t| t.t)
        .collect();
    assert_eq!(markers, vec![TokenType::BlockStart(2), TokenType::BlockEnd(2)]);
}

#[test]
fn consecutive_outdents_give_two_block_ends() {
    let tokens = tokenize("a\n    b\n  c\nd");
    let markers: Vec<TokenType> = tokens
        .iter()
        .filter(|t| matches!(t.t, TokenType::BlockStart(_) | TokenType::BlockEnd(_)))
        .map(|t| t.t)
        .collect();
    // Markers need not nest: each outdent reports the indent it left.
    assert_eq!(
        markers,
        vec![
            TokenType::BlockStart(4),
            TokenType::BlockEnd(4),
            TokenType::BlockEnd(2)
        ]
    );
}

#[test]
fn whitespace_without_newline_keeps_indentation() {
    let tokens = tokenize("a  b");
    assert!(tokens
        .iter()
        .all(|t| !matches!(t.t, TokenType::BlockStart(_) | TokenType::BlockEnd(_))));
}

#[test]
fn totality_concatenation_reproduces_source() {
    for source in [
        "",
        "foo",
        "a b",
        "if x:\n  y",
        "a\n    b\n  c\nd",
        "  leading\nand trailing  ",
        "\u{3b1}\u{3b2} \u{3b3}\n  (\u{3b4}_1)",
    ] {
        let tokens = tokenize(source);
        let mut joined = String::new();
        for t in &tokens {
            joined.push_str(&t.text);
        }
        assert_eq!(joined, source);
    }
}

#[test]
fn byte_offsets_follow_utf8_lengths() {
    let tokens = tokenize("\u{3b1} b");
    // The Greek letter takes two bytes.
    assert_eq!(texts(&tokens), vec!["\u{3b1}", " ", "b"]);
    assert_eq!(tokens[0].start, 0);
    assert_eq!(tokens[1].start, 2);
    assert_eq!(tokens[2].start, 3);
}

#[test]
fn indentation_counts_bytes_after_last_newline() {
    // The indentation is measured in bytes, so a two-byte blank counts
    // double only if it is part of the indentation itself.
    let tokens = tokenize("a\n  \n    b");
    let markers: Vec<TokenType> = tokens
        .iter()
        .filter(|t| matches!(t.t, TokenType::BlockStart(_) | TokenType::BlockEnd(_)))
        .map(|t| t.t)
        .collect();
    assert_eq!(markers, vec![TokenType::BlockStart(4)]);
}

#[test]
fn parser_yields_tokens_lazily() {
    let mut parser = TokenParser::parse("a b");
    let first = parser.next().unwrap();
    assert_eq!(first.text, "a");
    let second = parser.next().unwrap();
    assert_eq!(second.text, " ");
    let third = parser.next().unwrap();
    assert_eq!(third.text, "b");
    assert!(parser.next().is_none());
}

#[test]
fn character_classes() {
    assert_eq!(char_type(' '), CharType::WhiteSpace);
    assert_eq!(char_type('\n'), CharType::WhiteSpace);
    assert_eq!(char_type('a'), CharType::Word);
    assert_eq!(char_type('7'), CharType::Word);
    assert_eq!(char_type('_'), CharType::Word);
    assert_eq!(char_type('\u{3b1}'), CharType::Word);
    assert_eq!(char_type('('), CharType::BlockChar);
    assert_eq!(char_type(']'), CharType::BlockChar);
    assert_eq!(char_type('}'), CharType::BlockChar);
    assert_eq!(char_type('+'), CharType::Other);
    assert_eq!(char_type('.'), CharType::Other);
}

#[test]
fn token_equality_ignores_start_offset() {
    let a = Token { text: "x".to_string(), start: 0, t: TokenType::Word };
    let b = Token { text: "x".to_string(), start: 5, t: TokenType::Word };
    let c = Token { text: "y".to_string(), start: 0, t: TokenType::Word };
    let d = Token { text: "x".to_string(), start: 0, t: TokenType::SpecialCharacter };
    assert!(a == b);
    assert!(a != c);
    assert!(a != d);
}

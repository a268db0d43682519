use noesh_mini::lexer::{lex, Lexer, Token};

fn word(s: &str) -> Token {
    Token::Word(s.to_string())
}

#[test]
fn test_pipe() {
    let mut lexer = Lexer::new();
    lexer.lexar_allocation("echo hello | grep h").unwrap();
    let e = vec![
        Token::Word("echo".into()),
        Token::Word("hello".into()),
        Token::Pipe,
        Token::Word("grep".into()),
        Token::Word("h".into()),
    ];

    assert_eq!(lexer.parts, e);
}

#[test]
fn lexar_allocation_returns_the_parts() {
    let mut lexer = Lexer::new();
    let tokens = lexer.lexar_allocation("ls").unwrap();
    assert_eq!(tokens, vec![word("ls")]);
    assert_eq!(lexer.parts, tokens);
}

#[test]
fn and_is_two_ampersands() {
    assert_eq!(lex("a && b"), Some(vec![word("a"), Token::And, word("b")]));
    assert_eq!(lex("a&&b"), Some(vec![word("a&&b")]));
}

#[test]
fn characters_between_ampersands_are_skipped() {
    assert_eq!(lex("a &x& b"), Some(vec![word("a"), Token::And, word("b")]));
    assert_eq!(lex("a &"), Some(vec![word("a")]));
}

#[test]
fn a_word_runs_to_whitespace() {
    assert_eq!(lex("grep|wc l"), Some(vec![word("grep|wc"), word("l")]));
    assert_eq!(lex("a|b"), Some(vec![word("a|b")]));
}

#[test]
fn a_pipe_between_tokens() {
    assert_eq!(lex("|a"), Some(vec![Token::Pipe, word("a")]));
    assert_eq!(lex("a ||b"), Some(vec![word("a"), Token::Pipe, Token::Pipe, word("b")]));
}

#[test]
fn any_whitespace_separates_words() {
    assert_eq!(lex("a\tb\nc  d"), Some(vec![word("a"), word("b"), word("c"), word("d")]));
    assert_eq!(lex("a b"), Some(vec![word("a"), word("b")]));
    assert_eq!(lex("a\u{3000}b"), Some(vec![word("a"), word("b")]));
}

#[test]
fn unicode_letters_and_digits_start_words() {
    assert_eq!(lex("héllo wörld"), Some(vec![word("héllo"), word("wörld")]));
    assert_eq!(lex("7up"), Some(vec![word("7up")]));
    assert_eq!(lex("日本 語"), Some(vec![word("日本"), word("語")]));
}

#[test]
fn empty_and_blank_lines_have_no_tokens() {
    assert_eq!(lex(""), Some(vec![]));
    assert_eq!(lex("   "), Some(vec![]));
}

#[test]
fn a_word_cannot_start_with_a_symbol() {
    assert_eq!(lex("wc -l"), None);
    assert_eq!(lex("-"), None);
    assert_eq!(lex("echo 'hi'"), None);
}

#[test]
fn a_lexer_continues_where_it_stopped() {
    let mut lexer = Lexer::new();
    lexer.lexar_allocation("ab ").unwrap();
    let tokens = lexer.lexar_allocation("abc d").unwrap();
    assert_eq!(tokens, vec![word("ab"), word("d")]);
}

#[test]
fn a_reused_lexer_counts_bytes() {
    let mut lexer = Lexer::new();
    lexer.lexar_allocation("é ").unwrap();
    let tokens = lexer.lexar_allocation("abcd").unwrap();
    assert_eq!(tokens, vec![word("é"), word("d")]);
}

#[test]
fn multibyte_words_are_cut_whole() {
    assert_eq!(lex("né | wö 日本語x"), Some(vec![word("né"), Token::Pipe, word("wö"), word("日本語x")]));
    assert_eq!(lex("€"), None);
}

#[test]
fn lexed_words_are_stretches_of_the_input() {
    let line = "echo hello | grep h && wc x|y";
    let tokens = lex(line).unwrap();
    assert_eq!(tokens.len(), 8);
    let mut from = 0;
    for t in &tokens {
        if let Token::Word(w) = t {
            assert!(!w.is_empty());
            assert!(line.contains(w.as_str()));
            assert!(w.chars().next().unwrap().is_alphanumeric());
            assert!(w.chars().skip(1).all(|c| !c.is_whitespace()));
            let at = from + line[from..].find(w.as_str()).unwrap();
            from = at + w.len();
            let after = line[from..].chars().next();
            assert!(after.map_or(true, |c| c.is_whitespace()));
        }
    }
}

#[test]
fn accept_normal_follows_the_character_class() {
    let mut lexer = Lexer::new();
    lexer.lexar_allocation("x ").unwrap();
    assert!(!lexer.accept_normal('-', false, false));
    let mut lexer = Lexer::new();
    lexer.lexar_allocation("x ").unwrap();
    assert!(lexer.accept_normal('|', false, false));
    assert_eq!(lexer.parts, vec![word("x"), Token::Pipe]);
    assert!(lexer.accept_normal(' ', false, true));
    assert_eq!(lexer.parts, vec![word("x"), Token::Pipe]);
}

#[test]
fn accept_in_word_ends_a_word_at_whitespace() {
    let mut other = Lexer::new();
    other.lexar_allocation("y").unwrap();
    assert!(other.accept_in_word("yz", 'z', false));
    assert_eq!(other.parts, vec![word("y")]);
    assert!(other.accept_in_word("yz", 'z', true));
    assert_eq!(other.parts, vec![word("y")]);
    let mut lexer = Lexer::new();
    lexer.lexar_allocation("ab c").unwrap();
    assert!(lexer.accept_normal('c', true, false));
    let tokens = lexer.lexar_allocation("ab cde f").unwrap();
    assert_eq!(tokens, vec![word("ab"), word("c"), word("cde"), word("f")]);
}

#[test]
fn joined_pieces_lex_to_joined_tokens() {
    let a = "echo hel|lo |";
    let b = "grep h && wc";
    let joined = format!("{} {}", a, b);
    let mut expected = lex(a).unwrap();
    expected.extend(lex(b).unwrap());
    assert_eq!(lex(&joined), Some(expected));
    assert_eq!(lex(&format!("{}\t{}", "ls", "-l")), None);
    assert_eq!(lex("-l"), None);
}

#[test]
fn a_lone_ampersand_swallows_the_separator() {
    assert_eq!(lex("a &"), Some(vec![word("a")]));
    assert_eq!(lex("b"), Some(vec![word("b")]));
    assert_eq!(lex("a & b"), Some(vec![word("a")]));
}

#[test]
fn parts_gives_the_completed_tokens() {
    let mut lexer = Lexer::new();
    assert!(lexer.parts().is_empty());
    lexer.lexar_allocation("a | b").unwrap();
    assert_eq!(lexer.parts(), &vec![word("a"), Token::Pipe, word("b")]);
    assert_eq!(lexer.parts(), &lexer.parts);
}

#[test]
fn handlers_need_no_subtraction_outside_words() {
    let mut lexer = Lexer::new();
    assert!(lexer.accept_normal('|', false, false));
    assert!(lexer.accept_normal(' ', false, true));
    assert!(lexer.accept_normal('&', false, false));
    assert_eq!(lexer.parts(), &vec![Token::Pipe]);
}

#[test]
fn a_chunk_is_leading_pipes_then_a_word() {
    assert_eq!(lex("||ab|c"), Some(vec![Token::Pipe, Token::Pipe, word("ab|c")]));
    assert_eq!(lex("|||"), Some(vec![Token::Pipe, Token::Pipe, Token::Pipe]));
    assert_eq!(lex("|-x"), None);
    assert_eq!(lex("ö|"), Some(vec![word("ö|")]));
}

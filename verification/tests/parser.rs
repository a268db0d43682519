use noesh_mini::lexer::{lex, Token};
use noesh_mini::parser::{Parser, AST};

fn words(ws: &[&str]) -> Vec<String> {
    ws.iter().map(|s| s.to_string()).collect()
}

fn assert_command(ast: &AST, name: &str, args: &[&str]) {
    match ast {
        AST::Command(c) => {
            assert_eq!(c.name, name);
            assert_eq!(c.args, words(args));
        }
        AST::Pipe(_, _) => panic!("expected a command, got {:?}", ast),
    }
}

#[test]
fn test_pipe_parser() {
    let tokens = vec![
        Token::Word("echo".to_string()),
        Token::Word("hello".to_string()),
        Token::Pipe,
        Token::Word("grep".to_string()),
        Token::Word("h".to_string()),
    ];

    let mut parser = Parser::new(tokens);

    let ast = parser.parser_pipe();
    println!("{:#?}", ast);
    match &ast {
        AST::Pipe(left, right) => {
            assert_command(left, "echo", &["hello"]);
            assert_command(right, "grep", &["h"]);
        }
        AST::Command(_) => panic!("expected a pipe"),
    }
}

#[test]
fn a_single_command() {
    let mut parser = Parser::new(lex("ls").unwrap());
    let ast = parser.parser();
    assert_command(&ast, "ls", &[]);
}

#[test]
fn parser_command_takes_the_following_words() {
    let mut parser = Parser::new(lex("echo a b | wc").unwrap());
    let ast = parser.parser_command();
    assert_command(&ast, "echo", &["a", "b"]);
}

#[test]
fn pipes_nest_to_the_left() {
    let mut parser = Parser::new(lex("a 1 | b | c 3").unwrap());
    let ast = parser.parser();
    match &ast {
        AST::Pipe(left, right) => {
            assert_command(right, "c", &["3"]);
            match &**left {
                AST::Pipe(l, r) => {
                    assert_command(l, "a", &["1"]);
                    assert_command(r, "b", &[]);
                }
                AST::Command(_) => panic!("expected a pipe on the left"),
            }
        }
        AST::Command(_) => panic!("expected a pipe"),
    }
}

#[test]
fn parsing_stops_at_and() {
    let tokens = lex("a b && c").unwrap();
    let mut parser = Parser::new(tokens);
    let ast = parser.parser();
    assert_command(&ast, "a", &["b"]);
    assert_eq!(parser.tokens.len(), 4);
}

#[test]
fn can_parse_tells_where_a_command_is_missing() {
    assert!(Parser::new(lex("a | b").unwrap()).can_parse());
    assert!(Parser::new(lex("a && | b").unwrap()).can_parse());
    assert!(!Parser::new(vec![]).can_parse());
    assert!(!Parser::new(lex("| a").unwrap()).can_parse());
    assert!(!Parser::new(lex("a |").unwrap()).can_parse());
    assert!(!Parser::new(lex("a | && b").unwrap()).can_parse());
    assert!(!Parser::new(lex("&& a").unwrap()).can_parse());
}

#[test]
fn tokens_gives_the_tokens_being_parsed() {
    let tokens = lex("a | b").unwrap();
    let mut parser = Parser::new(tokens.clone());
    assert_eq!(parser.tokens(), &tokens);
    let _ = parser.parser();
    assert_eq!(parser.tokens(), &tokens);
}

#[test]
fn parser_and_parser_pipe_agree() {
    let tokens = lex("a 1 | b | c && d").unwrap();
    let mut p1 = Parser::new(tokens.clone());
    let mut p2 = Parser::new(tokens);
    let a1 = p1.parser();
    let a2 = p2.parser_pipe();
    assert_eq!(format!("{:?}", a1), format!("{:?}", a2));
    assert!(!p1.can_parse() && !p2.can_parse());
}

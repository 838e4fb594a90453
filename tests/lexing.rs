use brainfuck::lexer::classify;
use brainfuck::{lexer, Token};

#[test]
fn lexes_every_command_in_order() {
    let tokens = lexer("><+-.,[]".to_string());
    assert_eq!(
        tokens,
        vec![
            Token::IncrementPointer,
            Token::DecrementPointer,
            Token::IncrementValue,
            Token::DecrementValue,
            Token::Output,
            Token::Input,
            Token::LoopStart,
            Token::LoopEnd,
        ]
    );
}

#[test]
fn drops_comments_and_whitespace() {
    let tokens = lexer("add one: +\n then print .  é ✓".to_string());
    assert_eq!(tokens, vec![Token::IncrementValue, Token::Output]);
}

#[test]
fn empty_and_comment_only_text_lex_to_nothing() {
    assert!(lexer(String::new()).is_empty());
    assert!(lexer("hello world 123".to_string()).is_empty());
}

#[test]
fn inserting_non_commands_changes_nothing() {
    let plain = lexer("+[->+<]".to_string());
    let noisy = lexer("a+ b[c-d>\te+f<g]h".to_string());
    assert_eq!(plain, noisy);
}

#[test]
fn classify_single_characters() {
    assert_eq!(classify('['), Some(Token::LoopStart));
    assert_eq!(classify(','), Some(Token::Input));
    assert_eq!(classify('x'), None);
    assert_eq!(classify(' '), None);
}

use brainfuck::{lexer, parser, Instruction, ParseError, Token};

fn tokens(text: &str) -> Vec<Token> {
    lexer(text.to_string())
}

fn flatten(prog: &[Instruction], out: &mut Vec<Token>) {
    for i in prog {
        match i {
            Instruction::IncrementPointer => out.push(Token::IncrementPointer),
            Instruction::DecrementPointer => out.push(Token::DecrementPointer),
            Instruction::IncrementValue => out.push(Token::IncrementValue),
            Instruction::DecrementValue => out.push(Token::DecrementValue),
            Instruction::Output => out.push(Token::Output),
            Instruction::Input => out.push(Token::Input),
            Instruction::Loop(body) => {
                out.push(Token::LoopStart);
                flatten(body, out);
                out.push(Token::LoopEnd);
            }
        }
    }
}

fn profile(toks: &[Token]) -> Vec<i64> {
    let mut d: i64 = 0;
    let mut r = Vec::new();
    for t in toks {
        match t {
            Token::LoopStart => d += 1,
            Token::LoopEnd => d -= 1,
            _ => {}
        }
        r.push(d);
    }
    r
}

#[test]
fn plain_tokens_map_one_to_one() {
    let prog = parser(tokens("+-<>.,")).unwrap();
    assert_eq!(
        format!("{:?}", prog),
        "[IncrementValue, DecrementValue, DecrementPointer, IncrementPointer, Output, Input]"
    );
}

#[test]
fn nested_loops_become_nested_nodes() {
    let prog = parser(tokens("+[>[-]<-].")).unwrap();
    assert_eq!(
        format!("{:?}", prog),
        "[IncrementValue, Loop([IncrementPointer, Loop([DecrementValue]), DecrementPointer, DecrementValue]), Output]"
    );
}

#[test]
fn empty_program_and_empty_loop() {
    assert!(parser(Vec::new()).unwrap().is_empty());
    let prog = parser(tokens("[]")).unwrap();
    assert_eq!(format!("{:?}", prog), "[Loop([])]");
}

#[test]
fn parse_then_flatten_keeps_depth_profile() {
    for text in ["[[][[]]]+[>[<]]", "++[->+<]", "[[[[]]]]", "[][][]"] {
        let toks = tokens(text);
        let prog = parser(toks.clone()).unwrap();
        let mut flat = Vec::new();
        flatten(&prog, &mut flat);
        assert_eq!(flat, toks);
        assert_eq!(profile(&flat), profile(&toks));
    }
}

#[test]
fn unmatched_end_reports_its_position() {
    assert_eq!(parser(tokens("]")).unwrap_err(), ParseError::UnmatchedLoopEnd(0));
    assert_eq!(parser(tokens("+]")).unwrap_err(), ParseError::UnmatchedLoopEnd(1));
    assert_eq!(parser(tokens("[]+]][")).unwrap_err(), ParseError::UnmatchedLoopEnd(3));
}

#[test]
fn unmatched_start_reports_outermost_open_loop() {
    assert_eq!(parser(tokens("[")).unwrap_err(), ParseError::UnmatchedLoopStart(0));
    assert_eq!(parser(tokens("[[]")).unwrap_err(), ParseError::UnmatchedLoopStart(0));
    assert_eq!(parser(tokens("[]+[")).unwrap_err(), ParseError::UnmatchedLoopStart(3));
    assert_eq!(parser(tokens("+[[+[]")).unwrap_err(), ParseError::UnmatchedLoopStart(1));
}

#[test]
fn positions_count_tokens_not_characters() {
    assert_eq!(parser(tokens("ab ]")).unwrap_err(), ParseError::UnmatchedLoopEnd(0));
}

//! Scanning program text into tokens.
use vstd::prelude::*;

use crate::syntax::Token;

verus! {

/// The token that character `c` stands for, if it is one of the eight commands.
pub open spec fn token_of(c: char) -> Option<Token> {
    if c == '>' {
        Some(Token::IncrementPointer)
    } else if c == '<' {
        Some(Token::DecrementPointer)
    } else if c == '+' {
        Some(Token::IncrementValue)
    } else if c == '-' {
        Some(Token::DecrementValue)
    } else if c == '.' {
        Some(Token::Output)
    } else if c == ',' {
        Some(Token::Input)
    } else if c == '[' {
        Some(Token::LoopStart)
    } else if c == ']' {
        Some(Token::LoopEnd)
    } else {
        None
    }
}

/// Whether `c` belongs to the command alphabet.
pub open spec fn is_command(c: char) -> bool {
    token_of(c) is Some
}

/// The tokens of `s`: one for each command character, in order; every other
/// character is dropped.
pub open spec fn lex(s: Seq<char>) -> Seq<Token>
    decreases s.len(),
{
    if s.len() == 0 {
        Seq::empty()
    } else {
        let rest = lex(s.drop_last());
        match token_of(s.last()) {
            Some(t) => rest.push(t),
            None => rest,
        }
    }
}

/// Classifies one character.
pub fn classify(c: char) -> (r: Option<Token>)
    ensures
        r == token_of(c),
{
    match c {
        '>' => Some(Token::IncrementPointer),
        '<' => Some(Token::DecrementPointer),
        '+' => Some(Token::IncrementValue),
        '-' => Some(Token::DecrementValue),
        '.' => Some(Token::Output),
        ',' => Some(Token::Input),
        '[' => Some(Token::LoopStart),
        ']' => Some(Token::LoopEnd),
        _ => None,
    }
}

/// Scans `source` left to right into its tokens. Never fails: characters
/// outside the command alphabet are skipped.
pub fn lexer(source: String) -> (tokens: Vec<Token>)
    ensures
        tokens@ == lex(source@),
{
    let mut tokens: Vec<Token> = Vec::new();
    for c in it: source.as_str().chars()
        invariant
            it.seq() == source@,
            tokens@ == lex(source@.subrange(0, it.index() as int)),
    {
        proof {
            let k = it.index() as int;
            assert(source@.subrange(0, k + 1).drop_last() == source@.subrange(0, k));
        }
        match classify(c) {
            Some(t) => tokens.push(t),
            None => {},
        }
    }
    proof {
        assert(source@.subrange(0, source@.len() as int) == source@);
    }
    tokens
}

/// Lexing distributes over concatenation of program text.
pub proof fn lemma_lex_append(a: Seq<char>, b: Seq<char>)
    ensures
        lex(a + b) == lex(a) + lex(b),
    decreases b.len(),
{
    if b.len() == 0 {
        assert(a + b == a);
        assert(lex(a) + lex(b) == lex(a));
    } else {
        lemma_lex_append(a, b.drop_last());
        assert((a + b).drop_last() == a + b.drop_last());
        assert((a + b).last() == b.last());
        if let Some(t) = token_of(b.last()) {
            assert((lex(a) + lex(b.drop_last())).push(t) == lex(a) + lex(b.drop_last()).push(t));
        }
    }
}

/// Inserting a character outside the command alphabet anywhere in program
/// text leaves its tokens unchanged.
pub proof fn lemma_lex_ignores_non_command(s: Seq<char>, i: int, c: char)
    requires
        0 <= i <= s.len(),
        !is_command(c),
    ensures
        lex(s.insert(i, c)) == lex(s),
{
    let a = s.subrange(0, i);
    let b = s.subrange(i, s.len() as int);
    assert(s.insert(i, c) == a + (seq![c] + b));
    assert(s == a + b);
    lemma_lex_append(a, seq![c] + b);
    lemma_lex_append(seq![c], b);
    lemma_lex_append(a, b);
    assert(seq![c].drop_last() == Seq::<char>::empty());
    assert(seq![c].last() == c);
    assert(lex(Seq::<char>::empty()) == Seq::<Token>::empty());
    assert(lex(seq![c]) == Seq::<Token>::empty());
    assert(lex(seq![c]) + lex(b) == lex(b));
}

/// The tokens of program text depend only on its command characters: two
/// texts whose command characters agree, in order, lex alike.
pub proof fn lemma_lex_depends_only_on_commands(s: Seq<char>, t: Seq<char>)
    requires
        s.filter(|c: char| is_command(c)) == t.filter(|c: char| is_command(c)),
    ensures
        lex(s) == lex(t),
{
    lemma_lex_of_commands(s);
    lemma_lex_of_commands(t);
}

/// Lexing the command characters alone gives the same tokens as lexing the
/// whole text.
pub proof fn lemma_lex_of_commands(s: Seq<char>)
    ensures
        lex(s) == lex(s.filter(|c: char| is_command(c))),
    decreases s.len(),
{
    reveal(Seq::filter);
    let p = |c: char| is_command(c);
    if s.len() > 0 {
        lemma_lex_of_commands(s.drop_last());
        let sub = s.drop_last().filter(p);
        if is_command(s.last()) {
            assert(s.filter(p) == sub.push(s.last()));
            assert(sub.push(s.last()).drop_last() == sub);
        } else {
            assert(s.filter(p) == sub);
        }
    }
}

} // verus!

//! Turning a flat token sequence into a program tree by bracket matching.
use vstd::prelude::*;

use crate::syntax::{Instruction, ParseError, Token};

verus! {

/// How a token changes the loop nesting depth.
pub open spec fn bracket_delta(t: Token) -> int {
    match t {
        Token::LoopStart => 1,
        Token::LoopEnd => -1,
        _ => 0,
    }
}

/// The nesting depth after the first `n` tokens: the number of `[` among them
/// less the number of `]`.
pub open spec fn depth(toks: Seq<Token>, n: int) -> int
    decreases n,
{
    if n <= 0 {
        0
    } else {
        depth(toks, n - 1) + bracket_delta(toks[n - 1])
    }
}

/// No prefix of at most `n` tokens closes more loops than it opens.
pub open spec fn never_negative_upto(toks: Seq<Token>, n: int) -> bool {
    forall|k: int| 0 <= k <= n ==> depth(toks, k) >= 0
}

/// Every `]` closes an earlier `[` and every `[` is closed.
pub open spec fn balanced(toks: Seq<Token>) -> bool {
    &&& never_negative_upto(toks, toks.len() as int)
    &&& depth(toks, toks.len() as int) == 0
}

/// The token at `p` is the first `]` that has no open `[` before it.
pub open spec fn unmatched_end_at(toks: Seq<Token>, p: int) -> bool {
    &&& 0 <= p < toks.len()
    &&& toks[p] == Token::LoopEnd
    &&& depth(toks, p) == 0
    &&& never_negative_upto(toks, p)
}

/// Every `]` is matched, and the token at `p` is the outermost `[` that is
/// never closed.
pub open spec fn unmatched_start_at(toks: Seq<Token>, p: int) -> bool {
    &&& never_negative_upto(toks, toks.len() as int)
    &&& 0 <= p < toks.len()
    &&& toks[p] == Token::LoopStart
    &&& depth(toks, p) == 0
    &&& forall|k: int| p < k <= toks.len() ==> depth(toks, k) > 0
}

/// The tokens that a sequence of instructions was parsed from: each plain
/// instruction gives back its token, a loop its body between brackets.
pub open spec fn flatten(prog: Seq<Instruction>) -> Seq<Token>
    decreases prog,
{
    if prog.len() == 0 {
        Seq::empty()
    } else {
        flatten(prog.drop_last()) + flatten_one(prog.last())
    }
}

/// The tokens of a single instruction.
pub open spec fn flatten_one(i: Instruction) -> Seq<Token>
    decreases i,
{
    match i {
        Instruction::IncrementPointer => seq![Token::IncrementPointer],
        Instruction::DecrementPointer => seq![Token::DecrementPointer],
        Instruction::IncrementValue => seq![Token::IncrementValue],
        Instruction::DecrementValue => seq![Token::DecrementValue],
        Instruction::Output => seq![Token::Output],
        Instruction::Input => seq![Token::Input],
        Instruction::Loop(body) => seq![Token::LoopStart] + flatten(body@) + seq![Token::LoopEnd],
    }
}

/// Depths measured inside a span of tokens are those of the whole sequence,
/// shifted by the depth at the start of the span.
proof fn lemma_depth_subrange(toks: Seq<Token>, a: int, b: int, k: int)
    requires
        0 <= a <= b <= toks.len(),
        0 <= k <= b - a,
    ensures
        depth(toks.subrange(a, b), k) == depth(toks, a + k) - depth(toks, a),
    decreases k,
{
    if k > 0 {
        lemma_depth_subrange(toks, a, b, k - 1);
    }
}

/// Appending an instruction appends its tokens.
proof fn lemma_flatten_push(prog: Seq<Instruction>, i: Instruction)
    ensures
        flatten(prog.push(i)) == flatten(prog) + flatten_one(i),
{
    assert(prog.push(i).drop_last() == prog);
}

/// Copies the tokens at positions `lo` up to `hi`, exclusive.
fn span(tokens: &Vec<Token>, lo: usize, hi: usize) -> (r: Vec<Token>)
    requires
        lo <= hi <= tokens.len(),
    ensures
        r@ == tokens@.subrange(lo as int, hi as int),
{
    let mut r: Vec<Token> = Vec::new();
    let mut j: usize = lo;
    while j < hi
        invariant
            lo <= j <= hi <= tokens.len(),
            r@ == tokens@.subrange(lo as int, j as int),
        decreases hi - j,
    {
        r.push(tokens[j]);
        j = j + 1;
    }
    r
}

/// Builds the program tree of `tokens`.
///
/// Plain tokens become the matching instructions, in order. A `[` and its
/// matching `]` become one `Loop` whose body is the parse of the tokens
/// strictly between them. A `]` with no open `[` fails with its position; a
/// `[` that is never closed fails with the position of the outermost such one.
/// On success the tree is the only one whose tokens are `tokens`
/// ([`lemma_flatten_unique`]).
pub fn parser(tokens: Vec<Token>) -> (r: Result<Vec<Instruction>, ParseError>)
    ensures
        r is Ok <==> balanced(tokens@),
        match r {
            Ok(prog) => flatten(prog@) == tokens@,
            Err(ParseError::UnmatchedLoopEnd(p)) => unmatched_end_at(tokens@, p as int),
            Err(ParseError::UnmatchedLoopStart(p)) => unmatched_start_at(tokens@, p as int),
        },
    decreases tokens.len(),
{
    let ghost toks = tokens@;
    let mut parsed: Vec<Instruction> = Vec::new();
    let mut stack: usize = 0;
    let mut start: usize = 0;
    let mut index: usize = 0;
    while index < tokens.len()
        invariant
            toks == tokens@,
            index <= tokens.len(),
            stack <= index,
            stack == depth(toks, index as int),
            never_negative_upto(toks, index as int),
            stack == 0 ==> flatten(parsed@) == toks.subrange(0, index as int),
            stack > 0 ==> {
                &&& start < index
                &&& toks[start as int] == Token::LoopStart
                &&& depth(toks, start as int) == 0
                &&& forall|k: int| start < k <= index ==> depth(toks, k) > 0
                &&& flatten(parsed@) == toks.subrange(0, start as int)
            },
        decreases tokens.len() - index,
    {
        let tok = tokens[index];
        assert(depth(toks, index + 1) == depth(toks, index as int) + bracket_delta(tok));
        if stack == 0 {
            let ghost before = parsed@;
            match tok {
                Token::IncrementPointer => parsed.push(Instruction::IncrementPointer),
                Token::DecrementPointer => parsed.push(Instruction::DecrementPointer),
                Token::IncrementValue => parsed.push(Instruction::IncrementValue),
                Token::DecrementValue => parsed.push(Instruction::DecrementValue),
                Token::Output => parsed.push(Instruction::Output),
                Token::Input => parsed.push(Instruction::Input),
                Token::LoopStart => {
                    start = index;
                    stack = 1;
                },
                Token::LoopEnd => {
                    assert(!never_negative_upto(toks, toks.len() as int)) by {
                        assert(depth(toks, index + 1) < 0);
                    }
                    return Err(ParseError::UnmatchedLoopEnd(index));
                },
            }
            proof {
                if tok != Token::LoopStart {
                    lemma_flatten_push(before, parsed@.last());
                    assert(before.push(parsed@.last()) == parsed@);
                    assert(toks.subrange(0, index + 1) == toks.subrange(0, index as int)
                        + seq![tok]);
                }
            }
        } else {
            match tok {
                Token::LoopStart => {
                    stack = stack + 1;
                },
                Token::LoopEnd => {
                    stack = stack - 1;
                    if stack == 0 {
                        let sub = span(&tokens, start + 1, index);
                        proof {
                            let a = start + 1;
                            assert forall|k: int| 0 <= k <= sub@.len() implies depth(sub@, k)
                                >= 0 by {
                                lemma_depth_subrange(toks, a, index as int, k);
                            }
                            lemma_depth_subrange(toks, a, index as int, sub@.len() as int);
                        }
                        let body = match parser(sub) {
                            Ok(body) => body,
                            Err(e) => return Err(e),
                        };
                        let ghost before = parsed@;
                        let ghost body_toks = flatten(body@);
                        parsed.push(Instruction::Loop(body));
                        proof {
                            lemma_flatten_push(before, parsed@.last());
                            assert(before.push(parsed@.last()) == parsed@);
                            assert(toks.subrange(0, index + 1) == toks.subrange(0, start as int)
                                + seq![Token::LoopStart] + body_toks + seq![Token::LoopEnd]);
                        }
                    }
                },
                _ => {},
            }
        }
        index = index + 1;
    }
    if stack != 0 {
        return Err(ParseError::UnmatchedLoopStart(start));
    }
    proof {
        assert(toks.subrange(0, toks.len() as int) == toks);
    }
    Ok(parsed)
}

/// The nesting depth after each token of a program tree, read off the tree's
/// shape: a plain instruction at level `d` leaves the depth at `d`; a loop at
/// level `d` opens to `d + 1`, runs its body at that level and closes back to
/// `d`.
pub open spec fn tree_profile(prog: Seq<Instruction>, d: int) -> Seq<int>
    decreases prog,
{
    if prog.len() == 0 {
        Seq::empty()
    } else {
        tree_profile(prog.drop_last(), d) + tree_profile_one(prog.last(), d)
    }
}

/// The nesting depths of a single instruction at level `d`.
pub open spec fn tree_profile_one(i: Instruction, d: int) -> Seq<int>
    decreases i,
{
    match i {
        Instruction::Loop(body) => seq![d + 1] + tree_profile(body@, d + 1) + seq![d],
        _ => seq![d],
    }
}

/// The nesting depth after each token, counted on the flat sequence and
/// starting from level `d`.
pub open spec fn depth_profile(toks: Seq<Token>, d: int) -> Seq<int> {
    Seq::new(toks.len(), |k: int| d + depth(toks, k + 1))
}

proof fn lemma_depth_append(a: Seq<Token>, b: Seq<Token>, k: int)
    requires
        0 <= k <= a.len() + b.len(),
    ensures
        k <= a.len() ==> depth(a + b, k) == depth(a, k),
        k >= a.len() ==> depth(a + b, k) == depth(a, a.len() as int) + depth(b, k - a.len()),
    decreases k,
{
    if k > 0 {
        lemma_depth_append(a, b, k - 1);
    }
}

proof fn lemma_depth_profile_append(a: Seq<Token>, b: Seq<Token>, d: int)
    ensures
        depth_profile(a + b, d) == depth_profile(a, d) + depth_profile(
            b,
            d + depth(a, a.len() as int),
        ),
        depth(a + b, (a + b).len() as int) == depth(a, a.len() as int) + depth(
            b,
            b.len() as int,
        ),
{
    let n = (a + b).len() as int;
    assert forall|k: int| 0 <= k < n implies #[trigger] depth_profile(a + b, d)[k] == (
    depth_profile(a, d) + depth_profile(b, d + depth(a, a.len() as int)))[k] by {
        lemma_depth_append(a, b, k + 1);
    }
    lemma_depth_append(a, b, n);
    assert(depth_profile(a + b, d) == depth_profile(a, d) + depth_profile(
        b,
        d + depth(a, a.len() as int),
    ));
}

proof fn lemma_tree_profile(prog: Seq<Instruction>, d: int)
    ensures
        tree_profile(prog, d) == depth_profile(flatten(prog), d),
        depth(flatten(prog), flatten(prog).len() as int) == 0,
    decreases prog,
{
    if prog.len() == 0 {
        assert(depth_profile(flatten(prog), d) == Seq::<int>::empty());
    } else {
        let init = prog.drop_last();
        lemma_tree_profile(init, d);
        lemma_tree_profile_one(prog.last(), d);
        lemma_depth_profile_append(flatten(init), flatten_one(prog.last()), d);
    }
}

proof fn lemma_tree_profile_one(i: Instruction, d: int)
    ensures
        tree_profile_one(i, d) == depth_profile(flatten_one(i), d),
        depth(flatten_one(i), flatten_one(i).len() as int) == 0,
    decreases i,
{
    match i {
        Instruction::Loop(body) => {
            let open = seq![Token::LoopStart];
            let close = seq![Token::LoopEnd];
            let inner = flatten(body@);
            lemma_tree_profile(body@, d + 1);
            assert(depth(open, 0) == 0);
            assert(depth(close, 0) == 0);
            assert(depth(open, 1) == 1);
            assert(depth(close, 1) == -1);
            assert(depth_profile(open, d) == seq![d + 1]);
            assert(depth_profile(close, d + 1) == seq![d]);
            lemma_depth_profile_append(open, inner, d);
            lemma_depth_profile_append(open + inner, close, d);
        },
        _ => {
            let t = flatten_one(i);
            assert(depth(t, 0) == 0);
            assert(depth(t, 1) == 0);
            assert(depth_profile(t, d) == seq![d]);
        },
    }
}

/// The loop structure of a parsed program matches the brackets it came from:
/// the nesting depths read off the tree, token by token, are exactly the
/// depths counted on the balanced token sequence.
pub proof fn lemma_parse_keeps_depth_profile(toks: Seq<Token>, prog: Seq<Instruction>)
    requires
        balanced(toks),
        flatten(prog) == toks,
    ensures
        tree_profile(prog, 0) == depth_profile(toks, 0),
{
    lemma_tree_profile(prog, 0);
}

/// `p` and `q` are the same program: equally long, with equal plain
/// instructions and loops of the same body at each position.
pub open spec fn same_program(p: Seq<Instruction>, q: Seq<Instruction>) -> bool
    decreases p,
{
    if p.len() == 0 {
        q.len() == 0
    } else {
        &&& q.len() > 0
        &&& same_program(p.drop_last(), q.drop_last())
        &&& same_instruction(p.last(), q.last())
    }
}

/// `x` and `y` are the same instruction.
pub open spec fn same_instruction(x: Instruction, y: Instruction) -> bool
    decreases x,
{
    match x {
        Instruction::Loop(b) => match y {
            Instruction::Loop(c) => same_program(b@, c@),
            _ => false,
        },
        _ => x == y,
    }
}

/// The tokens of a program tree are balanced, and those of one instruction
/// open no loop level that they do not close before their end.
proof fn lemma_flatten_balanced(prog: Seq<Instruction>)
    ensures
        balanced(flatten(prog)),
        prog.len() > 0 ==> flatten(prog).len() > 0,
    decreases prog, 0nat,
{
    if prog.len() > 0 {
        let a = flatten(prog.drop_last());
        let u = flatten_one(prog.last());
        lemma_flatten_balanced(prog.drop_last());
        lemma_unit_depth(prog.last());
        assert forall|k: int| 0 <= k <= (a + u).len() implies depth(a + u, k) >= 0 by {
            lemma_depth_append(a, u, k);
        }
        lemma_depth_append(a, u, (a + u).len() as int);
    }
}

proof fn lemma_unit_depth(i: Instruction)
    ensures
        flatten_one(i).len() >= 1,
        depth(flatten_one(i), 0) == 0,
        depth(flatten_one(i), flatten_one(i).len() as int) == 0,
        forall|k: int| 0 < k < flatten_one(i).len() ==> depth(flatten_one(i), k) >= 1,
    decreases i, 1nat,
{
    let u = flatten_one(i);
    match i {
        Instruction::Loop(body) => {
            let open = seq![Token::LoopStart];
            let inner = flatten(body@);
            let close = seq![Token::LoopEnd];
            lemma_flatten_balanced(body@);
            assert(depth(open, 0) == 0);
            assert(depth(open, 1) == 1);
            assert(depth(close, 0) == 0);
            assert(depth(close, 1) == -1);
            assert forall|k: int| 0 < k < u.len() implies depth(u, k) >= 1 by {
                lemma_depth_append(open + inner, close, k);
                lemma_depth_append(open, inner, k);
            }
            lemma_depth_append(open + inner, close, u.len() as int);
            lemma_depth_append(open, inner, (open + inner).len() as int);
        },
        _ => {
            assert(depth(u, 0) == 0);
            assert(depth(u, 1) == 0);
        },
    }
}

/// Where a token sequence made of a balanced part followed by the tokens of
/// one instruction splits: the last interior position at depth zero.
proof fn lemma_split_unique(a: Seq<Token>, u: Seq<Token>, b: Seq<Token>, w: Seq<Token>, x: Instruction, y: Instruction)
    requires
        balanced(a),
        balanced(b),
        u == flatten_one(x),
        w == flatten_one(y),
        a + u == b + w,
    ensures
        a == b,
        u == w,
{
    lemma_unit_depth(x);
    lemma_unit_depth(y);
    let t = a + u;
    assert(t.len() == a.len() + u.len() && t.len() == b.len() + w.len());
    if a.len() < b.len() {
        lemma_depth_append(a, u, b.len() as int);
        lemma_depth_append(b, w, b.len() as int);
        assert(depth(u, b.len() - a.len()) >= 1);
        assert(false);
    } else if b.len() < a.len() {
        lemma_depth_append(b, w, a.len() as int);
        lemma_depth_append(a, u, a.len() as int);
        assert(depth(w, a.len() - b.len()) >= 1);
        assert(false);
    }
    assert(a == t.subrange(0, a.len() as int));
    assert(b == t.subrange(0, b.len() as int));
    assert(u == t.subrange(a.len() as int, t.len() as int));
    assert(w == t.subrange(b.len() as int, t.len() as int));
}

/// Program trees with the same tokens are the same program.
pub proof fn lemma_flatten_unique(p: Seq<Instruction>, q: Seq<Instruction>)
    requires
        flatten(p) == flatten(q),
    ensures
        same_program(p, q),
    decreases p, 0nat,
{
    lemma_flatten_balanced(p);
    lemma_flatten_balanced(q);
    if p.len() > 0 && q.len() > 0 {
        lemma_flatten_balanced(p.drop_last());
        lemma_flatten_balanced(q.drop_last());
        lemma_split_unique(
            flatten(p.drop_last()),
            flatten_one(p.last()),
            flatten(q.drop_last()),
            flatten_one(q.last()),
            p.last(),
            q.last(),
        );
        lemma_flatten_unique(p.drop_last(), q.drop_last());
        lemma_instruction_unique(p.last(), q.last());
    }
}

/// Instructions with the same tokens are the same instruction.
proof fn lemma_instruction_unique(x: Instruction, y: Instruction)
    requires
        flatten_one(x) == flatten_one(y),
    ensures
        same_instruction(x, y),
    decreases x, 0nat,
{
    let u = flatten_one(x);
    assert(u[0] == flatten_one(y)[0]);
    match x {
        Instruction::Loop(b) => {
            match y {
                Instruction::Loop(c) => {
                    assert(flatten(b@) == u.subrange(1, u.len() - 1));
                    assert(flatten(c@) == u.subrange(1, u.len() - 1));
                    lemma_flatten_unique(b@, c@);
                },
                _ => {},
            }
        },
        _ => {
            lemma_unit_depth(y);
        },
    }
}

} // verus!

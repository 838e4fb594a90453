//! Executing a program tree against a fixed-length tape.
//!
//! A [`Machine`] holds the tape, the data pointer, the bytes that the input
//! channel has made available, how many of them were read, and the bytes
//! written so far. Every pointer move is bounds-checked; a run that would
//! leave the tape, read past the available input, or repeat a loop more often
//! than the given limit stops with a [`RunError`], keeping the output written
//! before that point.
use vstd::prelude::*;

use crate::syntax::Instruction;

verus! {

/// Number of cells on a tape built by [`Machine::with_input`].
pub const DEFAULT_TAPE_LEN: usize = 1024;

/// Where the data pointer starts on a tape built by [`Machine::with_input`]:
/// in the middle, so that moves in both directions have room.
pub const DEFAULT_START: usize = 512;

/// Why a run stopped early.
#[derive(Clone, Copy, Debug, PartialEq, Eq, Structural)]
pub enum RunError {
    /// `<` with the data pointer on the first cell: the attempted position is -1.
    PointerUnderflow,
    /// `>` with the data pointer on the last cell; holds the attempted
    /// position, which is the tape length.
    PointerOverflow(usize),
    /// `,` when every available input byte has been read.
    InputExhausted,
    /// A loop was entered and its body ran the limit number of times while
    /// its controlling cell stayed nonzero.
    LoopLimit,
}

/// The abstract state of a machine.
pub struct State {
    pub tape: Seq<u8>,
    pub pointer: int,
    pub input: Seq<u8>,
    pub consumed: int,
    pub output: Seq<u8>,
}

/// Where a run, or a part of one, ended: the state reached, and the error
/// that stopped it, if any.
pub struct Outcome {
    pub state: State,
    pub fault: Option<RunError>,
}

/// The error of an executable result, as an `Option`.
pub open spec fn fault_of(r: Result<(), RunError>) -> Option<RunError> {
    match r {
        Ok(()) => None,
        Err(e) => Some(e),
    }
}

/// The cell value one above `v`, wrapping from 255 to 0.
pub open spec fn inc_wrap(v: u8) -> u8 {
    ((v as int + 1) % 256) as u8
}

/// The cell value one below `v`, wrapping from 0 to 255.
pub open spec fn dec_wrap(v: u8) -> u8 {
    ((v as int + 255) % 256) as u8
}

/// The cell under the data pointer.
pub open spec fn current(s: State) -> u8 {
    s.tape[s.pointer]
}

/// A finished step that reached `s`.
pub open spec fn done(s: State) -> Outcome {
    Outcome { state: s, fault: None }
}

/// A step that failed with `e`, leaving `s` as it was.
pub open spec fn failed(s: State, e: RunError) -> Outcome {
    Outcome { state: s, fault: Some(e) }
}

/// The effect of one instruction other than a loop.
pub open spec fn effect(i: Instruction, s: State) -> Outcome {
    match i {
        Instruction::IncrementPointer => if s.pointer + 1 < s.tape.len() {
            done(State { pointer: s.pointer + 1, ..s })
        } else {
            failed(s, RunError::PointerOverflow(s.tape.len() as usize))
        },
        Instruction::DecrementPointer => if s.pointer > 0 {
            done(State { pointer: s.pointer - 1, ..s })
        } else {
            failed(s, RunError::PointerUnderflow)
        },
        Instruction::IncrementValue => done(
            State { tape: s.tape.update(s.pointer, inc_wrap(current(s))), ..s },
        ),
        Instruction::DecrementValue => done(
            State { tape: s.tape.update(s.pointer, dec_wrap(current(s))), ..s },
        ),
        Instruction::Output => done(State { output: s.output.push(current(s)), ..s }),
        Instruction::Input => if s.consumed < s.input.len() {
            done(
                State {
                    tape: s.tape.update(s.pointer, s.input[s.consumed]),
                    consumed: s.consumed + 1,
                    ..s
                },
            )
        } else {
            failed(s, RunError::InputExhausted)
        },
        Instruction::Loop(_) => done(s),
    }
}

/// Runs the instructions of `prog` in order from `s`, stopping at the first
/// error. Each loop may run its body at most `limit` times per entry.
pub open spec fn run_block(prog: Seq<Instruction>, s: State, limit: nat) -> Outcome
    decreases prog, 0nat,
{
    if prog.len() == 0 {
        done(s)
    } else {
        let o = run_block(prog.drop_last(), s, limit);
        if o.fault is Some {
            o
        } else {
            run_one(prog.last(), o.state, limit)
        }
    }
}

/// Runs one instruction from `s`.
pub open spec fn run_one(i: Instruction, s: State, limit: nat) -> Outcome
    decreases i, 0nat,
{
    match i {
        Instruction::Loop(body) => run_loop(body@, s, limit, limit),
        _ => effect(i, s),
    }
}

/// Runs a loop with body `body` from `s`: while the current cell is nonzero,
/// runs the body, at most `left` more times.
pub open spec fn run_loop(body: Seq<Instruction>, s: State, limit: nat, left: nat) -> Outcome
    decreases body, left,
{
    if current(s) == 0 {
        done(s)
    } else if left == 0 {
        failed(s, RunError::LoopLimit)
    } else {
        let o = run_block(body, s, limit);
        if o.fault is Some {
            o
        } else {
            run_loop(body, o.state, limit, (left - 1) as nat)
        }
    }
}

/// A tape with its data pointer and the two byte channels.
pub struct Machine {
    /// The cells; never resized.
    pub tape: Vec<u8>,
    /// Index of the current cell.
    pub pointer: usize,
    /// The bytes the input channel has made available, in order.
    pub input: Vec<u8>,
    /// How many bytes of `input` have been read.
    pub consumed: usize,
    /// The bytes written so far, in order.
    pub output: Vec<u8>,
}

impl View for Machine {
    type V = State;

    open spec fn view(&self) -> State {
        State {
            tape: self.tape@,
            pointer: self.pointer as int,
            input: self.input@,
            consumed: self.consumed as int,
            output: self.output@,
        }
    }
}

/// The data pointer is on the tape and no more input was read than there is.
pub open spec fn state_wf(s: State) -> bool {
    &&& 0 <= s.pointer < s.tape.len()
    &&& 0 <= s.consumed <= s.input.len()
}

/// A zeroed tape of `len` cells, the pointer at `start`, nothing read or written.
pub open spec fn fresh(len: nat, start: int, input: Seq<u8>) -> State {
    State {
        tape: Seq::new(len, |k: int| 0u8),
        pointer: start,
        input,
        consumed: 0,
        output: Seq::empty(),
    }
}

impl Machine {
    /// The machine is in a state the interpreter can run from.
    pub open spec fn wf(&self) -> bool {
        state_wf(self@)
    }

    /// A machine with `tape_len` zeroed cells and the pointer at `start`,
    /// reading from `input`; `None` where `start` is not on the tape.
    pub fn new(tape_len: usize, start: usize, input: Vec<u8>) -> (r: Option<Machine>)
        ensures
            start < tape_len <==> r is Some,
            r matches Some(m) ==> m.wf() && m@ == fresh(tape_len as nat, start as int, input@),
    {
        if start >= tape_len {
            return None;
        }
        let mut tape: Vec<u8> = Vec::new();
        let mut k: usize = 0;
        while k < tape_len
            invariant
                k <= tape_len,
                tape@ == Seq::new(k as nat, |j: int| 0u8),
            decreases tape_len - k,
        {
            tape.push(0);
            k = k + 1;
        }
        Some(Machine { tape, pointer: start, input, consumed: 0, output: Vec::new() })
    }

    /// A machine with the default tape length and start position.
    pub fn with_input(input: Vec<u8>) -> (m: Machine)
        ensures
            m.wf(),
            m@ == fresh(DEFAULT_TAPE_LEN as nat, DEFAULT_START as int, input@),
    {
        Machine::new(DEFAULT_TAPE_LEN, DEFAULT_START, input).unwrap()
    }

    /// Performs one instruction other than a loop; on an error the machine
    /// is left as it was.
    pub fn step(&mut self, instr: &Instruction) -> (r: Result<(), RunError>)
        requires
            old(self).wf(),
            !(instr is Loop),
        ensures
            final(self).wf(),
            effect(*instr, old(self)@) == (Outcome { state: final(self)@, fault: fault_of(r) }),
    {
        let p = self.pointer;
        match instr {
            Instruction::IncrementPointer => {
                if p < self.tape.len() - 1 {
                    self.pointer = p + 1;
                } else {
                    return Err(RunError::PointerOverflow(self.tape.len()));
                }
            },
            Instruction::DecrementPointer => {
                if p > 0 {
                    self.pointer = p - 1;
                } else {
                    return Err(RunError::PointerUnderflow);
                }
            },
            Instruction::IncrementValue => {
                let v = self.tape[p];
                let w: u8 = if v == 255 { 0 } else { v + 1 };
                self.tape.set(p, w);
            },
            Instruction::DecrementValue => {
                let v = self.tape[p];
                let w: u8 = if v == 0 { 255 } else { v - 1 };
                self.tape.set(p, w);
            },
            Instruction::Output => {
                let v = self.tape[p];
                self.output.push(v);
            },
            Instruction::Input => {
                if self.consumed < self.input.len() {
                    let v = self.input[self.consumed];
                    self.tape.set(p, v);
                    self.consumed = self.consumed + 1;
                } else {
                    return Err(RunError::InputExhausted);
                }
            },
            Instruction::Loop(_) => {},
        }
        proof {
            assert(self@ == effect(*instr, old(self)@).state);
        }
        Ok(())
    }
}

/// Once a prefix of a program has failed, the whole program fails the same way.
proof fn lemma_fault_sticks(prog: Seq<Instruction>, s: State, limit: nat, k: int)
    requires
        0 <= k <= prog.len(),
        run_block(prog.subrange(0, k), s, limit).fault is Some,
    ensures
        run_block(prog, s, limit) == run_block(prog.subrange(0, k), s, limit),
    decreases prog.len(),
{
    if k == prog.len() {
        assert(prog.subrange(0, k) == prog);
    } else {
        assert(prog.drop_last().subrange(0, k) == prog.subrange(0, k));
        lemma_fault_sticks(prog.drop_last(), s, limit, k);
    }
}

/// Runs `parsed` on `machine`: each instruction in order, a loop repeating
/// its body while the current cell is nonzero, checked before every pass.
/// Stops at the first error, with the machine as it was just before the
/// failing instruction. A loop whose body has run `limit` times on one entry,
/// with its cell still nonzero, stops the run with `RunError::LoopLimit`.
pub fn interpret(parsed: &Vec<Instruction>, machine: &mut Machine, limit: u64) -> (r: Result<
    (),
    RunError,
>)
    requires
        old(machine).wf(),
    ensures
        final(machine).wf(),
        run_block(parsed@, old(machine)@, limit as nat) == (Outcome {
            state: final(machine)@,
            fault: fault_of(r),
        }),
    decreases parsed@,
{
    let n = parsed.len();
    let mut i: usize = 0;
    while i < n
        invariant
            n == parsed@.len(),
            i <= n,
            machine.wf(),
            run_block(parsed@.subrange(0, i as int), old(machine)@, limit as nat) == done(machine@),
        decreases n - i,
    {
        let ghost before = machine@;
        let ghost prefix = parsed@.subrange(0, i as int + 1);
        assert(prefix.drop_last() == parsed@.subrange(0, i as int));
        assert(prefix.last() == parsed@[i as int]);
        let instr = &parsed[i];
        match instr {
            Instruction::Loop(body) => {
                proof {
                    assert(decreases_to!(parsed@ => parsed@[i as int]));
                    assert(decreases_to!(parsed@[i as int] => *body));
                    assert(decreases_to!(*body => body@));
                    assert(decreases_to!(parsed@ => body@));
                }
                let mut left: u64 = limit;
                assert(run_block(prefix, old(machine)@, limit as nat) == run_one(*instr, before, limit as nat));
                while machine.tape[machine.pointer] != 0
                    invariant
                        machine.wf(),
                        left <= limit,
                        n == parsed@.len(),
                        i < n,
                        parsed@[i as int] == Instruction::Loop(*body),
                        decreases_to!(parsed@ => body@),
                        prefix == parsed@.subrange(0, i as int + 1),
                        prefix.drop_last() == parsed@.subrange(0, i as int),
                        prefix.last() == parsed@[i as int],
                        run_block(parsed@.subrange(0, i as int), old(machine)@, limit as nat) == done(before),
                        run_block(prefix, old(machine)@, limit as nat) == run_loop(
                            body@,
                            machine@,
                            limit as nat,
                            left as nat,
                        ),
                    decreases left,
                {
                    if left == 0 {
                        proof {
                            lemma_fault_sticks(parsed@, old(machine)@, limit as nat, i as int + 1);
                        }
                        return Err(RunError::LoopLimit);
                    }
                    left = left - 1;
                    let r = interpret(body, machine, limit);
                    if r.is_err() {
                        proof {
                            lemma_fault_sticks(parsed@, old(machine)@, limit as nat, i as int + 1);
                        }
                        return r;
                    }
                }
            },
            _ => {
                let r = machine.step(instr);
                assert(run_block(prefix, old(machine)@, limit as nat) == run_one(*instr, before, limit as nat));
                assert(run_one(*instr, before, limit as nat) == effect(*instr, before));
                if r.is_err() {
                    proof {
                        lemma_fault_sticks(parsed@, old(machine)@, limit as nat, i as int + 1);
                    }
                    return r;
                }
            },
        }
        i = i + 1;
    }
    proof {
        assert(parsed@.subrange(0, n as int) == parsed@);
    }
    Ok(())
}

/// What running `prog` on a fresh default tape, with `input` available on
/// the input channel, ends in.
pub open spec fn run_fresh(prog: Seq<Instruction>, input: Seq<u8>, limit: nat) -> Outcome {
    run_block(prog, fresh(DEFAULT_TAPE_LEN as nat, DEFAULT_START as int, input), limit)
}

/// Runs `parsed` on a fresh default tape with `input` available, and returns
/// the bytes written, together with the error that stopped the run, if any.
pub fn execute(parsed: &Vec<Instruction>, input: Vec<u8>, limit: u64) -> (r: (
    Vec<u8>,
    Result<(), RunError>,
))
    ensures
        r.0@ == run_fresh(parsed@, input@, limit as nat).state.output,
        fault_of(r.1) == run_fresh(parsed@, input@, limit as nat).fault,
{
    let mut machine = Machine::with_input(input);
    let res = interpret(parsed, &mut machine, limit);
    (machine.output, res)
}

/// Runs are reproducible: two machines started fresh on equal tapes, with
/// the same input available, end a run of the same program in the same
/// state, with the same output and the same error.
pub proof fn lemma_fresh_runs_agree(
    prog: Seq<Instruction>,
    m1: Machine,
    m2: Machine,
    limit: nat,
)
    requires
        m1@ == fresh(m1.tape@.len(), m1.pointer as int, m1.input@),
        m2@ == fresh(m2.tape@.len(), m2.pointer as int, m2.input@),
        m1.tape@.len() == m2.tape@.len(),
        m1.pointer == m2.pointer,
        m1.input@ == m2.input@,
    ensures
        run_block(prog, m1@, limit) == run_block(prog, m2@, limit),
{
}

/// `a` is an initial part of `b`.
pub open spec fn prefix_of(a: Seq<u8>, b: Seq<u8>) -> bool {
    a.len() <= b.len() && b.subrange(0, a.len() as int) == a
}

/// `t` is `s` with possibly more bytes available on the input channel.
pub open spec fn more_input(s: State, t: State) -> bool {
    &&& t.tape == s.tape
    &&& t.pointer == s.pointer
    &&& t.consumed == s.consumed
    &&& 0 <= s.consumed
    &&& t.output == s.output
    &&& prefix_of(s.input, t.input)
}

proof fn lemma_prefix_trans(a: Seq<u8>, b: Seq<u8>, c: Seq<u8>)
    requires
        prefix_of(a, b),
        prefix_of(b, c),
    ensures
        prefix_of(a, c),
{
    assert(c.subrange(0, a.len() as int) == c.subrange(0, b.len() as int).subrange(
        0,
        a.len() as int,
    ));
}

proof fn lemma_prefix_refl(a: Seq<u8>)
    ensures
        prefix_of(a, a),
{
    assert(a.subrange(0, a.len() as int) == a);
}

proof fn lemma_block_output_grows(prog: Seq<Instruction>, s: State, limit: nat)
    ensures
        prefix_of(s.output, run_block(prog, s, limit).state.output),
    decreases prog, 0nat,
{
    if prog.len() == 0 {
        lemma_prefix_refl(s.output);
    } else {
        let o = run_block(prog.drop_last(), s, limit);
        lemma_block_output_grows(prog.drop_last(), s, limit);
        if o.fault is None {
            lemma_one_output_grows(prog.last(), o.state, limit);
            lemma_prefix_trans(s.output, o.state.output, run_one(prog.last(), o.state, limit).state.output);
        }
    }
}

proof fn lemma_one_output_grows(i: Instruction, s: State, limit: nat)
    ensures
        prefix_of(s.output, run_one(i, s, limit).state.output),
    decreases i, 0nat,
{
    match i {
        Instruction::Loop(body) => lemma_loop_output_grows(body@, s, limit, limit),
        Instruction::Output => {
            assert(s.output.push(current(s)).subrange(0, s.output.len() as int) == s.output);
        },
        _ => lemma_prefix_refl(s.output),
    }
}

proof fn lemma_loop_output_grows(body: Seq<Instruction>, s: State, limit: nat, left: nat)
    ensures
        prefix_of(s.output, run_loop(body, s, limit, left).state.output),
    decreases body, left,
{
    if current(s) == 0 || left == 0 {
        lemma_prefix_refl(s.output);
    } else {
        let o = run_block(body, s, limit);
        lemma_block_output_grows(body, s, limit);
        if o.fault is None {
            lemma_loop_output_grows(body, o.state, limit, (left - 1) as nat);
            lemma_prefix_trans(s.output, o.state.output, run_loop(body, o.state, limit, (left - 1) as nat).state.output);
        }
    }
}

/// How two runs relate when the second has more input available: unless the
/// first ran out of input, both end alike; if it did, the second has written
/// at least what the first wrote.
pub open spec fn extends_run(o: Outcome, p: Outcome) -> bool {
    if o.fault == Some(RunError::InputExhausted) {
        prefix_of(o.state.output, p.state.output)
    } else {
        p.fault == o.fault && more_input(o.state, p.state)
    }
}

proof fn lemma_block_more_input(prog: Seq<Instruction>, s: State, t: State, limit: nat)
    requires
        more_input(s, t),
    ensures
        extends_run(run_block(prog, s, limit), run_block(prog, t, limit)),
    decreases prog, 0nat,
{
    if prog.len() > 0 {
        let o = run_block(prog.drop_last(), s, limit);
        let p = run_block(prog.drop_last(), t, limit);
        lemma_block_more_input(prog.drop_last(), s, t, limit);
        if o.fault == Some(RunError::InputExhausted) {
            if p.fault is None {
                lemma_one_output_grows(prog.last(), p.state, limit);
                lemma_prefix_trans(o.state.output, p.state.output, run_one(prog.last(), p.state, limit).state.output);
            }
        } else if o.fault is None {
            lemma_one_more_input(prog.last(), o.state, p.state, limit);
        }
    }
}

proof fn lemma_one_more_input(i: Instruction, s: State, t: State, limit: nat)
    requires
        more_input(s, t),
    ensures
        extends_run(run_one(i, s, limit), run_one(i, t, limit)),
    decreases i, 0nat,
{
    match i {
        Instruction::Loop(body) => lemma_loop_more_input(body@, s, t, limit, limit),
        Instruction::Input => {
            if s.consumed < s.input.len() {
                assert(t.input[s.consumed] == t.input.subrange(0, s.input.len() as int)[s.consumed]);
            } else {
                lemma_one_output_grows(i, t, limit);
            }
        },
        _ => {},
    }
}

proof fn lemma_loop_more_input(body: Seq<Instruction>, s: State, t: State, limit: nat, left: nat)
    requires
        more_input(s, t),
    ensures
        extends_run(run_loop(body, s, limit, left), run_loop(body, t, limit, left)),
    decreases body, left,
{
    if current(s) != 0 && left != 0 {
        let o = run_block(body, s, limit);
        let p = run_block(body, t, limit);
        lemma_block_more_input(body, s, t, limit);
        if o.fault == Some(RunError::InputExhausted) {
            if p.fault is None {
                lemma_loop_output_grows(body, p.state, limit, (left - 1) as nat);
                lemma_prefix_trans(o.state.output, p.state.output, run_loop(body, p.state, limit, (left - 1) as nat).state.output);
            }
        } else if o.fault is None {
            lemma_loop_more_input(body, o.state, p.state, limit, (left - 1) as nat);
        }
    }
}

/// Making more input available never changes what a run has already done:
/// a run that did not run out of input ends the same way, with the same
/// output, when more bytes follow its input; a run that ran out of input has
/// written a prefix of what the longer run writes.
pub proof fn lemma_more_input_extends_output(
    prog: Seq<Instruction>,
    input: Seq<u8>,
    more: Seq<u8>,
    limit: nat,
)
    ensures
        extends_run(run_fresh(prog, input, limit), run_fresh(prog, input + more, limit)),
{
    let s = fresh(DEFAULT_TAPE_LEN as nat, DEFAULT_START as int, input);
    let t = fresh(DEFAULT_TAPE_LEN as nat, DEFAULT_START as int, input + more);
    assert((input + more).subrange(0, input.len() as int) == input);
    lemma_block_more_input(prog, s, t, limit);
}

} // verus!

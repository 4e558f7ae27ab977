//! The tape and the evaluator.

use crate::ir::{Code, Instr, AST};
use crate::model::{
    add_byte, iterate, lemma_run_concat, ring, run, step, Outcome, TapeState, CAPACITY, START,
};
use vstd::prelude::*;

verus! {

/// A ring of [`CAPACITY`] byte cells with one cursor, and the bytes emitted
/// while running.
pub struct Tape {
    mem: Vec<u8>,
    point: usize,
    out: Vec<u8>,
}

/// Adds `d` to the byte `v`, modulo 256.
fn wrap_cell(v: u8, d: i64) -> (r: u8)
    requires
        -0x100_0000_0000 <= d <= 0x100_0000_0000,
    ensures
        r == add_byte(v, d as int),
{
    let lifted: i64 = v as i64 + d + 0x100_0000_0000;
    assert((lifted as int) % 256 == (v as int + d as int) % 256);
    (lifted % 256) as u8
}

/// Moves `d` cells from cell `p` along the ring.
fn wrap_index(p: usize, d: isize) -> (r: usize)
    requires
        p < CAPACITY,
    ensures
        r == ring(p as int, d as int),
        r < CAPACITY,
{
    let lifted: i128 = p as i128 + d as i128 + 0x8000_0000_0000_0000;
    assert((lifted as int) % (CAPACITY as int) == (p as int + d as int) % (CAPACITY as int));
    (lifted % (CAPACITY as i128)) as usize
}

impl Tape {
    /// The tape this value stands for.
    pub closed spec fn view(&self) -> TapeState {
        TapeState { mem: self.mem@, point: self.point as int, out: self.out@ }
    }

    /// The tape has all its cells and the cursor is on one of them.
    pub open spec fn wf(&self) -> bool {
        self@.wf()
    }

    /// A fresh tape: every cell zero, the cursor on cell [`START`], nothing
    /// emitted.
    pub fn new() -> (tape: Tape)
        ensures
            tape.wf(),
            tape@ == TapeState::fresh(),
    {
        let tape = Tape { mem: vec![0u8; CAPACITY], point: START, out: Vec::new() };
        assert(tape@.mem =~= TapeState::fresh().mem);
        tape
    }

    /// The value of cell `at`.
    pub fn cell(&self, at: usize) -> (v: u8)
        requires
            self.wf(),
            at < CAPACITY,
        ensures
            v == self@.mem[at as int],
    {
        self.mem[at]
    }

    /// The cell the cursor is on.
    pub fn cursor(&self) -> (at: usize)
        requires
            self.wf(),
        ensures
            at == self@.point,
            at < CAPACITY,
    {
        self.point
    }

    /// The bytes emitted so far, oldest first.
    pub fn output(&self) -> (out: &Vec<u8>)
        ensures
            out@ == self@.out,
    {
        &self.out
    }

    /// Emits the current cell as one output byte.
    pub fn put_char(&mut self)
        requires
            old(self).wf(),
        ensures
            final(self).wf(),
            final(self)@ == old(self)@.apply(Instr::Put),
    {
        let byte = self.mem[self.point];
        self.out.push(byte);
    }

    /// Reads from the input channel into the current cell.  The channel is
    /// always empty, and an empty channel reads as zero.
    pub fn get_char(&mut self)
        requires
            old(self).wf(),
        ensures
            final(self).wf(),
            final(self)@ == old(self)@.apply(Instr::Get),
    {
        let at = self.point;
        self.mem[at] = 0;
    }

    /// Runs `ast` on this tape, letting no loop go round more than `fuel`
    /// times per entry.  Returns whether the program ran to its end; if not,
    /// the tape is left as it stood when a loop exceeded the budget.
    #[verifier::loop_isolation(false)]
    pub fn evaluate(&mut self, ast: &AST, fuel: u64) -> (halted: bool)
        requires
            old(self).wf(),
        ensures
            final(self).wf(),
            run(ast@, old(self)@, fuel as nat) == (Outcome { tape: final(self)@, halted }),
        decreases ast,
    {
        let ghost start = self@;
        let mut i: usize = 0;
        while i < ast.codes.len()
            invariant
                self.wf(),
                i <= ast.codes.len(),
                run(ast@.take(i as int), start, fuel as nat) == (Outcome { tape: self@, halted: true }),
            decreases ast.codes.len() - i,
        {
            let ghost before = self@;
            assert(ast@.take(i + 1).drop_last() =~= ast@.take(i as int));
            assert(ast@.take(i + 1).last() == ast.codes[i as int]@);
            assert(ast@ =~= ast@.take(i + 1) + ast@.skip(i + 1));
            assert(run(ast@.take(i + 1), start, fuel as nat) == step(ast@[i as int], before, fuel as nat));
            match &ast.codes[i] {
                Code::Add(d) => {
                    let at = self.point;
                    let v = wrap_cell(self.mem[at], *d as i64);
                    self.mem[at] = v;
                },
                Code::Move(d) => {
                    self.point = wrap_index(self.point, *d);
                },
                Code::Put => {
                    self.put_char();
                },
                Code::Get => {
                    self.get_char();
                },
                Code::Loop(body) => {
                    let mut left: u64 = fuel;
                    while self.mem[self.point] != 0
                        invariant
                            self.wf(),
                            iterate(body@, before, fuel as nat, fuel as nat) == iterate(
                                body@,
                                self@,
                                fuel as nat,
                                left as nat,
                            ),
                        decreases left,
                    {
                        if left == 0 {
                            proof {
                                lemma_run_concat(ast@.take(i + 1), ast@.skip(i + 1), start, fuel as nat);
                            }
                            return false;
                        }
                        left -= 1;
                        if !self.evaluate(body, fuel) {
                            proof {
                                lemma_run_concat(ast@.take(i + 1), ast@.skip(i + 1), start, fuel as nat);
                            }
                            return false;
                        }
                    }
                },
                Code::Assign(v) => {
                    let at = self.point;
                    self.mem[at] = *v;
                },
                Code::Mull(pair) => {
                    let target = wrap_index(self.point, pair.0);
                    let guard = self.mem[self.point];
                    let factor = pair.1;
                    assert(-0x100_0000_0000 <= guard as int * factor as int <= 0x100_0000_0000)
                        by (nonlinear_arith)
                        requires
                            0 <= guard <= 255,
                            -0x8000_0000 <= factor <= 0x7fff_ffff,
                    ;
                    let product: i64 = (guard as i64) * (factor as i64);
                    let v = wrap_cell(self.mem[target], product);
                    self.mem[target] = v;
                },
            }
            i += 1;
        }
        assert(ast@.take(i as int) =~= ast@);
        true
    }
}

} // verus!

//! The meaning of programs: a tape of byte cells, and what each instruction
//! does to it.
//!
//! Loops need not end, so running is defined under a budget: no loop may go
//! round more than `fuel` times each time it is entered.  When a loop would
//! exceed the budget the run stops where it stands, and the outcome says so.

use crate::ir::Instr;
use vstd::prelude::*;

verus! {

/// Number of cells on the tape.  The tape is a ring: cursor arithmetic is
/// modulo this number, so the cell before the first is the last.
pub const CAPACITY: usize = 1048576;

/// Cell under the cursor when a run begins, whatever the optimization level.
/// It leaves room to go left before the cursor comes round to the far end.
pub const START: usize = 4096;

/// The value of a cell after `d` is added to it: addition modulo 256.
pub open spec fn add_byte(v: u8, d: int) -> u8 {
    ((v as int + d) % 256) as u8
}

/// The cell that lies `d` places from cell `p` on the ring.
pub open spec fn ring(p: int, d: int) -> int {
    (p + d) % (CAPACITY as int)
}

/// The mathematical model of a tape: its cells, the cursor and the bytes
/// emitted so far.
pub struct TapeState {
    pub mem: Seq<u8>,
    pub point: int,
    pub out: Seq<u8>,
}

/// Where a run under a budget ended.
pub struct Outcome {
    /// The tape as the run left it.
    pub tape: TapeState,
    /// Whether the program ran to its end; `false` when a loop exceeded the
    /// budget, in which case `tape` is the tape at that moment.
    pub halted: bool,
}

impl TapeState {
    /// The tape has all its cells and the cursor is on one of them.
    pub open spec fn wf(self) -> bool {
        &&& self.mem.len() == CAPACITY
        &&& 0 <= self.point < CAPACITY
    }

    /// The fresh tape: all cells zero, cursor at [`START`], nothing emitted.
    pub open spec fn fresh() -> TapeState {
        TapeState {
            mem: Seq::new(CAPACITY as nat, |i: int| 0u8),
            point: START as int,
            out: Seq::empty(),
        }
    }

    /// The cell under the cursor.
    pub open spec fn cell(self) -> u8 {
        self.mem[self.point]
    }

    /// This tape with `v` stored in cell `at`.
    pub open spec fn store(self, at: int, v: u8) -> TapeState {
        TapeState { mem: self.mem.update(at, v), ..self }
    }

    /// This tape after one instruction that is not a loop.
    pub open spec fn apply(self, i: Instr) -> TapeState {
        match i {
            Instr::Get => self.store(self.point, 0),
            Instr::Put => TapeState { out: self.out.push(self.cell()), ..self },
            Instr::Add(d) => self.store(self.point, add_byte(self.cell(), d as int)),
            Instr::Move(d) => TapeState { point: ring(self.point, d as int), ..self },
            Instr::Assign(v) => self.store(self.point, v),
            Instr::MultiplyAdd(k, m) => {
                let target = ring(self.point, k as int);
                self.store(target, add_byte(self.mem[target], self.cell() as int * m as int))
            },
            Instr::Loop(_) => self,
        }
    }
}

/// The outcome of running `codes` from tape `t` under the budget `fuel`.
pub open spec fn run(codes: Seq<Instr>, t: TapeState, fuel: nat) -> Outcome
    decreases codes, 0nat, 0nat,
{
    if codes.len() == 0 {
        Outcome { tape: t, halted: true }
    } else {
        let before = run(codes.drop_last(), t, fuel);
        if before.halted {
            step(codes.last(), before.tape, fuel)
        } else {
            before
        }
    }
}

/// The outcome of one instruction from tape `t` under the budget `fuel`.
pub open spec fn step(i: Instr, t: TapeState, fuel: nat) -> Outcome
    decreases i, 0nat, 0nat,
{
    match i {
        Instr::Loop(body) => iterate(body, t, fuel, fuel),
        _ => Outcome { tape: t.apply(i), halted: true },
    }
}

/// The outcome of a loop over `body` that may still go round `left` times.
pub open spec fn iterate(body: Seq<Instr>, t: TapeState, fuel: nat, left: nat) -> Outcome
    decreases body, 1nat, left,
{
    if t.cell() == 0 {
        Outcome { tape: t, halted: true }
    } else if left == 0 {
        Outcome { tape: t, halted: false }
    } else {
        let once = run(body, t, fuel);
        if once.halted {
            iterate(body, once.tape, fuel, (left - 1) as nat)
        } else {
            once
        }
    }
}

/// Adding two deltas in turn is adding their wrapped sum.
pub proof fn lemma_add_byte_sum(v: u8, e: i32, d: i32)
    ensures
        add_byte(add_byte(v, e as int), d as int) == add_byte(v, e.wrapping_add(d) as int),
{
}

/// Moving by two offsets in turn is moving by their wrapped sum.
pub proof fn lemma_ring_sum(p: int, e: isize, d: isize)
    requires
        0 <= p < CAPACITY,
    ensures
        ring(ring(p, e as int), d as int) == ring(p, e.wrapping_add(d) as int),
{
    assert(usize::MAX == 0xffff_ffff || usize::MAX == 0xffff_ffff_ffff_ffff);
}

/// Running `a` and then `b` is running their concatenation.
pub proof fn lemma_run_concat(a: Seq<Instr>, b: Seq<Instr>, t: TapeState, fuel: nat)
    ensures
        run(a + b, t, fuel) == if run(a, t, fuel).halted {
            run(b, run(a, t, fuel).tape, fuel)
        } else {
            run(a, t, fuel)
        },
    decreases b.len(),
{
    if b.len() == 0 {
        assert(a + b =~= a);
    } else {
        lemma_run_concat(a, b.drop_last(), t, fuel);
        assert((a + b).drop_last() =~= a + b.drop_last());
        assert((a + b).last() == b.last());
    }
}

/// Running keeps a tape well formed.
pub proof fn lemma_run_wf(codes: Seq<Instr>, t: TapeState, fuel: nat)
    requires
        t.wf(),
    ensures
        run(codes, t, fuel).tape.wf(),
    decreases codes, 0nat, 0nat,
{
    if codes.len() > 0 {
        lemma_run_wf(codes.drop_last(), t, fuel);
        let before = run(codes.drop_last(), t, fuel);
        if before.halted {
            lemma_step_wf(codes.last(), before.tape, fuel);
        }
    }
}

/// One instruction keeps a tape well formed.
pub proof fn lemma_step_wf(i: Instr, t: TapeState, fuel: nat)
    requires
        t.wf(),
    ensures
        step(i, t, fuel).tape.wf(),
    decreases i, 0nat, 0nat,
{
    match i {
        Instr::Loop(body) => lemma_iterate_wf(body, t, fuel, fuel),
        _ => {},
    }
}

/// A loop keeps a tape well formed.
pub proof fn lemma_iterate_wf(body: Seq<Instr>, t: TapeState, fuel: nat, left: nat)
    requires
        t.wf(),
    ensures
        iterate(body, t, fuel, left).tape.wf(),
    decreases body, 1nat, left,
{
    if t.cell() != 0 && left != 0 {
        lemma_run_wf(body, t, fuel);
        let once = run(body, t, fuel);
        if once.halted {
            lemma_iterate_wf(body, once.tape, fuel, (left - 1) as nat);
        }
    }
}

/// A larger budget changes nothing for a run that ends: it ends again, with
/// the same tape.
pub proof fn lemma_run_monotone(codes: Seq<Instr>, t: TapeState, fuel: nat, more: nat)
    requires
        run(codes, t, fuel).halted,
        fuel <= more,
    ensures
        run(codes, t, more) == run(codes, t, fuel),
    decreases codes, 0nat, 0nat,
{
    if codes.len() > 0 {
        lemma_run_monotone(codes.drop_last(), t, fuel, more);
        let before = run(codes.drop_last(), t, fuel);
        assert(run(codes, t, fuel) == step(codes.last(), before.tape, fuel));
        assert(run(codes, t, more) == step(codes.last(), before.tape, more));
        match codes.last() {
            Instr::Loop(body) => lemma_iterate_monotone(body, before.tape, fuel, fuel, more, more),
            _ => {},
        }
    }
}

/// A larger budget changes nothing for a loop that ends.
pub proof fn lemma_iterate_monotone(
    body: Seq<Instr>,
    t: TapeState,
    fuel: nat,
    left: nat,
    more: nat,
    more_left: nat,
)
    requires
        iterate(body, t, fuel, left).halted,
        fuel <= more,
        left <= more_left,
    ensures
        iterate(body, t, more, more_left) == iterate(body, t, fuel, left),
    decreases body, 1nat, left,
{
    if t.cell() != 0 {
        lemma_run_monotone(body, t, fuel, more);
        lemma_iterate_monotone(
            body,
            run(body, t, fuel).tape,
            fuel,
            (left - 1) as nat,
            more,
            (more_left - 1) as nat,
        );
    }
}

} // verus!

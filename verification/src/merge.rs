//! The run-merging pass: neighbouring additions become one addition, and
//! neighbouring cursor moves become one move.

use crate::ir::{is_raw, Code, Instr, AST};
use crate::model::{
    iterate, lemma_add_byte_sum, lemma_ring_sum, lemma_run_wf, run, step, TapeState,
};
use vstd::prelude::*;

verus! {

/// `done` with `next` appended, where an addition that follows an addition, or
/// a move that follows a move, is folded into it.  Sums wrap around, which
/// changes neither their value modulo 256 nor modulo the tape's capacity.
pub open spec fn fuse(done: Seq<Instr>, next: Instr) -> Seq<Instr> {
    if done.len() == 0 {
        done.push(next)
    } else {
        match (done.last(), next) {
            (Instr::Add(e), Instr::Add(d)) => done.drop_last().push(Instr::Add(e.wrapping_add(d))),
            (Instr::Move(e), Instr::Move(d)) => done.drop_last().push(
                Instr::Move(e.wrapping_add(d)),
            ),
            _ => done.push(next),
        }
    }
}

/// The program with every maximal run of additions replaced by one addition
/// of their sum and every maximal run of moves by one move of their sum, in
/// the program itself and in every loop body.  Nothing else changes, and no
/// instruction changes place.
pub open spec fn merged(codes: Seq<Instr>) -> Seq<Instr>
    decreases codes,
{
    if codes.len() == 0 {
        Seq::empty()
    } else {
        let done = merged(codes.drop_last());
        match codes.last() {
            Instr::Loop(body) => done.push(Instr::Loop(merged(body))),
            other => fuse(done, other),
        }
    }
}

/// What a pending instruction will contribute once it is written out.
pub open spec fn pending(ctx: Option<Code>) -> Seq<Instr> {
    match ctx {
        Some(code) => seq![code@],
        None => Seq::empty(),
    }
}

/// Whether the instruction is one that merging folds into its neighbour.
pub open spec fn is_foldable(i: Instr) -> bool {
    i is Add || i is Move
}

impl AST {
    /// Merges runs of additions and runs of moves, here and in every loop
    /// body.
    pub fn _optimize_merge(src: &AST) -> (dst: AST)
        ensures
            dst@ == merged(src@),
        decreases src,
    {
        let mut dst = AST::new();
        let mut ctx: Option<Code> = None;
        let mut i: usize = 0;
        while i < src.codes.len()
            invariant
                i <= src.codes.len(),
                dst@ + pending(ctx) == merged(src@.take(i as int)),
                ctx matches Some(code) ==> is_foldable(code@),
                ctx is None ==> dst@.len() == 0 || !is_foldable(dst@.last()),
            decreases src.codes.len() - i,
        {
            assert(src@.take(i + 1).drop_last() =~= src@.take(i as int));
            assert(src@.take(i + 1).last() == src.codes[i as int]@);
            let ghost done = merged(src@.take(i as int));
            assert(merged(src@.take(i + 1)) == match src@[i as int] {
                Instr::Loop(body) => done.push(Instr::Loop(merged(body))),
                other => fuse(done, other),
            });
            match &src.codes[i] {
                Code::Add(d) => {
                    match ctx {
                        Some(Code::Add(e)) => {
                            ctx = Some(Code::Add(e.wrapping_add(*d)));
                            assert(dst@ + pending(ctx) =~= fuse(done, Instr::Add(*d)));
                        },
                        Some(other) => {
                            dst.push(other);
                            ctx = Some(Code::Add(*d));
                            assert(dst@ + pending(ctx) =~= fuse(done, Instr::Add(*d)));
                        },
                        None => {
                            ctx = Some(Code::Add(*d));
                            assert(dst@ + pending(ctx) =~= fuse(done, Instr::Add(*d)));
                        },
                    }
                },
                Code::Move(d) => {
                    match ctx {
                        Some(Code::Move(e)) => {
                            ctx = Some(Code::Move(e.wrapping_add(*d)));
                            assert(dst@ + pending(ctx) =~= fuse(done, Instr::Move(*d)));
                        },
                        Some(other) => {
                            dst.push(other);
                            ctx = Some(Code::Move(*d));
                            assert(dst@ + pending(ctx) =~= fuse(done, Instr::Move(*d)));
                        },
                        None => {
                            ctx = Some(Code::Move(*d));
                            assert(dst@ + pending(ctx) =~= fuse(done, Instr::Move(*d)));
                        },
                    }
                },
                Code::Loop(loop_src) => {
                    if let Some(other) = ctx {
                        dst.push(other);
                        ctx = None;
                    }
                    assert(dst@ =~= done);
                    let loop_dst = AST::_optimize_merge(loop_src);
                    dst.push(Code::Loop(Box::new(loop_dst)));
                    assert(dst@ + pending(ctx) =~= dst@);
                },
                else_code => {
                    if let Some(other) = ctx {
                        dst.push(other);
                        ctx = None;
                    }
                    assert(dst@ =~= done);
                    dst.push(else_code.clone());
                    assert(dst@ + pending(ctx) =~= dst@);
                },
            }
            i += 1;
        }
        assert(src@.take(i as int) =~= src@);
        if let Some(some) = ctx {
            dst.push(some);
        }
        assert(dst@ =~= merged(src@));
        dst
    }
}

/// Whether nothing is left to merge: no addition follows an addition and no
/// move follows a move, in the program and in every loop body.
pub open spec fn is_merged(codes: Seq<Instr>) -> bool
    decreases codes,
{
    if codes.len() == 0 {
        true
    } else {
        &&& is_merged(codes.drop_last())
        &&& match codes.last() {
            Instr::Loop(body) => is_merged(body),
            Instr::Add(_) => codes.len() == 1 || !(codes[codes.len() - 2] is Add),
            Instr::Move(_) => codes.len() == 1 || !(codes[codes.len() - 2] is Move),
            _ => true,
        }
    }
}

/// In a merged program nothing is left to merge.
pub proof fn lemma_merged_is_merged(codes: Seq<Instr>)
    ensures
        is_merged(merged(codes)),
    decreases codes,
{
    if codes.len() > 0 {
        let init = codes.drop_last();
        let done = merged(init);
        let out = merged(codes);
        lemma_merged_is_merged(init);
        match codes.last() {
            Instr::Loop(body) => {
                lemma_merged_is_merged(body);
                assert(out.drop_last() =~= done);
            },
            other => {
                if out == done.push(other) {
                    assert(out.drop_last() =~= done);
                    if done.len() > 0 {
                        assert(out[out.len() - 2] == done.last());
                    }
                } else {
                    let prev = done.drop_last();
                    assert(out.drop_last() =~= prev);
                    if prev.len() > 0 {
                        assert(out[out.len() - 2] == prev.last());
                        assert(done[done.len() - 2] == prev.last());
                    }
                }
            },
        }
    }
}

/// Merging never makes a program longer.
pub proof fn lemma_merged_len(codes: Seq<Instr>)
    ensures
        merged(codes).len() <= codes.len(),
    decreases codes.len(),
{
    if codes.len() > 0 {
        lemma_merged_len(codes.drop_last());
    }
}

/// Merging a merged program changes nothing.
pub proof fn lemma_merge_idempotent(codes: Seq<Instr>)
    ensures
        merged(merged(codes)) == merged(codes),
    decreases codes,
{
    if codes.len() > 0 {
        let init = codes.drop_last();
        let done = merged(init);
        lemma_merge_idempotent(init);
        match codes.last() {
            Instr::Loop(body) => {
                lemma_merge_idempotent(body);
                let out = done.push(Instr::Loop(merged(body)));
                assert(out.drop_last() =~= done);
            },
            other => {
                let out = fuse(done, other);
                if out == done.push(other) {
                    assert(out.drop_last() =~= done);
                } else {
                    let prev = done.drop_last();
                    let held = done.last();
                    assert(done =~= prev.push(held));
                    lemma_merged_len(prev);
                    assert(merged(done) == fuse(merged(prev), held));
                    assert(merged(prev).push(held).drop_last() =~= merged(prev));
                    assert(merged(prev) =~= prev);
                    assert(out.drop_last() =~= prev);
                    assert(merged(out) == fuse(prev, out.last()));
                }
            },
        }
    }
}

/// A merged program runs exactly as the program it was made from: under
/// every budget both halt or both stop, with the same tape.
pub proof fn lemma_merge_run(codes: Seq<Instr>, t: TapeState, fuel: nat)
    requires
        t.wf(),
    ensures
        run(merged(codes), t, fuel) == run(codes, t, fuel),
    decreases codes, 0nat, 0nat,
{
    if codes.len() > 0 {
        let init = codes.drop_last();
        let done = merged(init);
        let out = merged(codes);
        let before = run(init, t, fuel);
        lemma_merge_run(init, t, fuel);
        lemma_run_wf(init, t, fuel);
        match codes.last() {
            Instr::Loop(body) => {
                assert(out.drop_last() =~= done);
                assert(out.last() == Instr::Loop(merged(body)));
                if before.halted {
                    lemma_merge_iterate(body, before.tape, fuel, fuel);
                    assert(run(out, t, fuel) == step(out.last(), before.tape, fuel));
                    assert(run(codes, t, fuel) == step(codes.last(), before.tape, fuel));
                }
            },
            other => {
                if out == done.push(other) {
                    assert(out.drop_last() =~= done);
                    assert(out.last() == other);
                } else {
                    let prev = done.drop_last();
                    let held = done.last();
                    assert(done =~= prev.push(held));
                    assert(out.drop_last() =~= prev);
                    lemma_run_wf(prev, t, fuel);
                    let mid = run(prev, t, fuel);
                    assert(run(done, t, fuel) == if mid.halted {
                        step(held, mid.tape, fuel)
                    } else {
                        mid
                    });
                    assert(run(out, t, fuel) == if mid.halted {
                        step(out.last(), mid.tape, fuel)
                    } else {
                        mid
                    });
                    if mid.halted {
                        match (held, other) {
                            (Instr::Add(e), Instr::Add(d)) => {
                                lemma_add_byte_sum(mid.tape.cell(), e, d);
                                assert(mid.tape.apply(held).apply(other).mem =~= mid.tape.apply(
                                    out.last(),
                                ).mem);
                            },
                            (Instr::Move(e), Instr::Move(d)) => {
                                lemma_ring_sum(mid.tape.point, e, d);
                            },
                            _ => {},
                        }
                        assert(mid.tape.apply(held).apply(other) == mid.tape.apply(out.last()));
                        assert(before == step(held, mid.tape, fuel));
                        assert(run(codes, t, fuel) == step(other, before.tape, fuel));
                    }
                }
            },
        }
    }
}

/// A loop over a merged body runs exactly as the loop over the body.
pub proof fn lemma_merge_iterate(body: Seq<Instr>, t: TapeState, fuel: nat, left: nat)
    requires
        t.wf(),
    ensures
        iterate(merged(body), t, fuel, left) == iterate(body, t, fuel, left),
    decreases body, 1nat, left,
{
    if t.cell() != 0 && left != 0 {
        lemma_merge_run(body, t, fuel);
        lemma_run_wf(body, t, fuel);
        let once = run(body, t, fuel);
        if once.halted {
            lemma_merge_iterate(body, once.tape, fuel, (left - 1) as nat);
        }
    }
}

/// Merging a raw program gives a raw program.
pub proof fn lemma_merged_raw(codes: Seq<Instr>)
    requires
        is_raw(codes),
    ensures
        is_raw(merged(codes)),
    decreases codes,
{
    if codes.len() > 0 {
        let init = codes.drop_last();
        let done = merged(init);
        lemma_merged_raw(init);
        match codes.last() {
            Instr::Loop(body) => {
                lemma_merged_raw(body);
                let out = done.push(Instr::Loop(merged(body)));
                assert(out.drop_last() =~= done);
            },
            other => {
                let out = fuse(done, other);
                if out == done.push(other) {
                    assert(out.drop_last() =~= done);
                } else {
                    assert(out.drop_last() =~= done.drop_last());
                }
            },
        }
    }
}

} // verus!

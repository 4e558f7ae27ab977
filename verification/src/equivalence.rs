//! Why reducing loops keeps the meaning of a program.
//!
//! A pass over a body of additions and moves adds a fixed amount to each cell
//! and brings the cursor to a fixed place.  From that, the effect of the whole
//! loop follows, and it is the effect of the code that replaces the loop.

use crate::ir::Instr;
use crate::merge::is_foldable;
use crate::model::{
    add_byte, iterate, lemma_ring_sum, lemma_run_concat, lemma_run_wf, ring, run, step, Outcome,
    TapeState, CAPACITY,
};
use crate::reduce::{
    bump, classify, deltas, is_simple, lemma_slot, net_move, origin, products, reduced,
    reduced_loop, slot, Shape,
};
use vstd::prelude::*;

verus! {

/// What the entry adds to cell `c` when the pass begins with the cursor on
/// cell `p`.
pub open spec fn share(entry: (isize, i32), p: int, c: int) -> int {
    if ring(p, entry.0 as int) == c {
        entry.1 as int
    } else {
        0
    }
}

/// What all entries of `tab` together add to cell `c` when the pass begins
/// with the cursor on cell `p`.
pub open spec fn total(tab: Seq<(isize, i32)>, p: int, c: int) -> int
    decreases tab.len(),
{
    if tab.len() == 0 {
        0
    } else {
        total(tab.drop_last(), p, c) + share(tab.last(), p, c)
    }
}

/// No two entries of `tab` are for the same offset.
pub open spec fn distinct(tab: Seq<(isize, i32)>) -> bool {
    forall|i: int, j: int| 0 <= i < j < tab.len() ==> (#[trigger] tab[i]).0 != (#[trigger] tab[j]).0
}

/// The tape after every cell has received what `tab` adds to it and the
/// cursor has moved by `by`.
pub open spec fn shifted(t: TapeState, tab: Seq<(isize, i32)>, by: isize) -> TapeState {
    TapeState {
        mem: Seq::new(CAPACITY as nat, |c: int| add_byte(t.mem[c], total(tab, t.point, c))),
        point: ring(t.point, by as int),
        out: t.out,
    }
}

/// Replacing an entry changes the total by the difference of the shares.
pub proof fn lemma_total_update(tab: Seq<(isize, i32)>, at: int, entry: (isize, i32), p: int, c: int)
    requires
        0 <= at < tab.len(),
    ensures
        total(tab.update(at, entry), p, c) == total(tab, p, c) - share(tab[at], p, c) + share(
            entry,
            p,
            c,
        ),
    decreases tab.len(),
{
    let next = tab.update(at, entry);
    if at == tab.len() - 1 {
        assert(next.drop_last() =~= tab.drop_last());
    } else {
        lemma_total_update(tab.drop_last(), at, entry, p, c);
        assert(next.drop_last() =~= tab.drop_last().update(at, entry));
    }
}

/// An addition of `d` at offset `k` changes the total, modulo 256, by the
/// share of `(k, d)`.
pub proof fn lemma_total_bump(tab: Seq<(isize, i32)>, k: isize, d: i32, p: int, c: int)
    ensures
        (total(bump(tab, k, d), p, c) - total(tab, p, c) - share((k, d), p, c)) % 256 == 0,
{
    lemma_slot(tab, k);
    let at = slot(tab, k);
    if at < tab.len() {
        lemma_total_update(tab, at, (k, tab[at].1.wrapping_add(d)), p, c);
    } else {
        assert(tab.push((k, d)).drop_last() =~= tab);
    }
}

/// An addition keeps the offsets of a table distinct.
pub proof fn lemma_bump_distinct(tab: Seq<(isize, i32)>, k: isize, d: i32)
    requires
        distinct(tab),
    ensures
        distinct(bump(tab, k, d)),
{
    lemma_slot(tab, k);
}

/// The offsets of a simulated pass are distinct.
pub proof fn lemma_deltas_distinct(body: Seq<Instr>)
    ensures
        distinct(deltas(body)),
    decreases body.len(),
{
    if body.len() > 0 {
        lemma_deltas_distinct(body.drop_last());
        match body.last() {
            Instr::Add(d) => lemma_bump_distinct(deltas(body.drop_last()), net_move(body.drop_last()), d),
            _ => {},
        }
    }
}

/// One pass over a body of additions and moves always ends, emits nothing,
/// adds to each cell what the simulated pass says, and moves the cursor by the
/// net move.
pub proof fn lemma_simple_run(body: Seq<Instr>, t: TapeState, fuel: nat)
    requires
        t.wf(),
        is_simple(body),
    ensures
        run(body, t, fuel) == (Outcome {
            tape: shifted(t, deltas(body), net_move(body)),
            halted: true,
        }),
    decreases body.len(),
{
    if body.len() == 0 {
        assert(shifted(t, deltas(body), net_move(body)).mem =~= t.mem);
    } else {
        let init = body.drop_last();
        assert(is_simple(init)) by {
            assert forall|i: int| 0 <= i < init.len() implies is_foldable(
                #[trigger] init[i],
            ) by {
                assert(init[i] == body[i]);
            }
        }
        lemma_simple_run(init, t, fuel);
        let mid = shifted(t, deltas(init), net_move(init));
        assert(run(body, t, fuel) == step(body.last(), mid, fuel));
        let end = shifted(t, deltas(body), net_move(body));
        match body.last() {
            Instr::Add(d) => {
                assert forall|c: int| 0 <= c < CAPACITY implies mid.apply(body.last()).mem[c]
                    == end.mem[c] by {
                    lemma_total_bump(deltas(init), net_move(init), d, t.point, c);
                }
                assert(mid.apply(body.last()).mem =~= end.mem);
            },
            Instr::Move(d) => {
                lemma_ring_sum(t.point, net_move(init), d);
            },
            _ => {
                assert(is_foldable(body[body.len() - 1]));
            },
        }
    }
}

/// On a well-formed tape only offsets that are multiples of the capacity lead
/// back to the cell one starts from.
pub proof fn lemma_ring_home(p: int, k: int)
    requires
        0 <= p < CAPACITY,
    ensures
        ring(p, k) == p <==> k % (CAPACITY as int) == 0,
        0 <= ring(p, k) < CAPACITY,
{
}

/// The product of two bytes, modulo 256.
pub open spec fn times(a: u32, b: u32) -> u32 {
    ((a * b) as u32) % 256u32
}

/// The inverse of an odd byte modulo 256: its 63rd power.
pub open spec fn odd_inverse(a: u32) -> u32 {
    let a2 = times(a, a);
    let a4 = times(a2, a2);
    let a8 = times(a4, a4);
    let a16 = times(a8, a8);
    let a32 = times(a16, a16);
    times(times(times(times(times(a, a2), a4), a8), a16), a32)
}

/// Adding an odd number to a byte again and again reaches zero within 255
/// steps: the result is a number of steps that does.
pub proof fn lemma_odd_reaches_zero(v: u8, m: i32) -> (j: nat)
    requires
        m as int % 2 != 0,
    ensures
        j <= 255,
        add_byte(v, j * m) == 0,
{
    let a: u32 = (m as int % 256) as u32;
    let q: int = m as int / 256;
    assert(m == 256 * q + a);
    let inverse: u32 = odd_inverse(a);
    assert(times(a, inverse) == 1 && inverse < 256) by (bit_vector)
        requires
            a < 256,
            a % 2u32 == 1,
            inverse == odd_inverse(a),
    ;
    assert(0 <= a * inverse < 0x10000) by (nonlinear_arith)
        requires
            0 <= a < 256,
            0 <= inverse < 256,
    ;
    let unit: int = (a * inverse) / 256;
    assert(a * inverse == 256 * unit + 1);
    let back: int = 256 - v;
    let steps: int = (back * inverse) % 256;
    let laps: int = (back * inverse) / 256;
    assert(back * inverse == 256 * laps + steps);
    assert(steps * a == back + 256 * (back * unit - laps * a)) by (nonlinear_arith)
        requires
            a * inverse == 256 * unit + 1,
            back * inverse == 256 * laps + steps,
    ;
    assert(steps * m == 256 * (steps * q) + steps * a) by (nonlinear_arith)
        requires
            m == 256 * q + a,
    ;
    assert(v + steps * m == 256 * (1 + steps * q + (back * unit - laps * a)));
    steps as nat
}

/// A clear loop that ends leaves the tape as storing zero under the cursor
/// does.
pub proof fn lemma_clear_loop(body: Seq<Instr>, t: TapeState, fuel: nat, left: nat)
    requires
        t.wf(),
        classify(body) is Clear,
        iterate(body, t, fuel, left).halted,
    ensures
        iterate(body, t, fuel, left).tape == t.apply(Instr::Assign(0)),
    decreases left,
{
    if t.cell() == 0 {
        assert(t.apply(Instr::Assign(0)).mem =~= t.mem);
    } else {
        lemma_clear_pass(body, t, fuel);
        let once = run(body, t, fuel).tape;
        lemma_clear_loop(body, once, fuel, (left - 1) as nat);
        assert(once.apply(Instr::Assign(0)).mem =~= t.apply(Instr::Assign(0)).mem);
    }
}

/// One pass over the body of a clear loop adds the body's net delta to the
/// cell under the cursor and changes nothing else.
pub proof fn lemma_clear_pass(body: Seq<Instr>, t: TapeState, fuel: nat)
    requires
        t.wf(),
        classify(body) is Clear,
    ensures
        run(body, t, fuel) == (Outcome {
            tape: t.store(t.point, add_byte(t.cell(), origin(deltas(body)) as int)),
            halted: true,
        }),
{
    let tab = deltas(body);
    lemma_simple_run(body, t, fuel);
    lemma_slot(tab, 0);
    assert(tab.drop_last().len() == 0);
    assert forall|c: int| 0 <= c < CAPACITY implies total(tab, t.point, c) == if c == t.point {
        origin(tab) as int
    } else {
        0
    } by {
        lemma_ring_home(t.point, 0);
        assert(total(tab, t.point, c) == total(tab.drop_last(), t.point, c) + share(
            tab.last(),
            t.point,
            c,
        ));
    }
    lemma_ring_home(t.point, 0);
    assert(shifted(t, tab, net_move(body)).mem =~= t.store(
        t.point,
        add_byte(t.cell(), origin(tab) as int),
    ).mem);
}

/// A clear loop ends once it may go round as often as it takes to bring the
/// guard to zero.
pub proof fn lemma_clear_halts(body: Seq<Instr>, t: TapeState, fuel: nat, left: nat, steps: nat)
    requires
        t.wf(),
        classify(body) is Clear,
        add_byte(t.cell(), steps * origin(deltas(body))) == 0,
        steps <= left,
    ensures
        iterate(body, t, fuel, left).halted,
    decreases steps,
{
    if t.cell() != 0 {
        let m = origin(deltas(body)) as int;
        lemma_clear_pass(body, t, fuel);
        let once = run(body, t, fuel).tape;
        assert((steps - 1) * m + m == steps * m) by (nonlinear_arith);
        lemma_clear_halts(body, once, fuel, (left - 1) as nat, (steps - 1) as nat);
    }
}

/// No entry but the one for offset 0 changes the guard cell: an offset other
/// than 0 that leads round the ring back to the guard, being a multiple of
/// the capacity, has a delta that is zero modulo 256.
pub open spec fn alias_free(tab: Seq<(isize, i32)>) -> bool {
    forall|i: int|
        0 <= i < tab.len() && (#[trigger] tab[i]).0 != 0 && tab[i].0 as int % (CAPACITY as int)
            == 0 ==> tab[i].1 as int % 256 == 0
}

/// A table without aliases is so without its last entry.
pub proof fn lemma_alias_free_init(tab: Seq<(isize, i32)>)
    requires
        alias_free(tab),
        tab.len() > 0,
    ensures
        alias_free(tab.drop_last()),
{
    let init = tab.drop_last();
    assert forall|i: int|
        0 <= i < init.len() && (#[trigger] init[i]).0 != 0 && init[i].0 as int % (CAPACITY as int)
            == 0 implies init[i].1 as int % 256 == 0 by {
        assert(init[i] == tab[i]);
    }
}

/// In a table without aliases, what a pass adds to the guard cell is, modulo
/// 256, the delta at offset 0, or nothing if there is no entry for offset 0.
pub proof fn lemma_total_guard(tab: Seq<(isize, i32)>, p: int)
    requires
        0 <= p < CAPACITY,
        distinct(tab),
        alias_free(tab),
    ensures
        (total(tab, p, p) - if slot(tab, 0) < tab.len() {
            tab[slot(tab, 0)].1 as int
        } else {
            0
        }) % 256 == 0,
    decreases tab.len(),
{
    if tab.len() > 0 {
        let init = tab.drop_last();
        let last = tab.last();
        assert(distinct(init)) by {
            assert forall|i: int, j: int| 0 <= i < j < init.len() implies (#[trigger] init[i]).0 != (
            #[trigger] init[j]).0 by {
                assert(init[i] == tab[i] && init[j] == tab[j]);
            }
        }
        lemma_alias_free_init(tab);
        lemma_total_guard(init, p);
        lemma_slot(tab, 0);
        lemma_slot(init, 0);
        lemma_ring_home(p, last.0 as int);
        let at = slot(tab, 0);
        let was = slot(init, 0);
        if was < init.len() {
            assert(init[was] == tab[was]);
            assert(at == was) by {
                if at < was {
                    assert(init[at] == tab[at]);
                }
            }
            assert(tab[tab.len() - 1].0 != 0);
        } else {
            assert forall|j: int| 0 <= j < init.len() implies (#[trigger] tab[j]).0 != 0 by {
                assert(init[j] == tab[j]);
            }
            if last.0 == 0 {
                assert(at == tab.len() - 1);
            } else {
                assert(at == tab.len());
            }
        }
    }
}

/// The tape after a multiply loop: every cell but the guard has received the
/// guard's value times what one pass adds to it, and the guard is zero.
pub open spec fn scaled(t: TapeState, tab: Seq<(isize, i32)>) -> TapeState {
    TapeState {
        mem: Seq::new(
            CAPACITY as nat,
            |c: int|
                if c == t.point {
                    0u8
                } else {
                    add_byte(t.mem[c], t.cell() as int * total(tab, t.point, c))
                },
        ),
        point: t.point,
        out: t.out,
    }
}

/// A multiply loop whose table has no aliases ends after as many passes as
/// the guard holds, and not before; it leaves the tape as [`scaled`] says.
pub proof fn lemma_multiply_loop(body: Seq<Instr>, t: TapeState, fuel: nat, left: nat)
    requires
        t.wf(),
        classify(body) is Multiply,
        alias_free(deltas(body)),
        iterate(body, t, fuel, left).halted || t.cell() <= left,
    ensures
        iterate(body, t, fuel, left) == (Outcome { tape: scaled(t, deltas(body)), halted: true }),
    decreases left,
{
    let tab = deltas(body);
    if t.cell() == 0 {
        assert(scaled(t, tab).mem =~= t.mem);
    } else {
        lemma_simple_run(body, t, fuel);
        lemma_deltas_distinct(body);
        lemma_total_guard(tab, t.point);
        lemma_ring_home(t.point, 0);
        let once = run(body, t, fuel).tape;
        assert(once.cell() == t.cell() - 1);
        lemma_multiply_loop(body, once, fuel, (left - 1) as nat);
        let v = t.cell() as int;
        assert forall|c: int| 0 <= c < CAPACITY implies scaled(once, tab).mem[c] == scaled(
            t,
            tab,
        ).mem[c] by {
            let share = total(tab, t.point, c);
            assert((v - 1) * share + share == v * share) by (nonlinear_arith);
        }
        assert(scaled(once, tab).mem =~= scaled(t, tab).mem);
    }
}

/// The tape after the multiply-adds made from `tab`: as [`scaled`], but with
/// the guard still in place.
pub open spec fn spread(t: TapeState, tab: Seq<(isize, i32)>) -> TapeState {
    TapeState {
        mem: Seq::new(
            CAPACITY as nat,
            |c: int|
                if c == t.point {
                    t.cell()
                } else {
                    add_byte(t.mem[c], t.cell() as int * total(tab, t.point, c))
                },
        ),
        point: t.point,
        out: t.out,
    }
}

/// The multiply-adds made from a table without aliases add to every cell but
/// the guard the guard's value times what one pass adds to it.
pub proof fn lemma_products_run(tab: Seq<(isize, i32)>, t: TapeState, fuel: nat)
    requires
        t.wf(),
        alias_free(tab),
    ensures
        run(products(tab), t, fuel) == (Outcome { tape: spread(t, tab), halted: true }),
    decreases tab.len(),
{
    if tab.len() == 0 {
        assert(spread(t, tab).mem =~= t.mem);
    } else {
        let init = tab.drop_last();
        let last = tab.last();
        lemma_alias_free_init(tab);
        lemma_products_run(init, t, fuel);
        lemma_ring_home(t.point, last.0 as int);
        let mid = spread(t, init);
        let v = t.cell() as int;
        assert(tab[tab.len() - 1] == last);
        if last.0 != 0 && last.1 != 0 {
            let code = Instr::MultiplyAdd(last.0, last.1);
            assert(products(tab).drop_last() =~= products(init));
            assert(run(products(tab), t, fuel) == step(code, mid, fuel));
            if last.0 as int % (CAPACITY as int) == 0 {
                let laps = last.1 as int / 256;
                assert(v * last.1 == 256 * (v * laps)) by (nonlinear_arith)
                    requires
                        last.1 == 256 * laps,
                ;
            }
            assert forall|c: int| 0 <= c < CAPACITY implies mid.apply(code).mem[c] == spread(
                t,
                tab,
            ).mem[c] by {
                let sum = total(init, t.point, c);
                assert(v * (sum + last.1) == v * sum + v * last.1) by (nonlinear_arith);
            }
            assert(mid.apply(code).mem =~= spread(t, tab).mem);
        } else {
            assert forall|c: int| 0 <= c < CAPACITY implies mid.mem[c] == spread(t, tab).mem[c] by {
                let sum = total(init, t.point, c);
                assert(v * (sum + 0) == v * sum) by (nonlinear_arith);
            }
            assert(mid.mem =~= spread(t, tab).mem);
        }
    }
}

/// Every multiply loop in the program, at every depth that reducing reaches,
/// has a table without aliases.  A program whose loops never carry the cursor
/// as far as the tape is long has this property.
pub open spec fn ring_safe(codes: Seq<Instr>) -> bool
    decreases codes,
{
    if codes.len() == 0 {
        true
    } else {
        &&& ring_safe(codes.drop_last())
        &&& match codes.last() {
            Instr::Loop(body) => match classify(body) {
                Shape::Clear => true,
                Shape::Multiply => alias_free(deltas(body)),
                Shape::Other => ring_safe(body),
            },
            _ => true,
        }
    }
}

/// The code that replaces a clear loop or a multiply loop does what the loop
/// does, on every tape from which the loop ends within the budget; and from a
/// budget of 255 on, the loop always does.
pub proof fn lemma_reduced_loop(body: Seq<Instr>, t: TapeState, fuel: nat)
    requires
        t.wf(),
        classify(body) is Clear || (classify(body) is Multiply && alias_free(deltas(body))),
        iterate(body, t, fuel, fuel).halted || fuel >= 255,
    ensures
        run(reduced_loop(body).0, t, fuel) == iterate(body, t, fuel, fuel),
{
    let code = reduced_loop(body).0;
    let tab = deltas(body);
    let zero = Instr::Assign(0);
    if classify(body) is Clear {
        if fuel >= 255 {
            let steps = lemma_odd_reaches_zero(t.cell(), origin(tab));
            lemma_clear_halts(body, t, fuel, fuel, steps);
        }
        lemma_clear_loop(body, t, fuel, fuel);
        assert(code.drop_last() =~= Seq::<Instr>::empty());
        assert(run(Seq::<Instr>::empty(), t, fuel) == (Outcome { tape: t, halted: true }));
        assert(code.last() == zero);
        assert(run(code, t, fuel) == step(zero, t, fuel));
    } else {
        lemma_multiply_loop(body, t, fuel, fuel);
        lemma_products_run(tab, t, fuel);
        assert(code.drop_last() =~= products(tab));
        assert(run(code, t, fuel) == step(zero, spread(t, tab), fuel));
        assert(spread(t, tab).apply(zero).mem =~= scaled(t, tab).mem);
    }
}

/// A program with its loops reduced runs as the program does: to the same
/// tape under every budget under which the program ends, and to the same
/// outcome, ended or not, under every budget from 255 on.
pub proof fn lemma_reduce_run(codes: Seq<Instr>, t: TapeState, fuel: nat)
    requires
        t.wf(),
        ring_safe(codes),
        run(codes, t, fuel).halted || fuel >= 255,
    ensures
        run(reduced(codes), t, fuel) == run(codes, t, fuel),
    decreases codes, 0nat, 0nat,
{
    if codes.len() > 0 {
        let init = codes.drop_last();
        let done = reduced(init);
        let out = reduced(codes);
        let before = run(init, t, fuel);
        lemma_reduce_run(init, t, fuel);
        lemma_run_wf(init, t, fuel);
        match codes.last() {
            Instr::Loop(body) => {
                let inner = reduced_loop(body);
                if before.halted {
                    assert(run(codes, t, fuel) == step(codes.last(), before.tape, fuel));
                    if inner.1 {
                        lemma_run_concat(done, inner.0, t, fuel);
                        lemma_reduced_loop(body, before.tape, fuel);
                    } else {
                        assert(out.drop_last() =~= done);
                        lemma_reduce_iterate(body, before.tape, fuel, fuel);
                        assert(run(out, t, fuel) == step(out.last(), before.tape, fuel));
                    }
                } else {
                    if inner.1 {
                        lemma_run_concat(done, inner.0, t, fuel);
                    } else {
                        assert(out.drop_last() =~= done);
                    }
                }
            },
            other => {
                assert(out.drop_last() =~= done);
                if before.halted {
                    assert(run(codes, t, fuel) == step(other, before.tape, fuel));
                    assert(run(out, t, fuel) == step(other, before.tape, fuel));
                }
            },
        }
    }
}

/// A loop over a reduced body runs as the loop over the body does.
pub proof fn lemma_reduce_iterate(body: Seq<Instr>, t: TapeState, fuel: nat, left: nat)
    requires
        t.wf(),
        ring_safe(body),
        iterate(body, t, fuel, left).halted || fuel >= 255,
    ensures
        iterate(reduced(body), t, fuel, left) == iterate(body, t, fuel, left),
    decreases body, 1nat, left,
{
    if t.cell() != 0 && left != 0 {
        lemma_reduce_run(body, t, fuel);
        lemma_run_wf(body, t, fuel);
        let once = run(body, t, fuel);
        if once.halted {
            lemma_reduce_iterate(body, once.tape, fuel, (left - 1) as nat);
        }
    }
}

} // verus!

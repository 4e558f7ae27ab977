//! How far a program can carry the cursor, and why a program that cannot
//! carry it round the tape is safe to reduce.

use crate::equivalence::ring_safe;
use crate::ir::Instr;
use crate::merge::{fuse, merged};
use crate::model::CAPACITY;
use crate::parse::{glyph, lemma_parsed_bounds, parsed};
use crate::reduce::{deltas, lemma_slot, net_move, slot};
use vstd::prelude::*;

verus! {

/// The size of an offset.
pub open spec fn size(d: int) -> int {
    if d < 0 {
        -d
    } else {
        d
    }
}

/// The sizes of all moves in the program, at every depth, added up: a bound
/// on how far one pass over any part of it carries the cursor.
pub open spec fn travel(codes: Seq<Instr>) -> int
    decreases codes,
{
    if codes.len() == 0 {
        0
    } else {
        travel(codes.drop_last()) + match codes.last() {
            Instr::Move(d) => size(d as int),
            Instr::Loop(body) => travel(body),
            _ => 0,
        }
    }
}

/// Travel is never negative.
pub proof fn lemma_travel_nonneg(codes: Seq<Instr>)
    ensures
        0 <= travel(codes),
    decreases codes,
{
    if codes.len() > 0 {
        lemma_travel_nonneg(codes.drop_last());
        match codes.last() {
            Instr::Loop(body) => lemma_travel_nonneg(body),
            _ => {},
        }
    }
}

/// The travel of two programs in a row is the sum of their travels.
pub proof fn lemma_travel_concat(a: Seq<Instr>, b: Seq<Instr>)
    ensures
        travel(a + b) == travel(a) + travel(b),
    decreases b.len(),
{
    if b.len() == 0 {
        assert(a + b =~= a);
    } else {
        lemma_travel_concat(a, b.drop_last());
        assert((a + b).drop_last() =~= a + b.drop_last());
        assert((a + b).last() == b.last());
    }
}

/// A parsed program travels no further than its text is long.
pub proof fn lemma_parsed_travel(src: Seq<char>, nested: bool)
    ensures
        parsed(src, nested) matches Ok((codes, n)) ==> travel(codes) <= n <= src.len(),
    decreases src.len(),
{
    lemma_parsed_bounds(src, nested);
    if src.len() > 0 && src[0] != ']' {
        if src[0] == '[' {
            lemma_parsed_travel(src.skip(1), true);
            if let Ok((body, n)) = parsed(src.skip(1), true) {
                lemma_parsed_bounds(src.skip(1), true);
                lemma_parsed_travel(src.skip(1 + n), nested);
                if let Ok((rest, m)) = parsed(src.skip(1 + n), nested) {
                    let head = seq![Instr::Loop(body)];
                    lemma_travel_concat(head, rest);
                    assert(head.drop_last() =~= Seq::<Instr>::empty());
                    assert(travel(Seq::<Instr>::empty()) == 0);
                    assert(head.last() == Instr::Loop(body));
                    assert(travel(head) == travel(body));
                }
            }
        } else {
            lemma_parsed_travel(src.skip(1), nested);
            if let Ok((rest, m)) = parsed(src.skip(1), nested) {
                let head = glyph(src[0]);
                lemma_travel_concat(head, rest);
                if head.len() > 0 {
                    assert(head.drop_last() =~= Seq::<Instr>::empty());
                    assert(travel(Seq::<Instr>::empty()) == 0);
                    assert(head.last() == head[0]);
                    assert(travel(head) <= 1);
                }
            }
        }
    }
}

/// Merging does not lengthen the travel of a program.
pub proof fn lemma_merged_travel(codes: Seq<Instr>)
    ensures
        travel(merged(codes)) <= travel(codes),
    decreases codes,
{
    if codes.len() > 0 {
        let init = codes.drop_last();
        let done = merged(init);
        lemma_merged_travel(init);
        match codes.last() {
            Instr::Loop(body) => {
                lemma_merged_travel(body);
                let out = done.push(Instr::Loop(merged(body)));
                assert(out.drop_last() =~= done);
            },
            other => {
                let out = fuse(done, other);
                if out == done.push(other) {
                    assert(out.drop_last() =~= done);
                } else {
                    let prev = done.drop_last();
                    assert(out.drop_last() =~= prev);
                    assert(travel(done) == travel(prev) + match done.last() {
                        Instr::Move(d) => size(d as int),
                        Instr::Loop(body) => travel(body),
                        _ => 0,
                    });
                }
            },
        }
    }
}

/// One pass over a body moves the cursor no further than the body travels.
pub proof fn lemma_net_move_bound(body: Seq<Instr>)
    ensures
        size(net_move(body) as int) <= travel(body),
    decreases body.len(),
{
    if body.len() > 0 {
        lemma_net_move_bound(body.drop_last());
        match body.last() {
            Instr::Loop(inner) => lemma_travel_nonneg(inner),
            _ => {},
        }
    }
}

/// Every offset that a simulated pass touches lies on the way: going there
/// from where the pass begins and on to where it ends is no further than the
/// body travels.
pub proof fn lemma_deltas_bound(body: Seq<Instr>)
    requires
        travel(body) < 2 * CAPACITY,
    ensures
        forall|i: int|
            0 <= i < deltas(body).len() ==> size((#[trigger] deltas(body)[i]).0 as int) + size(
                net_move(body) - deltas(body)[i].0,
            ) <= travel(body),
    decreases body.len(),
{
    if body.len() > 0 {
        let init = body.drop_last();
        match body.last() {
            Instr::Loop(inner) => lemma_travel_nonneg(inner),
            _ => {},
        }
        lemma_travel_nonneg(init);
        lemma_deltas_bound(init);
        lemma_net_move_bound(init);
        match body.last() {
            Instr::Add(d) => {
                let before = deltas(init);
                let k = net_move(init);
                lemma_slot(before, k);
                assert forall|i: int| 0 <= i < deltas(body).len() implies size(
                    (#[trigger] deltas(body)[i]).0 as int,
                ) + size(net_move(body) - deltas(body)[i].0) <= travel(body) by {
                    if i < before.len() && i != slot(before, k) {
                        assert(deltas(body)[i] == before[i]);
                    }
                }
            },
            _ => {},
        }
    }
}

/// A program that travels less than twice the length of the tape is safe to
/// reduce: a pass that comes back to where it began has then been nowhere
/// that is a whole lap away.
pub proof fn lemma_short_travel_ring_safe(codes: Seq<Instr>)
    requires
        travel(codes) < 2 * CAPACITY,
    ensures
        ring_safe(codes),
    decreases codes,
{
    if codes.len() > 0 {
        lemma_travel_nonneg(codes.drop_last());
        match codes.last() {
            Instr::Loop(body) => {
                lemma_travel_nonneg(body);
                lemma_short_travel_ring_safe(body);
                lemma_deltas_bound(body);
            },
            _ => {},
        }
        lemma_short_travel_ring_safe(codes.drop_last());
    }
}

/// The merged form of a program parsed from a text shorter than twice the
/// length of the tape is safe to reduce.
pub proof fn lemma_short_source_ring_safe(src: Seq<char>)
    requires
        src.len() < 2 * CAPACITY,
        parsed(src, false) is Ok,
    ensures
        ring_safe(merged(parsed(src, false)->Ok_0.0)),
{
    let codes = parsed(src, false)->Ok_0.0;
    lemma_parsed_travel(src, false);
    lemma_merged_travel(codes);
    lemma_short_travel_ring_safe(merged(codes));
}

} // verus!

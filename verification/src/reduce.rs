//! The strength-reduction pass: loops that only clear a cell, or that add
//! multiples of a cell to other cells, become straight-line code.

use crate::ir::{Code, Instr, AST};
use crate::merge::is_foldable;
use std::collections::HashMap;
use vstd::prelude::*;

verus! {

/// Whether a loop body holds nothing but additions and moves.
pub open spec fn is_simple(body: Seq<Instr>) -> bool {
    forall|i: int| 0 <= i < body.len() ==> is_foldable(#[trigger] body[i])
}

/// The wrapped sum of all moves in `body`: where one pass leaves the cursor,
/// relative to where it began.
pub open spec fn net_move(body: Seq<Instr>) -> isize
    decreases body.len(),
{
    if body.len() == 0 {
        0
    } else {
        let before = net_move(body.drop_last());
        match body.last() {
            Instr::Move(d) => before.wrapping_add(d),
            _ => before,
        }
    }
}

/// The index of the first entry of `tab` for offset `k`, or the length of
/// `tab` if there is none.
pub open spec fn slot(tab: Seq<(isize, i32)>, k: isize) -> int
    decreases tab.len(),
{
    if tab.len() == 0 {
        0
    } else if tab[0].0 == k {
        0
    } else {
        1 + slot(tab.drop_first(), k)
    }
}

/// `tab` after `d` is added at offset `k`: the entry for `k` grows by `d`
/// (wrapping), or a new entry `(k, d)` is appended.
pub open spec fn bump(tab: Seq<(isize, i32)>, k: isize, d: i32) -> Seq<(isize, i32)> {
    let at = slot(tab, k);
    if at < tab.len() {
        tab.update(at, (k, tab[at].1.wrapping_add(d)))
    } else {
        tab.push((k, d))
    }
}

/// One pass over `body`, simulated from relative offset 0: for each offset
/// that an addition touches, the wrapped sum of the additions made there, in
/// the order in which the offsets are first touched.
pub open spec fn deltas(body: Seq<Instr>) -> Seq<(isize, i32)>
    decreases body.len(),
{
    if body.len() == 0 {
        Seq::empty()
    } else {
        let before = deltas(body.drop_last());
        match body.last() {
            Instr::Add(d) => bump(before, net_move(body.drop_last()), d),
            _ => before,
        }
    }
}

/// The net delta at offset 0, or the even number 2 where no addition touches
/// offset 0: a loop that leaves its own guard alone must not be reduced.
pub open spec fn origin(tab: Seq<(isize, i32)>) -> i32 {
    let at = slot(tab, 0);
    if at < tab.len() {
        tab[at].1
    } else {
        2
    }
}

/// One multiply-add for each entry of `tab` away from offset 0 whose delta is
/// not zero, in the order of `tab`.
pub open spec fn products(tab: Seq<(isize, i32)>) -> Seq<Instr>
    decreases tab.len(),
{
    if tab.len() == 0 {
        Seq::empty()
    } else {
        let before = products(tab.drop_last());
        let entry = tab.last();
        if entry.0 != 0 && entry.1 != 0 {
            before.push(Instr::MultiplyAdd(entry.0, entry.1))
        } else {
            before
        }
    }
}

/// What a loop is, judged by its body.
pub enum Shape {
    /// Only the guard cell changes, by an odd amount each pass: the loop
    /// ends with the guard at zero.
    Clear,
    /// The guard cell goes down by one each pass, so the loop makes as many
    /// passes as the guard held on entry.
    Multiply,
    /// Anything else.
    Other,
}

/// The shape of a loop over `body`.  Only a body of additions and moves that
/// brings the cursor back to where it began can be other than
/// [`Shape::Other`].
pub open spec fn classify(body: Seq<Instr>) -> Shape {
    if is_simple(body) && net_move(body) == 0 {
        let tab = deltas(body);
        if tab.len() == 1 && origin(tab) as int % 2 != 0 {
            Shape::Clear
        } else if origin(tab) == -1 {
            Shape::Multiply
        } else {
            Shape::Other
        }
    } else {
        Shape::Other
    }
}

/// What a loop over `body` becomes, and whether that is straight-line code
/// that stands in place of the loop (`true`) or a new body for it (`false`).
pub open spec fn reduced_loop(body: Seq<Instr>) -> (Seq<Instr>, bool)
    decreases body, 1nat,
{
    match classify(body) {
        Shape::Clear => (seq![Instr::Assign(0)], true),
        Shape::Multiply => (products(deltas(body)).push(Instr::Assign(0)), true),
        Shape::Other => (reduced(body), false),
    }
}

/// The program with every loop, at every depth, replaced by what it becomes.
/// The program itself is not a loop and is never replaced as a whole.
pub open spec fn reduced(codes: Seq<Instr>) -> Seq<Instr>
    decreases codes, 0nat,
{
    if codes.len() == 0 {
        Seq::empty()
    } else {
        let done = reduced(codes.drop_last());
        match codes.last() {
            Instr::Loop(body) => {
                let inner = reduced_loop(body);
                if inner.1 {
                    done + inner.0
                } else {
                    done.push(Instr::Loop(inner.0))
                }
            },
            other => done.push(other),
        }
    }
}

/// Whether the program holds no loop.
pub open spec fn is_straight(codes: Seq<Instr>) -> bool {
    forall|i: int| 0 <= i < codes.len() ==> !(#[trigger] codes[i] is Loop)
}

/// The multiply-adds made from a table hold no loop.
pub proof fn lemma_products_straight(tab: Seq<(isize, i32)>)
    ensures
        is_straight(products(tab)),
    decreases tab.len(),
{
    if tab.len() > 0 {
        lemma_products_straight(tab.drop_last());
    }
}

/// Where a loop is reported as replaced, what replaces it holds no loop, so
/// that a level of nesting is gone.
pub proof fn lemma_replacement_straight(body: Seq<Instr>)
    requires
        reduced_loop(body).1,
    ensures
        is_straight(reduced_loop(body).0),
{
    lemma_products_straight(deltas(body));
}

/// What `slot` returns: the first index whose entry has offset `k`.
pub proof fn lemma_slot(tab: Seq<(isize, i32)>, k: isize)
    ensures
        0 <= slot(tab, k) <= tab.len(),
        slot(tab, k) < tab.len() ==> tab[slot(tab, k)].0 == k,
        forall|j: int| 0 <= j < slot(tab, k) ==> (#[trigger] tab[j]).0 != k,
    decreases tab.len(),
{
    if tab.len() > 0 && tab[0].0 != k {
        let rest = tab.drop_first();
        lemma_slot(rest, k);
        assert forall|j: int| 0 <= j < slot(tab, k) implies (#[trigger] tab[j]).0 != k by {
            if j > 0 {
                assert(tab[j] == rest[j - 1]);
            }
        }
    }
}

/// Changing the delta of an entry moves no offset to another place.
pub proof fn lemma_slot_update(tab: Seq<(isize, i32)>, at: int, m: i32, k: isize)
    requires
        0 <= at < tab.len(),
    ensures
        slot(tab.update(at, (tab[at].0, m)), k) == slot(tab, k),
{
    let next = tab.update(at, (tab[at].0, m));
    lemma_slot(tab, k);
    lemma_slot(next, k);
    let was = slot(tab, k);
    let now = slot(next, k);
    if now < was {
        assert(tab[now].0 == next[now].0);
    } else if was < now {
        assert(tab[was].0 == next[was].0);
    }
}

/// An appended entry is found at the end, by its own offset, where that
/// offset had no entry before; every other offset stays where it was.
pub proof fn lemma_slot_push(tab: Seq<(isize, i32)>, entry: (isize, i32), k: isize)
    ensures
        slot(tab.push(entry), k) == if slot(tab, k) < tab.len() || entry.0 == k {
            slot(tab, k)
        } else {
            tab.len() as int + 1
        },
{
    let next = tab.push(entry);
    lemma_slot(tab, k);
    lemma_slot(next, k);
    let was = slot(tab, k);
    let now = slot(next, k);
    if now < was {
        assert(tab[now] == next[now]);
    } else if was < now {
        if was < tab.len() {
            assert(tab[was] == next[was]);
        } else if entry.0 == k {
            assert(next[was] == entry);
        } else {
            assert forall|j: int| 0 <= j < next.len() implies (#[trigger] next[j]).0 != k by {
                if j < tab.len() {
                    assert(tab[j] == next[j]);
                }
            }
        }
    }
}

/// Whether `index` tells, for every offset, where in `tab` its entry is.
pub open spec fn indexes(index: Map<isize, usize>, tab: Seq<(isize, i32)>) -> bool {
    forall|k: isize|
        {
            &&& #[trigger] index.contains_key(k) <==> slot(tab, k) < tab.len()
            &&& index.contains_key(k) ==> index[k] == slot(tab, k)
        }
}

impl AST {
    /// Reduces a loop body.  Returns what the loop becomes, and `true` where
    /// that is straight-line code to put in place of the loop, `false` where
    /// it is the loop's new body.
    pub fn _optimize_simple_loop(src: &AST) -> (r: (AST, bool))
        ensures
            (r.0@, r.1) == reduced_loop(src@),
        decreases src, 1nat,
    {
        let mut is_simple = true;
        let mut point: isize = 0;
        let mut table: Vec<(isize, i32)> = Vec::new();
        let mut index: HashMap<isize, usize> = HashMap::new();
        let mut i: usize = 0;
        while is_simple && i < src.codes.len()
            invariant
                i <= src.codes.len(),
                indexes(index@, table@),
                is_simple ==> self::is_simple(src@.take(i as int)),
                is_simple ==> point == net_move(src@.take(i as int)),
                is_simple ==> table@ == deltas(src@.take(i as int)),
                !is_simple ==> !self::is_simple(src@),
            decreases src.codes.len() - i + if is_simple { 1nat } else { 0nat },
        {
            assert(src@.take(i + 1).drop_last() =~= src@.take(i as int));
            assert(src@.take(i + 1).last() == src.codes[i as int]@);
            match &src.codes[i] {
                Code::Add(d) => {
                    let ghost before = table@;
                    proof {
                        lemma_slot(before, point);
                    }
                    match index.get(&point) {
                        Some(at) => {
                            let at = *at;
                            let sum = table[at].1.wrapping_add(*d);
                            table[at] = (point, sum);
                            assert forall|k: isize| slot(table@, k) == slot(before, k) by {
                                lemma_slot_update(before, at as int, sum, k);
                            }
                        },
                        None => {
                            index.insert(point, table.len());
                            table.push((point, *d));
                            assert forall|k: isize|
                                slot(table@, k) == if slot(before, k) < before.len() || point == k {
                                    slot(before, k)
                                } else {
                                    before.len() as int + 1
                                } by {
                                lemma_slot_push(before, (point, *d), k);
                            }
                        },
                    }
                    i += 1;
                },
                Code::Move(d) => {
                    point = point.wrapping_add(*d);
                    i += 1;
                },
                _ => {
                    assert(!is_foldable(src@[i as int]));
                    is_simple = false;
                },
            }
        }
        let mut dst = AST::new();
        if is_simple && point == 0 {
            assert(src@.take(i as int) =~= src@);
            proof {
                lemma_slot(table@, 0);
            }
            let origin: i32 = match index.get(&0) {
                Some(at) => table[*at].1,
                None => 2,
            };
            if table.len() == 1 && origin % 2 != 0 {
                dst.push(Code::Assign(0));
                assert(dst@ =~= seq![Instr::Assign(0)]);
                return (dst, true);
            }
            if origin == -1 {
                let mut j: usize = 0;
                while j < table.len()
                    invariant
                        j <= table.len(),
                        dst@ == products(table@.take(j as int)),
                    decreases table.len() - j,
                {
                    assert(table@.take(j + 1).drop_last() =~= table@.take(j as int));
                    let key = table[j].0;
                    let value = table[j].1;
                    if key != 0 && value != 0 {
                        dst.push(Code::Mull((key, value)));
                    }
                    j += 1;
                }
                assert(table@.take(j as int) =~= table@);
                dst.push(Code::Assign(0));
                return (dst, true);
            }
        }
        if is_simple {
            assert(src@.take(i as int) =~= src@);
        }
        (AST::_optimize_loops(src), false)
    }

    /// Reduces every loop in `src`, at every depth, leaving the rest of `src`
    /// as it is.  Where a loop becomes straight-line code, that code is
    /// spliced in where the loop stood.
    pub fn _optimize_loops(src: &AST) -> (dst: AST)
        ensures
            dst@ == reduced(src@),
        decreases src, 0nat,
    {
        let mut dst = AST::new();
        let mut i: usize = 0;
        while i < src.codes.len()
            invariant
                i <= src.codes.len(),
                dst@ == reduced(src@.take(i as int)),
            decreases src.codes.len() - i,
        {
            assert(src@.take(i + 1).drop_last() =~= src@.take(i as int));
            assert(src@.take(i + 1).last() == src.codes[i as int]@);
            match &src.codes[i] {
                Code::Loop(loop_src) => {
                    let (mut loop_dst, unnest) = AST::_optimize_simple_loop(loop_src);
                    if unnest {
                        dst.extend(&mut loop_dst);
                    } else {
                        dst.push(Code::Loop(Box::new(loop_dst)));
                    }
                },
                else_code => {
                    dst.push(else_code.clone());
                },
            }
            i += 1;
        }
        assert(src@.take(i as int) =~= src@);
        dst
    }
}

} // verus!

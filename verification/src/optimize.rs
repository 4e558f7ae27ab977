//! The optimizer: the passes, chosen by level, and the way from source text
//! to the program that is run.

use crate::equivalence::{lemma_reduce_run, ring_safe};
use crate::ir::{is_raw, Instr, AST};
use crate::merge::{lemma_merge_run, lemma_merged_raw, merged};
use crate::model::{run, TapeState, CAPACITY};
use crate::parse::{lemma_parsed_raw, parsed, SourceError};
use crate::reduce::reduced;
use crate::travel::lemma_short_source_ring_safe;
use vstd::prelude::*;

verus! {

/// The program that optimizing `codes` at `level` gives: the program itself
/// at level 0, with runs merged at level 1, and with runs merged and then
/// loops reduced at any higher level.
pub open spec fn optimized(codes: Seq<Instr>, level: u32) -> Seq<Instr> {
    if level == 0 {
        codes
    } else if level == 1 {
        merged(codes)
    } else {
        reduced(merged(codes))
    }
}

impl AST {
    /// Optimizes this program at the given level into a new program.
    pub fn optimize(&self, opt_level: u32) -> (dst: AST)
        ensures
            dst@ == optimized(self@, opt_level),
    {
        match opt_level {
            0 => self.clone(),
            1 => AST::_optimize_merge(self),
            _ => {
                let o1 = AST::_optimize_merge(self);
                AST::_optimize_loops(&o1)
            },
        }
    }
}

/// Parses `src` and optimizes the program at the given level.  Returns the
/// program as parsed and the program as optimized, in this order, or the
/// reason why `src` is not a program.
pub fn compile(src: &[char], opt_level: u32) -> (r: Result<(AST, AST), SourceError>)
    ensures
        match parsed(src@, false) {
            Ok((codes, _)) => r matches Ok((raw, dst)) && raw@ == codes && dst@ == optimized(
                codes,
                opt_level,
            ),
            Err(e) => r matches Err(f) && f == e,
        },
{
    let mut raw = AST::new();
    match raw.parse(src) {
        Ok(_) => {
            assert(raw@ =~= parsed(src@, false)->Ok_0.0);
            let dst = raw.optimize(opt_level);
            Ok((raw, dst))
        },
        Err(e) => Err(e),
    }
}

/// Optimizing keeps the meaning of a program.
///
/// At levels 0 and 1 the optimized program runs exactly as the program does,
/// under every budget.  At higher levels it runs to the same tape and output
/// under every budget under which the program ends, and to the same outcome,
/// ended or not, under every budget from 255 on; this is for programs whose
/// merged form is [`ring_safe`].
pub proof fn lemma_optimize_preserves(codes: Seq<Instr>, level: u32, t: TapeState, fuel: nat)
    requires
        t.wf(),
        level >= 2 ==> ring_safe(merged(codes)),
        level >= 2 ==> run(codes, t, fuel).halted || fuel >= 255,
    ensures
        run(optimized(codes, level), t, fuel) == run(codes, t, fuel),
{
    if level >= 1 {
        lemma_merge_run(codes, t, fuel);
    }
    if level >= 2 {
        lemma_reduce_run(merged(codes), t, fuel);
    }
}

/// For a program parsed from a text shorter than twice the tape, every level
/// agrees with the program as parsed, and so with every other level: each
/// leaves the same cells, the same cursor and the same output.  This holds
/// under every budget under which the parsed program ends, and, ended or not,
/// under every budget from 255 on.
pub proof fn lemma_levels_agree(src: Seq<char>, level: u32, t: TapeState, fuel: nat)
    requires
        src.len() < 2 * CAPACITY,
        parsed(src, false) is Ok,
        t.wf(),
        run(parsed(src, false)->Ok_0.0, t, fuel).halted || fuel >= 255,
    ensures
        run(optimized(parsed(src, false)->Ok_0.0, level), t, fuel) == run(
            parsed(src, false)->Ok_0.0,
            t,
            fuel,
        ),
{
    lemma_short_source_ring_safe(src);
    lemma_optimize_preserves(parsed(src, false)->Ok_0.0, level, t, fuel);
}

/// Below level 2 the optimizer turns a parsed program into a raw program:
/// assignments and multiply-adds are the work of level 2 alone.
pub proof fn lemma_low_levels_raw(src: Seq<char>, level: u32)
    requires
        parsed(src, false) is Ok,
        level < 2,
    ensures
        is_raw(optimized(parsed(src, false)->Ok_0.0, level)),
{
    lemma_parsed_raw(src, false);
    lemma_merged_raw(parsed(src, false)->Ok_0.0);
}

} // verus!

//! The instruction set and the tree-shaped program representation.

use vstd::prelude::*;

verus! {

/// The mathematical model of one instruction: what a [`Code`] stands for.
pub enum Instr {
    /// Store zero in the current cell (the input channel is always empty).
    Get,
    /// Emit the current cell as one output byte.
    Put,
    /// Add the delta to the current cell, modulo 256.
    Add(i32),
    /// Shift the cursor by the offset, modulo the tape's capacity.
    Move(isize),
    /// Repeat the body while the current cell is not zero.
    Loop(Seq<Instr>),
    /// Store the literal byte in the current cell.
    Assign(u8),
    /// Add the current cell times the multiplier to the cell at the offset.
    MultiplyAdd(isize, i32),
}

/// Whether the program is made of the six source instructions and loops
/// alone: no assignment and no multiply-add, at any depth.
pub open spec fn is_raw(codes: Seq<Instr>) -> bool
    decreases codes,
{
    if codes.len() == 0 {
        true
    } else {
        &&& is_raw(codes.drop_last())
        &&& match codes.last() {
            Instr::Assign(_) => false,
            Instr::MultiplyAdd(_, _) => false,
            Instr::Loop(body) => is_raw(body),
            _ => true,
        }
    }
}

/// Two programs in a row are raw exactly if each of them is.
pub proof fn lemma_raw_concat(a: Seq<Instr>, b: Seq<Instr>)
    ensures
        is_raw(a + b) == (is_raw(a) && is_raw(b)),
    decreases b.len(),
{
    if b.len() == 0 {
        assert(a + b =~= a);
    } else {
        lemma_raw_concat(a, b.drop_last());
        assert((a + b).drop_last() =~= a + b.drop_last());
        assert((a + b).last() == b.last());
    }
}

/// One instruction of a program.
#[derive(Debug, PartialEq, Eq)]
pub enum Code {
    /// Read into the current cell.
    Get,
    /// Emit the current cell.
    Put,
    /// Add the delta to the current cell.
    Add(i32),
    /// Shift the cursor by the offset.
    Move(isize),
    /// Repeat the body while the current cell is not zero.
    Loop(Box<AST>),
    /// Store the byte in the current cell.  Only the optimizer makes these.
    Assign(u8),
    /// Add the current cell times the multiplier to the cell at the offset,
    /// given as (offset, multiplier).  Only the optimizer makes these.
    Mull((isize, i32)),
}

/// A program: an ordered sequence of instructions.  The top-level program and
/// every loop body are programs; a loop owns its body.
#[derive(Debug, PartialEq, Eq)]
pub struct AST {
    pub codes: Vec<Code>,
}

impl Code {
    /// The instruction this code stands for.
    pub open spec fn view(&self) -> Instr
        decreases self,
    {
        match self {
            Code::Get => Instr::Get,
            Code::Put => Instr::Put,
            Code::Add(d) => Instr::Add(*d),
            Code::Move(d) => Instr::Move(*d),
            Code::Loop(body) => Instr::Loop(body.view()),
            Code::Assign(v) => Instr::Assign(*v),
            Code::Mull(pair) => Instr::MultiplyAdd(pair.0, pair.1),
        }
    }
}

impl AST {
    /// The instruction sequence this program stands for.
    pub open spec fn view(&self) -> Seq<Instr>
        decreases self,
    {
        Seq::new(
            self.codes.len() as nat,
            |i: int|
                if 0 <= i < self.codes.len() {
                    self.codes[i].view()
                } else {
                    arbitrary()
                },
        )
    }

    /// The empty program.
    pub fn new() -> (ast: AST)
        ensures
            ast@ == Seq::<Instr>::empty(),
            ast.codes@.len() == 0,
    {
        let ast = AST { codes: Vec::new() };
        assert(ast@ =~= Seq::<Instr>::empty());
        ast
    }

    /// Appends one instruction.
    pub fn push(&mut self, code: Code)
        ensures
            final(self)@ == old(self)@.push(code@),
    {
        self.codes.push(code);
        assert(self@ =~= old(self)@.push(code@));
    }

    /// Moves all instructions of `other` to the end of this program.
    pub fn extend(&mut self, other: &mut AST)
        ensures
            final(self)@ == old(self)@ + old(other)@,
            final(other)@ == Seq::<Instr>::empty(),
    {
        self.codes.append(&mut other.codes);
        assert(self@ =~= old(self)@ + old(other)@);
        assert(other@ =~= Seq::<Instr>::empty());
    }
}

impl Clone for Code {
    fn clone(&self) -> (copy: Self)
        ensures
            copy@ == self@,
        decreases self,
    {
        match self {
            Code::Get => Code::Get,
            Code::Put => Code::Put,
            Code::Add(d) => Code::Add(*d),
            Code::Move(d) => Code::Move(*d),
            Code::Assign(v) => Code::Assign(*v),
            Code::Loop(body) => Code::Loop(Box::new((**body).clone())),
            Code::Mull(pair) => Code::Mull(*pair),
        }
    }
}

impl Clone for AST {
    fn clone(&self) -> (copy: Self)
        ensures
            copy@ == self@,
        decreases self,
    {
        let mut copy = AST::new();
        let mut i: usize = 0;
        while i < self.codes.len()
            invariant
                i <= self.codes.len(),
                copy.codes.len() == i,
                forall|j: int| 0 <= j < i ==> copy.codes[j]@ == self.codes[j]@,
            decreases self.codes.len() - i,
        {
            let code = self.codes[i].clone();
            copy.codes.push(code);
            i += 1;
        }
        assert(copy@ =~= self@);
        copy
    }
}

} // verus!

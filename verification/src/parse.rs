//! The parser: source text to program.

use crate::ir::{is_raw, lemma_raw_concat, Code, Instr, AST};
use vstd::prelude::*;
use vstd::slice::slice_subrange;

verus! {

/// Why a source text is not a program.
#[derive(Debug, Clone, Copy, PartialEq, Eq, Structural)]
pub enum SourceError {
    /// The text ends inside a loop: a `[` has no `]`.
    UnmatchedOpen,
    /// A `]` stands where no loop is open.
    UnmatchedClose,
}

impl SourceError {
    /// The words of [`SourceError::message`].
    pub open spec fn text(self) -> Seq<char> {
        match self {
            SourceError::UnmatchedOpen => "閉じ括弧が足りない"@,
            SourceError::UnmatchedClose => "開き括弧が足りない"@,
        }
    }

    /// What to tell the author of the text.
    pub fn message(&self) -> (words: String)
        ensures
            words@ == self.text(),
    {
        match self {
            SourceError::UnmatchedOpen => "閉じ括弧が足りない".to_owned(),
            SourceError::UnmatchedClose => "開き括弧が足りない".to_owned(),
        }
    }
}

/// What one character other than a bracket contributes to a program: one
/// instruction for a command character, nothing for any other.
pub open spec fn glyph(c: char) -> Seq<Instr> {
    if c == '+' {
        seq![Instr::Add(1)]
    } else if c == '-' {
        seq![Instr::Add(-1i32)]
    } else if c == '>' {
        seq![Instr::Move(1)]
    } else if c == '<' {
        seq![Instr::Move(-1isize)]
    } else if c == ',' {
        seq![Instr::Get]
    } else if c == '.' {
        seq![Instr::Put]
    } else {
        Seq::empty()
    }
}

/// The parse `rest`, placed after `head` and after `used` characters.
pub open spec fn follow(
    head: Seq<Instr>,
    used: int,
    rest: Result<(Seq<Instr>, int), SourceError>,
) -> Result<(Seq<Instr>, int), SourceError> {
    match rest {
        Ok((codes, n)) => Ok((head + codes, used + n)),
        Err(e) => Err(e),
    }
}

/// The program at the front of `src` and the number of characters it takes
/// up, or the reason why there is none.
///
/// Outside a loop (`nested` is false) the program is all of `src`, and a `]`
/// at this level is an error.  Inside a loop it extends to the `]` that closes
/// the loop, which is counted among its characters, and the end of `src` is an
/// error.
pub open spec fn parsed(src: Seq<char>, nested: bool) -> Result<(Seq<Instr>, int), SourceError>
    decreases src.len(),
{
    if src.len() == 0 {
        if nested {
            Err(SourceError::UnmatchedOpen)
        } else {
            Ok((Seq::empty(), 0))
        }
    } else if src[0] == ']' {
        if nested {
            Ok((Seq::empty(), 1))
        } else {
            Err(SourceError::UnmatchedClose)
        }
    } else if src[0] == '[' {
        match parsed(src.skip(1), true) {
            Ok((body, n)) => {
                // A body never takes up more than the text that follows its `[`.
                if 0 <= n < src.len() {
                    follow(seq![Instr::Loop(body)], 1 + n, parsed(src.skip(1 + n), nested))
                } else {
                    Err(SourceError::UnmatchedOpen)
                }
            },
            Err(e) => Err(e),
        }
    } else {
        follow(glyph(src[0]), 1, parsed(src.skip(1), nested))
    }
}

/// A parse takes up no more characters than there are, and inside a loop at
/// least the closing `]`.
pub proof fn lemma_parsed_bounds(src: Seq<char>, nested: bool)
    ensures
        parsed(src, nested) matches Ok((_, n)) ==> 0 <= n <= src.len() && (nested ==> 1 <= n),
    decreases src.len(),
{
    if src.len() > 0 && src[0] != ']' {
        if src[0] == '[' {
            lemma_parsed_bounds(src.skip(1), true);
            if let Ok((body, n)) = parsed(src.skip(1), true) {
                lemma_parsed_bounds(src.skip(1 + n), nested);
            }
        } else {
            lemma_parsed_bounds(src.skip(1), nested);
        }
    }
}

impl AST {
    /// Parses the program at the front of `src` and appends it to this
    /// program.  `stack` is the number of loops that are open where `src`
    /// begins.  Returns the number of characters taken up.  On an error this
    /// program is left as it was.
    pub fn _parse(&mut self, src: &[char], stack: u32) -> (r: Result<usize, SourceError>)
        ensures
            match parsed(src@, stack > 0) {
                Ok((codes, used)) => r == Ok::<usize, SourceError>(used as usize) && used
                    <= src@.len() && final(self)@ == old(self)@ + codes,
                Err(e) => r == Err::<usize, SourceError>(e) && final(self)@ == old(self)@,
            },
        decreases src@.len(),
    {
        let ghost nested = stack > 0;
        let deeper: u32 = if stack < u32::MAX {
            stack + 1
        } else {
            stack
        };
        let mut out = AST::new();
        let mut i: usize = 0;
        proof {
            lemma_parsed_bounds(src@, nested);
            assert(src@.skip(0) =~= src@);
            lemma_follow_empty(parsed(src@, nested));
        }
        while i < src.len()
            invariant
                i <= src@.len(),
                *self == *old(self),
                nested == (stack > 0),
                deeper > 0,
                parsed(src@, nested) == follow(out@, i as int, parsed(src@.skip(i as int), nested)),
            decreases src@.len() - i,
        {
            let ghost tail = src@.skip(i as int);
            assert(tail.len() > 0 && tail[0] == src@[i as int]);
            assert(tail.skip(1) =~= src@.skip(i + 1));
            let c = src[i];
            if c == '[' {
                let mut lp = AST::new();
                let inner = slice_subrange(src, i + 1, src.len());
                assert(inner@ =~= tail.skip(1));
                proof {
                    lemma_parsed_bounds(inner@, true);
                }
                match lp._parse(inner, deeper) {
                    Ok(n) => {
                        assert(lp@ =~= parsed(inner@, true)->Ok_0.0);
                        assert(tail.skip(1 + n) =~= src@.skip(i + 1 + n));
                        proof {
                            lemma_follow_twice(
                                out@,
                                i as int,
                                seq![Instr::Loop(lp@)],
                                1 + n,
                                parsed(src@.skip(i + 1 + n), nested),
                            );
                        }
                        let ghost before = out@;
                        i += n;
                        out.push(Code::Loop(Box::new(lp)));
                        assert(out@ =~= before + seq![Instr::Loop(lp@)]);
                    },
                    Err(e) => {
                        return Err(e);
                    },
                }
            } else if c == ']' {
                if stack > 0 {
                    assert(out@ + Seq::<Instr>::empty() =~= out@);
                    self.extend(&mut out);
                    return Ok(i + 1);
                } else {
                    return Err(SourceError::UnmatchedClose);
                }
            } else {
                proof {
                    lemma_follow_twice(
                        out@,
                        i as int,
                        glyph(c),
                        1,
                        parsed(src@.skip(i + 1), nested),
                    );
                }
                let ghost before = out@;
                if c == '+' {
                    out.push(Code::Add(1));
                } else if c == '-' {
                    out.push(Code::Add(-1));
                } else if c == '>' {
                    out.push(Code::Move(1));
                } else if c == '<' {
                    out.push(Code::Move(-1));
                } else if c == ',' {
                    out.push(Code::Get);
                } else if c == '.' {
                    out.push(Code::Put);
                }
                assert(out@ =~= before + glyph(c));
            }
            i += 1;
        }
        assert(src@.skip(i as int).len() == 0);
        if stack > 0 {
            Err(SourceError::UnmatchedOpen)
        } else {
            assert(out@ + Seq::<Instr>::empty() =~= out@);
            self.extend(&mut out);
            Ok(i)
        }
    }

    /// Parses `src`, all of it, and appends the program to this one.  Returns
    /// the length of `src`.  On an error this program is left as it was.
    pub fn parse(&mut self, src: &[char]) -> (r: Result<usize, SourceError>)
        ensures
            match parsed(src@, false) {
                Ok((codes, used)) => r == Ok::<usize, SourceError>(src@.len() as usize)
                    && final(self)@ == old(self)@ + codes,
                Err(e) => r == Err::<usize, SourceError>(e) && final(self)@ == old(self)@,
            },
    {
        proof {
            lemma_parsed_whole(src@);
        }
        self._parse(src, 0)
    }
}

/// Placing a parse after nothing leaves it as it is.
proof fn lemma_follow_empty(rest: Result<(Seq<Instr>, int), SourceError>)
    ensures
        follow(Seq::empty(), 0, rest) == rest,
{
    if let Ok((codes, n)) = rest {
        assert(Seq::<Instr>::empty() + codes =~= codes);
    }
}

/// Placing a parse after `b` and the whole after `a` is placing it after
/// `a + b`.
proof fn lemma_follow_twice(
    a: Seq<Instr>,
    i: int,
    b: Seq<Instr>,
    j: int,
    rest: Result<(Seq<Instr>, int), SourceError>,
)
    ensures
        follow(a, i, follow(b, j, rest)) == follow(a + b, i + j, rest),
{
    if let Ok((codes, n)) = rest {
        assert(a + (b + codes) =~= (a + b) + codes);
    }
}

/// Outside a loop a parse takes up the whole text.
pub proof fn lemma_parsed_whole(src: Seq<char>)
    ensures
        parsed(src, false) matches Ok((_, n)) ==> n == src.len(),
    decreases src.len(),
{
    if src.len() > 0 && src[0] != ']' {
        if src[0] == '[' {
            lemma_parsed_bounds(src.skip(1), true);
            if let Ok((body, n)) = parsed(src.skip(1), true) {
                lemma_parsed_whole(src.skip(1 + n));
            }
        } else {
            lemma_parsed_whole(src.skip(1));
        }
    }
}

/// A parsed program is raw: assignments and multiply-adds come from the
/// optimizer only.
pub proof fn lemma_parsed_raw(src: Seq<char>, nested: bool)
    ensures
        parsed(src, nested) matches Ok((codes, _)) ==> is_raw(codes),
    decreases src.len(),
{
    let none = Seq::<Instr>::empty();
    assert(is_raw(none));
    if src.len() > 0 && src[0] != ']' {
        if src[0] == '[' {
            lemma_parsed_raw(src.skip(1), true);
            lemma_parsed_bounds(src.skip(1), true);
            if let Ok((body, n)) = parsed(src.skip(1), true) {
                lemma_parsed_raw(src.skip(1 + n), nested);
                if let Ok((rest, m)) = parsed(src.skip(1 + n), nested) {
                    let head = seq![Instr::Loop(body)];
                    assert(head.drop_last() =~= none);
                    assert(head.last() == Instr::Loop(body));
                    assert(is_raw(head));
                    lemma_raw_concat(head, rest);
                }
            }
        } else {
            lemma_parsed_raw(src.skip(1), nested);
            if let Ok((rest, m)) = parsed(src.skip(1), nested) {
                let head = glyph(src[0]);
                if head.len() > 0 {
                    assert(head.drop_last() =~= none);
                    assert(head.last() == head[0]);
                }
                assert(is_raw(head));
                lemma_raw_concat(head, rest);
            }
        }
    }
}

/// Whether the character is one of the eight that mean something.
pub open spec fn is_command(c: char) -> bool {
    c == '+' || c == '-' || c == '>' || c == '<' || c == ',' || c == '.' || c == '[' || c == ']'
}

/// The text without its comments.
pub open spec fn commands(src: Seq<char>) -> Seq<char>
    decreases src.len(),
{
    if src.len() == 0 {
        Seq::empty()
    } else if is_command(src[0]) {
        seq![src[0]] + commands(src.skip(1))
    } else {
        commands(src.skip(1))
    }
}

/// The text of one instruction of a parsed program.
pub open spec fn spelled(i: Instr) -> Seq<char>
    decreases i,
{
    match i {
        Instr::Add(d) => if d == 1 {
            seq!['+']
        } else {
            seq!['-']
        },
        Instr::Move(d) => if d == 1 {
            seq!['>']
        } else {
            seq!['<']
        },
        Instr::Get => seq![','],
        Instr::Put => seq!['.'],
        Instr::Loop(body) => seq!['['] + rendered(body) + seq![']'],
        _ => Seq::empty(),
    }
}

/// The text of a parsed program: each instruction by its character, each
/// loop as its body between brackets.
pub open spec fn rendered(codes: Seq<Instr>) -> Seq<char>
    decreases codes,
{
    if codes.len() == 0 {
        Seq::empty()
    } else {
        rendered(codes.drop_last()) + spelled(codes.last())
    }
}

/// The text of two programs in a row is their texts in a row.
pub proof fn lemma_rendered_concat(a: Seq<Instr>, b: Seq<Instr>)
    ensures
        rendered(a + b) == rendered(a) + rendered(b),
    decreases b.len(),
{
    if b.len() == 0 {
        assert(a + b =~= a);
        assert(rendered(a) + rendered(b) =~= rendered(a));
    } else {
        lemma_rendered_concat(a, b.drop_last());
        assert((a + b).drop_last() =~= a + b.drop_last());
        assert((a + b).last() == b.last());
        assert((rendered(a) + rendered(b.drop_last())) + spelled(b.last()) =~= rendered(a) + (
        rendered(b.drop_last()) + spelled(b.last())));
    }
}

/// The commands of two texts in a row are their commands in a row.
pub proof fn lemma_commands_concat(a: Seq<char>, b: Seq<char>)
    ensures
        commands(a + b) == commands(a) + commands(b),
    decreases a.len(),
{
    if a.len() == 0 {
        assert(a + b =~= b);
        assert(commands(a) + commands(b) =~= commands(b));
    } else {
        lemma_commands_concat(a.skip(1), b);
        assert((a + b).skip(1) =~= a.skip(1) + b);
        assert((a + b)[0] == a[0]);
        assert((seq![a[0]] + commands(a.skip(1))) + commands(b) =~= seq![a[0]] + (commands(
            a.skip(1),
        ) + commands(b)));
    }
}

/// Parsing loses nothing but comments: the text of the parsed program is the
/// text that was parsed, without its comments.  Every loop of the program is
/// one pair of brackets of the text, and every pair one loop.  Inside a loop
/// the text that was parsed ends with the `]` that closes the loop.
pub proof fn lemma_parsed_rendered(src: Seq<char>, nested: bool)
    ensures
        parsed(src, nested) matches Ok((codes, n)) ==> commands(src.take(n)) == rendered(codes)
            + if nested {
            seq![']']
        } else {
            Seq::<char>::empty()
        },
    decreases src.len(),
{
    let none = Seq::<Instr>::empty();
    let closing = if nested {
        seq![']']
    } else {
        Seq::<char>::empty()
    };
    lemma_parsed_bounds(src, nested);
    assert(rendered(none) =~= Seq::<char>::empty());
    if let Ok((codes, n)) = parsed(src, nested) {
        let text = src.take(n);
        if src.len() == 0 {
            assert(rendered(codes) + closing =~= Seq::<char>::empty());
        } else if src[0] == ']' {
            assert(text.skip(1) =~= Seq::<char>::empty());
            assert(commands(text.skip(1)) =~= Seq::<char>::empty());
            assert(rendered(codes) + closing =~= seq![']']);
            assert(seq![text[0]] + commands(text.skip(1)) =~= seq![']']);
        } else if src[0] == '[' {
            lemma_parsed_bounds(src.skip(1), true);
            lemma_parsed_rendered(src.skip(1), true);
            let (body, n1) = parsed(src.skip(1), true)->Ok_0;
            lemma_parsed_bounds(src.skip(1 + n1), nested);
            lemma_parsed_rendered(src.skip(1 + n1), nested);
            let (rest, n2) = parsed(src.skip(1 + n1), nested)->Ok_0;
            let inner = src.skip(1).take(n1);
            let after = src.skip(1 + n1).take(n2);
            assert(text.skip(1) =~= inner + after);
            lemma_commands_concat(inner, after);
            let head = seq![Instr::Loop(body)];
            lemma_rendered_concat(head, rest);
            assert(head.drop_last() =~= none);
            assert(head.last() == Instr::Loop(body));
            assert(rendered(head) =~= spelled(Instr::Loop(body)));
            assert(text[0] == '[');
            assert(commands(text) =~= rendered(codes) + closing);
        } else {
            lemma_parsed_bounds(src.skip(1), nested);
            lemma_parsed_rendered(src.skip(1), nested);
            assert(parsed(src, nested) == follow(glyph(src[0]), 1, parsed(src.skip(1), nested)));
            let (rest, n1) = parsed(src.skip(1), nested)->Ok_0;
            assert(text.skip(1) =~= src.skip(1).take(n1));
            assert(text[0] == src[0]);
            let head = glyph(src[0]);
            lemma_rendered_concat(head, rest);
            if head.len() > 0 {
                assert(head.drop_last() =~= none);
                assert(head.last() == head[0]);
                assert(rendered(head) =~= spelled(head[0]));
            } else {
                assert(rendered(head) =~= Seq::<char>::empty());
            }
            assert(commands(text) =~= rendered(codes) + closing);
        }
    }
}

} // verus!

use vstd::prelude::*;
use crate::indentation::{indent_buffered, repeat_unit, Indentation};

verus! {

/// The lexical context that decides how a byte is handled.
#[derive(Debug, Copy, Clone, PartialEq, Eq)]
pub enum Mode {
    /// Structural text: layout is regenerated.
    Normal,
    /// Inside a `"..."` literal: bytes are echoed.
    InString,
    /// From `#` to the end of the line: bytes are echoed.
    InComment,
}

/// Why the next byte is to be preceded by a synthetic line break.
#[derive(Debug, Copy, Clone, PartialEq, Eq)]
pub enum Pending {
    /// No line break is owed.
    Nothing,
    /// The last structural byte opened a container; a closer right after it
    /// keeps the container empty and compact (`{}`).
    Opener,
    /// The last structural byte was a `,`.
    Separator,
}

/// The whole state carried from one byte to the next.
#[derive(Debug, Copy, Clone, PartialEq, Eq)]
pub struct FormatState {
    pub mode: Mode,
    /// Meaningful in `InString` only: the previous byte was an unescaped `\`.
    pub escaped: bool,
    /// The number of open `[` and `{`, clamped at zero.
    pub indent_level: usize,
    pub pending: Pending,
}

pub open spec fn initial_state() -> FormatState {
    FormatState { mode: Mode::Normal, escaped: false, indent_level: 0, pending: Pending::Nothing }
}

pub open spec fn is_layout_space(b: u8) -> bool {
    b == 32u8 || b == 9u8 || b == 10u8 || b == 13u8
}

pub open spec fn is_opener(b: u8) -> bool {
    b == 91u8 || b == 123u8
}

pub open spec fn is_closer(b: u8) -> bool {
    b == 93u8 || b == 125u8
}

/// A synthetic line break: a newline, then `level` indentation units.
pub open spec fn line_break(unit: Seq<u8>, level: usize) -> Seq<u8> {
    seq![10u8] + repeat_unit(unit, level as nat)
}

/// The line break owed before a byte that is not a closer.
pub open spec fn owed_break(s: FormatState, unit: Seq<u8>) -> Seq<u8> {
    if s.pending != Pending::Nothing {
        line_break(unit, s.indent_level)
    } else {
        seq![]
    }
}

/// The depth after a closer: one less, never below zero.
pub open spec fn closed_level(level: usize) -> usize {
    if level == 0 { 0 } else { (level - 1) as usize }
}

/// The state after handling byte `b` in state `s`.
pub open spec fn next_state(s: FormatState, b: u8) -> FormatState {
    match s.mode {
        Mode::InComment => if b == 10u8 { FormatState { mode: Mode::Normal, ..s } } else { s },
        Mode::InString => if b == 34u8 && !s.escaped {
            FormatState { mode: Mode::Normal, escaped: false, ..s }
        } else {
            FormatState { escaped: b == 92u8 && !s.escaped, ..s }
        },
        Mode::Normal => if is_layout_space(b) {
            s
        } else if b == 35u8 {
            FormatState { mode: Mode::InComment, pending: Pending::Nothing, ..s }
        } else if b == 34u8 {
            FormatState { mode: Mode::InString, escaped: false, pending: Pending::Nothing, ..s }
        } else if is_opener(b) {
            FormatState { indent_level: (s.indent_level + 1) as usize, pending: Pending::Opener, ..s }
        } else if is_closer(b) {
            FormatState { indent_level: closed_level(s.indent_level), pending: Pending::Nothing, ..s }
        } else if b == 44u8 {
            FormatState { pending: Pending::Separator, ..s }
        } else {
            FormatState { pending: Pending::Nothing, ..s }
        },
    }
}

/// The bytes written while handling byte `b` in state `s`.
pub open spec fn step_out(s: FormatState, b: u8, unit: Seq<u8>) -> Seq<u8> {
    match s.mode {
        Mode::InComment => seq![b],
        Mode::InString => seq![b],
        Mode::Normal => if is_layout_space(b) {
            seq![]
        } else if is_closer(b) {
            if s.pending == Pending::Opener {
                seq![b]
            } else {
                line_break(unit, closed_level(s.indent_level)) + seq![b]
            }
        } else if b == 58u8 {
            owed_break(s, unit) + seq![b, 32u8]
        } else {
            owed_break(s, unit) + seq![b]
        },
    }
}

/// Runs the machine from `s` over all of `x`: the final state and the
/// bytes written.
pub open spec fn run(s: FormatState, x: Seq<u8>, unit: Seq<u8>) -> (FormatState, Seq<u8>)
    decreases x.len(),
{
    if x.len() == 0 {
        (s, seq![])
    } else {
        let p = run(s, x.drop_last(), unit);
        (next_state(p.0, x.last()), p.1 + step_out(p.0, x.last(), unit))
    }
}

/// The formatted form of `x`.
pub open spec fn formatted(x: Seq<u8>, unit: Seq<u8>) -> Seq<u8> {
    run(initial_state(), x, unit).1
}

impl FormatState {
    /// A fresh state: structural text, depth zero, nothing owed.
    pub fn new() -> (r: FormatState)
        ensures
            r == initial_state(),
    {
        FormatState { mode: Mode::Normal, escaped: false, indent_level: 0, pending: Pending::Nothing }
    }

    /// Handles one input byte: appends what it produces to `writer` and
    /// moves to the next state.
    pub fn feed(&mut self, b: u8, writer: &mut Vec<u8>, indentation: Indentation)
        requires
            old(self).indent_level < usize::MAX,
        ensures
            *final(self) == next_state(*old(self), b),
            final(writer)@ == old(writer)@ + step_out(*old(self), b, indentation.unit()),
    {
        let ghost s0 = *self;
        let ghost unit = indentation.unit();
        match self.mode {
            Mode::InComment => {
                writer.push(b);
                if b == 10u8 {
                    self.mode = Mode::Normal;
                }
            },
            Mode::InString => {
                writer.push(b);
                if b == 34u8 && !self.escaped {
                    self.mode = Mode::Normal;
                    self.escaped = false;
                } else {
                    self.escaped = b == 92u8 && !self.escaped;
                }
            },
            Mode::Normal => {
                if b == 32u8 || b == 9u8 || b == 10u8 || b == 13u8 {
                    return;
                }
                let ghost w0 = writer@;
                if b == 93u8 || b == 125u8 {
                    let lvl = if self.indent_level == 0 { 0 } else { self.indent_level - 1 };
                    if !matches!(self.pending, Pending::Opener) {
                        writer.push(10u8);
                        indent_buffered(writer, lvl, indentation);
                        proof {
                            assert(writer@ =~= w0 + line_break(unit, lvl));
                        }
                    }
                    writer.push(b);
                    self.indent_level = lvl;
                    self.pending = Pending::Nothing;
                } else {
                    if !matches!(self.pending, Pending::Nothing) {
                        writer.push(10u8);
                        indent_buffered(writer, self.indent_level, indentation);
                        proof {
                            assert(writer@ =~= w0 + line_break(unit, self.indent_level));
                        }
                    }
                    proof {
                        assert(writer@ =~= w0 + owed_break(s0, unit));
                    }
                    writer.push(b);
                    if b == 58u8 {
                        writer.push(32u8);
                    }
                    if b == 35u8 {
                        self.mode = Mode::InComment;
                        self.pending = Pending::Nothing;
                    } else if b == 34u8 {
                        self.mode = Mode::InString;
                        self.escaped = false;
                        self.pending = Pending::Nothing;
                    } else if b == 91u8 || b == 123u8 {
                        self.indent_level = self.indent_level + 1;
                        self.pending = Pending::Opener;
                    } else if b == 44u8 {
                        self.pending = Pending::Separator;
                    } else {
                        self.pending = Pending::Nothing;
                    }
                }
                proof {
                    assert(writer@ =~= w0 + step_out(s0, b, unit));
                }
            },
        }
        proof {
            assert(writer@ =~= old(writer)@ + step_out(s0, b, unit));
        }
    }
}

/// Formats all of `reader` and appends the result to `writer`.
pub fn format_nu_buffered(reader: &[u8], writer: &mut Vec<u8>, indentation: Indentation)
    ensures
        final(writer)@ == old(writer)@ + formatted(reader@, indentation.unit()),
{
    let ghost unit = indentation.unit();
    let mut state = FormatState::new();
    let mut i: usize = 0;
    while i < reader.len()
        invariant
            i <= reader@.len(),
            unit == indentation.unit(),
            state.indent_level <= i,
            (state, writer@) == ({
                let p = run(initial_state(), reader@.subrange(0, i as int), unit);
                (p.0, old(writer)@ + p.1)
            }),
        decreases reader@.len() - i,
    {
        let ghost pre = reader@.subrange(0, i as int);
        let ghost w0 = writer@;
        state.feed(reader[i], writer, indentation);
        proof {
            let next = reader@.subrange(0, i + 1);
            assert(next.drop_last() =~= pre);
            assert(writer@ =~= old(writer)@ + run(initial_state(), next, unit).1);
        }
        i = i + 1;
    }
    proof {
        assert(reader@.subrange(0, i as int) =~= reader@);
    }
}

} // verus!

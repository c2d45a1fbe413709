//! Instruction shapes: classification of a normalized line into one of the
//! five shapes (comment, address literal, address symbol, label, computation)
//! and the parsing of each shape's fields.
use vstd::prelude::*;
use vstd::string::*;

use crate::strings::{find_char, find_idx, lemma_find_idx, numeral_value};

pub mod commands;

verus! {

/// The fatal conditions of one assembly run. Every one of them aborts the run;
/// none is recovered from.
#[derive(Clone, Copy, PartialEq, Eq, Structural, Debug)]
pub enum AsmError {
    /// A computation-shaped line holds neither `=` nor `;`, or holds them in
    /// an order that leaves no computation field.
    MalformedComputation,
    /// A label line `(name` misses its closing parenthesis.
    UnclosedLabel,
    /// A computation mnemonic outside the closed `comp` table.
    UnknownComp,
    /// A destination mnemonic outside the closed `dest` table.
    UnknownDest,
    /// A jump mnemonic outside the closed `jmp` table.
    UnknownJmp,
    /// An address literal at or above 32768, which cannot carry a leading `0`
    /// bit in the 16-bit encoding.
    AddressOutOfRange,
}

/// A computation instruction `dest=comp;jmp`; absent parts hold the sentinel
/// `"null"`.
pub struct CCommand {
    pub dest: String,
    pub comp: String,
    pub jmp: String,
}

/// Mathematical image of a `CCommand`: the three mnemonic fields as character
/// sequences.
pub struct CCommandV {
    pub dest: Seq<char>,
    pub comp: Seq<char>,
    pub jmp: Seq<char>,
}

impl View for CCommand {
    type V = CCommandV;

    open spec fn view(&self) -> CCommandV {
        CCommandV { dest: self.dest@, comp: self.comp@, jmp: self.jmp@ }
    }
}

/// A command after symbol resolution: the exact input of the encoder.
pub enum ParsedCommand {
    Computation(CCommand),
    Address(usize),
}

/// Mathematical image of a `ParsedCommand`.
pub enum CmdV {
    Comp(CCommandV),
    Addr(int),
}

impl View for ParsedCommand {
    type V = CmdV;

    open spec fn view(&self) -> CmdV {
        match self {
            ParsedCommand::Computation(c) => CmdV::Comp(c@),
            ParsedCommand::Address(a) => CmdV::Addr(*a as int),
        }
    }
}

impl DeepView for ParsedCommand {
    type V = CmdV;

    open spec fn deep_view(&self) -> CmdV {
        self.view()
    }
}

/// One normalized line, classified into its shape.
pub enum ParsedLine {
    Comment,
    Computation(CCommand),
    Address(usize),
    Symbol(String),
    Label(String),
}

/// Mathematical image of a `ParsedLine`.
pub enum LineV {
    Comment,
    Comp(CCommandV),
    Addr(int),
    Symbol(Seq<char>),
    Label(Seq<char>),
}

impl View for ParsedLine {
    type V = LineV;

    open spec fn view(&self) -> LineV {
        match self {
            ParsedLine::Comment => LineV::Comment,
            ParsedLine::Computation(c) => LineV::Comp(c@),
            ParsedLine::Address(a) => LineV::Addr(*a as int),
            ParsedLine::Symbol(s) => LineV::Symbol(s@),
            ParsedLine::Label(s) => LineV::Label(s@),
        }
    }
}

/// Split a computation line at its first `=` and first `;`. `None` is the
/// malformed case: no separator at all, or `;` before `=`.
pub open spec fn comp_split(s: Seq<char>) -> Option<CCommandV> {
    match (find_idx(s, '='), find_idx(s, ';')) {
        (Some(i), Some(j)) => if i < j {
            Some(
                CCommandV {
                    dest: s.subrange(0, i),
                    comp: s.subrange(i + 1, j),
                    jmp: s.subrange(j + 1, s.len() as int),
                },
            )
        } else {
            None
        },
        (Some(i), None) => Some(
            CCommandV {
                dest: s.subrange(0, i),
                comp: s.subrange(i + 1, s.len() as int),
                jmp: "null"@,
            },
        ),
        (None, Some(j)) => Some(
            CCommandV {
                dest: "null"@,
                comp: s.subrange(0, j),
                jmp: s.subrange(j + 1, s.len() as int),
            },
        ),
        (None, None) => None,
    }
}

/// Total classification of a normalized line. First match wins: an `@` line is
/// an address literal or symbol, a line opening on a computation operand
/// (`A`, `M`, `D` or `0`) is a computation, a `(` line is a label, and
/// everything else — blank lines included — is a comment.
pub open spec fn classify(s: Seq<char>) -> Result<LineV, AsmError> {
    if s.len() > 0 && s[0] == '@' {
        match numeral_value(s.drop_first()) {
            Some(n) => Ok(LineV::Addr(n)),
            None => Ok(LineV::Symbol(s.drop_first())),
        }
    } else if s.len() > 0 && (s[0] == 'A' || s[0] == 'M' || s[0] == 'D' || s[0] == '0') {
        match comp_split(s) {
            Some(c) => Ok(LineV::Comp(c)),
            None => Err(AsmError::MalformedComputation),
        }
    } else if s.len() > 0 && s[0] == '(' {
        match find_idx(s, ')') {
            Some(i) => Ok(LineV::Label(s.subrange(1, i))),
            None => Err(AsmError::UnclosedLabel),
        }
    } else {
        Ok(LineV::Comment)
    }
}

impl CCommand {
    /// Parse a computation line into its `dest`, `comp` and `jmp` fields,
    /// filling absent parts with `"null"`.
    pub fn new(preprocessed_line: &str) -> (r: Result<CCommand, AsmError>)
        ensures
            match r {
                Ok(c) => comp_split(preprocessed_line@) == Some(c@),
                Err(e) => comp_split(preprocessed_line@) is None && e
                    == AsmError::MalformedComputation,
            },
    {
        let n = preprocessed_line.unicode_len();
        let assignment_idx = find_char(preprocessed_line, '=');
        let semicolon_idx = find_char(preprocessed_line, ';');
        proof {
            lemma_find_idx(preprocessed_line@, '=');
            lemma_find_idx(preprocessed_line@, ';');
        }
        match (assignment_idx, semicolon_idx) {
            (Some(i), Some(j)) => {
                if i < j {
                    Ok(
                        CCommand {
                            dest: preprocessed_line.substring_char(0, i).to_owned(),
                            comp: preprocessed_line.substring_char(i + 1, j).to_owned(),
                            jmp: preprocessed_line.substring_char(j + 1, n).to_owned(),
                        },
                    )
                } else {
                    Err(AsmError::MalformedComputation)
                }
            },
            (Some(i), None) => Ok(
                CCommand {
                    dest: preprocessed_line.substring_char(0, i).to_owned(),
                    comp: preprocessed_line.substring_char(i + 1, n).to_owned(),
                    jmp: "null".to_owned(),
                },
            ),
            (None, Some(j)) => Ok(
                CCommand {
                    dest: "null".to_owned(),
                    comp: preprocessed_line.substring_char(0, j).to_owned(),
                    jmp: preprocessed_line.substring_char(j + 1, n).to_owned(),
                },
            ),
            (None, None) => Err(AsmError::MalformedComputation),
        }
    }
}

impl ParsedLine {
    /// Classify one normalized line and extract its fields. The only failures
    /// are a computation line without a usable separator and a label line
    /// without its closing parenthesis.
    pub fn new(preprocessed_line: &str) -> (r: Result<ParsedLine, AsmError>)
        ensures
            match r {
                Ok(pl) => classify(preprocessed_line@) == Ok::<LineV, AsmError>(pl@),
                Err(e) => classify(preprocessed_line@) == Err::<LineV, AsmError>(e),
            },
    {
        if preprocessed_line.unicode_len() == 0 {
            return Ok(ParsedLine::Comment);
        }
        let c = preprocessed_line.get_char(0);
        if c == '@' {
            match commands::ACommand::new(preprocessed_line) {
                commands::ACommand::Address(a) => Ok(ParsedLine::Address(a)),
                commands::ACommand::Symbol(s) => Ok(ParsedLine::Symbol(s)),
            }
        } else if c == 'A' || c == 'M' || c == 'D' || c == '0' {
            match CCommand::new(preprocessed_line) {
                Ok(cc) => Ok(ParsedLine::Computation(cc)),
                Err(e) => Err(e),
            }
        } else if c == '(' {
            match commands::LCommand::new(preprocessed_line) {
                Ok(lc) => Ok(ParsedLine::Label(lc.label)),
                Err(e) => Err(e),
            }
        } else {
            Ok(ParsedLine::Comment)
        }
    }
}

} // verus!

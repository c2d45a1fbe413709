//! A two-pass assembler for a 16-bit von-Neumann machine: raw symbolic source
//! lines in, fixed-width binary instruction lines out. Lines are normalized
//! and classified, pass 1 binds labels to program-counter positions, pass 2
//! resolves symbols and allocates variable addresses from 16 upward, and the
//! encoder turns each resolved command into exactly sixteen `0`/`1`
//! characters.
use vstd::prelude::*;

pub mod coder;
pub mod command;
pub mod parser;
pub mod strings;

use crate::coder::{encode_all, Coder};
use crate::command::AsmError;
use crate::parser::{builtin_symbols, normalize, pass1, pass2, Parser};

verus! {

/// End-to-end image of one assembly run: normalize every raw line, bind
/// labels (pass 1), resolve symbols and emit commands (pass 2), then encode.
/// The run's first fatal condition is its result.
pub open spec fn assemble_spec(raw_lines: Seq<Seq<char>>) -> Result<Seq<Seq<char>>, AsmError> {
    let lines = raw_lines.map_values(|l: Seq<char>| normalize(l));
    let (m, label_err) = pass1(lines, builtin_symbols(), 0);
    if label_err is Some {
        Err(label_err.unwrap())
    } else {
        let (cmds, m2, free2, cmd_err) = pass2(lines, m, 16);
        if cmd_err is Some {
            Err(cmd_err.unwrap())
        } else {
            encode_all(cmds)
        }
    }
}

/// Assemble a whole program: the raw source lines, in order, become one
/// 16-character binary line per surviving instruction, in the same order —
/// or the run's first fatal error.
pub fn assemble_program(lines_in_sourcecode: Vec<String>) -> (r: Result<Vec<String>, AsmError>)
    requires
        lines_in_sourcecode@.len() + 16 <= usize::MAX,
    ensures
        match r {
            Ok(out) => assemble_spec(lines_in_sourcecode.deep_view()) == Ok::<
                Seq<Seq<char>>,
                AsmError,
            >(out.deep_view()),
            Err(e) => assemble_spec(lines_in_sourcecode.deep_view()) == Err::<
                Seq<Seq<char>>,
                AsmError,
            >(e),
        },
{
    let mut parser = Parser::new(lines_in_sourcecode);
    match parser.parse_labels() {
        Err(e) => {
            return Err(e);
        },
        Ok(u) => {
        },
    }
    let parsed_commands = match parser.parse_commands() {
        Err(e) => {
            return Err(e);
        },
        Ok(cmds) => cmds,
    };
    Coder::new(parsed_commands).assemble_binary_code()
}

} // verus!

//! Stand-alone constructors for the two single-shape commands: an address
//! line (`@value` or `@symbol`) and a label line (`(name)`).
use vstd::prelude::*;
use vstd::string::*;

use crate::command::AsmError;
use crate::strings::{find_char, find_idx, lemma_find_idx, numeral_value, parse_usize};

verus! {

/// An address line: a numeric literal, or a symbolic reference still to be
/// resolved.
pub enum ACommand {
    Address(usize),
    Symbol(String),
}

impl ACommand {
    /// Parse the remainder of an `@` line: a decimal numeral that fits in
    /// `usize` yields an address literal, anything else a symbol.
    pub fn new(preprocessed_line: &str) -> (r: ACommand)
        requires
            preprocessed_line@.len() > 0,
            preprocessed_line@[0] == '@',
        ensures
            match numeral_value(preprocessed_line@.drop_first()) {
                Some(n) => r matches ACommand::Address(a) && a as int == n,
                None => r matches ACommand::Symbol(s) && s@ == preprocessed_line@.drop_first(),
            },
    {
        let rest = preprocessed_line.substring_char(1, preprocessed_line.unicode_len());
        proof {
            assert(rest@ =~= preprocessed_line@.drop_first());
        }
        match parse_usize(rest) {
            Some(a) => ACommand::Address(a),
            None => ACommand::Symbol(rest.to_owned()),
        }
    }
}

/// A label declaration `(name)`.
pub struct LCommand {
    pub label: String,
}

impl LCommand {
    /// Extract the name between `(` and the first `)`; a missing `)` is the
    /// fatal unclosed-label condition.
    pub fn new(line: &str) -> (r: Result<LCommand, AsmError>)
        requires
            line@.len() > 0,
            line@[0] == '(',
        ensures
            match find_idx(line@, ')') {
                Some(i) => r matches Ok(lc) && lc.label@ == line@.subrange(1, i),
                None => r == Err::<LCommand, AsmError>(AsmError::UnclosedLabel),
            },
    {
        proof {
            lemma_find_idx(line@, ')');
        }
        match find_char(line, ')') {
            Some(i) => Ok(LCommand { label: line.substring_char(1, i).to_owned() }),
            None => Err(AsmError::UnclosedLabel),
        }
    }
}

} // verus!

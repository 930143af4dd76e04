use vstd::prelude::*;
use crate::executor::ExecError;
use crate::expander::ExpandError;
use crate::lexer::LexError;
use crate::parser::ParseError;

verus! {

/// Why a line could not be run, by the stage that failed.
#[derive(Debug, Clone, PartialEq, Eq)]
pub enum ShellError {
    Io(String),
    Lex(LexError),
    Parse(ParseError),
    Expand(ExpandError),
    Exec(ExecError),
}

} // verus!

use vstd::prelude::*;
use crate::ast::{AstNode, strings_view};
use crate::environment::Environment;
use crate::error::ShellError;
use crate::executor::ExecOutcome;
use crate::expander::{Expander, expand_spec};
use crate::lexer::{lex_spec, tokenize};
use crate::parser::{parse_spec, parse_tokens};

verus! {

/// Turns an input line into the tree to run: lexing, then parsing, then expansion against
/// `env` and the working directory's `names`; the first stage that fails gives the error.
pub fn prepare_line(line: &str, env: &Environment, names: Vec<String>) -> (r: Result<AstNode, ShellError>)
    requires
        env.wf(),
    ensures
        match lex_spec(line@) {
            Err(e) => r == Err::<AstNode, ShellError>(ShellError::Lex(e)),
            Ok(ts) => match parse_spec(ts) {
                Err(e) => r == Err::<AstNode, ShellError>(ShellError::Parse(e)),
                Ok(a) => exists|p: AstNode|
                    #![trigger p.model()]
                    p.model() == a && match expand_spec(&p, env.view(), strings_view(names@)) {
                        Some(x) => r is Ok && r->Ok_0.model() == x,
                        None => r is Err && r->Err_0 is Expand,
                    },
            },
        },
{
    let toks = match tokenize(line) {
        Ok(t) => t,
        Err(e) => return Err(ShellError::Lex(e)),
    };
    let ast = match parse_tokens(toks.as_slice()) {
        Ok(a) => a,
        Err(e) => return Err(ShellError::Parse(e)),
    };
    let ghost nv = strings_view(names@);
    let expander = Expander::with_names(env, names);
    let r = match expander.expand(&ast) {
        Ok(n) => Ok(n),
        Err(e) => Err(ShellError::Expand(e)),
    };
    r
}

/// Whether the shell reads another line after a line ended with `outcome`.
pub fn keep_reading(outcome: ExecOutcome) -> (r: bool)
    ensures
        r == (outcome is Code),
{
    match outcome {
        ExecOutcome::Code(_) => true,
        ExecOutcome::Exit(_) => false,
    }
}

/// Whether a line holds only whitespace, and is skipped.
pub fn is_blank_line(line: &str) -> (r: bool)
    ensures
        r == (crate::text::trimmed(line@).len() == 0),
{
    let t = crate::text::trim(line);
    t.as_str().is_empty()
}

} // verus!

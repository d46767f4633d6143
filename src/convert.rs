use vstd::prelude::*;
use crate::lexer::{LexError, lex, scan};
use crate::parser::{ParseError, Parser, parse_value};
use crate::value::{Value, ValueModel};
use crate::writer::{WriteError, Writer, render, written};

verus! {

/// Why a text could not be read as a value tree.
#[derive(Clone, Copy, Debug, PartialEq, Eq, Structural)]
pub enum PsError {
    /// The text does not scan.
    Lex(LexError),
    /// Its tokens do not form a value.
    Parse(ParseError),
}

/// The value tree that a text denotes: the first value of its tokens (any
/// tokens after it are not read).
pub open spec fn read_model(s: Seq<char>) -> Result<ValueModel, PsError> {
    match lex(s) {
        Err(e) => Err(PsError::Lex(e)),
        Ok(t) => match parse_value(t, 0) {
            Ok((v, _)) => Ok(v),
            Err(e) => Err(PsError::Parse(e)),
        },
    }
}

/// Scans and parses a text into a value tree.
pub fn ps_to_value(source: String) -> (r: Result<Value, PsError>)
    requires
        source@.len() < usize::MAX,
    ensures
        match read_model(source@) {
            Ok(v) => r matches Ok(x) && x@ == v,
            Err(e) => r == Err::<Value, PsError>(e),
        },
{
    match scan(source) {
        Err(e) => Err(PsError::Lex(e)),
        Ok(tokens) => {
            let mut parser = Parser::new(tokens);
            match parser.parse() {
                Ok(v) => Ok(v),
                Err(e) => Err(PsError::Parse(e)),
            }
        },
    }
}

/// Writes a value tree as text, starting at no indentation.
pub fn value_to_ps(value: Value) -> (r: Result<String, WriteError>)
    ensures
        written(render(value@, 0), r),
{
    let mut writer = Writer::new(value);
    writer.write()
}

} // verus!

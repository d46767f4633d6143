use vstd::prelude::*;

pub mod chars;
pub mod value;
pub mod lexer;
pub mod parser;
pub mod writer;
pub mod convert;
pub mod roundtrip;
pub mod scanlaw;

verus! {

} // verus!

//! Code generation and optimization passes of the GaiaRusted compiler, with
//! contracts checked by Verus.
use vstd::prelude::*;

pub mod ast;
pub mod codegen;
pub mod mir;
pub mod names;
pub mod order;
pub mod seqs;
pub mod text;

verus! {

} // verus!

//! Backend: assembling and linking.
use vstd::prelude::*;

pub mod assembler;
pub mod linker_integration;

verus! {

} // verus!

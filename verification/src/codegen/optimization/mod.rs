//! Optimization passes: link-time optimization, optimizers over instruction lists, and
//! passes over LLVM-style IR text.
use vstd::prelude::*;

pub mod lto;
pub mod optimizer;
pub mod optimizer_advanced;
pub mod optimization_passes;
pub mod dead_code_elim;
pub mod llvm_ir_optimizer;
pub mod loop_opt;
pub mod inlining;
pub mod const_prop;

verus! {

} // verus!

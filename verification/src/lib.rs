//! A small Lisp with exact rational arithmetic.
use vstd::prelude::*;

pub mod limbs;
pub mod bigint;
pub mod text;
pub mod number;
pub mod syntax;
pub mod eval;
pub mod semantics;
pub mod laws;
pub mod accumulation;
pub mod depth;
pub mod tail_calls;
pub mod scope;
pub mod forms;
pub mod escape;
pub mod reading;
pub mod outputs;
pub mod meaning;

pub use bigint::BigInt;
pub use number::{Number, parse_number};
pub use syntax::{Expr, LispError, parse, parse_program};
pub use eval::{Value, Lambda, Env, eval, eval_source, eval_program};

verus! {

} // verus!

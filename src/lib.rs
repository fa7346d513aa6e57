//! A small WebAssembly runtime core: a single-pass module validator built on a
//! polymorphic validation stack, and a stack-machine interpreter that runs the
//! validated function bodies.
use vstd::prelude::*;

pub mod error;
pub mod execution;
pub mod reader;
pub mod types;
pub mod validation;

pub use error::Error;
pub use execution::value::Value;
pub use execution::RuntimeInstance;
pub use types::{LabelKind, SectionTy, ValType};
pub use validation::{validate, ValidationInfo};

verus! {

} // verus!

//! The store: every function instance of one instantiated module.
use vstd::prelude::*;

use crate::types::{Span, ValType};

verus! {

/// A function ready to run: its type index, the type of each local (the
/// parameters, then the declared locals), and the span of its instructions.
pub struct FuncInst {
    pub ty: usize,
    pub locals: Vec<ValType>,
    pub code_expr: Span,
}

pub struct Store {
    pub funcs: Vec<FuncInst>,
}

} // verus!

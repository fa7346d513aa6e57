//! Runtime values.
use vstd::prelude::*;

use crate::types::ValType;

verus! {

/// A typed runtime value. Floating-point values are held as their IEEE 754 bits.
#[derive(Debug, Clone, Copy, PartialEq, Eq, Structural)]
pub enum Value {
    I32(i32),
    I64(i64),
    F32(u32),
    F64(u64),
}

pub open spec fn type_of(v: Value) -> ValType {
    match v {
        Value::I32(_) => ValType::I32,
        Value::I64(_) => ValType::I64,
        Value::F32(_) => ValType::F32,
        Value::F64(_) => ValType::F64,
    }
}

/// The zero value of a type, which a declared local starts with.
pub open spec fn zero_of(t: ValType) -> Value {
    match t {
        ValType::I32 => Value::I32(0),
        ValType::I64 => Value::I64(0),
        ValType::F32 => Value::F32(0),
        ValType::F64 => Value::F64(0),
    }
}

impl Value {
    /// The value's type.
    pub fn to_ty(&self) -> (r: ValType)
        ensures
            r == type_of(*self),
    {
        match self {
            Value::I32(_) => ValType::I32,
            Value::I64(_) => ValType::I64,
            Value::F32(_) => ValType::F32,
            Value::F64(_) => ValType::F64,
        }
    }

    /// The zero value of `ty`.
    pub fn default_from_ty(ty: ValType) -> (r: Value)
        ensures
            r == zero_of(ty),
    {
        match ty {
            ValType::I32 => Value::I32(0),
            ValType::I64 => Value::I64(0),
            ValType::F32 => Value::F32(0),
            ValType::F64 => Value::F64(0),
        }
    }
}

} // verus!

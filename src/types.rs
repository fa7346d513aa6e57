use vstd::prelude::*;

use crate::error::Error;
use crate::reader::{
    at, byte_at, lemma_prepend_assoc, prepend, var_i32, var_i64, var_u32, WasmReader,
};

verus! {

/// The numeric value types.
#[derive(Debug, Clone, Copy, PartialEq, Eq, Structural)]
pub enum ValType {
    I32,
    I64,
    F32,
    F64,
}

/// The kind of structured control-flow scope that a label opens.
#[derive(Debug, Clone, Copy, PartialEq, Eq, Structural)]
pub enum LabelKind {
    Block,
    Loop,
    If,
}

/// The section kinds, in the order in which they must appear in a module
/// (custom sections may appear anywhere).
#[derive(Debug, Clone, Copy, PartialEq, Eq, Structural)]
pub enum SectionTy {
    Custom,
    Type,
    Import,
    Function,
    Table,
    Memory,
    Global,
    Export,
    Start,
    Element,
    Code,
    Data,
    DataCount,
}

/// A byte range of the module buffer.
#[derive(Debug, Clone, Copy, PartialEq, Eq, Structural)]
pub struct Span {
    pub from: usize,
    pub len: usize,
}

/// A function signature.
#[derive(Debug, PartialEq, Eq)]
pub struct FuncType {
    pub params: Vec<ValType>,
    pub results: Vec<ValType>,
}

/// A function type's parameter and result types.
pub open spec fn sig(ft: FuncType) -> (Seq<ValType>, Seq<ValType>) {
    (ft.params@, ft.results@)
}

/// The value type that a type byte encodes.
pub open spec fn valtype_of_byte(b: u8) -> Option<ValType> {
    if b == 0x7F {
        Some(ValType::I32)
    } else if b == 0x7E {
        Some(ValType::I64)
    } else if b == 0x7D {
        Some(ValType::F32)
    } else if b == 0x7C {
        Some(ValType::F64)
    } else {
        None
    }
}

/// A value type byte at `pos`.
pub open spec fn valtype_at(bs: Seq<u8>, pos: int) -> Result<(ValType, int), Error> {
    match byte_at(bs, pos) {
        Ok((b, e)) => match valtype_of_byte(b) {
            Some(t) => Ok((t, e)),
            None => Err(Error::InvalidValType(b)),
        },
        Err(err) => Err(err),
    }
}

/// `k` value types at `pos`.
pub open spec fn valtypes_run(bs: Seq<u8>, pos: int, k: nat) -> Result<(Seq<ValType>, int), Error>
    decreases k,
{
    if k == 0 {
        Ok((Seq::empty(), pos))
    } else {
        match valtype_at(bs, pos) {
            Err(err) => Err(err),
            Ok((t, p)) => prepend(seq![t], valtypes_run(bs, p, (k - 1) as nat)),
        }
    }
}

/// A counted vector of value types at `pos`.
pub open spec fn valtype_vec_at(bs: Seq<u8>, pos: int) -> Result<(Seq<ValType>, int), Error> {
    match var_u32(bs, pos) {
        Err(err) => Err(err),
        Ok((k, p)) => valtypes_run(bs, p, k as nat),
    }
}

/// A function type at `pos`: the tag 0x60, then the parameter and the result
/// types; yields the two type lists.
pub open spec fn functype_at(bs: Seq<u8>, pos: int) -> Result<
    ((Seq<ValType>, Seq<ValType>), int),
    Error,
> {
    match byte_at(bs, pos) {
        Err(err) => Err(err),
        Ok((tag, p1)) => if tag != 0x60 {
            Err(Error::InvalidFuncTypeTag(tag))
        } else {
            match valtype_vec_at(bs, p1) {
                Err(err) => Err(err),
                Ok((params, p2)) => match valtype_vec_at(bs, p2) {
                    Err(err) => Err(err),
                    Ok((results, p3)) => Ok(((params, results), p3)),
                },
            }
        },
    }
}

pub fn valtype_from_byte(b: u8) -> (r: Option<ValType>)
    ensures
        r == valtype_of_byte(b),
{
    match b {
        0x7F => Some(ValType::I32),
        0x7E => Some(ValType::I64),
        0x7D => Some(ValType::F32),
        0x7C => Some(ValType::F64),
        _ => None,
    }
}

impl<'a> WasmReader<'a> {
    pub fn read_valtype(&mut self) -> (r: Result<ValType, Error>)
        requires
            old(self).wf(),
        ensures
            final(self).data() == old(self).data(),
            final(self).wf(),
            final(self).spec_pos() >= old(self).spec_pos(),
            at(r, final(self).spec_pos()) == valtype_at(old(self).data(), old(self).spec_pos()),
    {
        let b = self.read_u8()?;
        match valtype_from_byte(b) {
            Some(t) => Ok(t),
            None => Err(Error::InvalidValType(b)),
        }
    }
}

/// A reference type, the element type of a table.
#[derive(Debug, Clone, Copy, PartialEq, Eq, Structural)]
pub enum RefType {
    FuncRef,
    ExternRef,
}

/// Size bounds of a table or memory.
#[derive(Debug, Clone, Copy, PartialEq, Eq, Structural)]
pub struct Limits {
    pub min: u32,
    pub max: Option<u32>,
}

#[derive(Debug, Clone, Copy, PartialEq, Eq, Structural)]
pub struct TableType {
    pub elem: RefType,
    pub lim: Limits,
}

#[derive(Debug, Clone, Copy, PartialEq, Eq, Structural)]
pub struct MemType {
    pub lim: Limits,
}

#[derive(Debug, Clone, Copy, PartialEq, Eq, Structural)]
pub struct GlobalType {
    pub ty: ValType,
    pub is_mut: bool,
}

/// What an import brings in.
#[derive(Debug, Clone, Copy, PartialEq, Eq, Structural)]
pub enum ImportDesc {
    Func(u32),
    Table(TableType),
    Mem(MemType),
    Global(GlobalType),
}

/// An import: module name and item name (as spans of the buffer) and what is imported.
#[derive(Debug, Clone, Copy, PartialEq, Eq, Structural)]
pub struct Import {
    pub module_name: Span,
    pub name: Span,
    pub desc: ImportDesc,
}

/// What an export refers to, by index.
#[derive(Debug, Clone, Copy, PartialEq, Eq, Structural)]
pub enum ExportDesc {
    Func(u32),
    Table(u32),
    Mem(u32),
    Global(u32),
}

/// An export: its name (as a span of the buffer) and what it refers to.
#[derive(Debug, Clone, Copy, PartialEq, Eq, Structural)]
pub struct Export {
    pub name: Span,
    pub desc: ExportDesc,
}

/// A name at `pos`: a byte count, then that many bytes (kept as their span).
pub open spec fn name_at(bs: Seq<u8>, pos: int) -> Result<(Span, int), Error> {
    match var_u32(bs, pos) {
        Err(err) => Err(err),
        Ok((len, p)) => if p + len > bs.len() {
            Err(Error::Eof)
        } else {
            Ok((Span { from: p as usize, len: len as usize }, p + len))
        },
    }
}

/// Limits at `pos`: flag 0x00 and a minimum, or flag 0x01, a minimum and a maximum.
pub open spec fn limits_at(bs: Seq<u8>, pos: int) -> Result<(Limits, int), Error> {
    match byte_at(bs, pos) {
        Err(err) => Err(err),
        Ok((flag, p1)) => if flag == 0x00 {
            match var_u32(bs, p1) {
                Err(err) => Err(err),
                Ok((min, p2)) => Ok((Limits { min, max: None }, p2)),
            }
        } else if flag == 0x01 {
            match var_u32(bs, p1) {
                Err(err) => Err(err),
                Ok((min, p2)) => match var_u32(bs, p2) {
                    Err(err) => Err(err),
                    Ok((max, p3)) => Ok((Limits { min, max: Some(max) }, p3)),
                },
            }
        } else {
            Err(Error::InvalidLimitsType(flag))
        },
    }
}

/// A table type at `pos`: a reference type byte, then limits.
pub open spec fn table_type_at(bs: Seq<u8>, pos: int) -> Result<(TableType, int), Error> {
    match byte_at(bs, pos) {
        Err(err) => Err(err),
        Ok((b, p1)) => if b == 0x70 || b == 0x6F {
            match limits_at(bs, p1) {
                Err(err) => Err(err),
                Ok((lim, p2)) => Ok(
                    (
                        TableType {
                            elem: if b == 0x70 {
                                RefType::FuncRef
                            } else {
                                RefType::ExternRef
                            },
                            lim,
                        },
                        p2,
                    ),
                ),
            }
        } else {
            Err(Error::InvalidRefType(b))
        },
    }
}

/// A memory type at `pos`: limits.
pub open spec fn mem_type_at(bs: Seq<u8>, pos: int) -> Result<(MemType, int), Error> {
    match limits_at(bs, pos) {
        Err(err) => Err(err),
        Ok((lim, p)) => Ok((MemType { lim }, p)),
    }
}

/// A global type at `pos`: a value type, then 0x00 (constant) or 0x01 (variable).
pub open spec fn global_type_at(bs: Seq<u8>, pos: int) -> Result<(GlobalType, int), Error> {
    match valtype_at(bs, pos) {
        Err(err) => Err(err),
        Ok((ty, p1)) => match byte_at(bs, p1) {
            Err(err) => Err(err),
            Ok((m, p2)) => if m == 0x00 {
                Ok((GlobalType { ty, is_mut: false }, p2))
            } else if m == 0x01 {
                Ok((GlobalType { ty, is_mut: true }, p2))
            } else {
                Err(Error::InvalidMut(m))
            },
        },
    }
}

/// Where the single instruction of a constant expression at `pos` ends.
pub open spec fn const_instr_at(bs: Seq<u8>, pos: int) -> Result<int, Error> {
    match byte_at(bs, pos) {
        Err(err) => Err(err),
        Ok((op, p1)) => if op == 0x41 {
            match var_i32(bs, p1) {
                Err(err) => Err(err),
                Ok((_, p2)) => Ok(p2),
            }
        } else if op == 0x42 {
            match var_i64(bs, p1) {
                Err(err) => Err(err),
                Ok((_, p2)) => Ok(p2),
            }
        } else if op == 0x43 || op == 0x44 {
            let n = if op == 0x43 {
                4int
            } else {
                8int
            };
            if p1 + n <= bs.len() {
                Ok(p1 + n)
            } else {
                Err(Error::Eof)
            }
        } else if op == 0x23 {
            match var_u32(bs, p1) {
                Err(err) => Err(err),
                Ok((_, p2)) => Ok(p2),
            }
        } else {
            Err(Error::InvalidConstExpr)
        },
    }
}

/// Where a constant expression at `pos` ends: one constant or `global.get`
/// instruction, then `end`.
pub open spec fn const_expr_at(bs: Seq<u8>, pos: int) -> Result<int, Error> {
    match const_instr_at(bs, pos) {
        Err(err) => Err(err),
        Ok(p) => match byte_at(bs, p) {
            Err(err) => Err(err),
            Ok((end, q)) => if end == 0x0B {
                Ok(q)
            } else {
                Err(Error::InvalidConstExpr)
            },
        },
    }
}

/// An import at `pos`: module name, item name, kind byte and descriptor.
pub open spec fn import_at(bs: Seq<u8>, pos: int) -> Result<(Import, int), Error> {
    match name_at(bs, pos) {
        Err(err) => Err(err),
        Ok((module_name, p1)) => match name_at(bs, p1) {
            Err(err) => Err(err),
            Ok((name, p2)) => match byte_at(bs, p2) {
                Err(err) => Err(err),
                Ok((kind, p3)) => {
                    let desc: Result<(ImportDesc, int), Error> = if kind == 0x00 {
                        match var_u32(bs, p3) {
                            Err(err) => Err(err),
                            Ok((idx, p)) => Ok((ImportDesc::Func(idx), p)),
                        }
                    } else if kind == 0x01 {
                        match table_type_at(bs, p3) {
                            Err(err) => Err(err),
                            Ok((t, p)) => Ok((ImportDesc::Table(t), p)),
                        }
                    } else if kind == 0x02 {
                        match mem_type_at(bs, p3) {
                            Err(err) => Err(err),
                            Ok((m, p)) => Ok((ImportDesc::Mem(m), p)),
                        }
                    } else if kind == 0x03 {
                        match global_type_at(bs, p3) {
                            Err(err) => Err(err),
                            Ok((g, p)) => Ok((ImportDesc::Global(g), p)),
                        }
                    } else {
                        Err(Error::InvalidImportDesc(kind))
                    };
                    match desc {
                        Err(err) => Err(err),
                        Ok((desc, p)) => Ok((Import { module_name, name, desc }, p)),
                    }
                },
            },
        },
    }
}

/// An export at `pos`: name, kind byte and index.
pub open spec fn export_at(bs: Seq<u8>, pos: int) -> Result<(Export, int), Error> {
    match name_at(bs, pos) {
        Err(err) => Err(err),
        Ok((name, p1)) => match byte_at(bs, p1) {
            Err(err) => Err(err),
            Ok((kind, p2)) => match var_u32(bs, p2) {
                Err(err) => Err(err),
                Ok((idx, p3)) => if kind == 0x00 {
                    Ok((Export { name, desc: ExportDesc::Func(idx) }, p3))
                } else if kind == 0x01 {
                    Ok((Export { name, desc: ExportDesc::Table(idx) }, p3))
                } else if kind == 0x02 {
                    Ok((Export { name, desc: ExportDesc::Mem(idx) }, p3))
                } else if kind == 0x03 {
                    Ok((Export { name, desc: ExportDesc::Global(idx) }, p3))
                } else {
                    Err(Error::InvalidExportDesc(kind))
                },
            },
        },
    }
}

/// A global at `pos`: its type, then its initialiser.
pub open spec fn global_at(bs: Seq<u8>, pos: int) -> Result<(GlobalType, int), Error> {
    match global_type_at(bs, pos) {
        Err(err) => Err(err),
        Ok((g, p1)) => match const_expr_at(bs, p1) {
            Err(err) => Err(err),
            Ok(p2) => Ok((g, p2)),
        },
    }
}

/// A reader step that keeps the buffer and moves forward.
pub open spec fn advances(old_r: WasmReader, new_r: WasmReader) -> bool {
    &&& new_r.data() == old_r.data()
    &&& new_r.wf()
    &&& new_r.spec_pos() >= old_r.spec_pos()
}

impl<'a> WasmReader<'a> {
    /// Reads a value-type vector.
    pub fn read_valtype_vec(&mut self) -> (r: Result<Vec<ValType>, Error>)
        requires
            old(self).wf(),
        ensures
            advances(*old(self), *final(self)),
            match r {
                Ok(v) => valtype_vec_at(old(self).data(), old(self).spec_pos()) == Ok::<
                    (Seq<ValType>, int),
                    Error,
                >((v@, final(self).spec_pos())),
                Err(err) => valtype_vec_at(old(self).data(), old(self).spec_pos()) == Err::<
                    (Seq<ValType>, int),
                    Error,
                >(err),
            },
    {
        let ghost bs = self.data();
        let ghost p0 = self.spec_pos();
        let n = self.read_var_u32()?;
        let ghost p1 = self.spec_pos();
        let mut v: Vec<ValType> = Vec::new();
        let mut i: u32 = 0;
        while i < n
            invariant
                advances(*old(self), *self),
                bs == old(self).data(),
                p0 == old(self).spec_pos(),
                var_u32(bs, p0) == Ok::<(u32, int), Error>((n, p1)),
                i <= n,
                valtypes_run(bs, p1, n as nat) == prepend(
                    v@,
                    valtypes_run(bs, self.spec_pos(), (n - i) as nat),
                ),
            decreases n - i,
        {
            let ghost q = self.spec_pos();
            let t = self.read_valtype()?;
            proof {
                assert(valtypes_run(bs, q, (n - i) as nat) == prepend(
                    seq![t],
                    valtypes_run(bs, self.spec_pos(), (n - i - 1) as nat),
                ));
                lemma_prepend_assoc(v@, seq![t], valtypes_run(bs, self.spec_pos(), (n - i - 1) as nat));
            }
            let ghost v0 = v@;
            v.push(t);
            assert(v@ =~= v0 + seq![t]);
            i = i + 1;
        }
        assert(v@ + Seq::<ValType>::empty() =~= v@);
        Ok(v)
    }

    /// Reads a function type: the tag 0x60, the parameter types, the result types.
    pub fn read_func_type(&mut self) -> (r: Result<FuncType, Error>)
        requires
            old(self).wf(),
        ensures
            advances(*old(self), *final(self)),
            match r {
                Ok(ft) => functype_at(old(self).data(), old(self).spec_pos()) == Ok::<
                    ((Seq<ValType>, Seq<ValType>), int),
                    Error,
                >(((ft.params@, ft.results@), final(self).spec_pos())),
                Err(err) => functype_at(old(self).data(), old(self).spec_pos()) == Err::<
                    ((Seq<ValType>, Seq<ValType>), int),
                    Error,
                >(err),
            },
    {
        let tag = self.read_u8()?;
        if tag != 0x60 {
            return Err(Error::InvalidFuncTypeTag(tag));
        }
        let params = self.read_valtype_vec()?;
        let results = self.read_valtype_vec()?;
        Ok(FuncType { params, results })
    }

    /// Reads a name and returns its span, without copying it.
    pub fn read_name(&mut self) -> (r: Result<Span, Error>)
        requires
            old(self).wf(),
        ensures
            advances(*old(self), *final(self)),
            at(r, final(self).spec_pos()) == name_at(old(self).data(), old(self).spec_pos()),
            r matches Ok(s) ==> s.from + s.len <= final(self).data().len(),
    {
        let len = self.read_var_u32()?;
        let from = self.pos();
        self.skip(len as usize)?;
        Ok(Span { from, len: len as usize })
    }

    pub fn read_limits(&mut self) -> (r: Result<Limits, Error>)
        requires
            old(self).wf(),
        ensures
            advances(*old(self), *final(self)),
            at(r, final(self).spec_pos()) == limits_at(old(self).data(), old(self).spec_pos()),
    {
        let flag = self.read_u8()?;
        match flag {
            0x00 => {
                let min = self.read_var_u32()?;
                Ok(Limits { min, max: None })
            },
            0x01 => {
                let min = self.read_var_u32()?;
                let max = self.read_var_u32()?;
                Ok(Limits { min, max: Some(max) })
            },
            _ => Err(Error::InvalidLimitsType(flag)),
        }
    }

    pub fn read_table_type(&mut self) -> (r: Result<TableType, Error>)
        requires
            old(self).wf(),
        ensures
            advances(*old(self), *final(self)),
            at(r, final(self).spec_pos()) == table_type_at(old(self).data(), old(self).spec_pos()),
    {
        let b = self.read_u8()?;
        let elem = match b {
            0x70 => RefType::FuncRef,
            0x6F => RefType::ExternRef,
            _ => {
                return Err(Error::InvalidRefType(b));
            },
        };
        let lim = self.read_limits()?;
        Ok(TableType { elem, lim })
    }

    pub fn read_mem_type(&mut self) -> (r: Result<MemType, Error>)
        requires
            old(self).wf(),
        ensures
            advances(*old(self), *final(self)),
            at(r, final(self).spec_pos()) == mem_type_at(old(self).data(), old(self).spec_pos()),
    {
        let lim = self.read_limits()?;
        Ok(MemType { lim })
    }

    pub fn read_global_type(&mut self) -> (r: Result<GlobalType, Error>)
        requires
            old(self).wf(),
        ensures
            advances(*old(self), *final(self)),
            at(r, final(self).spec_pos()) == global_type_at(old(self).data(), old(self).spec_pos()),
    {
        let ty = self.read_valtype()?;
        let m = self.read_u8()?;
        match m {
            0x00 => Ok(GlobalType { ty, is_mut: false }),
            0x01 => Ok(GlobalType { ty, is_mut: true }),
            _ => Err(Error::InvalidMut(m)),
        }
    }

    /// Reads a constant expression: one constant or `global.get` instruction,
    /// then `end`.
    pub fn read_const_expr(&mut self) -> (r: Result<(), Error>)
        requires
            old(self).wf(),
        ensures
            advances(*old(self), *final(self)),
            match r {
                Ok(_) => const_expr_at(old(self).data(), old(self).spec_pos()) == Ok::<int, Error>(
                    final(self).spec_pos(),
                ),
                Err(err) => const_expr_at(old(self).data(), old(self).spec_pos()) == Err::<int, Error>(
                    err,
                ),
            },
    {
        let op = self.read_u8()?;
        match op {
            0x41 => {
                self.read_var_i32()?;
            },
            0x42 => {
                self.read_var_i64()?;
            },
            0x43 => {
                self.skip(4)?;
            },
            0x44 => {
                self.skip(8)?;
            },
            0x23 => {
                self.read_var_u32()?;
            },
            _ => {
                return Err(Error::InvalidConstExpr);
            },
        }
        let end = self.read_u8()?;
        if end != 0x0B {
            return Err(Error::InvalidConstExpr);
        }
        Ok(())
    }

    /// Reads a global: its type and its initialiser (the type is kept).
    pub fn read_global(&mut self) -> (r: Result<GlobalType, Error>)
        requires
            old(self).wf(),
        ensures
            advances(*old(self), *final(self)),
            at(r, final(self).spec_pos()) == global_at(old(self).data(), old(self).spec_pos()),
    {
        let ty = self.read_global_type()?;
        self.read_const_expr()?;
        Ok(ty)
    }

    pub fn read_import(&mut self) -> (r: Result<Import, Error>)
        requires
            old(self).wf(),
        ensures
            advances(*old(self), *final(self)),
            at(r, final(self).spec_pos()) == import_at(old(self).data(), old(self).spec_pos()),
    {
        let module_name = self.read_name()?;
        let name = self.read_name()?;
        let kind = self.read_u8()?;
        let desc = match kind {
            0x00 => ImportDesc::Func(self.read_var_u32()?),
            0x01 => ImportDesc::Table(self.read_table_type()?),
            0x02 => ImportDesc::Mem(self.read_mem_type()?),
            0x03 => ImportDesc::Global(self.read_global_type()?),
            _ => {
                return Err(Error::InvalidImportDesc(kind));
            },
        };
        Ok(Import { module_name, name, desc })
    }

    pub fn read_export(&mut self) -> (r: Result<Export, Error>)
        requires
            old(self).wf(),
        ensures
            advances(*old(self), *final(self)),
            at(r, final(self).spec_pos()) == export_at(old(self).data(), old(self).spec_pos()),
    {
        let name = self.read_name()?;
        let kind = self.read_u8()?;
        let idx = self.read_var_u32()?;
        let desc = match kind {
            0x00 => ExportDesc::Func(idx),
            0x01 => ExportDesc::Table(idx),
            0x02 => ExportDesc::Mem(idx),
            0x03 => ExportDesc::Global(idx),
            _ => {
                return Err(Error::InvalidExportDesc(kind));
            },
        };
        Ok(Export { name, desc })
    }
}

} // verus!

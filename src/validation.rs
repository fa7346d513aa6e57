//! Module validation: the header, the sections in their canonical order, and
//! the code of every function.
use vstd::prelude::*;

use crate::error::Error;
use crate::reader::{byte_at, lemma_prepend_assoc, lemma_uleb_bounds, prepend, var_u32, WasmReader};
use crate::types::{
    advances, export_at, functype_at, global_at, import_at, mem_type_at, sig, table_type_at, Export,
    FuncType, GlobalType, Import, MemType, SectionTy, Span, TableType, ValType,
};
use crate::validation::code::{
    body_ok, body_typechecks, code_section_end, code_spans_at, validate_code_section,
};

pub mod code;
pub mod validation_stack;

verus! {

/// The section kind that a section id names (ids above 12 name none).
pub open spec fn section_ty_of(id: u8) -> SectionTy {
    if id == 0 {
        SectionTy::Custom
    } else if id == 1 {
        SectionTy::Type
    } else if id == 2 {
        SectionTy::Import
    } else if id == 3 {
        SectionTy::Function
    } else if id == 4 {
        SectionTy::Table
    } else if id == 5 {
        SectionTy::Memory
    } else if id == 6 {
        SectionTy::Global
    } else if id == 7 {
        SectionTy::Export
    } else if id == 8 {
        SectionTy::Start
    } else if id == 9 {
        SectionTy::Element
    } else if id == 10 {
        SectionTy::Code
    } else if id == 11 {
        SectionTy::Data
    } else {
        SectionTy::DataCount
    }
}

/// Position of a section kind in the canonical order of a module.
pub open spec fn rank(ty: SectionTy) -> int {
    match ty {
        SectionTy::Custom => 0,
        SectionTy::Type => 1,
        SectionTy::Import => 2,
        SectionTy::Function => 3,
        SectionTy::Table => 4,
        SectionTy::Memory => 5,
        SectionTy::Global => 6,
        SectionTy::Export => 7,
        SectionTy::Start => 8,
        SectionTy::Element => 9,
        SectionTy::DataCount => 10,
        SectionTy::Code => 11,
        SectionTy::Data => 12,
    }
}

/// The section header at `pos`: its kind, where its contents start, and
/// their length, which must fit in the buffer.
pub open spec fn header_at(bs: Seq<u8>, pos: int) -> Result<(SectionTy, int, int), Error> {
    match byte_at(bs, pos) {
        Err(err) => Err(err),
        Ok((id, p1)) => if id > 12 {
            Err(Error::InvalidSectionType(id))
        } else {
            match var_u32(bs, p1) {
                Err(err) => Err(err),
                Ok((size, q)) => if q + size > bs.len() {
                    Err(Error::Eof)
                } else {
                    Ok((section_ty_of(id), q, size as int))
                },
            }
        },
    }
}

/// The chain of sections from `pos` on, each starting where the previous one's
/// contents end, as far as the headers can be read.
pub open spec fn sections(bs: Seq<u8>, pos: int) -> Seq<(SectionTy, int, int)>
    decreases bs.len() - pos,
{
    if pos < 0 || pos >= bs.len() {
        Seq::empty()
    } else {
        match header_at(bs, pos) {
            Ok((t, q, size)) => if q + size > pos {
                seq![(t, q, size)] + sections(bs, q + size)
            } else {
                Seq::empty()
            },
            Err(_) => Seq::empty(),
        }
    }
}

/// The chain of sections from `pos` on reaches exactly the end of the buffer.
pub open spec fn chain_complete(bs: Seq<u8>, pos: int) -> bool
    decreases bs.len() - pos,
{
    if pos == bs.len() {
        true
    } else if pos < 0 || pos > bs.len() {
        false
    } else {
        match header_at(bs, pos) {
            Ok((t, q, size)) => q + size > pos && chain_complete(bs, q + size),
            Err(_) => false,
        }
    }
}

/// The non-custom sections appear in strictly increasing canonical order.
pub open spec fn in_order(secs: Seq<(SectionTy, int, int)>) -> bool {
    forall|i: int, j: int|
        0 <= i < j < secs.len() && secs[i].0 != SectionTy::Custom && secs[j].0
            != SectionTy::Custom ==> rank(#[trigger] secs[i].0) < rank(#[trigger] secs[j].0)
}

/// The non-custom sections before index `k` have rank at most `r`.
pub open spec fn early_ok(c: Seq<(SectionTy, int, int)>, k: int, r: int) -> bool {
    forall|i: int|
        0 <= i < k && i < c.len() ==> (#[trigger] c[i]).0 == SectionTy::Custom || rank(c[i].0) <= r
}

/// The non-custom sections from index `k` on have rank above `r`.
pub open spec fn late_ok(c: Seq<(SectionTy, int, int)>, k: int, r: int) -> bool {
    forall|i: int| k <= i < c.len() ==> (#[trigger] c[i]).0 == SectionTy::Custom || rank(c[i].0) > r
}

/// The module has a section of kind `ty`.
pub open spec fn has_section(bs: Seq<u8>, ty: SectionTy) -> bool {
    exists|i: int| 0 <= i < sections(bs, 8).len() && (#[trigger] sections(bs, 8)[i]).0 == ty
}

/// The number of items that the section of kind `ty` declares (its leading
/// count), or 0 when the module has no such section.
pub open spec fn declared_count(bs: Seq<u8>, ty: SectionTy) -> int {
    let secs = sections(bs, 8);
    if exists|i: int| 0 <= i < secs.len() && (#[trigger] secs[i]).0 == ty {
        let i = choose|i: int| 0 <= i < secs.len() && (#[trigger] secs[i]).0 == ty;
        match var_u32(bs, secs[i].1) {
            Ok((n, _)) => n as int,
            Err(_) => -1,
        }
    } else {
        0
    }
}

/// The module header: magic, then version, byte for byte.
pub open spec fn header_bytes() -> Seq<u8> {
    seq![0x00u8, 0x61, 0x73, 0x6d, 0x01, 0x00, 0x00, 0x00]
}

/// A section header: the section's kind and the span of its contents.
#[derive(Debug, Clone, Copy, PartialEq, Eq, Structural)]
pub struct SectionHeader {
    pub ty: SectionTy,
    pub contents: Span,
}

/// Where the walk over the sections stands: the position of the next header,
/// the sections handled so far, and the rank of the last kind handled.
pub ghost struct WalkState {
    pub hp: int,
    pub consumed: Seq<(SectionTy, int, int)>,
    pub done: int,
}

/// The next header's place, given the header held (if any).
pub open spec fn header_held(bs: Seq<u8>, hp: int, header: Option<SectionHeader>) -> bool {
    match header {
        None => hp == bs.len(),
        Some(h) => header_at(bs, hp) == Ok::<(SectionTy, int, int), Error>(
            (h.ty, h.contents.from as int, h.contents.len as int),
        ),
    }
}

/// The walk's invariant, apart from where the reader stands.
#[verifier::opaque]
pub open spec fn walk_core(bs: Seq<u8>, header: Option<SectionHeader>, st: WalkState) -> bool {
    &&& 8 <= st.hp <= bs.len()
    &&& sections(bs, 8) == st.consumed + sections(bs, st.hp)
    &&& chain_complete(bs, 8) == chain_complete(bs, st.hp)
    &&& in_order(st.consumed)
    &&& forall|i: int|
        0 <= i < st.consumed.len() && (#[trigger] st.consumed[i]).0 != SectionTy::Custom
            ==> rank(st.consumed[i].0) <= st.done
    &&& header_held(bs, st.hp, header)
}

/// The walk's invariant: the reader stands at the held header's contents, or
/// at the end of the buffer.
pub open spec fn walk_inv(
    bs: Seq<u8>,
    wasm: WasmReader,
    header: Option<SectionHeader>,
    st: WalkState,
) -> bool {
    &&& wasm.data() == bs
    &&& wasm.wf()
    &&& walk_core(bs, header, st)
    &&& match header {
        None => wasm.spec_pos() == st.hp,
        Some(h) => wasm.spec_pos() == h.contents.from,
    }
}

proof fn lemma_raise_done(bs: Seq<u8>, header: Option<SectionHeader>, st: WalkState, done: int)
    requires
        walk_core(bs, header, st),
        done >= st.done,
    ensures
        walk_core(bs, header, WalkState { done, ..st }),
{
    reveal(walk_core);
}

proof fn lemma_walk_ranks(bs: Seq<u8>, header: Option<SectionHeader>, st: WalkState)
    requires
        walk_core(bs, header, st),
    ensures
        early_ok(st.consumed, st.consumed.len() as int, st.done),
{
    reveal(walk_core);
}

proof fn lemma_walk_finished(bs: Seq<u8>, st: WalkState)
    requires
        walk_core(bs, None, st),
    ensures
        chain_complete(bs, 8),
        in_order(sections(bs, 8)),
        sections(bs, 8) == st.consumed,
{
    reveal(walk_core);
    assert(st.consumed + sections(bs, bs.len() as int) =~= st.consumed);
}

proof fn lemma_walk_starts(bs: Seq<u8>, header: Option<SectionHeader>)
    requires
        8 <= bs.len(),
        header_held(bs, 8, header),
    ensures
        walk_core(bs, header, WalkState { hp: 8, consumed: Seq::empty(), done: 0 }),
{
    reveal(walk_core);
    assert(Seq::<(SectionTy, int, int)>::empty() + sections(bs, 8) =~= sections(bs, 8));
}

/// With the one section of kind `ty` at index `k`, the declared count is the
/// count at the start of its contents.
proof fn lemma_declared_count_present(bs: Seq<u8>, k: int, ty: SectionTy)
    requires
        ty != SectionTy::Custom,
        0 <= k < sections(bs, 8).len(),
        sections(bs, 8)[k].0 == ty,
        early_ok(sections(bs, 8), k, rank(ty) - 1),
        late_ok(sections(bs, 8), k + 1, rank(ty)),
    ensures
        declared_count(bs, ty) == match var_u32(bs, sections(bs, 8)[k].1) {
            Ok((n, _)) => n as int,
            Err(_) => -1,
        },
{
    let secs = sections(bs, 8);
    assert(secs[k].0 == ty);
    let i = choose|i: int| 0 <= i < secs.len() && (#[trigger] secs[i]).0 == ty;
    assert(i == k) by {
        if i < k {
            assert(secs[i].0 == SectionTy::Custom || rank(secs[i].0) <= rank(ty) - 1);
        } else if i > k {
            assert(secs[i].0 == SectionTy::Custom || rank(secs[i].0) > rank(ty));
        }
    }
}

/// With no section of kind `ty`, the declared count is 0.
proof fn lemma_declared_count_absent(bs: Seq<u8>, k: int, ty: SectionTy)
    requires
        ty != SectionTy::Custom,
        early_ok(sections(bs, 8), k, rank(ty) - 1),
        late_ok(sections(bs, 8), k, rank(ty)),
    ensures
        declared_count(bs, ty) == 0,
        !has_section(bs, ty),
{
    let secs = sections(bs, 8);
    assert forall|i: int| 0 <= i < secs.len() implies (#[trigger] secs[i]).0 != ty by {
        if i < k {
            assert(secs[i].0 == SectionTy::Custom || rank(secs[i].0) <= rank(ty) - 1);
        } else {
            assert(secs[i].0 == SectionTy::Custom || rank(secs[i].0) > rank(ty));
        }
    }
}

fn section_ty_from_id(id: u8) -> (r: SectionTy)
    requires
        id <= 12,
    ensures
        r == section_ty_of(id),
{
    match id {
        0 => SectionTy::Custom,
        1 => SectionTy::Type,
        2 => SectionTy::Import,
        3 => SectionTy::Function,
        4 => SectionTy::Table,
        5 => SectionTy::Memory,
        6 => SectionTy::Global,
        7 => SectionTy::Export,
        8 => SectionTy::Start,
        9 => SectionTy::Element,
        10 => SectionTy::Code,
        11 => SectionTy::Data,
        _ => SectionTy::DataCount,
    }
}

/// Reads a section header.
fn read_section_header(wasm: &mut WasmReader) -> (r: Result<SectionHeader, Error>)
    requires
        old(wasm).wf(),
    ensures
        final(wasm).data() == old(wasm).data(),
        final(wasm).wf(),
        match r {
            Ok(h) => header_at(old(wasm).data(), old(wasm).spec_pos()) == Ok::<
                (SectionTy, int, int),
                Error,
            >((h.ty, h.contents.from as int, h.contents.len as int)) && final(wasm).spec_pos()
                == h.contents.from,
            Err(err) => header_at(old(wasm).data(), old(wasm).spec_pos()) == Err::<
                (SectionTy, int, int),
                Error,
            >(err),
        },
{
    let id = wasm.read_u8()?;
    if id > 12 {
        return Err(Error::InvalidSectionType(id));
    }
    let size = wasm.read_var_u32()?;
    let from = wasm.pos();
    if size as usize > wasm.len() - from {
        return Err(Error::Eof);
    }
    Ok(SectionHeader { ty: section_ty_from_id(id), contents: Span { from, len: size as usize } })
}

/// Peeks the next section header, unless one is held or the buffer has ended.
fn read_next_header(wasm: &mut WasmReader, header: &mut Option<SectionHeader>) -> (r: Result<
    (),
    Error,
>)
    requires
        old(wasm).wf(),
    ensures
        final(wasm).data() == old(wasm).data(),
        final(wasm).wf(),
        *old(header) is Some ==> *final(header) == *old(header) && *final(wasm) == *old(wasm)
            && r is Ok,
        *old(header) is None && old(wasm).spec_pos() == old(wasm).data().len() ==> *final(header)
            is None && *final(wasm) == *old(wasm) && r is Ok,
        *old(header) is None && old(wasm).spec_pos() < old(wasm).data().len() ==> match r {
            Ok(_) => header_held(old(wasm).data(), old(wasm).spec_pos(), *final(header))
                && (*final(header) matches Some(h) && final(wasm).spec_pos() == h.contents.from),
            Err(err) => header_at(old(wasm).data(), old(wasm).spec_pos()) == Err::<
                (SectionTy, int, int),
                Error,
            >(err),
        },
{
    if header.is_none() && wasm.remaining_len() > 0 {
        let h = read_section_header(wasm)?;
        *header = Some(h);
    }
    Ok(())
}

proof fn lemma_header_advances(bs: Seq<u8>, p: int)
    requires
        header_at(bs, p) is Ok,
    ensures
        (header_at(bs, p) matches Ok((t, q, size)) && p < q <= q + size <= bs.len() && 0 <= p
            && 0 <= size),
{
    lemma_uleb_bounds(bs, p + 1, 5);
}

/// Ends the section whose header is held: its contents must end where the
/// reader stands; then the next header is peeked.
fn end_section(
    wasm: &mut WasmReader,
    header: &mut Option<SectionHeader>,
    st: Ghost<WalkState>,
) -> (r: Result<Ghost<WalkState>, Error>)
    requires
        old(wasm).wf(),
        walk_core(old(wasm).data(), *old(header), st@),
        (*old(header) matches Some(h) && (h.ty == SectionTy::Custom || rank(h.ty) > st@.done)),
    ensures
        match r {
            Ok(st2) => walk_inv(old(wasm).data(), *final(wasm), *final(header), st2@) && st2@.hp
                > st@.hp && st2@.done == (if old(header)->0.ty == SectionTy::Custom {
                st@.done
            } else {
                rank(old(header)->0.ty)
            }) && st2@.consumed == st@.consumed.push(
                (
                    old(header)->0.ty,
                    old(header)->0.contents.from as int,
                    old(header)->0.contents.len as int,
                ),
            ),
            Err(_) => !(chain_complete(old(wasm).data(), 8) && old(wasm).spec_pos()
                == old(header)->0.contents.from + old(header)->0.contents.len),
        },
{
    let ghost bs = wasm.data();
    proof {
        reveal(walk_core);
    }
    let h = match *header {
        Some(h) => h,
        None => {
            return Err(Error::Eof);
        },
    };
    proof {
        lemma_header_advances(bs, st@.hp);
    }
    let total = wasm.len();
    if h.contents.len > total - h.contents.from {
        return Err(Error::Eof);
    }
    let end = h.contents.from + h.contents.len;
    if wasm.pos() != end {
        return Err(Error::SectionSizeMismatch(h.ty));
    }
    *header = None;
    let ghost entry = (h.ty, h.contents.from as int, h.contents.len as int);
    proof {
        assert(sections(bs, st@.hp) == seq![entry] + sections(bs, end as int));
        assert(st@.consumed + sections(bs, st@.hp) =~= st@.consumed.push(entry) + sections(
            bs,
            end as int,
        ));
    }
    proof {
        if chain_complete(bs, 8) {
            assert(chain_complete(bs, st@.hp));
            assert(chain_complete(bs, end as int));
            if end < bs.len() {
                assert(header_at(bs, end as int) is Ok);
            }
        }
    }
    read_next_header(wasm, header)?;
    let ghost done = if h.ty == SectionTy::Custom {
        st@.done
    } else {
        rank(h.ty)
    };
    let ghost st2 = WalkState { hp: end as int, consumed: st@.consumed.push(entry), done };
    proof {
        assert forall|i: int, j: int|
            0 <= i < j < st2.consumed.len() && st2.consumed[i].0 != SectionTy::Custom
                && st2.consumed[j].0 != SectionTy::Custom implies rank(
            #[trigger] st2.consumed[i].0,
        ) < rank(#[trigger] st2.consumed[j].0) by {
            if j < st@.consumed.len() {
                assert(st@.consumed[i] == st2.consumed[i]);
                assert(st@.consumed[j] == st2.consumed[j]);
            } else {
                assert(st@.consumed[i] == st2.consumed[i]);
            }
        }
        assert forall|i: int|
            0 <= i < st2.consumed.len() && (#[trigger] st2.consumed[i]).0 != SectionTy::Custom
                implies rank(st2.consumed[i].0) <= st2.done by {
            if i < st@.consumed.len() {
                assert(st@.consumed[i] == st2.consumed[i]);
            }
        }
    }
    proof {
        reveal(walk_core);
    }
    Ok(Ghost(st2))
}

/// Skips every custom section at the read position.
fn skip_custom_sections(
    wasm: &mut WasmReader,
    header: &mut Option<SectionHeader>,
    st: Ghost<WalkState>,
) -> (r: Result<Ghost<WalkState>, Error>)
    requires
        walk_inv(old(wasm).data(), *old(wasm), *old(header), st@),
    ensures
        match r {
            Ok(st2) => walk_inv(old(wasm).data(), *final(wasm), *final(header), st2@) && st2@.done
                == st@.done && !(*final(header) matches Some(h) && h.ty == SectionTy::Custom)
                && (*old(header) is None ==> *final(header) is None)
                && st2@.consumed.len() >= st@.consumed.len() && (forall|i: int|
                0 <= i < st@.consumed.len() ==> #[trigger] st2@.consumed[i] == st@.consumed[i])
                && (forall|i: int|
                st@.consumed.len() <= i < st2@.consumed.len() ==> (#[trigger] st2@.consumed[i]).0
                    == SectionTy::Custom),
            Err(_) => *old(header) is Some && !chain_complete(old(wasm).data(), 8),
        },
{
    if header.is_none() {
        return Ok(st);
    }
    let ghost bs = wasm.data();
    let ghost done0 = st@.done;
    let mut cur = st;
    loop
        invariant
            walk_inv(bs, *wasm, *header, cur@),
            bs == old(wasm).data(),
            cur@.done == done0,
            done0 == st@.done,
            *old(header) is Some,
            cur@.consumed.len() >= st@.consumed.len(),
            forall|i: int| 0 <= i < st@.consumed.len() ==> #[trigger] cur@.consumed[i] == st@.consumed[i],
            forall|i: int|
                st@.consumed.len() <= i < cur@.consumed.len() ==> (#[trigger] cur@.consumed[i]).0
                    == SectionTy::Custom,
        decreases bs.len() - cur@.hp,
    {
        let h = match *header {
            Some(h) => h,
            None => {
                return Ok(cur);
            },
        };
        if h.ty != SectionTy::Custom {
            return Ok(cur);
        }
        proof {
            reveal(walk_core);
            lemma_header_advances(bs, cur@.hp);
        }
        wasm.skip(h.contents.len)?;
        cur = end_section(wasm, header, cur)?;
    }
}

/// Whether the held header is of kind `ty`.
fn holds_section(header: &Option<SectionHeader>, ty: SectionTy) -> (r: bool)
    ensures
        r <==> (*header matches Some(h) && h.ty == ty),
{
    match header {
        Some(h) => h.ty == ty,
        None => false,
    }
}

/// What validation learned of a module, to instantiate it from.
pub struct ValidationInfo<'bytecode> {
    pub(crate) wasm: &'bytecode [u8],
    pub(crate) types: Vec<FuncType>,
    pub(crate) imports: Vec<Import>,
    pub(crate) functions: Vec<usize>,
    pub(crate) tables: Vec<TableType>,
    pub(crate) memories: Vec<MemType>,
    pub(crate) globals: Vec<GlobalType>,
    pub(crate) exports: Vec<Export>,
    pub(crate) func_blocks: Vec<Span>,
    /// The start function which is automatically executed during instantiation
    pub(crate) start: Option<usize>,
}

impl<'bytecode> ValidationInfo<'bytecode> {
    /// The module buffer.
    pub closed spec fn spec_wasm(&self) -> Seq<u8> {
        self.wasm@
    }

    /// Number of function types.
    pub closed spec fn spec_type_count(&self) -> nat {
        self.types@.len()
    }

    /// The function types.
    pub closed spec fn spec_types(&self) -> Seq<FuncType> {
        self.types@
    }

    /// The type index of each declared function.
    pub closed spec fn spec_functions(&self) -> Seq<usize> {
        self.functions@
    }

    /// The span of each function body.
    pub closed spec fn spec_func_blocks(&self) -> Seq<Span> {
        self.func_blocks@
    }

    pub closed spec fn spec_imports(&self) -> Seq<Import> {
        self.imports@
    }

    pub closed spec fn spec_tables(&self) -> Seq<TableType> {
        self.tables@
    }

    pub closed spec fn spec_memories(&self) -> Seq<MemType> {
        self.memories@
    }

    pub closed spec fn spec_globals(&self) -> Seq<GlobalType> {
        self.globals@
    }

    pub closed spec fn spec_exports(&self) -> Seq<Export> {
        self.exports@
    }

    /// The start function index, if any.
    pub closed spec fn spec_start(&self) -> Option<int> {
        match self.start {
            Some(i) => Some(i as int),
            None => None,
        }
    }

    pub(crate) fn wasm(&self) -> (r: &'bytecode [u8])
        ensures
            r@ == self.spec_wasm(),
    {
        self.wasm
    }

    pub(crate) fn types(&self) -> (r: &Vec<FuncType>)
        ensures
            r@ == self.spec_types(),
            r@.len() == self.spec_type_count(),
    {
        &self.types
    }

    pub(crate) fn functions(&self) -> (r: &Vec<usize>)
        ensures
            r@ == self.spec_functions(),
    {
        &self.functions
    }

    pub(crate) fn func_blocks(&self) -> (r: &Vec<Span>)
        ensures
            r@ == self.spec_func_blocks(),
    {
        &self.func_blocks
    }

    /// What every successfully validated module satisfies: one body per
    /// declared function, type indices in range, and each body's locals header
    /// decodable inside its span and its instructions well-typed against the
    /// function's type.
    pub open spec fn wf(&self) -> bool {
        &&& self.spec_functions().len() == self.spec_func_blocks().len()
        &&& forall|i: int|
            0 <= i < self.spec_functions().len() ==> #[trigger] self.spec_functions()[i]
                < self.spec_type_count()
        &&& forall|i: int|
            0 <= i < self.spec_func_blocks().len() ==> body_ok(
                self.spec_wasm(),
                #[trigger] self.spec_func_blocks()[i],
            ) && body_typechecks(
                self.spec_wasm(),
                self.spec_func_blocks()[i],
                self.spec_types()[self.spec_functions()[i] as int],
            )
    }
}

/// `k` function types at `pos`, each as its parameter and result types.
pub open spec fn functypes_run(bs: Seq<u8>, pos: int, k: nat) -> Result<
    (Seq<(Seq<ValType>, Seq<ValType>)>, int),
    Error,
>
    decreases k,
{
    if k == 0 {
        Ok((Seq::empty(), pos))
    } else {
        match functype_at(bs, pos) {
            Err(err) => Err(err),
            Ok((ft, p)) => prepend(seq![ft], functypes_run(bs, p, (k - 1) as nat)),
        }
    }
}

/// The contents of a type section at `pos`: a counted vector of function types.
pub open spec fn functype_vec_at(bs: Seq<u8>, pos: int) -> Result<
    (Seq<(Seq<ValType>, Seq<ValType>)>, int),
    Error,
> {
    match var_u32(bs, pos) {
        Err(err) => Err(err),
        Ok((k, p)) => functypes_run(bs, p, k as nat),
    }
}

/// Reads a vector of function types.
fn read_types(wasm: &mut WasmReader) -> (r: Result<Vec<FuncType>, Error>)
    requires
        old(wasm).wf(),
    ensures
        advances(*old(wasm), *final(wasm)),
        match r {
            Ok(v) => functype_vec_at(old(wasm).data(), old(wasm).spec_pos()) == Ok::<
                (Seq<(Seq<ValType>, Seq<ValType>)>, int),
                Error,
            >((v@.map_values(|ft: FuncType| sig(ft)), final(wasm).spec_pos())),
            Err(err) => functype_vec_at(old(wasm).data(), old(wasm).spec_pos()) == Err::<
                (Seq<(Seq<ValType>, Seq<ValType>)>, int),
                Error,
            >(err),
        },
{
    let ghost bs = wasm.data();
    let ghost p0 = wasm.spec_pos();
    let n = wasm.read_var_u32()?;
    let ghost p1 = wasm.spec_pos();
    let mut v: Vec<FuncType> = Vec::new();
    let mut i: u32 = 0;
    while i < n
        invariant
            advances(*old(wasm), *wasm),
            bs == old(wasm).data(),
            p0 == old(wasm).spec_pos(),
            var_u32(bs, p0) == Ok::<(u32, int), Error>((n, p1)),
            i <= n,
            functypes_run(bs, p1, n as nat) == prepend(
                v@.map_values(|ft: FuncType| sig(ft)),
                functypes_run(bs, wasm.spec_pos(), (n - i) as nat),
            ),
        decreases n - i,
    {
        let ghost q = wasm.spec_pos();
        let x = wasm.read_func_type()?;
        proof {
            assert(functypes_run(bs, q, (n - i) as nat) == prepend(
                seq![sig(x)],
                functypes_run(bs, wasm.spec_pos(), (n - i - 1) as nat),
            ));
            lemma_prepend_assoc(
                v@.map_values(|ft: FuncType| sig(ft)),
                seq![sig(x)],
                functypes_run(bs, wasm.spec_pos(), (n - i - 1) as nat),
            );
        }
        let ghost v0 = v@;
        v.push(x);
        assert(v@.map_values(|ft: FuncType| sig(ft)) =~= v0.map_values(|ft: FuncType| sig(ft))
            + seq![sig(x)]);
        i = i + 1;
    }
    let ghost sigs = v@.map_values(|ft: FuncType| sig(ft));
    assert(sigs + Seq::<(Seq<ValType>, Seq<ValType>)>::empty() =~= sigs);
    Ok(v)
}

/// `k` imports at `pos`.
pub open spec fn imports_run(bs: Seq<u8>, pos: int, k: nat) -> Result<(Seq<Import>, int), Error>
    decreases k,
{
    if k == 0 {
        Ok((Seq::empty(), pos))
    } else {
        match import_at(bs, pos) {
            Err(err) => Err(err),
            Ok((x, p)) => prepend(seq![x], imports_run(bs, p, (k - 1) as nat)),
        }
    }
}

/// A counted vector of imports at `pos`.
pub open spec fn import_vec_at(bs: Seq<u8>, pos: int) -> Result<(Seq<Import>, int), Error> {
    match var_u32(bs, pos) {
        Err(err) => Err(err),
        Ok((k, p)) => imports_run(bs, p, k as nat),
    }
}

/// Reads a vector of imports.
fn read_imports(wasm: &mut WasmReader) -> (r: Result<Vec<Import>, Error>)
    requires
        old(wasm).wf(),
    ensures
        advances(*old(wasm), *final(wasm)),
        match r {
            Ok(v) => import_vec_at(old(wasm).data(), old(wasm).spec_pos()) == Ok::<(Seq<Import>, int), Error>(
                (v@, final(wasm).spec_pos()),
            ),
            Err(err) => import_vec_at(old(wasm).data(), old(wasm).spec_pos()) == Err::<
                (Seq<Import>, int),
                Error,
            >(err),
        },
{
    let ghost bs = wasm.data();
    let ghost p0 = wasm.spec_pos();
    let n = wasm.read_var_u32()?;
    let ghost p1 = wasm.spec_pos();
    let mut v: Vec<Import> = Vec::new();
    let mut i: u32 = 0;
    while i < n
        invariant
            advances(*old(wasm), *wasm),
            bs == old(wasm).data(),
            p0 == old(wasm).spec_pos(),
            var_u32(bs, p0) == Ok::<(u32, int), Error>((n, p1)),
            i <= n,
            imports_run(bs, p1, n as nat) == prepend(v@, imports_run(bs, wasm.spec_pos(), (n - i) as nat)),
        decreases n - i,
    {
        let ghost q = wasm.spec_pos();
        let x = wasm.read_import()?;
        proof {
            lemma_prepend_assoc(v@, seq![x], imports_run(bs, wasm.spec_pos(), (n - i - 1) as nat));
        }
        let ghost v0 = v@;
        v.push(x);
        assert(v@ =~= v0 + seq![x]);
        i = i + 1;
    }
    assert(v@ + Seq::<Import>::empty() =~= v@);
    Ok(v)
}

/// `k` table types at `pos`.
pub open spec fn tables_run(bs: Seq<u8>, pos: int, k: nat) -> Result<(Seq<TableType>, int), Error>
    decreases k,
{
    if k == 0 {
        Ok((Seq::empty(), pos))
    } else {
        match table_type_at(bs, pos) {
            Err(err) => Err(err),
            Ok((x, p)) => prepend(seq![x], tables_run(bs, p, (k - 1) as nat)),
        }
    }
}

/// A counted vector of table types at `pos`.
pub open spec fn table_vec_at(bs: Seq<u8>, pos: int) -> Result<(Seq<TableType>, int), Error> {
    match var_u32(bs, pos) {
        Err(err) => Err(err),
        Ok((k, p)) => tables_run(bs, p, k as nat),
    }
}

/// Reads a vector of table types.
fn read_tables(wasm: &mut WasmReader) -> (r: Result<Vec<TableType>, Error>)
    requires
        old(wasm).wf(),
    ensures
        advances(*old(wasm), *final(wasm)),
        match r {
            Ok(v) => table_vec_at(old(wasm).data(), old(wasm).spec_pos()) == Ok::<(Seq<TableType>, int), Error>(
                (v@, final(wasm).spec_pos()),
            ),
            Err(err) => table_vec_at(old(wasm).data(), old(wasm).spec_pos()) == Err::<
                (Seq<TableType>, int),
                Error,
            >(err),
        },
{
    let ghost bs = wasm.data();
    let ghost p0 = wasm.spec_pos();
    let n = wasm.read_var_u32()?;
    let ghost p1 = wasm.spec_pos();
    let mut v: Vec<TableType> = Vec::new();
    let mut i: u32 = 0;
    while i < n
        invariant
            advances(*old(wasm), *wasm),
            bs == old(wasm).data(),
            p0 == old(wasm).spec_pos(),
            var_u32(bs, p0) == Ok::<(u32, int), Error>((n, p1)),
            i <= n,
            tables_run(bs, p1, n as nat) == prepend(v@, tables_run(bs, wasm.spec_pos(), (n - i) as nat)),
        decreases n - i,
    {
        let ghost q = wasm.spec_pos();
        let x = wasm.read_table_type()?;
        proof {
            lemma_prepend_assoc(v@, seq![x], tables_run(bs, wasm.spec_pos(), (n - i - 1) as nat));
        }
        let ghost v0 = v@;
        v.push(x);
        assert(v@ =~= v0 + seq![x]);
        i = i + 1;
    }
    assert(v@ + Seq::<TableType>::empty() =~= v@);
    Ok(v)
}

/// `k` memory types at `pos`.
pub open spec fn memories_run(bs: Seq<u8>, pos: int, k: nat) -> Result<(Seq<MemType>, int), Error>
    decreases k,
{
    if k == 0 {
        Ok((Seq::empty(), pos))
    } else {
        match mem_type_at(bs, pos) {
            Err(err) => Err(err),
            Ok((x, p)) => prepend(seq![x], memories_run(bs, p, (k - 1) as nat)),
        }
    }
}

/// A counted vector of memory types at `pos`.
pub open spec fn memory_vec_at(bs: Seq<u8>, pos: int) -> Result<(Seq<MemType>, int), Error> {
    match var_u32(bs, pos) {
        Err(err) => Err(err),
        Ok((k, p)) => memories_run(bs, p, k as nat),
    }
}

/// Reads a vector of memory types.
fn read_memories(wasm: &mut WasmReader) -> (r: Result<Vec<MemType>, Error>)
    requires
        old(wasm).wf(),
    ensures
        advances(*old(wasm), *final(wasm)),
        match r {
            Ok(v) => memory_vec_at(old(wasm).data(), old(wasm).spec_pos()) == Ok::<(Seq<MemType>, int), Error>(
                (v@, final(wasm).spec_pos()),
            ),
            Err(err) => memory_vec_at(old(wasm).data(), old(wasm).spec_pos()) == Err::<
                (Seq<MemType>, int),
                Error,
            >(err),
        },
{
    let ghost bs = wasm.data();
    let ghost p0 = wasm.spec_pos();
    let n = wasm.read_var_u32()?;
    let ghost p1 = wasm.spec_pos();
    let mut v: Vec<MemType> = Vec::new();
    let mut i: u32 = 0;
    while i < n
        invariant
            advances(*old(wasm), *wasm),
            bs == old(wasm).data(),
            p0 == old(wasm).spec_pos(),
            var_u32(bs, p0) == Ok::<(u32, int), Error>((n, p1)),
            i <= n,
            memories_run(bs, p1, n as nat) == prepend(v@, memories_run(bs, wasm.spec_pos(), (n - i) as nat)),
        decreases n - i,
    {
        let ghost q = wasm.spec_pos();
        let x = wasm.read_mem_type()?;
        proof {
            lemma_prepend_assoc(v@, seq![x], memories_run(bs, wasm.spec_pos(), (n - i - 1) as nat));
        }
        let ghost v0 = v@;
        v.push(x);
        assert(v@ =~= v0 + seq![x]);
        i = i + 1;
    }
    assert(v@ + Seq::<MemType>::empty() =~= v@);
    Ok(v)
}

/// `k` globals at `pos`.
pub open spec fn globals_run(bs: Seq<u8>, pos: int, k: nat) -> Result<(Seq<GlobalType>, int), Error>
    decreases k,
{
    if k == 0 {
        Ok((Seq::empty(), pos))
    } else {
        match global_at(bs, pos) {
            Err(err) => Err(err),
            Ok((x, p)) => prepend(seq![x], globals_run(bs, p, (k - 1) as nat)),
        }
    }
}

/// A counted vector of globals at `pos`.
pub open spec fn global_vec_at(bs: Seq<u8>, pos: int) -> Result<(Seq<GlobalType>, int), Error> {
    match var_u32(bs, pos) {
        Err(err) => Err(err),
        Ok((k, p)) => globals_run(bs, p, k as nat),
    }
}

/// Reads a vector of globals.
fn read_globals(wasm: &mut WasmReader) -> (r: Result<Vec<GlobalType>, Error>)
    requires
        old(wasm).wf(),
    ensures
        advances(*old(wasm), *final(wasm)),
        match r {
            Ok(v) => global_vec_at(old(wasm).data(), old(wasm).spec_pos()) == Ok::<(Seq<GlobalType>, int), Error>(
                (v@, final(wasm).spec_pos()),
            ),
            Err(err) => global_vec_at(old(wasm).data(), old(wasm).spec_pos()) == Err::<
                (Seq<GlobalType>, int),
                Error,
            >(err),
        },
{
    let ghost bs = wasm.data();
    let ghost p0 = wasm.spec_pos();
    let n = wasm.read_var_u32()?;
    let ghost p1 = wasm.spec_pos();
    let mut v: Vec<GlobalType> = Vec::new();
    let mut i: u32 = 0;
    while i < n
        invariant
            advances(*old(wasm), *wasm),
            bs == old(wasm).data(),
            p0 == old(wasm).spec_pos(),
            var_u32(bs, p0) == Ok::<(u32, int), Error>((n, p1)),
            i <= n,
            globals_run(bs, p1, n as nat) == prepend(v@, globals_run(bs, wasm.spec_pos(), (n - i) as nat)),
        decreases n - i,
    {
        let ghost q = wasm.spec_pos();
        let x = wasm.read_global()?;
        proof {
            lemma_prepend_assoc(v@, seq![x], globals_run(bs, wasm.spec_pos(), (n - i - 1) as nat));
        }
        let ghost v0 = v@;
        v.push(x);
        assert(v@ =~= v0 + seq![x]);
        i = i + 1;
    }
    assert(v@ + Seq::<GlobalType>::empty() =~= v@);
    Ok(v)
}

/// `k` exports at `pos`.
pub open spec fn exports_run(bs: Seq<u8>, pos: int, k: nat) -> Result<(Seq<Export>, int), Error>
    decreases k,
{
    if k == 0 {
        Ok((Seq::empty(), pos))
    } else {
        match export_at(bs, pos) {
            Err(err) => Err(err),
            Ok((x, p)) => prepend(seq![x], exports_run(bs, p, (k - 1) as nat)),
        }
    }
}

/// A counted vector of exports at `pos`.
pub open spec fn export_vec_at(bs: Seq<u8>, pos: int) -> Result<(Seq<Export>, int), Error> {
    match var_u32(bs, pos) {
        Err(err) => Err(err),
        Ok((k, p)) => exports_run(bs, p, k as nat),
    }
}

/// Reads a vector of exports.
fn read_exports(wasm: &mut WasmReader) -> (r: Result<Vec<Export>, Error>)
    requires
        old(wasm).wf(),
    ensures
        advances(*old(wasm), *final(wasm)),
        match r {
            Ok(v) => export_vec_at(old(wasm).data(), old(wasm).spec_pos()) == Ok::<(Seq<Export>, int), Error>(
                (v@, final(wasm).spec_pos()),
            ),
            Err(err) => export_vec_at(old(wasm).data(), old(wasm).spec_pos()) == Err::<
                (Seq<Export>, int),
                Error,
            >(err),
        },
{
    let ghost bs = wasm.data();
    let ghost p0 = wasm.spec_pos();
    let n = wasm.read_var_u32()?;
    let ghost p1 = wasm.spec_pos();
    let mut v: Vec<Export> = Vec::new();
    let mut i: u32 = 0;
    while i < n
        invariant
            advances(*old(wasm), *wasm),
            bs == old(wasm).data(),
            p0 == old(wasm).spec_pos(),
            var_u32(bs, p0) == Ok::<(u32, int), Error>((n, p1)),
            i <= n,
            exports_run(bs, p1, n as nat) == prepend(v@, exports_run(bs, wasm.spec_pos(), (n - i) as nat)),
        decreases n - i,
    {
        let ghost q = wasm.spec_pos();
        let x = wasm.read_export()?;
        proof {
            lemma_prepend_assoc(v@, seq![x], exports_run(bs, wasm.spec_pos(), (n - i - 1) as nat));
        }
        let ghost v0 = v@;
        v.push(x);
        assert(v@ =~= v0 + seq![x]);
        i = i + 1;
    }
    assert(v@ + Seq::<Export>::empty() =~= v@);
    Ok(v)
}

/// `k` type indices at `pos`, each below `type_count`.
pub open spec fn type_indices_run(bs: Seq<u8>, pos: int, k: nat, type_count: int) -> Result<
    (Seq<int>, int),
    Error,
>
    decreases k,
{
    if k == 0 {
        Ok((Seq::empty(), pos))
    } else {
        match var_u32(bs, pos) {
            Err(err) => Err(err),
            Ok((idx, p)) => if idx >= type_count {
                Err(Error::InvalidTypeIdx)
            } else {
                prepend(seq![idx as int], type_indices_run(bs, p, (k - 1) as nat, type_count))
            },
        }
    }
}

/// The contents of a function section at `pos`: a counted vector of type
/// indices, each below `type_count`.
pub open spec fn function_section_at(bs: Seq<u8>, pos: int, type_count: int) -> Result<
    (Seq<int>, int),
    Error,
> {
    match var_u32(bs, pos) {
        Err(err) => Err(err),
        Ok((k, p)) => type_indices_run(bs, p, k as nat, type_count),
    }
}

/// Reads the function section: one type index per declared function, each
/// below `type_count`.
fn read_functions(wasm: &mut WasmReader, type_count: usize) -> (r: Result<Vec<usize>, Error>)
    requires
        old(wasm).wf(),
    ensures
        advances(*old(wasm), *final(wasm)),
        r matches Ok(v) ==> (forall|i: int| 0 <= i < v@.len() ==> #[trigger] v@[i] < type_count)
            && (var_u32(old(wasm).data(), old(wasm).spec_pos()) matches Ok((n, _)) && n
            == v@.len()),
        match r {
            Ok(v) => function_section_at(old(wasm).data(), old(wasm).spec_pos(), type_count as int)
                == Ok::<(Seq<int>, int), Error>(
                (v@.map_values(|x: usize| x as int), final(wasm).spec_pos()),
            ),
            Err(err) => function_section_at(
                old(wasm).data(),
                old(wasm).spec_pos(),
                type_count as int,
            ) == Err::<(Seq<int>, int), Error>(err),
        },
{
    let ghost bs = wasm.data();
    let ghost p0 = wasm.spec_pos();
    let n = wasm.read_var_u32()?;
    let ghost p1 = wasm.spec_pos();
    let mut v: Vec<usize> = Vec::new();
    let mut i: u32 = 0;
    while i < n
        invariant
            advances(*old(wasm), *wasm),
            p0 == old(wasm).spec_pos(),
            var_u32(old(wasm).data(), p0) matches Ok((m, _)) && m == n,
            i <= n,
            v@.len() == i,
            forall|j: int| 0 <= j < v@.len() ==> #[trigger] v@[j] < type_count,
            bs == old(wasm).data(),
            var_u32(bs, p0) == Ok::<(u32, int), Error>((n, p1)),
            type_indices_run(bs, p1, n as nat, type_count as int) == prepend(
                v@.map_values(|x: usize| x as int),
                type_indices_run(bs, wasm.spec_pos(), (n - i) as nat, type_count as int),
            ),
        decreases n - i,
    {
        let ghost q = wasm.spec_pos();
        let idx = wasm.read_var_u32()?;
        if idx as usize >= type_count {
            return Err(Error::InvalidTypeIdx);
        }
        proof {
            let rest = type_indices_run(bs, wasm.spec_pos(), (n - i - 1) as nat, type_count as int);
            assert(type_indices_run(bs, q, (n - i) as nat, type_count as int) == prepend(
                seq![idx as int],
                rest,
            ));
            lemma_prepend_assoc(v@.map_values(|x: usize| x as int), seq![idx as int], rest);
        }
        let ghost v0 = v@;
        v.push(idx as usize);
        assert(v@.map_values(|x: usize| x as int) =~= v0.map_values(|x: usize| x as int) + seq![
            idx as int,
        ]);
        i = i + 1;
    }
    let ghost ints = v@.map_values(|x: usize| x as int);
    assert(ints + Seq::<int>::empty() =~= ints);
    Ok(v)
}

/// The entries added to the handled sections since `old`: earlier entries
/// unchanged, new ones custom or of a kind ranked above `r`.
pub open spec fn extends_above(
    old: Seq<(SectionTy, int, int)>,
    new: Seq<(SectionTy, int, int)>,
    r: int,
) -> bool {
    &&& new.len() >= old.len()
    &&& forall|i: int| 0 <= i < old.len() ==> #[trigger] new[i] == old[i]
    &&& forall|i: int|
        old.len() <= i < new.len() ==> (#[trigger] new[i]).0 == SectionTy::Custom || rank(new[i].0)
            > r
}

/// What the walk records of the one section of kind `ty`, looked for at index
/// `k`: if present, its leading count is `count`; sections before `k` rank
/// below it and sections after rank above it.
pub open spec fn section_tracked(
    bs: Seq<u8>,
    c: Seq<(SectionTy, int, int)>,
    ty: SectionTy,
    k: int,
    taken: bool,
    count: int,
) -> bool {
    &&& early_ok(c, k, rank(ty) - 1)
    &&& taken ==> 0 <= k < c.len() && c[k].0 == ty && late_ok(c, k + 1, rank(ty)) && (var_u32(
        bs,
        c[k].1,
    ) matches Ok((n, _)) && n == count)
    &&& !taken ==> late_ok(c, k, rank(ty)) && count == 0
}

proof fn lemma_tracked_extends(
    bs: Seq<u8>,
    c: Seq<(SectionTy, int, int)>,
    c2: Seq<(SectionTy, int, int)>,
    ty: SectionTy,
    k: int,
    taken: bool,
    count: int,
)
    requires
        section_tracked(bs, c, ty, k, taken, count),
        0 <= k <= c.len(),
        extends_above(c, c2, rank(ty)),
    ensures
        section_tracked(bs, c2, ty, k, taken, count),
        taken ==> c2[k] == c[k],
{
    assert forall|i: int| 0 <= i < k && i < c2.len() implies (#[trigger] c2[i]).0
        == SectionTy::Custom || rank(c2[i].0) <= rank(ty) - 1 by {
        assert(c2[i] == c[i]);
    }
    if taken {
        assert(c2[k] == c[k]);
        assert forall|i: int| k + 1 <= i < c2.len() implies (#[trigger] c2[i]).0
            == SectionTy::Custom || rank(c2[i].0) > rank(ty) by {
            if i < c.len() {
                assert(c2[i] == c[i]);
            }
        }
    } else {
        assert forall|i: int| k <= i < c2.len() implies (#[trigger] c2[i]).0 == SectionTy::Custom
            || rank(c2[i].0) > rank(ty) by {
            if i < c.len() {
                assert(c2[i] == c[i]);
            }
        }
    }
}

proof fn lemma_extends_trans(
    a: Seq<(SectionTy, int, int)>,
    b: Seq<(SectionTy, int, int)>,
    c: Seq<(SectionTy, int, int)>,
    r: int,
    r2: int,
)
    requires
        extends_above(a, b, r),
        extends_above(b, c, r2),
        r2 >= r,
    ensures
        extends_above(a, c, r),
{
    assert forall|i: int| 0 <= i < a.len() implies #[trigger] c[i] == a[i] by {
        assert(b[i] == a[i]);
    }
    assert forall|i: int| a.len() <= i < c.len() implies (#[trigger] c[i]).0 == SectionTy::Custom
        || rank(c[i].0) > r by {
        if i < b.len() {
            assert(c[i] == b[i]);
        }
    }
}

proof fn lemma_extends_push(
    a: Seq<(SectionTy, int, int)>,
    e: (SectionTy, int, int),
    r: int,
)
    requires
        e.0 == SectionTy::Custom || rank(e.0) > r,
    ensures
        extends_above(a, a.push(e), r),
{
    assert forall|i: int| 0 <= i < a.len() implies #[trigger] a.push(e)[i] == a[i] by {}
}

proof fn lemma_extends_refl(a: Seq<(SectionTy, int, int)>, r: int)
    ensures
        extends_above(a, a, r),
{
}

/// What the walk records of the type section, looked for at index `k`: if
/// present, its function types are `sigs`; sections before `k` are custom and
/// sections after rank above it.
pub open spec fn types_tracked(
    bs: Seq<u8>,
    c: Seq<(SectionTy, int, int)>,
    k: int,
    taken: bool,
    sigs: Seq<(Seq<ValType>, Seq<ValType>)>,
) -> bool {
    &&& early_ok(c, k, rank(SectionTy::Type) - 1)
    &&& taken ==> 0 <= k < c.len() && c[k].0 == SectionTy::Type && late_ok(
        c,
        k + 1,
        rank(SectionTy::Type),
    ) && (functype_vec_at(bs, c[k].1) matches Ok((v, _)) && v == sigs)
    &&& !taken ==> late_ok(c, k, rank(SectionTy::Type)) && sigs.len() == 0
}

/// The type index of each function that the function section declares
/// (none without one).
pub open spec fn declared_functions(bs: Seq<u8>) -> Seq<int> {
    let secs = sections(bs, 8);
    if exists|i: int| 0 <= i < secs.len() && (#[trigger] secs[i]).0 == SectionTy::Function {
        let i = choose|i: int| 0 <= i < secs.len() && (#[trigger] secs[i]).0 == SectionTy::Function;
        match function_section_at(bs, secs[i].1, declared_types(bs).len() as int) {
            Ok((v, _)) => v,
            Err(_) => Seq::empty(),
        }
    } else {
        Seq::empty()
    }
}

/// The span of each function body of the code section (none without one).
pub open spec fn declared_bodies(bs: Seq<u8>) -> Seq<Span> {
    let secs = sections(bs, 8);
    if exists|i: int| 0 <= i < secs.len() && (#[trigger] secs[i]).0 == SectionTy::Code {
        let i = choose|i: int| 0 <= i < secs.len() && (#[trigger] secs[i]).0 == SectionTy::Code;
        match code_spans_at(bs, secs[i].1) {
            Ok((v, _)) => v,
            Err(_) => Seq::empty(),
        }
    } else {
        Seq::empty()
    }
}

proof fn lemma_declared_bodies(bs: Seq<u8>, k: int, taken: bool, v: Seq<Span>)
    requires
        section_tracked(bs, sections(bs, 8), SectionTy::Code, k, taken, v.len() as int),
        taken ==> (code_spans_at(bs, sections(bs, 8)[k].1) matches Ok((w, _)) && w == v),
    ensures
        declared_bodies(bs) == v,
{
    let secs = sections(bs, 8);
    let ty = SectionTy::Code;
    if taken {
        assert(secs[k].0 == ty);
        let i = choose|i: int| 0 <= i < secs.len() && (#[trigger] secs[i]).0 == ty;
        assert(i == k) by {
            if i < k {
                assert(secs[i].0 == SectionTy::Custom || rank(secs[i].0) <= rank(ty) - 1);
            } else if i > k {
                assert(secs[i].0 == SectionTy::Custom || rank(secs[i].0) > rank(ty));
            }
        }
    } else {
        assert forall|i: int| 0 <= i < secs.len() implies (#[trigger] secs[i]).0 != ty by {
            if i < k {
                assert(secs[i].0 == SectionTy::Custom || rank(secs[i].0) <= rank(ty) - 1);
            } else {
                assert(secs[i].0 == SectionTy::Custom || rank(secs[i].0) > rank(ty));
            }
        }
        assert(v =~= Seq::<Span>::empty());
    }
}

proof fn lemma_declared_functions(bs: Seq<u8>, k: int, taken: bool, v: Seq<int>)
    requires
        section_tracked(bs, sections(bs, 8), SectionTy::Function, k, taken, v.len() as int),
        taken ==> (function_section_at(bs, sections(bs, 8)[k].1, declared_types(bs).len() as int)
            matches Ok((w, _)) && w == v),
    ensures
        declared_functions(bs) == v,
{
    let secs = sections(bs, 8);
    let ty = SectionTy::Function;
    if taken {
        assert(secs[k].0 == ty);
        let i = choose|i: int| 0 <= i < secs.len() && (#[trigger] secs[i]).0 == ty;
        assert(i == k) by {
            if i < k {
                assert(secs[i].0 == SectionTy::Custom || rank(secs[i].0) <= rank(ty) - 1);
            } else if i > k {
                assert(secs[i].0 == SectionTy::Custom || rank(secs[i].0) > rank(ty));
            }
        }
    } else {
        assert forall|i: int| 0 <= i < secs.len() implies (#[trigger] secs[i]).0 != ty by {
            if i < k {
                assert(secs[i].0 == SectionTy::Custom || rank(secs[i].0) <= rank(ty) - 1);
            } else {
                assert(secs[i].0 == SectionTy::Custom || rank(secs[i].0) > rank(ty));
            }
        }
        assert(v =~= Seq::<int>::empty());
    }
}

/// The function types that the type section declares (none without one).
pub open spec fn declared_types(bs: Seq<u8>) -> Seq<(Seq<ValType>, Seq<ValType>)> {
    let secs = sections(bs, 8);
    if exists|i: int| 0 <= i < secs.len() && (#[trigger] secs[i]).0 == SectionTy::Type {
        let i = choose|i: int| 0 <= i < secs.len() && (#[trigger] secs[i]).0 == SectionTy::Type;
        match functype_vec_at(bs, secs[i].1) {
            Ok((v, _)) => v,
            Err(_) => Seq::empty(),
        }
    } else {
        Seq::empty()
    }
}

proof fn lemma_extends_weaken(
    a: Seq<(SectionTy, int, int)>,
    b: Seq<(SectionTy, int, int)>,
    r: int,
    r2: int,
)
    requires
        extends_above(a, b, r),
        r2 <= r,
    ensures
        extends_above(a, b, r2),
{
    assert forall|i: int| a.len() <= i < b.len() implies (#[trigger] b[i]).0 == SectionTy::Custom
        || rank(b[i].0) > r2 by {
        assert(b[i].0 == SectionTy::Custom || rank(b[i].0) > r);
    }
}

proof fn lemma_types_tracked_extends(
    bs: Seq<u8>,
    c: Seq<(SectionTy, int, int)>,
    c2: Seq<(SectionTy, int, int)>,
    k: int,
    taken: bool,
    sigs: Seq<(Seq<ValType>, Seq<ValType>)>,
)
    requires
        types_tracked(bs, c, k, taken, sigs),
        0 <= k <= c.len(),
        extends_above(c, c2, rank(SectionTy::Type)),
    ensures
        types_tracked(bs, c2, k, taken, sigs),
{
    assert forall|i: int| 0 <= i < k && i < c2.len() implies (#[trigger] c2[i]).0
        == SectionTy::Custom || rank(c2[i].0) <= rank(SectionTy::Type) - 1 by {
        assert(c2[i] == c[i]);
    }
    if taken {
        assert(c2[k] == c[k]);
        assert forall|i: int| k + 1 <= i < c2.len() implies (#[trigger] c2[i]).0
            == SectionTy::Custom || rank(c2[i].0) > rank(SectionTy::Type) by {
            if i < c.len() {
                assert(c2[i] == c[i]);
            }
        }
    } else {
        assert forall|i: int| k <= i < c2.len() implies (#[trigger] c2[i]).0 == SectionTy::Custom
            || rank(c2[i].0) > rank(SectionTy::Type) by {
            if i < c.len() {
                assert(c2[i] == c[i]);
            }
        }
    }
}

proof fn lemma_declared_types(bs: Seq<u8>, k: int, taken: bool, sigs: Seq<(Seq<ValType>, Seq<ValType>)>)
    requires
        types_tracked(bs, sections(bs, 8), k, taken, sigs),
    ensures
        declared_types(bs) == sigs,
{
    let secs = sections(bs, 8);
    let ty = SectionTy::Type;
    if taken {
        assert(secs[k].0 == ty);
        let i = choose|i: int| 0 <= i < secs.len() && (#[trigger] secs[i]).0 == ty;
        assert(i == k) by {
            if i < k {
                assert(secs[i].0 == SectionTy::Custom || rank(secs[i].0) <= rank(ty) - 1);
            } else if i > k {
                assert(secs[i].0 == SectionTy::Custom || rank(secs[i].0) > rank(ty));
            }
        }
    } else {
        assert forall|i: int| 0 <= i < secs.len() implies (#[trigger] secs[i]).0 != ty by {
            if i < k {
                assert(secs[i].0 == SectionTy::Custom || rank(secs[i].0) <= rank(ty) - 1);
            } else {
                assert(secs[i].0 == SectionTy::Custom || rank(secs[i].0) > rank(ty));
            }
        }
        assert(sigs =~= Seq::<(Seq<ValType>, Seq<ValType>)>::empty());
    }
}

/// A section that validation accepts in full: a custom section, or a section
/// of a supported kind whose contents decode to exactly their length (code
/// bodies type-checking against the declared functions' types). Element,
/// data-count and data sections are not supported.
pub open spec fn section_accepted(bs: Seq<u8>, e: (SectionTy, int, int)) -> bool {
    match e.0 {
        SectionTy::Custom => true,
        SectionTy::Type => functype_vec_at(bs, e.1) matches Ok((_, end)) && end == e.1 + e.2,
        SectionTy::Function => function_section_at(bs, e.1, declared_types(bs).len() as int) matches Ok(
            (_, end),
        ) && end == e.1 + e.2,
        SectionTy::Code => code_section_end(bs, e.1, declared_functions(bs), declared_types(bs))
            == Some(e.1 + e.2),
        SectionTy::Import => import_vec_at(bs, e.1) matches Ok((_, end)) && end == e.1 + e.2,
        SectionTy::Table => table_vec_at(bs, e.1) matches Ok((_, end)) && end == e.1 + e.2,
        SectionTy::Memory => memory_vec_at(bs, e.1) matches Ok((_, end)) && end == e.1 + e.2,
        SectionTy::Global => global_vec_at(bs, e.1) matches Ok((_, end)) && end == e.1 + e.2,
        SectionTy::Export => export_vec_at(bs, e.1) matches Ok((_, end)) && end == e.1 + e.2,
        SectionTy::Start => var_u32(bs, e.1) matches Ok((_, end)) && end == e.1 + e.2,
        _ => false,
    }
}

/// A well-formed module: the header, a complete chain of sections in
/// canonical order, every section accepted, and as many code bodies as
/// declared functions.
pub open spec fn module_ok(bs: Seq<u8>) -> bool {
    &&& bs.len() >= 8
    &&& bs.subrange(0, 8) == header_bytes()
    &&& chain_complete(bs, 8)
    &&& in_order(sections(bs, 8))
    &&& forall|i: int|
        0 <= i < sections(bs, 8).len() ==> section_accepted(bs, #[trigger] sections(bs, 8)[i])
    &&& declared_count(bs, SectionTy::Function) == declared_count(bs, SectionTy::Code)
}

/// Where the contents of the section of kind `ty` start, if the module has one.
pub open spec fn declared_section(bs: Seq<u8>, ty: SectionTy) -> Option<int> {
    let secs = sections(bs, 8);
    if exists|i: int| 0 <= i < secs.len() && (#[trigger] secs[i]).0 == ty {
        Some(secs[choose|i: int| 0 <= i < secs.len() && (#[trigger] secs[i]).0 == ty].1)
    } else {
        None
    }
}

/// The imports the module declares (none without an import section).
pub open spec fn declared_imports(bs: Seq<u8>) -> Seq<Import> {
    match declared_section(bs, SectionTy::Import) {
        Some(q) => match import_vec_at(bs, q) {
            Ok((v, _)) => v,
            Err(_) => Seq::empty(),
        },
        None => Seq::empty(),
    }
}

/// The table types the module declares (none without a table section).
pub open spec fn declared_tables(bs: Seq<u8>) -> Seq<TableType> {
    match declared_section(bs, SectionTy::Table) {
        Some(q) => match table_vec_at(bs, q) {
            Ok((v, _)) => v,
            Err(_) => Seq::empty(),
        },
        None => Seq::empty(),
    }
}

/// The memory types the module declares (none without a memory section).
pub open spec fn declared_memories(bs: Seq<u8>) -> Seq<MemType> {
    match declared_section(bs, SectionTy::Memory) {
        Some(q) => match memory_vec_at(bs, q) {
            Ok((v, _)) => v,
            Err(_) => Seq::empty(),
        },
        None => Seq::empty(),
    }
}

/// The global types the module declares (none without a global section).
pub open spec fn declared_globals(bs: Seq<u8>) -> Seq<GlobalType> {
    match declared_section(bs, SectionTy::Global) {
        Some(q) => match global_vec_at(bs, q) {
            Ok((v, _)) => v,
            Err(_) => Seq::empty(),
        },
        None => Seq::empty(),
    }
}

/// The exports the module declares (none without an export section).
pub open spec fn declared_exports(bs: Seq<u8>) -> Seq<Export> {
    match declared_section(bs, SectionTy::Export) {
        Some(q) => match export_vec_at(bs, q) {
            Ok((v, _)) => v,
            Err(_) => Seq::empty(),
        },
        None => Seq::empty(),
    }
}

/// The start function index the module declares, if it has a start section.
pub open spec fn declared_start(bs: Seq<u8>) -> Option<int> {
    match declared_section(bs, SectionTy::Start) {
        Some(q) => match var_u32(bs, q) {
            Ok((idx, _)) => Some(idx as int),
            Err(_) => None,
        },
        None => None,
    }
}

/// In an ordered module, a non-custom section is the only one of its kind.
proof fn lemma_section_unique(bs: Seq<u8>, k: int)
    requires
        in_order(sections(bs, 8)),
        0 <= k < sections(bs, 8).len(),
        sections(bs, 8)[k].0 != SectionTy::Custom,
    ensures
        declared_section(bs, sections(bs, 8)[k].0) == Some(sections(bs, 8)[k].1),
{
    let secs = sections(bs, 8);
    let ty = secs[k].0;
    let i = choose|i: int| 0 <= i < secs.len() && (#[trigger] secs[i]).0 == ty;
    assert(i == k) by {
        if i < k {
            assert(rank(secs[i].0) < rank(secs[k].0));
        } else if i > k {
            assert(rank(secs[k].0) < rank(secs[i].0));
        }
    }
}

/// A kind ranked below `k` only by custom sections before it and above it
/// after it has no section.
proof fn lemma_section_absent(bs: Seq<u8>, c: Seq<(SectionTy, int, int)>, k: int, ty: SectionTy)
    requires
        ty != SectionTy::Custom,
        0 <= k == c.len() <= sections(bs, 8).len(),
        c == sections(bs, 8).subrange(0, k),
        early_ok(c, k, rank(ty) - 1),
        late_ok(sections(bs, 8), k, rank(ty)),
    ensures
        declared_section(bs, ty) == None::<int>,
{
    let secs = sections(bs, 8);
    assert forall|i: int| 0 <= i < secs.len() implies (#[trigger] secs[i]).0 != ty by {
        if i < k {
            assert(secs[i] == c[i]);
            assert(c[i].0 == SectionTy::Custom || rank(c[i].0) <= rank(ty) - 1);
        } else {
            assert(secs[i].0 == SectionTy::Custom || rank(secs[i].0) > rank(ty));
        }
    }
}

/// A section kind whose contents decode without looking at other sections.
pub open spec fn independent_kind(ty: SectionTy) -> bool {
    !(ty == SectionTy::Function || ty == SectionTy::Code || ty == SectionTy::Element || ty
        == SectionTy::DataCount || ty == SectionTy::Data)
}

/// A module whose sections each decode in full, all of independent kinds,
/// in any order: the header, a complete chain, every section accepted.
pub open spec fn sections_well_formed(bs: Seq<u8>) -> bool {
    &&& bs.len() >= 8
    &&& bs.subrange(0, 8) == header_bytes()
    &&& chain_complete(bs, 8)
    &&& forall|i: int|
        0 <= i < sections(bs, 8).len() ==> independent_kind(#[trigger] sections(bs, 8)[i].0)
            && section_accepted(bs, sections(bs, 8)[i])
}

/// The sections not handled yet are custom or ranked above `st.done`.
pub open spec fn rest_above(bs: Seq<u8>, st: WalkState) -> bool {
    late_ok(sections(bs, 8), st.consumed.len() as int, st.done)
}

proof fn lemma_walk_next(bs: Seq<u8>, header: Option<SectionHeader>, st: WalkState)
    requires
        walk_core(bs, header, st),
    ensures
        st.consumed.len() <= sections(bs, 8).len(),
        st.consumed == sections(bs, 8).subrange(0, st.consumed.len() as int),
        header is None ==> st.consumed.len() == sections(bs, 8).len(),
        header matches Some(h) ==> st.consumed.len() < sections(bs, 8).len() && sections(
            bs,
            8,
        )[st.consumed.len() as int] == (h.ty, h.contents.from as int, h.contents.len as int),
{
    reveal(walk_core);
    let secs = sections(bs, 8);
    assert(secs.subrange(0, st.consumed.len() as int) =~= st.consumed);
    if let Some(h) = header {
        lemma_header_advances(bs, st.hp);
        assert(sections(bs, st.hp)[0] == (h.ty, h.contents.from as int, h.contents.len as int));
        assert(secs[st.consumed.len() as int] == sections(bs, st.hp)[0]);
    } else {
        assert(sections(bs, st.hp).len() == 0);
    }
}

proof fn lemma_walk_chain(bs: Seq<u8>, header: Option<SectionHeader>, st: WalkState)
    requires
        walk_core(bs, header, st),
    ensures
        chain_complete(bs, 8) == chain_complete(bs, st.hp),
{
    reveal(walk_core);
}

/// With the sections in order, the remaining ones rank above `p` when the
/// next one (if any) is not custom and not of rank `p`.
proof fn lemma_rest_raise(secs: Seq<(SectionTy, int, int)>, k: int, p: int)
    requires
        in_order(secs),
        0 <= k <= secs.len(),
        late_ok(secs, k, p - 1),
        k < secs.len() ==> secs[k].0 != SectionTy::Custom && rank(secs[k].0) != p,
    ensures
        late_ok(secs, k, p),
{
    assert forall|i: int| k <= i < secs.len() implies (#[trigger] secs[i]).0 == SectionTy::Custom
        || rank(secs[i].0) > p by {
        if i > k && secs[i].0 != SectionTy::Custom {
            assert(rank(secs[k].0) < rank(secs[i].0));
        }
    }
}

/// With the sections in order, those after a non-custom one rank above it.
proof fn lemma_rest_consume(secs: Seq<(SectionTy, int, int)>, k: int)
    requires
        in_order(secs),
        0 <= k < secs.len(),
        secs[k].0 != SectionTy::Custom,
    ensures
        late_ok(secs, k + 1, rank(secs[k].0)),
{
    assert forall|i: int| k + 1 <= i < secs.len() implies (#[trigger] secs[i]).0
        == SectionTy::Custom || rank(secs[i].0) > rank(secs[k].0) by {
        if secs[i].0 != SectionTy::Custom {
            assert(rank(secs[k].0) < rank(secs[i].0));
        }
    }
}

/// What the walk tracked over the handled sections `c` holds over the whole
/// chain when the rest ranks above the kind.
proof fn lemma_tracked_whole(
    bs: Seq<u8>,
    c: Seq<(SectionTy, int, int)>,
    ty: SectionTy,
    k: int,
    taken: bool,
    count: int,
)
    requires
        section_tracked(bs, c, ty, k, taken, count),
        0 <= k <= c.len(),
        c.len() <= sections(bs, 8).len(),
        c == sections(bs, 8).subrange(0, c.len() as int),
        late_ok(sections(bs, 8), c.len() as int, rank(ty)),
    ensures
        section_tracked(bs, sections(bs, 8), ty, k, taken, count),
{
    let secs = sections(bs, 8);
    assert forall|i: int| 0 <= i < k && i < secs.len() implies (#[trigger] secs[i]).0
        == SectionTy::Custom || rank(secs[i].0) <= rank(ty) - 1 by {
        assert(secs[i] == c[i]);
    }
    if taken {
        assert(secs[k] == c[k]);
        assert forall|i: int| k + 1 <= i < secs.len() implies (#[trigger] secs[i]).0
            == SectionTy::Custom || rank(secs[i].0) > rank(ty) by {
            if i < c.len() {
                assert(secs[i] == c[i]);
            }
        }
    } else {
        assert forall|i: int| k <= i < secs.len() implies (#[trigger] secs[i]).0
            == SectionTy::Custom || rank(secs[i].0) > rank(ty) by {
            if i < c.len() {
                assert(secs[i] == c[i]);
            }
        }
    }
}

proof fn lemma_types_tracked_whole(
    bs: Seq<u8>,
    c: Seq<(SectionTy, int, int)>,
    k: int,
    taken: bool,
    sigs: Seq<(Seq<ValType>, Seq<ValType>)>,
)
    requires
        types_tracked(bs, c, k, taken, sigs),
        0 <= k <= c.len(),
        c.len() <= sections(bs, 8).len(),
        c == sections(bs, 8).subrange(0, c.len() as int),
        late_ok(sections(bs, 8), c.len() as int, rank(SectionTy::Type)),
    ensures
        types_tracked(bs, sections(bs, 8), k, taken, sigs),
{
    let secs = sections(bs, 8);
    assert forall|i: int| 0 <= i < k && i < secs.len() implies (#[trigger] secs[i]).0
        == SectionTy::Custom || rank(secs[i].0) <= rank(SectionTy::Type) - 1 by {
        assert(secs[i] == c[i]);
    }
    if taken {
        assert(secs[k] == c[k]);
        assert forall|i: int| k + 1 <= i < secs.len() implies (#[trigger] secs[i]).0
            == SectionTy::Custom || rank(secs[i].0) > rank(SectionTy::Type) by {
            if i < c.len() {
                assert(secs[i] == c[i]);
            }
        }
    } else {
        assert forall|i: int| k <= i < secs.len() implies (#[trigger] secs[i]).0
            == SectionTy::Custom || rank(secs[i].0) > rank(SectionTy::Type) by {
            if i < c.len() {
                assert(secs[i] == c[i]);
            }
        }
    }
}

/// The first sections: types, imports, and the type index of each function.
#[verifier::rlimit(80)]
fn read_leading_sections(
    wasm: &mut WasmReader,
    header: &mut Option<SectionHeader>,
    st: Ghost<WalkState>,
) -> (r: Result<
    (Vec<FuncType>, Vec<Import>, Vec<usize>, Ghost<WalkState>, Ghost<(int, bool)>, Ghost<(int, bool)>),
    Error,
>)
    requires
        walk_inv(old(wasm).data(), *old(wasm), *old(header), st@),
        st@.done == 0,
    ensures
        r matches Ok((types, imports, functions, st2, g, gt)) ==> {
            &&& walk_inv(old(wasm).data(), *final(wasm), *final(header), st2@)
            &&& st2@.done == rank(SectionTy::Function)
            &&& extends_above(st@.consumed, st2@.consumed, 0)
            &&& section_tracked(
                old(wasm).data(),
                st2@.consumed,
                SectionTy::Function,
                g@.0,
                g@.1,
                functions@.len() as int,
            )
            &&& 0 <= g@.0 <= st2@.consumed.len()
            &&& g@.1 ==> (function_section_at(
                old(wasm).data(),
                st2@.consumed[g@.0].1,
                types@.len() as int,
            ) matches Ok((v, _)) && v == functions@.map_values(|x: usize| x as int))
            &&& types_tracked(
                old(wasm).data(),
                st2@.consumed,
                gt@.0,
                gt@.1,
                types@.map_values(|ft: FuncType| sig(ft)),
            )
            &&& 0 <= gt@.0 <= st2@.consumed.len()
            &&& forall|i: int| 0 <= i < functions@.len() ==> #[trigger] functions@[i] < types@.len()
        },
        *old(header) is None ==> (r matches Ok((_, _, functions, _, _, _)) && functions@.len() == 0
            && *final(header) is None),
        sections_well_formed(old(wasm).data()) ==> (r matches Ok((_, _, functions, _, _, _))
            && functions@.len() == 0),
        in_order(sections(old(wasm).data(), 8)) && rest_above(old(wasm).data(), st@) ==> (r matches Ok(
            (_, imports, _, st2, _, _),
        ) ==> rest_above(old(wasm).data(), st2@) && imports@ == declared_imports(old(wasm).data())),
        module_ok(old(wasm).data()) && rest_above(old(wasm).data(), st@) ==> (r matches Ok(
            (types, _, functions, st2, _, _),
        ) && rest_above(old(wasm).data(), st2@) && types@.map_values(|ft: FuncType| sig(ft))
            == declared_types(old(wasm).data()) && functions@.map_values(|x: usize| x as int)
            == declared_functions(old(wasm).data()) && functions@.len() == declared_count(
            old(wasm).data(),
            SectionTy::Function,
        )),
{
    let ghost bs = wasm.data();
    let ghost secs = sections(bs, 8);
    let ghost good = module_ok(bs) && rest_above(bs, st@);
    let ghost ord = in_order(secs) && rest_above(bs, st@);
    let mut st = st;
    st = skip_custom_sections(wasm, header, st)?;
    let ghost k_ty = st@.consumed.len() as int;
    let ghost ty_taken = *header matches Some(h) && h.ty == SectionTy::Type;
    proof {
        lemma_walk_ranks(bs, *header, st@);
        lemma_walk_next(bs, *header, st@);
        if sections_well_formed(bs) && st@.consumed.len() < secs.len() {
            let kk = st@.consumed.len() as int;
            assert(independent_kind(secs[kk].0) && section_accepted(bs, secs[kk]));
        }
        if ord {
            assert(rest_above(bs, st@));
            if k_ty < secs.len() {
                if module_ok(bs) {
                    assert(section_accepted(bs, secs[k_ty]));
                }
            }
        }
    }
    let types = if holds_section(header, SectionTy::Type) {
        let v = read_types(wasm)?;
        st = end_section(wasm, header, st)?;
        v
    } else {
        Vec::new()
    };
    proof {
        lemma_raise_done(bs, *header, st@, rank(SectionTy::Type));
        if !ty_taken {
            assert(types@.map_values(|ft: FuncType| sig(ft)) =~= Seq::<
                (Seq<ValType>, Seq<ValType>),
            >::empty());
        }
    }
    proof {
        if ord {
            if ty_taken {
                lemma_rest_consume(secs, k_ty);
            } else {
                lemma_rest_raise(secs, k_ty, rank(SectionTy::Type));
            }
        }
    }
    st = Ghost(WalkState { done: rank(SectionTy::Type), ..st@ });
    let ghost c_t = st@.consumed;
    assert(types_tracked(bs, c_t, k_ty, ty_taken, types@.map_values(|ft: FuncType| sig(ft))));

    st = skip_custom_sections(wasm, header, st)?;
    let ghost c_i0 = st@.consumed;
    let ghost k_im = st@.consumed.len() as int;
    let ghost im_taken = *header matches Some(h) && h.ty == SectionTy::Import;
    proof {
        lemma_walk_ranks(bs, *header, st@);
        lemma_walk_next(bs, *header, st@);
        if sections_well_formed(bs) && st@.consumed.len() < secs.len() {
            let kk = st@.consumed.len() as int;
            assert(independent_kind(secs[kk].0) && section_accepted(bs, secs[kk]));
        }
        if ord {
            assert(rest_above(bs, st@));
            if k_im < secs.len() {
                if module_ok(bs) {
                    assert(section_accepted(bs, secs[k_im]));
                }
            }
        }
    }
    let imports = if holds_section(header, SectionTy::Import) {
        let v = read_imports(wasm)?;
        st = end_section(wasm, header, st)?;
        proof {
            lemma_extends_push(c_i0, st@.consumed.last(), rank(SectionTy::Type));
        }
        v
    } else {
        proof {
            lemma_extends_refl(c_i0, rank(SectionTy::Type));
        }
        Vec::new()
    };
    proof {
        lemma_extends_trans(c_t, c_i0, st@.consumed, rank(SectionTy::Type), rank(SectionTy::Type));
        lemma_raise_done(bs, *header, st@, rank(SectionTy::Import));
    }
    proof {
        if ord {
            if im_taken {
                lemma_rest_consume(secs, k_im);
                lemma_section_unique(bs, k_im);
            } else {
                lemma_rest_raise(secs, k_im, rank(SectionTy::Import));
                lemma_section_absent(bs, c_i0, k_im, SectionTy::Import);
                assert(imports@ =~= Seq::<Import>::empty());
            }
        }
    }
    st = Ghost(WalkState { done: rank(SectionTy::Import), ..st@ });

    let ghost c_i = st@.consumed;
    st = skip_custom_sections(wasm, header, st)?;
    let ghost c1 = st@.consumed;
    let ghost k_fn = st@.consumed.len() as int;
    let ghost fn_taken = *header matches Some(h) && h.ty == SectionTy::Function;
    proof {
        lemma_walk_ranks(bs, *header, st@);
        lemma_extends_refl(c1, rank(SectionTy::Function));
        lemma_extends_trans(c_t, c_i, c1, rank(SectionTy::Type), rank(SectionTy::Type));
        lemma_walk_next(bs, *header, st@);
        if sections_well_formed(bs) && st@.consumed.len() < secs.len() {
            let kk = st@.consumed.len() as int;
            assert(independent_kind(secs[kk].0) && section_accepted(bs, secs[kk]));
        }
        if ord {
            assert(rest_above(bs, st@));
            lemma_types_tracked_extends(
                bs,
                c_t,
                c1,
                k_ty,
                ty_taken,
                types@.map_values(|ft: FuncType| sig(ft)),
            );
            lemma_types_tracked_whole(bs, c1, k_ty, ty_taken, types@.map_values(|ft: FuncType| sig(ft)));
            lemma_declared_types(bs, k_ty, ty_taken, types@.map_values(|ft: FuncType| sig(ft)));
            assert(types@.map_values(|ft: FuncType| sig(ft)).len() == types@.len());
            if k_fn < secs.len() {
                if module_ok(bs) {
                    assert(section_accepted(bs, secs[k_fn]));
                }
            }
        }
    }
    let functions = if holds_section(header, SectionTy::Function) {
        let v = read_functions(wasm, types.len())?;
        st = end_section(wasm, header, st)?;
        proof {
            lemma_extends_push(c1, st@.consumed.last(), rank(SectionTy::Type));
        }
        v
    } else {
        proof {
            lemma_extends_refl(c1, rank(SectionTy::Type));
        }
        Vec::new()
    };
    proof {
        lemma_extends_trans(c_t, c1, st@.consumed, rank(SectionTy::Type), rank(SectionTy::Type));
        lemma_types_tracked_extends(
            bs,
            c_t,
            st@.consumed,
            k_ty,
            ty_taken,
            types@.map_values(|ft: FuncType| sig(ft)),
        );
        lemma_raise_done(bs, *header, st@, rank(SectionTy::Function));
    }
    proof {
        if ord {
            if fn_taken {
                lemma_rest_consume(secs, k_fn);
            } else {
                lemma_rest_raise(secs, k_fn, rank(SectionTy::Function));
            }
            lemma_walk_next(bs, *header, st@);
        if sections_well_formed(bs) && st@.consumed.len() < secs.len() {
            let kk = st@.consumed.len() as int;
            assert(independent_kind(secs[kk].0) && section_accepted(bs, secs[kk]));
        }
            lemma_tracked_whole(
                bs,
                st@.consumed,
                SectionTy::Function,
                k_fn,
                fn_taken,
                functions@.len() as int,
            );
            lemma_declared_functions(bs, k_fn, fn_taken, functions@.map_values(|x: usize| x as int));
            if fn_taken {
                lemma_declared_count_present(bs, k_fn, SectionTy::Function);
            } else {
                lemma_declared_count_absent(bs, k_fn, SectionTy::Function);
            }
        }
    }
    st = Ghost(WalkState { done: rank(SectionTy::Function), ..st@ });
    Ok((types, imports, functions, st, Ghost((k_fn, fn_taken)), Ghost((k_ty, ty_taken))))
}

/// The sections between the function and element sections: tables,
/// memories, globals, exports and the start function.
#[verifier::rlimit(80)]
fn read_middle_sections(
    wasm: &mut WasmReader,
    header: &mut Option<SectionHeader>,
    st: Ghost<WalkState>,
) -> (r: Result<
    (Vec<TableType>, Vec<MemType>, Vec<GlobalType>, Vec<Export>, Option<usize>, Ghost<WalkState>),
    Error,
>)
    requires
        walk_inv(old(wasm).data(), *old(wasm), *old(header), st@),
        st@.done == rank(SectionTy::Function),
    ensures
        r matches Ok((_, _, _, _, _, st2)) ==> {
            &&& walk_inv(old(wasm).data(), *final(wasm), *final(header), st2@)
            &&& st2@.done == rank(SectionTy::Start)
            &&& extends_above(st@.consumed, st2@.consumed, rank(SectionTy::Function))
        },
        *old(header) is None ==> r is Ok && *final(header) is None,
        sections_well_formed(old(wasm).data()) ==> r is Ok,
        module_ok(old(wasm).data()) && rest_above(old(wasm).data(), st@) ==> (r matches Ok(
            (_, _, _, _, _, st2),
        ) && rest_above(old(wasm).data(), st2@)),
        in_order(sections(old(wasm).data(), 8)) && rest_above(old(wasm).data(), st@) ==> (r matches Ok(
            (tables, memories, globals, exports, start, st2),
        ) ==> {
            &&& rest_above(old(wasm).data(), st2@)
            &&& tables@ == declared_tables(old(wasm).data())
            &&& memories@ == declared_memories(old(wasm).data())
            &&& globals@ == declared_globals(old(wasm).data())
            &&& exports@ == declared_exports(old(wasm).data())
            &&& (match start {
                Some(i) => Some(i as int),
                None => None,
            }) == declared_start(old(wasm).data())
        }),
{
    let ghost bs = wasm.data();
    let ghost secs = sections(bs, 8);
    let ghost good = module_ok(bs) && rest_above(bs, st@);
    let ghost ord = in_order(secs) && rest_above(bs, st@);
    let ghost c0 = st@.consumed;
    let ghost r0 = rank(SectionTy::Function);
    let mut st = st;
    proof {
        lemma_extends_refl(c0, r0);
    }

    let ghost c = st@.consumed;
    st = skip_custom_sections(wasm, header, st)?;
    let ghost k1 = st@.consumed.len() as int;
    let ghost t1 = *header matches Some(h) && h.ty == SectionTy::Table;
    let ghost cc1 = st@.consumed;
    proof {
        lemma_walk_ranks(bs, *header, st@);
    }
    proof {
        lemma_walk_next(bs, *header, st@);
        if sections_well_formed(bs) && st@.consumed.len() < secs.len() {
            let kk = st@.consumed.len() as int;
            assert(independent_kind(secs[kk].0) && section_accepted(bs, secs[kk]));
        }
        if ord {
            assert(rest_above(bs, st@));
            if k1 < secs.len() {
                if module_ok(bs) {
                    assert(section_accepted(bs, secs[k1]));
                }
            }
        }
    }
    let tables = if holds_section(header, SectionTy::Table) {
        let v = read_tables(wasm)?;
        let ghost c1 = st@.consumed;
        st = end_section(wasm, header, st)?;
        proof {
            lemma_extends_push(c1, st@.consumed.last(), r0);
            lemma_extends_trans(c, c1, st@.consumed, r0, r0);
        }
        v
    } else {
        Vec::new()
    };
    proof {
        lemma_extends_trans(c0, c, st@.consumed, r0, r0);
        lemma_raise_done(bs, *header, st@, rank(SectionTy::Table));
    }
    proof {
        if ord {
            if t1 {
                lemma_rest_consume(secs, k1);
                lemma_section_unique(bs, k1);
            } else {
                lemma_rest_raise(secs, k1, rank(SectionTy::Table));
                lemma_section_absent(bs, cc1, k1, SectionTy::Table);
                assert(tables@ =~= Seq::<TableType>::empty());
            }
        }
    }
    st = Ghost(WalkState { done: rank(SectionTy::Table), ..st@ });

    let ghost c = st@.consumed;
    st = skip_custom_sections(wasm, header, st)?;
    let ghost k2 = st@.consumed.len() as int;
    let ghost t2 = *header matches Some(h) && h.ty == SectionTy::Memory;
    let ghost cc2 = st@.consumed;
    proof {
        lemma_walk_ranks(bs, *header, st@);
    }
    proof {
        lemma_walk_next(bs, *header, st@);
        if sections_well_formed(bs) && st@.consumed.len() < secs.len() {
            let kk = st@.consumed.len() as int;
            assert(independent_kind(secs[kk].0) && section_accepted(bs, secs[kk]));
        }
        if ord {
            assert(rest_above(bs, st@));
            if k2 < secs.len() {
                if module_ok(bs) {
                    assert(section_accepted(bs, secs[k2]));
                }
            }
        }
    }
    let memories = if holds_section(header, SectionTy::Memory) {
        let v = read_memories(wasm)?;
        let ghost c1 = st@.consumed;
        st = end_section(wasm, header, st)?;
        proof {
            lemma_extends_push(c1, st@.consumed.last(), r0);
            lemma_extends_trans(c, c1, st@.consumed, r0, r0);
        }
        v
    } else {
        Vec::new()
    };
    proof {
        lemma_extends_trans(c0, c, st@.consumed, r0, r0);
        lemma_raise_done(bs, *header, st@, rank(SectionTy::Memory));
    }
    proof {
        if ord {
            if t2 {
                lemma_rest_consume(secs, k2);
                lemma_section_unique(bs, k2);
            } else {
                lemma_rest_raise(secs, k2, rank(SectionTy::Memory));
                lemma_section_absent(bs, cc2, k2, SectionTy::Memory);
                assert(memories@ =~= Seq::<MemType>::empty());
            }
        }
    }
    st = Ghost(WalkState { done: rank(SectionTy::Memory), ..st@ });

    let ghost c = st@.consumed;
    st = skip_custom_sections(wasm, header, st)?;
    let ghost k3 = st@.consumed.len() as int;
    let ghost t3 = *header matches Some(h) && h.ty == SectionTy::Global;
    let ghost cc3 = st@.consumed;
    proof {
        lemma_walk_ranks(bs, *header, st@);
    }
    proof {
        lemma_walk_next(bs, *header, st@);
        if sections_well_formed(bs) && st@.consumed.len() < secs.len() {
            let kk = st@.consumed.len() as int;
            assert(independent_kind(secs[kk].0) && section_accepted(bs, secs[kk]));
        }
        if ord {
            assert(rest_above(bs, st@));
            if k3 < secs.len() {
                if module_ok(bs) {
                    assert(section_accepted(bs, secs[k3]));
                }
            }
        }
    }
    let globals = if holds_section(header, SectionTy::Global) {
        let v = read_globals(wasm)?;
        let ghost c1 = st@.consumed;
        st = end_section(wasm, header, st)?;
        proof {
            lemma_extends_push(c1, st@.consumed.last(), r0);
            lemma_extends_trans(c, c1, st@.consumed, r0, r0);
        }
        v
    } else {
        Vec::new()
    };
    proof {
        lemma_extends_trans(c0, c, st@.consumed, r0, r0);
        lemma_raise_done(bs, *header, st@, rank(SectionTy::Global));
    }
    proof {
        if ord {
            if t3 {
                lemma_rest_consume(secs, k3);
                lemma_section_unique(bs, k3);
            } else {
                lemma_rest_raise(secs, k3, rank(SectionTy::Global));
                lemma_section_absent(bs, cc3, k3, SectionTy::Global);
                assert(globals@ =~= Seq::<GlobalType>::empty());
            }
        }
    }
    st = Ghost(WalkState { done: rank(SectionTy::Global), ..st@ });

    let ghost c = st@.consumed;
    st = skip_custom_sections(wasm, header, st)?;
    let ghost k4 = st@.consumed.len() as int;
    let ghost t4 = *header matches Some(h) && h.ty == SectionTy::Export;
    let ghost cc4 = st@.consumed;
    proof {
        lemma_walk_ranks(bs, *header, st@);
    }
    proof {
        lemma_walk_next(bs, *header, st@);
        if sections_well_formed(bs) && st@.consumed.len() < secs.len() {
            let kk = st@.consumed.len() as int;
            assert(independent_kind(secs[kk].0) && section_accepted(bs, secs[kk]));
        }
        if ord {
            assert(rest_above(bs, st@));
            if k4 < secs.len() {
                if module_ok(bs) {
                    assert(section_accepted(bs, secs[k4]));
                }
            }
        }
    }
    let exports = if holds_section(header, SectionTy::Export) {
        let v = read_exports(wasm)?;
        let ghost c1 = st@.consumed;
        st = end_section(wasm, header, st)?;
        proof {
            lemma_extends_push(c1, st@.consumed.last(), r0);
            lemma_extends_trans(c, c1, st@.consumed, r0, r0);
        }
        v
    } else {
        Vec::new()
    };
    proof {
        lemma_extends_trans(c0, c, st@.consumed, r0, r0);
        lemma_raise_done(bs, *header, st@, rank(SectionTy::Export));
    }
    proof {
        if ord {
            if t4 {
                lemma_rest_consume(secs, k4);
                lemma_section_unique(bs, k4);
            } else {
                lemma_rest_raise(secs, k4, rank(SectionTy::Export));
                lemma_section_absent(bs, cc4, k4, SectionTy::Export);
                assert(exports@ =~= Seq::<Export>::empty());
            }
        }
    }
    st = Ghost(WalkState { done: rank(SectionTy::Export), ..st@ });

    let ghost c = st@.consumed;
    st = skip_custom_sections(wasm, header, st)?;
    let ghost k5 = st@.consumed.len() as int;
    let ghost t5 = *header matches Some(h) && h.ty == SectionTy::Start;
    let ghost cc5 = st@.consumed;
    proof {
        lemma_walk_ranks(bs, *header, st@);
    }
    proof {
        lemma_walk_next(bs, *header, st@);
        if sections_well_formed(bs) && st@.consumed.len() < secs.len() {
            let kk = st@.consumed.len() as int;
            assert(independent_kind(secs[kk].0) && section_accepted(bs, secs[kk]));
        }
        if ord {
            assert(rest_above(bs, st@));
            if k5 < secs.len() {
                if module_ok(bs) {
                    assert(section_accepted(bs, secs[k5]));
                }
            }
        }
    }
    let start = if holds_section(header, SectionTy::Start) {
        let idx = wasm.read_var_u32()?;
        let ghost c1 = st@.consumed;
        st = end_section(wasm, header, st)?;
        proof {
            lemma_extends_push(c1, st@.consumed.last(), r0);
            lemma_extends_trans(c, c1, st@.consumed, r0, r0);
        }
        Some(idx as usize)
    } else {
        None
    };
    proof {
        lemma_extends_trans(c0, c, st@.consumed, r0, r0);
        lemma_raise_done(bs, *header, st@, rank(SectionTy::Start));
    }
    proof {
        if ord {
            if t5 {
                lemma_rest_consume(secs, k5);
                lemma_section_unique(bs, k5);
            } else {
                lemma_rest_raise(secs, k5, rank(SectionTy::Start));
                lemma_section_absent(bs, cc5, k5, SectionTy::Start);
            }
        }
    }
    st = Ghost(WalkState { done: rank(SectionTy::Start), ..st@ });
    Ok((tables, memories, globals, exports, start, st))
}

/// The last sections: element and data count (not supported), the code
/// section, checked against the declared functions, and data (not
/// supported). Afterwards no header may be left.
#[verifier::rlimit(80)]
fn read_trailing_sections(
    wasm: &mut WasmReader,
    header: &mut Option<SectionHeader>,
    st: Ghost<WalkState>,
    types: &Vec<FuncType>,
    functions: &Vec<usize>,
) -> (r: Result<(Vec<Span>, Ghost<WalkState>, Ghost<(int, bool)>), Error>)
    requires
        walk_inv(old(wasm).data(), *old(wasm), *old(header), st@),
        st@.done == rank(SectionTy::Start),
    ensures
        r matches Ok((func_blocks, st2, g)) ==> {
            &&& walk_inv(old(wasm).data(), *final(wasm), *final(header), st2@)
            &&& *final(header) is None
            &&& extends_above(st@.consumed, st2@.consumed, rank(SectionTy::Start))
            &&& section_tracked(
                old(wasm).data(),
                st2@.consumed,
                SectionTy::Code,
                g@.0,
                g@.1,
                func_blocks@.len() as int,
            )
            &&& 0 <= g@.0 <= st2@.consumed.len()
            &&& g@.1 ==> (code_spans_at(old(wasm).data(), st2@.consumed[g@.0].1) matches Ok((v, _))
                && v == func_blocks@)
            &&& exists|k: int|
                0 <= k <= st2@.consumed.len() && section_tracked(
                    old(wasm).data(),
                    st2@.consumed,
                    SectionTy::Element,
                    k,
                    false,
                    0,
                )
            &&& exists|k: int|
                0 <= k <= st2@.consumed.len() && section_tracked(
                    old(wasm).data(),
                    st2@.consumed,
                    SectionTy::DataCount,
                    k,
                    false,
                    0,
                )
            &&& exists|k: int|
                0 <= k <= st2@.consumed.len() && section_tracked(
                    old(wasm).data(),
                    st2@.consumed,
                    SectionTy::Data,
                    k,
                    false,
                    0,
                )
            &&& func_blocks@.len() == functions@.len()
            &&& forall|i: int|
                0 <= i < func_blocks@.len() ==> body_ok(
                    old(wasm).data(),
                    #[trigger] func_blocks@[i],
                ) && body_typechecks(
                    old(wasm).data(),
                    func_blocks@[i],
                    types@[functions@[i] as int],
                )
        },
        *old(header) is None && functions@.len() == 0 ==> r is Ok,
        sections_well_formed(old(wasm).data()) && functions@.len() == 0 ==> (r is Ok || r matches Err(
            Error::SectionOutOfOrder(_),
        )),
        module_ok(old(wasm).data()) && rest_above(old(wasm).data(), st@) && functions@.map_values(
            |x: usize| x as int,
        ) == declared_functions(old(wasm).data()) && types@.map_values(|ft: FuncType| sig(ft))
            == declared_types(old(wasm).data()) && functions@.len() == declared_count(
            old(wasm).data(),
            SectionTy::Function,
        ) ==> r is Ok,
{
    let ghost bs = wasm.data();
    let ghost secs = sections(bs, 8);
    let ghost good = module_ok(bs) && rest_above(bs, st@) && functions@.map_values(
        |x: usize| x as int,
    ) == declared_functions(bs) && types@.map_values(|ft: FuncType| sig(ft)) == declared_types(bs)
        && functions@.len() == declared_count(bs, SectionTy::Function);
    let ghost r0 = rank(SectionTy::Start);
    let mut st = st;

    st = skip_custom_sections(wasm, header, st)?;
    let ghost k_el = st@.consumed.len() as int;
    proof {
        lemma_walk_next(bs, *header, st@);
        if sections_well_formed(bs) && st@.consumed.len() < secs.len() {
            let kk = st@.consumed.len() as int;
            assert(independent_kind(secs[kk].0) && section_accepted(bs, secs[kk]));
        }
        if good {
            assert(rest_above(bs, st@));
            if k_el < secs.len() {
                assert(section_accepted(bs, secs[k_el]));
            }
        }
    }
    if holds_section(header, SectionTy::Element) {
        return Err(Error::UnsupportedSection(SectionTy::Element));
    }
    let ghost c_el = st@.consumed;
    proof {
        lemma_walk_ranks(bs, *header, st@);
    }
    proof {
        lemma_raise_done(bs, *header, st@, rank(SectionTy::Element));
        if good {
            lemma_rest_raise(secs, k_el, rank(SectionTy::Element));
        }
    }
    st = Ghost(WalkState { done: rank(SectionTy::Element), ..st@ });

    st = skip_custom_sections(wasm, header, st)?;
    let ghost k_dc = st@.consumed.len() as int;
    proof {
        lemma_walk_next(bs, *header, st@);
        if sections_well_formed(bs) && st@.consumed.len() < secs.len() {
            let kk = st@.consumed.len() as int;
            assert(independent_kind(secs[kk].0) && section_accepted(bs, secs[kk]));
        }
        if good {
            assert(rest_above(bs, st@));
            if k_dc < secs.len() {
                assert(section_accepted(bs, secs[k_dc]));
            }
        }
    }
    if holds_section(header, SectionTy::DataCount) {
        return Err(Error::UnsupportedSection(SectionTy::DataCount));
    }
    let ghost c_dc = st@.consumed;
    proof {
        lemma_walk_ranks(bs, *header, st@);
    }
    proof {
        lemma_raise_done(bs, *header, st@, rank(SectionTy::DataCount));
        if good {
            lemma_rest_raise(secs, k_dc, rank(SectionTy::DataCount));
        }
    }
    st = Ghost(WalkState { done: rank(SectionTy::DataCount), ..st@ });

    st = skip_custom_sections(wasm, header, st)?;
    let ghost c1 = st@.consumed;
    let ghost k_code = st@.consumed.len() as int;
    let ghost code_taken = *header matches Some(h) && h.ty == SectionTy::Code;
    proof {
        lemma_walk_ranks(bs, *header, st@);
        lemma_extends_refl(c1, rank(SectionTy::Code));
        lemma_walk_next(bs, *header, st@);
        if sections_well_formed(bs) && st@.consumed.len() < secs.len() {
            let kk = st@.consumed.len() as int;
            assert(independent_kind(secs[kk].0) && section_accepted(bs, secs[kk]));
        }
        if good {
            assert(rest_above(bs, st@));
            if k_code < secs.len() {
                assert(section_accepted(bs, secs[k_code]));
            }
            if !code_taken {
                lemma_rest_raise(secs, k_code, rank(SectionTy::Code));
                assert forall|i: int| 0 <= i < k_code && i < secs.len() implies (#[trigger] secs[i]).0
                    == SectionTy::Custom || rank(secs[i].0) <= rank(SectionTy::Code) - 1 by {
                    assert(secs[i] == c1[i]);
                }
                lemma_declared_count_absent(bs, k_code, SectionTy::Code);
            }
        }
    }
    let func_blocks = if holds_section(header, SectionTy::Code) {
        let v = validate_code_section(wasm, types, functions)?;
        st = end_section(wasm, header, st)?;
        proof {
            lemma_extends_push(c1, st@.consumed.last(), r0);
        }
        v
    } else {
        Vec::new()
    };
    if func_blocks.len() != functions.len() {
        return Err(Error::FunctionCountMismatch);
    }
    assert(forall|i: int|
        0 <= i < func_blocks@.len() ==> body_ok(bs, #[trigger] func_blocks@[i]) && body_typechecks(
            bs,
            func_blocks@[i],
            types@[functions@[i] as int],
        ));
    proof {
        lemma_raise_done(bs, *header, st@, rank(SectionTy::Code));
        if good && code_taken {
            lemma_rest_consume(secs, k_code);
        }
    }
    st = Ghost(WalkState { done: rank(SectionTy::Code), ..st@ });

    st = skip_custom_sections(wasm, header, st)?;
    let ghost k_data = st@.consumed.len() as int;
    proof {
        lemma_walk_next(bs, *header, st@);
        if sections_well_formed(bs) && st@.consumed.len() < secs.len() {
            let kk = st@.consumed.len() as int;
            assert(independent_kind(secs[kk].0) && section_accepted(bs, secs[kk]));
        }
        if good {
            assert(rest_above(bs, st@));
            if k_data < secs.len() {
                assert(section_accepted(bs, secs[k_data]));
            }
        }
    }
    if holds_section(header, SectionTy::Data) {
        return Err(Error::UnsupportedSection(SectionTy::Data));
    }
    let ghost c_data = st@.consumed;
    proof {
        lemma_walk_ranks(bs, *header, st@);
    }
    proof {
        lemma_raise_done(bs, *header, st@, rank(SectionTy::Data));
        if good {
            lemma_rest_raise(secs, k_data, rank(SectionTy::Data));
        }
    }
    st = Ghost(WalkState { done: rank(SectionTy::Data), ..st@ });

    st = skip_custom_sections(wasm, header, st)?;
    let ghost k_end = st@.consumed.len() as int;
    proof {
        lemma_walk_next(bs, *header, st@);
        if sections_well_formed(bs) && st@.consumed.len() < secs.len() {
            let kk = st@.consumed.len() as int;
            assert(independent_kind(secs[kk].0) && section_accepted(bs, secs[kk]));
        }
        if good {
            assert(rest_above(bs, st@));
            if k_end < secs.len() {
                assert(rank(secs[k_end].0) <= 12);
            }
        }
    }
    // Every section should have been handled by now.
    if let Some(h) = *header {
        return Err(Error::SectionOutOfOrder(h.ty));
    }
    proof {
        lemma_tracked_extends(bs, c_el, st@.consumed, SectionTy::Element, c_el.len() as int, false, 0);
        lemma_tracked_extends(bs, c_dc, st@.consumed, SectionTy::DataCount, c_dc.len() as int, false, 0);
        lemma_tracked_extends(bs, c_data, st@.consumed, SectionTy::Data, c_data.len() as int, false, 0);
    }
    Ok((func_blocks, st, Ghost((k_code, code_taken))))
}

/// Validates a module: the magic and version header, then the sections in
/// their canonical order (custom sections anywhere), decoding each and
/// type-checking every function body.
#[verifier::rlimit(80)]
pub fn validate(wasm: &[u8]) -> (r: Result<ValidationInfo, Error>)
    ensures
        wasm@.len() < 4 ==> r == Err::<ValidationInfo, Error>(Error::Eof),
        wasm@.len() >= 4 && wasm@.subrange(0, 4) != header_bytes().subrange(0, 4) ==> r == Err::<
            ValidationInfo,
            Error,
        >(Error::InvalidMagic),
        wasm@.len() >= 4 && wasm@.subrange(0, 4) == header_bytes().subrange(0, 4) && wasm@.len()
            < 8 ==> r == Err::<ValidationInfo, Error>(Error::Eof),
        wasm@.len() >= 8 && wasm@.subrange(0, 4) == header_bytes().subrange(0, 4) && wasm@.subrange(
            4,
            8,
        ) != header_bytes().subrange(4, 8) ==> r == Err::<ValidationInfo, Error>(
            Error::InvalidVersion,
        ),
        wasm@ == header_bytes() ==> r is Ok,
        module_ok(wasm@) ==> r is Ok,
        sections_well_formed(wasm@) ==> (r is Ok || r matches Err(Error::SectionOutOfOrder(_))),
        sections_well_formed(wasm@) && !in_order(sections(wasm@, 8)) ==> r matches Err(
            Error::SectionOutOfOrder(_),
        ),
        r matches Ok(info) ==> {
            &&& wasm@.len() >= 8
            &&& wasm@.subrange(0, 8) == header_bytes()
            &&& info.spec_wasm() == wasm@
            &&& chain_complete(wasm@, 8)
            &&& in_order(sections(wasm@, 8))
            &&& info.wf()
            &&& !has_section(wasm@, SectionTy::Element)
            &&& !has_section(wasm@, SectionTy::DataCount)
            &&& !has_section(wasm@, SectionTy::Data)
            &&& info.spec_types().map_values(|ft: FuncType| sig(ft)) == declared_types(wasm@)
            &&& info.spec_functions().map_values(|x: usize| x as int) == declared_functions(wasm@)
            &&& info.spec_func_blocks() == declared_bodies(wasm@)
            &&& info.spec_imports() == declared_imports(wasm@)
            &&& info.spec_tables() == declared_tables(wasm@)
            &&& info.spec_memories() == declared_memories(wasm@)
            &&& info.spec_globals() == declared_globals(wasm@)
            &&& info.spec_exports() == declared_exports(wasm@)
            &&& info.spec_start() == declared_start(wasm@)
            &&& forall|i: int|
                0 <= i < declared_bodies(wasm@).len() ==> body_typechecks(
                    wasm@,
                    #[trigger] declared_bodies(wasm@)[i],
                    info.spec_types()[info.spec_functions()[i] as int],
                )
            &&& info.spec_functions().len() == declared_count(wasm@, SectionTy::Function)
            &&& info.spec_func_blocks().len() == declared_count(wasm@, SectionTy::Code)
            &&& declared_count(wasm@, SectionTy::Function) == declared_count(
                wasm@,
                SectionTy::Code,
            )
        },
{
    let ghost bs = wasm@;
    proof {
        if module_ok(bs) || sections_well_formed(bs) {
            assert forall|i: int| 0 <= i < 8 implies bs[i] == #[trigger] header_bytes()[i] by {
                assert(bs[i] == bs.subrange(0, 8)[i]);
            }
        }
    }
    let mut wasm = WasmReader::new(wasm);
    if wasm.remaining_len() < 4 {
        return Err(Error::Eof);
    }
    let m0 = wasm.read_u8()?;
    let m1 = wasm.read_u8()?;
    let m2 = wasm.read_u8()?;
    let m3 = wasm.read_u8()?;
    if !(m0 == 0x00 && m1 == 0x61 && m2 == 0x73 && m3 == 0x6d) {
        assert(bs.subrange(0, 4) != header_bytes().subrange(0, 4)) by {
            assert(bs.subrange(0, 4)[0] == m0 && bs.subrange(0, 4)[1] == m1);
            assert(bs.subrange(0, 4)[2] == m2 && bs.subrange(0, 4)[3] == m3);
        }
        return Err(Error::InvalidMagic);
    }
    assert(bs.subrange(0, 4) =~= header_bytes().subrange(0, 4));
    if wasm.remaining_len() < 4 {
        return Err(Error::Eof);
    }
    let v0 = wasm.read_u8()?;
    let v1 = wasm.read_u8()?;
    let v2 = wasm.read_u8()?;
    let v3 = wasm.read_u8()?;
    if !(v0 == 0x01 && v1 == 0x00 && v2 == 0x00 && v3 == 0x00) {
        assert(bs.subrange(4, 8) != header_bytes().subrange(4, 8)) by {
            assert(bs.subrange(4, 8)[0] == v0 && bs.subrange(4, 8)[1] == v1);
            assert(bs.subrange(4, 8)[2] == v2 && bs.subrange(4, 8)[3] == v3);
        }
        return Err(Error::InvalidVersion);
    }
    assert(bs.subrange(4, 8) =~= header_bytes().subrange(4, 8));
    assert(bs.subrange(0, 8) =~= header_bytes());
    let mut header: Option<SectionHeader> = None;
    proof {
        if (module_ok(bs) || sections_well_formed(bs)) && 8 < bs.len() {
            assert(header_at(bs, 8) is Ok);
        }
    }
    read_next_header(&mut wasm, &mut header)?;
    proof {
        lemma_walk_starts(bs, header);
    }
    let st: Ghost<WalkState> = Ghost(WalkState { hp: 8, consumed: Seq::empty(), done: 0 });
    assert(rest_above(bs, st@));
    let (types, imports, functions, st1, g_fn, g_ty) = read_leading_sections(
        &mut wasm,
        &mut header,
        st,
    )?;
    let (tables, memories, globals, exports, start, st2) = read_middle_sections(
        &mut wasm,
        &mut header,
        st1,
    )?;
    let (func_blocks, st3, g_code) = read_trailing_sections(
        &mut wasm,
        &mut header,
        st2,
        &types,
        &functions,
    )?;
    proof {
        lemma_walk_finished(bs, st3@);
        assert(in_order(sections(bs, 8)));
        lemma_extends_trans(
            st1@.consumed,
            st2@.consumed,
            st3@.consumed,
            rank(SectionTy::Function),
            rank(SectionTy::Start),
        );
        lemma_tracked_extends(
            bs,
            st1@.consumed,
            st3@.consumed,
            SectionTy::Function,
            g_fn@.0,
            g_fn@.1,
            functions@.len() as int,
        );
        lemma_extends_weaken(
            st1@.consumed,
            st3@.consumed,
            rank(SectionTy::Function),
            rank(SectionTy::Type),
        );
        lemma_types_tracked_extends(
            bs,
            st1@.consumed,
            st3@.consumed,
            g_ty@.0,
            g_ty@.1,
            types@.map_values(|ft: FuncType| sig(ft)),
        );
        lemma_declared_types(bs, g_ty@.0, g_ty@.1, types@.map_values(|ft: FuncType| sig(ft)));
        assert(types@.len() == declared_types(bs).len()) by {
            assert(types@.map_values(|ft: FuncType| sig(ft)).len() == types@.len());
        }
        lemma_declared_functions(bs, g_fn@.0, g_fn@.1, functions@.map_values(|x: usize| x as int));
        lemma_tracked_extends(
            bs,
            st3@.consumed,
            st3@.consumed,
            SectionTy::Code,
            g_code@.0,
            g_code@.1,
            func_blocks@.len() as int,
        );
        lemma_declared_bodies(bs, g_code@.0, g_code@.1, func_blocks@);
        if g_fn@.1 {
            lemma_declared_count_present(bs, g_fn@.0, SectionTy::Function);
        } else {
            lemma_declared_count_absent(bs, g_fn@.0, SectionTy::Function);
        }
        if g_code@.1 {
            lemma_declared_count_present(bs, g_code@.0, SectionTy::Code);
        } else {
            lemma_declared_count_absent(bs, g_code@.0, SectionTy::Code);
        }
        let k_el = choose|k: int|
            0 <= k <= st3@.consumed.len() && section_tracked(
                bs,
                st3@.consumed,
                SectionTy::Element,
                k,
                false,
                0,
            );
        lemma_declared_count_absent(bs, k_el, SectionTy::Element);
        let k_dc = choose|k: int|
            0 <= k <= st3@.consumed.len() && section_tracked(
                bs,
                st3@.consumed,
                SectionTy::DataCount,
                k,
                false,
                0,
            );
        lemma_declared_count_absent(bs, k_dc, SectionTy::DataCount);
        let k_data = choose|k: int|
            0 <= k <= st3@.consumed.len() && section_tracked(
                bs,
                st3@.consumed,
                SectionTy::Data,
                k,
                false,
                0,
            );
        lemma_declared_count_absent(bs, k_data, SectionTy::Data);
    }
    Ok(
        ValidationInfo {
            wasm: wasm.into_inner(),
            types,
            imports,
            functions,
            tables,
            memories,
            globals,
            exports,
            func_blocks,
            start,
        },
    )
}

/// A module with an Export section before a Type section is out of order, so
/// `validate` (which accepts only modules whose sections are in order) rejects
/// it; when its sections are otherwise well-formed (`sections_well_formed`),
/// `validate` returns `Error::SectionOutOfOrder`.
pub proof fn lemma_export_before_type_rejected(bs: Seq<u8>, i: int, j: int)
    requires
        0 <= i < j < sections(bs, 8).len(),
        sections(bs, 8)[i].0 == SectionTy::Export,
        sections(bs, 8)[j].0 == SectionTy::Type,
    ensures
        !in_order(sections(bs, 8)),
{
    let secs = sections(bs, 8);
    assert(rank(secs[i].0) > rank(secs[j].0));
}

} // verus!

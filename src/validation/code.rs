//! Validation of the code section: every function body is decoded and
//! type-checked against its signature with a validation stack.
use vstd::prelude::*;

use crate::error::Error;
use crate::reader::{
    at, byte_at, lemma_prepend_assoc, lemma_sleb_bounds, lemma_uleb_bounds, prepend, var_i32,
    var_i64, var_u32, WasmReader,
};
use crate::types::{sig, valtype_at, valtype_of_byte, FuncType, LabelKind, Span, ValType};
use crate::validation::validation_stack::{
    after_make_unspecified, exact_matches, has_label, lemma_scope_end_rejects_wrong_arity,
    lemma_top_label_idx, pop_val_outcome,
    top_label_idx, top_matches, visible, LabelInfo, ValidationStack, ValidationStackEntry,
};

verus! {

/// The largest number of declared locals a function body may have.
pub const MAX_LOCALS: u32 = 50000;

/// `k` runs of locals at `pos`, each a repeat count and a value type, expanded;
/// `so_far` locals were declared before them.
pub open spec fn local_runs(bs: Seq<u8>, pos: int, k: nat, so_far: nat) -> Result<
    (Seq<ValType>, int),
    Error,
>
    decreases k,
{
    if k == 0 {
        Ok((Seq::empty(), pos))
    } else {
        match var_u32(bs, pos) {
            Err(err) => Err(err),
            Ok((c, p1)) => match valtype_at(bs, p1) {
                Err(err) => Err(err),
                Ok((t, p2)) => if so_far + c > MAX_LOCALS {
                    Err(Error::TooManyLocals)
                } else {
                    prepend(
                        Seq::new(c as nat, |_i: int| t),
                        local_runs(bs, p2, (k - 1) as nat, (so_far + c) as nat),
                    )
                },
            },
        }
    }
}

/// The declared locals at the start of a function body: a counted vector of
/// runs, expanded in declaration order.
pub open spec fn declared_locals(bs: Seq<u8>, pos: int) -> Result<(Seq<ValType>, int), Error> {
    match var_u32(bs, pos) {
        Ok((k, p1)) => local_runs(bs, p1, k as nat, 0),
        Err(err) => Err(err),
    }
}

/// Reads the locals header of a function body, expanded to one value type per local.
pub fn read_declared_locals(wasm: &mut WasmReader) -> (r: Result<Vec<ValType>, Error>)
    requires
        old(wasm).wf(),
    ensures
        final(wasm).data() == old(wasm).data(),
        final(wasm).wf(),
        final(wasm).spec_pos() >= old(wasm).spec_pos(),
        match r {
            Ok(v) => declared_locals(old(wasm).data(), old(wasm).spec_pos()) == Ok::<
                (Seq<ValType>, int),
                Error,
            >((v@, final(wasm).spec_pos())),
            Err(err) => declared_locals(old(wasm).data(), old(wasm).spec_pos()) == Err::<
                (Seq<ValType>, int),
                Error,
            >(err),
        },
{
    let ghost bs = wasm.data();
    let ghost p0 = wasm.spec_pos();
    let k = wasm.read_var_u32()?;
    let ghost p1 = wasm.spec_pos();
    let mut acc: Vec<ValType> = Vec::new();
    let mut i: u32 = 0;
    while i < k
        invariant
            wasm.data() == bs,
            bs == old(wasm).data(),
            p0 == old(wasm).spec_pos(),
            wasm.wf(),
            wasm.spec_pos() >= p1 > p0,
            i <= k,
            acc@.len() <= MAX_LOCALS,
            var_u32(bs, p0) == Ok::<(u32, int), Error>((k, p1)),
            local_runs(bs, p1, k as nat, 0) == prepend(
                acc@,
                local_runs(bs, wasm.spec_pos(), (k - i) as nat, acc@.len()),
            ),
        decreases k - i,
    {
        let ghost cur = wasm.spec_pos();
        let c = wasm.read_var_u32()?;
        let t = wasm.read_valtype()?;
        if c > MAX_LOCALS - acc.len() as u32 {
            return Err(Error::TooManyLocals);
        }
        let ghost acc0 = acc@;
        let mut j: u32 = 0;
        while j < c
            invariant
                j <= c,
                acc0.len() + c <= MAX_LOCALS,
                acc@ == acc0 + Seq::new(j as nat, |_i: int| t),
            decreases c - j,
        {
            acc.push(t);
            j = j + 1;
            assert(acc@ =~= acc0 + Seq::new(j as nat, |_i: int| t));
        }
        proof {
            lemma_prepend_assoc(
                acc0,
                Seq::new(c as nat, |_i: int| t),
                local_runs(bs, wasm.spec_pos(), (k - i - 1) as nat, acc@.len()),
            );
        }
        i = i + 1;
    }
    assert(acc@ + Seq::<ValType>::empty() =~= acc@);
    Ok(acc)
}

/// A function body's span holds a locals header that decodes and ends inside it.
pub open spec fn body_ok(bs: Seq<u8>, span: Span) -> bool {
    &&& span.from + span.len <= bs.len()
    &&& declared_locals(bs, span.from as int) matches Ok((_, p)) && p <= span.from + span.len
}

/// The body at `span` type-checks against the function type `ft`.
pub open spec fn body_typechecks(bs: Seq<u8>, span: Span, ft: FuncType) -> bool {
    check_body(bs, span.from as int, span.from + span.len, ft.params@, ft.results@) is Ok
}

/// An open structured scope of the body being validated.
struct CtrlFrame {
    kind: LabelKind,
    results: Vec<ValType>,
    in_else: bool,
}

/// What body type-checking records of an open scope: its kind, its declared
/// results, and whether an `if` has reached its `else`.
pub struct Frame {
    pub kind: LabelKind,
    pub results: Seq<ValType>,
    pub in_else: bool,
}

spec fn frame_view(f: CtrlFrame) -> Frame {
    Frame { kind: f.kind, results: f.results@, in_else: f.in_else }
}

spec fn frames_view(c: Seq<CtrlFrame>) -> Seq<Frame> {
    c.map_values(|f: CtrlFrame| frame_view(f))
}

/// A block type at `pos`: 0x40 for no result, or one value type.
pub open spec fn block_type_at(bs: Seq<u8>, pos: int) -> Result<(Seq<ValType>, int), Error> {
    match byte_at(bs, pos) {
        Err(err) => Err(err),
        Ok((b, p)) => if b == 0x40 {
            Ok((Seq::empty(), p))
        } else {
            match valtype_of_byte(b) {
                Some(t) => Ok((seq![t], p)),
                None => Err(Error::InvalidBlockType(b)),
            }
        },
    }
}

/// A local index at `pos`, and the type of that local.
pub open spec fn local_at(bs: Seq<u8>, pos: int, locals: Seq<ValType>) -> Result<(ValType, int), Error> {
    match var_u32(bs, pos) {
        Err(err) => Err(err),
        Ok((idx, p)) => if idx < locals.len() {
            Ok((locals[idx as int], p))
        } else {
            Err(Error::InvalidLocalIdx)
        },
    }
}

/// The stack after closing the current scope: everything from the top-most
/// label up removed (everything, when no label is left).
pub open spec fn close_scope(s: Seq<ValidationStackEntry>) -> Seq<ValidationStackEntry> {
    if top_label_idx(s) >= 0 {
        s.subrange(0, top_label_idx(s))
    } else {
        Seq::empty()
    }
}

/// `s` with values of the types `ts` pushed, the last one top-most.
pub open spec fn push_vals(s: Seq<ValidationStackEntry>, ts: Seq<ValType>) -> Seq<ValidationStackEntry> {
    s + ts.map_values(|t: ValType| ValidationStackEntry::Val(t))
}

/// The state of body type-checking: read position, validation stack, open scopes.
pub struct BodyState {
    pub pos: int,
    pub stack: Seq<ValidationStackEntry>,
    pub ctrl: Seq<Frame>,
}

/// The outcome of one step of body type-checking.
pub enum BodyStep {
    Next(BodyState),
    /// The function's own `end` was read; the position after it.
    Finished(int),
    Fail(Error),
}

/// One step of body type-checking: read an instruction and apply its typing
/// rule to the validation stack. `locals` are the types of the parameters and
/// declared locals, `results` the function's result types.
pub open spec fn body_step(
    bs: Seq<u8>,
    locals: Seq<ValType>,
    results: Seq<ValType>,
    body_end: int,
    s: BodyState,
) -> BodyStep {
    if s.pos >= body_end {
        BodyStep::Fail(Error::CodeSizeMismatch)
    } else {
        match byte_at(bs, s.pos) {
            Err(err) => BodyStep::Fail(err),
            Ok((op, p1)) => if op == 0x00 {
                BodyStep::Next(BodyState { pos: p1, stack: after_make_unspecified(s.stack), ctrl: s.ctrl })
            } else if op == 0x01 {
                BodyStep::Next(BodyState { pos: p1, ..s })
            } else if op == 0x02 || op == 0x03 {
                match block_type_at(bs, p1) {
                    Err(err) => BodyStep::Fail(err),
                    Ok((rs, p2)) => {
                        let kind = if op == 0x02 {
                            LabelKind::Block
                        } else {
                            LabelKind::Loop
                        };
                        BodyStep::Next(
                            BodyState {
                                pos: p2,
                                stack: s.stack.push(ValidationStackEntry::Label(LabelInfo { kind })),
                                ctrl: s.ctrl.push(Frame { kind, results: rs, in_else: false }),
                            },
                        )
                    },
                }
            } else if op == 0x04 {
                match block_type_at(bs, p1) {
                    Err(err) => BodyStep::Fail(err),
                    Ok((rs, p2)) => {
                        let (st2, r) = pop_val_outcome(s.stack, ValType::I32);
                        match r {
                            Err(err) => BodyStep::Fail(err),
                            Ok(_) => BodyStep::Next(
                                BodyState {
                                    pos: p2,
                                    stack: st2.push(
                                        ValidationStackEntry::Label(LabelInfo { kind: LabelKind::If }),
                                    ),
                                    ctrl: s.ctrl.push(
                                        Frame { kind: LabelKind::If, results: rs, in_else: false },
                                    ),
                                },
                            ),
                        }
                    },
                }
            } else if op == 0x05 {
                if s.ctrl.len() == 0 {
                    BodyStep::Fail(Error::ElseWithoutIf)
                } else {
                    let f = s.ctrl.last();
                    if f.kind != LabelKind::If || f.in_else {
                        BodyStep::Fail(Error::ElseWithoutIf)
                    } else if !exact_matches(visible(s.stack), f.results) {
                        BodyStep::Fail(Error::EndInvalidValueStack)
                    } else {
                        BodyStep::Next(
                            BodyState {
                                pos: p1,
                                stack: close_scope(s.stack).push(
                                    ValidationStackEntry::Label(LabelInfo { kind: LabelKind::If }),
                                ),
                                ctrl: s.ctrl.drop_last().push(
                                    Frame { kind: LabelKind::If, results: f.results, in_else: true },
                                ),
                            },
                        )
                    }
                }
            } else if op == 0x0B {
                if !has_label(s.stack) {
                    if exact_matches(visible(s.stack), results) {
                        BodyStep::Finished(p1)
                    } else {
                        BodyStep::Fail(Error::EndInvalidValueStack)
                    }
                } else if s.ctrl.len() == 0 {
                    BodyStep::Fail(Error::EndInvalidValueStack)
                } else {
                    let f = s.ctrl.last();
                    if f.kind == LabelKind::If && !f.in_else && f.results.len() > 0 {
                        BodyStep::Fail(Error::EndInvalidValueStack)
                    } else if !exact_matches(visible(s.stack), f.results) {
                        BodyStep::Fail(Error::EndInvalidValueStack)
                    } else {
                        BodyStep::Next(
                            BodyState {
                                pos: p1,
                                stack: push_vals(close_scope(s.stack), f.results),
                                ctrl: s.ctrl.drop_last(),
                            },
                        )
                    }
                }
            } else if op == 0x0F {
                if top_matches(s.stack, results) {
                    BodyStep::Next(
                        BodyState { pos: p1, stack: after_make_unspecified(s.stack), ctrl: s.ctrl },
                    )
                } else {
                    BodyStep::Fail(Error::EndInvalidValueStack)
                }
            } else if op == 0x20 || op == 0x21 || op == 0x22 {
                match local_at(bs, p1, locals) {
                    Err(err) => BodyStep::Fail(err),
                    Ok((t, p2)) => if op == 0x20 {
                        BodyStep::Next(
                            BodyState {
                                pos: p2,
                                stack: s.stack.push(ValidationStackEntry::Val(t)),
                                ctrl: s.ctrl,
                            },
                        )
                    } else {
                        let (st2, r) = pop_val_outcome(s.stack, t);
                        match r {
                            Err(err) => BodyStep::Fail(err),
                            Ok(_) => BodyStep::Next(
                                BodyState {
                                    pos: p2,
                                    stack: if op == 0x21 {
                                        st2
                                    } else {
                                        st2.push(ValidationStackEntry::Val(t))
                                    },
                                    ctrl: s.ctrl,
                                },
                            ),
                        }
                    },
                }
            } else if op == 0x41 {
                match var_i32(bs, p1) {
                    Err(err) => BodyStep::Fail(err),
                    Ok((_, p2)) => BodyStep::Next(
                        BodyState {
                            pos: p2,
                            stack: s.stack.push(ValidationStackEntry::Val(ValType::I32)),
                            ctrl: s.ctrl,
                        },
                    ),
                }
            } else if op == 0x42 {
                match var_i64(bs, p1) {
                    Err(err) => BodyStep::Fail(err),
                    Ok((_, p2)) => BodyStep::Next(
                        BodyState {
                            pos: p2,
                            stack: s.stack.push(ValidationStackEntry::Val(ValType::I64)),
                            ctrl: s.ctrl,
                        },
                    ),
                }
            } else if op == 0x6A {
                let (st1, r1) = pop_val_outcome(s.stack, ValType::I32);
                let (st2, r2) = pop_val_outcome(st1, ValType::I32);
                if r1 is Err {
                    BodyStep::Fail(r1->Err_0)
                } else if r2 is Err {
                    BodyStep::Fail(r2->Err_0)
                } else {
                    BodyStep::Next(
                        BodyState {
                            pos: p1,
                            stack: st2.push(ValidationStackEntry::Val(ValType::I32)),
                            ctrl: s.ctrl,
                        },
                    )
                }
            } else {
                BodyStep::Fail(Error::UnsupportedInstruction(op))
            },
        }
    }
}

#[via_fn]
proof fn body_run_decreases(
    bs: Seq<u8>,
    locals: Seq<ValType>,
    results: Seq<ValType>,
    body_end: int,
    s: BodyState,
) {
    lemma_uleb_bounds(bs, s.pos + 1, 5);
    lemma_sleb_bounds(bs, s.pos + 1, 5);
    lemma_sleb_bounds(bs, s.pos + 1, 10);
}

/// Runs body type-checking from `s` until the function's own `end` (the
/// position after it) or a failure.
pub open spec fn body_run(
    bs: Seq<u8>,
    locals: Seq<ValType>,
    results: Seq<ValType>,
    body_end: int,
    s: BodyState,
) -> Result<int, Error>
    decreases bs.len() - s.pos,
    via body_run_decreases
{
    match body_step(bs, locals, results, body_end, s) {
        BodyStep::Next(s2) => body_run(bs, locals, results, body_end, s2),
        BodyStep::Finished(p) => Ok(p),
        BodyStep::Fail(err) => Err(err),
    }
}

/// Checking one function body at `pos` that ends at `body_end`, with
/// parameters `params` and results `results`: the declared locals on success.
pub open spec fn check_body(
    bs: Seq<u8>,
    pos: int,
    body_end: int,
    params: Seq<ValType>,
    results: Seq<ValType>,
) -> Result<Seq<ValType>, Error> {
    match declared_locals(bs, pos) {
        Err(err) => Err(err),
        Ok((l, p)) => if p > body_end {
            Err(Error::CodeSizeMismatch)
        } else {
            match body_run(
                bs,
                params + l,
                results,
                body_end,
                BodyState { pos: p, stack: Seq::empty(), ctrl: Seq::empty() },
            ) {
                Err(err) => Err(err),
                Ok(q) => if q != body_end {
                    Err(Error::CodeSizeMismatch)
                } else {
                    Ok(l)
                },
            }
        },
    }
}

/// At the function's own `end`, a stack whose values are all known (no
/// `return` or `unreachable` before) and whose number of values differs from
/// the function's result arity, more or fewer, is rejected.
pub proof fn lemma_end_with_wrong_arity_rejected(
    bs: Seq<u8>,
    locals: Seq<ValType>,
    results: Seq<ValType>,
    body_end: int,
    s: BodyState,
)
    requires
        0 <= s.pos < body_end,
        s.pos < bs.len(),
        bs[s.pos] == 0x0B,
        !has_label(s.stack),
        forall|i: int| 0 <= i < s.stack.len() ==> !(#[trigger] s.stack[i] is UnspecifiedValTypes),
        s.stack.len() != results.len(),
    ensures
        body_step(bs, locals, results, body_end, s) == BodyStep::Fail(Error::EndInvalidValueStack),
{
    lemma_top_label_idx(s.stack);
    assert(visible(s.stack) =~= s.stack);
    lemma_scope_end_rejects_wrong_arity(s.stack, results);
}

/// Reads a block type: empty, or a single value type.
fn read_block_type(wasm: &mut WasmReader) -> (r: Result<Vec<ValType>, Error>)
    requires
        old(wasm).wf(),
    ensures
        final(wasm).data() == old(wasm).data(),
        final(wasm).wf(),
        final(wasm).spec_pos() >= old(wasm).spec_pos(),
        match r {
            Ok(v) => block_type_at(old(wasm).data(), old(wasm).spec_pos()) == Ok::<
                (Seq<ValType>, int),
                Error,
            >((v@, final(wasm).spec_pos())),
            Err(err) => block_type_at(old(wasm).data(), old(wasm).spec_pos()) == Err::<
                (Seq<ValType>, int),
                Error,
            >(err),
        },
{
    let b = wasm.read_u8()?;
    if b == 0x40 {
        return Ok(Vec::new());
    }
    match crate::types::valtype_from_byte(b) {
        Some(t) => {
            let v = vec![t];
            assert(v@ =~= seq![t]);
            Ok(v)
        },
        None => Err(Error::InvalidBlockType(b)),
    }
}

/// Reads a local index and looks its type up.
fn read_local(wasm: &mut WasmReader, locals: &Vec<ValType>) -> (r: Result<ValType, Error>)
    requires
        old(wasm).wf(),
    ensures
        final(wasm).data() == old(wasm).data(),
        final(wasm).wf(),
        final(wasm).spec_pos() >= old(wasm).spec_pos(),
        at(r, final(wasm).spec_pos()) == local_at(old(wasm).data(), old(wasm).spec_pos(), locals@),
{
    let idx = wasm.read_var_u32()?;
    if idx as usize >= locals.len() {
        return Err(Error::InvalidLocalIdx);
    }
    Ok(locals[idx as usize])
}

/// Type-checks the instruction at the read position: one `body_step`.
/// `Ok(true)` when it was the function's own `end`.
fn check_instr(
    wasm: &mut WasmReader,
    stack: &mut ValidationStack,
    ctrl: &mut Vec<CtrlFrame>,
    locals: &Vec<ValType>,
    results: &Vec<ValType>,
    body_end: usize,
) -> (r: Result<bool, Error>)
    requires
        old(wasm).wf(),
        body_end <= old(wasm).data().len(),
    ensures
        final(wasm).data() == old(wasm).data(),
        final(wasm).wf(),
        final(wasm).spec_pos() > old(wasm).spec_pos() || r is Err,
        ({
            let cur = BodyState {
                pos: old(wasm).spec_pos(),
                stack: old(stack)@,
                ctrl: frames_view(old(ctrl)@),
            };
            match r {
                Ok(true) => body_step(old(wasm).data(), locals@, results@, body_end as int, cur)
                    == BodyStep::Finished(final(wasm).spec_pos()),
                Ok(false) => body_step(old(wasm).data(), locals@, results@, body_end as int, cur)
                    == BodyStep::Next(
                    BodyState {
                        pos: final(wasm).spec_pos(),
                        stack: final(stack)@,
                        ctrl: frames_view(final(ctrl)@),
                    },
                ),
                Err(err) => body_step(old(wasm).data(), locals@, results@, body_end as int, cur)
                    == BodyStep::Fail(err),
            }
        }),
{
    let ghost bs = wasm.data();
    let ghost cur = BodyState { pos: wasm.spec_pos(), stack: stack@, ctrl: frames_view(ctrl@) };
    proof {
        lemma_uleb_bounds(bs, cur.pos + 1, 5);
        lemma_sleb_bounds(bs, cur.pos + 1, 5);
        lemma_sleb_bounds(bs, cur.pos + 1, 10);
    }
    if wasm.pos() >= body_end {
        return Err(Error::CodeSizeMismatch);
    }
    let op = wasm.read_u8()?;
    match op {
        // unreachable
        0x00 => stack.make_unspecified(),
        // nop
        0x01 => {},
        // block, loop
        0x02 | 0x03 => {
            let results = read_block_type(wasm)?;
            let kind = if op == 0x02 {
                LabelKind::Block
            } else {
                LabelKind::Loop
            };
            ctrl.push(CtrlFrame { kind, results, in_else: false });
            stack.push_label(LabelInfo { kind });
            assert(frames_view(ctrl@) =~= cur.ctrl.push(Frame { kind, results: results@, in_else: false }));
        },
        // if
        0x04 => {
            let results = read_block_type(wasm)?;
            stack.assert_pop_val_type(ValType::I32)?;
            ctrl.push(CtrlFrame { kind: LabelKind::If, results, in_else: false });
            stack.push_label(LabelInfo { kind: LabelKind::If });
            assert(frames_view(ctrl@) =~= cur.ctrl.push(
                Frame { kind: LabelKind::If, results: results@, in_else: false },
            ));
        },
        // else
        0x05 => {
            match ctrl.pop() {
                Some(frame) => {
                    assert(frame_view(frame) == cur.ctrl.last());
                    if frame.kind != LabelKind::If || frame.in_else {
                        return Err(Error::ElseWithoutIf);
                    }
                    stack.assert_val_types(frame.results.as_slice())?;
                    stack.pop_label_and_above();
                    assert(stack@ =~= close_scope(cur.stack));
                    stack.push_label(LabelInfo { kind: LabelKind::If });
                    let ghost fr = frame.results@;
                    ctrl.push(CtrlFrame { kind: LabelKind::If, results: frame.results, in_else: true });
                    assert(frames_view(ctrl@) =~= cur.ctrl.drop_last().push(
                        Frame { kind: LabelKind::If, results: fr, in_else: true },
                    ));
                    proof {
                        lemma_top_label_idx(cur.stack);
                    }
                },
                None => {
                    return Err(Error::ElseWithoutIf);
                },
            }
        },
        // end
        0x0B => {
            if !stack.has_remaining_label() {
                stack.assert_val_types(results.as_slice())?;
                return Ok(true);
            }
            match ctrl.pop() {
                Some(frame) => {
                    assert(frame_view(frame) == cur.ctrl.last());
                    assert(frames_view(ctrl@) =~= cur.ctrl.drop_last());
                    if frame.kind == LabelKind::If && !frame.in_else && frame.results.len() > 0 {
                        return Err(Error::EndInvalidValueStack);
                    }
                    stack.assert_val_types(frame.results.as_slice())?;
                    stack.pop_label_and_above();
                    proof {
                        lemma_top_label_idx(cur.stack);
                    }
                    assert(stack@ =~= close_scope(cur.stack));
                    let ghost closed = stack@;
                    let mut j: usize = 0;
                    while j < frame.results.len()
                        invariant
                            j <= frame.results@.len(),
                            stack@ == push_vals(closed, frame.results@.subrange(0, j as int)),
                        decreases frame.results.len() - j,
                    {
                        stack.push_valtype(frame.results[j]);
                        j = j + 1;
                        assert(stack@ =~= push_vals(closed, frame.results@.subrange(0, j as int)));
                    }
                    assert(frame.results@.subrange(0, frame.results@.len() as int) =~= frame.results@);
                },
                None => {
                    return Err(Error::EndInvalidValueStack);
                },
            }
        },
        // return
        0x0F => {
            stack.assert_val_types_on_top(results.as_slice())?;
            stack.make_unspecified();
        },
        // local.get
        0x20 => {
            let t = read_local(wasm, locals)?;
            stack.push_valtype(t);
        },
        // local.set
        0x21 => {
            let t = read_local(wasm, locals)?;
            stack.assert_pop_val_type(t)?;
        },
        // local.tee
        0x22 => {
            let t = read_local(wasm, locals)?;
            stack.assert_pop_val_type(t)?;
            stack.push_valtype(t);
        },
        // i32.const
        0x41 => {
            wasm.read_var_i32()?;
            stack.push_valtype(ValType::I32);
        },
        // i64.const
        0x42 => {
            wasm.read_var_i64()?;
            stack.push_valtype(ValType::I64);
        },
        // i32.add
        0x6A => {
            stack.assert_pop_val_type(ValType::I32)?;
            stack.assert_pop_val_type(ValType::I32)?;
            stack.push_valtype(ValType::I32);
        },
        _ => {
            return Err(Error::UnsupportedInstruction(op));
        },
    }
    Ok(false)
}

/// Type-checks one function body that ends at `body_end` against `func_ty`,
/// and returns its declared locals. On success the reader stands at `body_end`.
pub fn validate_body(wasm: &mut WasmReader, body_end: usize, func_ty: &FuncType) -> (r: Result<
    Vec<ValType>,
    Error,
>)
    requires
        old(wasm).wf(),
        old(wasm).spec_pos() <= body_end <= old(wasm).data().len(),
    ensures
        final(wasm).data() == old(wasm).data(),
        final(wasm).wf(),
        match r {
            Ok(v) => check_body(
                old(wasm).data(),
                old(wasm).spec_pos(),
                body_end as int,
                func_ty.params@,
                func_ty.results@,
            ) == Ok::<Seq<ValType>, Error>(v@) && final(wasm).spec_pos() == body_end,
            Err(err) => check_body(
                old(wasm).data(),
                old(wasm).spec_pos(),
                body_end as int,
                func_ty.params@,
                func_ty.results@,
            ) == Err::<Seq<ValType>, Error>(err),
        },
{
    let ghost bs = wasm.data();
    let ghost p0 = wasm.spec_pos();
    let declared = read_declared_locals(wasm)?;
    let ghost p1 = wasm.spec_pos();
    if wasm.pos() > body_end {
        return Err(Error::CodeSizeMismatch);
    }
    let mut locals: Vec<ValType> = Vec::new();
    let mut i: usize = 0;
    while i < func_ty.params.len()
        invariant
            i <= func_ty.params@.len(),
            locals@ == func_ty.params@.subrange(0, i as int),
        decreases func_ty.params.len() - i,
    {
        locals.push(func_ty.params[i]);
        i = i + 1;
        assert(locals@ =~= func_ty.params@.subrange(0, i as int));
    }
    assert(func_ty.params@.subrange(0, func_ty.params@.len() as int) =~= func_ty.params@);
    let mut i: usize = 0;
    while i < declared.len()
        invariant
            i <= declared@.len(),
            locals@ == func_ty.params@ + declared@.subrange(0, i as int),
        decreases declared.len() - i,
    {
        locals.push(declared[i]);
        i = i + 1;
        assert(locals@ =~= func_ty.params@ + declared@.subrange(0, i as int));
    }
    assert(declared@.subrange(0, declared@.len() as int) =~= declared@);
    let ghost lv = locals@;
    let ghost rs = func_ty.results@;
    let ghost s0 = BodyState { pos: p1, stack: Seq::empty(), ctrl: Seq::empty() };
    let mut stack = ValidationStack::new();
    let mut ctrl: Vec<CtrlFrame> = Vec::new();
    assert(frames_view(ctrl@) =~= Seq::<Frame>::empty());
    loop
        invariant_except_break
            body_run(bs, lv, rs, body_end as int, s0) == body_run(
                bs,
                lv,
                rs,
                body_end as int,
                BodyState { pos: wasm.spec_pos(), stack: stack@, ctrl: frames_view(ctrl@) },
            ),
        invariant
            wasm.data() == bs,
            bs == old(wasm).data(),
            wasm.wf(),
            body_end <= bs.len(),
            locals@ == lv,
            rs == func_ty.results@,
            p0 == old(wasm).spec_pos(),
            declared_locals(bs, p0) == Ok::<(Seq<ValType>, int), Error>((declared@, p1)),
            p1 <= body_end,
            lv == func_ty.params@ + declared@,
            s0 == (BodyState { pos: p1, stack: Seq::empty(), ctrl: Seq::empty() }),
        ensures
            wasm.data() == bs,
            wasm.wf(),
            body_run(bs, lv, rs, body_end as int, s0) == Ok::<int, Error>(wasm.spec_pos()),
        decreases bs.len() - wasm.spec_pos(),
    {
        let ghost cur = BodyState { pos: wasm.spec_pos(), stack: stack@, ctrl: frames_view(ctrl@) };
        match check_instr(wasm, &mut stack, &mut ctrl, &locals, &func_ty.results, body_end) {
            Ok(true) => {
                break ;
            },
            Ok(false) => {},
            Err(err) => {
                assert(body_run(bs, lv, rs, body_end as int, cur) == Err::<int, Error>(err));
                return Err(err);
            },
        }
    }
    if wasm.pos() != body_end {
        return Err(Error::CodeSizeMismatch);
    }
    Ok(declared)
}

/// `k` function bodies at `pos`, each a size and that many bytes: the span of
/// each.
pub open spec fn code_bodies_run(bs: Seq<u8>, pos: int, k: nat) -> Result<(Seq<Span>, int), Error>
    decreases k,
{
    if k == 0 {
        Ok((Seq::empty(), pos))
    } else {
        match var_u32(bs, pos) {
            Err(err) => Err(err),
            Ok((size, from)) => if from + size > bs.len() {
                Err(Error::Eof)
            } else {
                prepend(
                    seq![Span { from: from as usize, len: size as usize }],
                    code_bodies_run(bs, from + size, (k - 1) as nat),
                )
            },
        }
    }
}

/// The body spans of a code section at `pos`: a counted vector of bodies.
pub open spec fn code_spans_at(bs: Seq<u8>, pos: int) -> Result<(Seq<Span>, int), Error> {
    match var_u32(bs, pos) {
        Err(err) => Err(err),
        Ok((k, p)) => code_bodies_run(bs, p, k as nat),
    }
}

/// Bodies `i` to `n` of a code section at `pos`, each a size and that many
/// bytes that type-check against the function's type: where they end, if
/// they all do.
pub open spec fn bodies_end(
    bs: Seq<u8>,
    pos: int,
    i: nat,
    n: nat,
    functions: Seq<int>,
    types: Seq<(Seq<ValType>, Seq<ValType>)>,
) -> Option<int>
    decreases n - i,
{
    if i >= n {
        Some(pos)
    } else {
        match var_u32(bs, pos) {
            Err(_) => None,
            Ok((size, from)) => if from + size > bs.len() || i >= functions.len() || !(0
                <= functions[i as int] < types.len()) || !(check_body(
                bs,
                from,
                from + size,
                types[functions[i as int]].0,
                types[functions[i as int]].1,
            ) is Ok) {
                None
            } else {
                bodies_end(bs, from + size, i + 1, n, functions, types)
            },
        }
    }
}

/// A code section at `pos` that validates: one body per declared function,
/// each type-checking; where it ends.
pub open spec fn code_section_end(
    bs: Seq<u8>,
    pos: int,
    functions: Seq<int>,
    types: Seq<(Seq<ValType>, Seq<ValType>)>,
) -> Option<int> {
    match var_u32(bs, pos) {
        Ok((n, p)) => if n == functions.len() {
            bodies_end(bs, p, 0, n as nat, functions, types)
        } else {
            None
        },
        Err(_) => None,
    }
}

/// Validates the bodies of the code section, one per declared function, and
/// returns the span of each.
pub fn validate_code_section(
    wasm: &mut WasmReader,
    types: &Vec<FuncType>,
    functions: &Vec<usize>,
) -> (r: Result<Vec<Span>, Error>)
    requires
        old(wasm).wf(),
    ensures
        final(wasm).data() == old(wasm).data(),
        final(wasm).wf(),
        var_u32(old(wasm).data(), old(wasm).spec_pos()) matches Ok((n, _)) && n != functions@.len()
            ==> r == Err::<Vec<Span>, Error>(Error::FunctionCountMismatch),
        r matches Ok(spans) ==> code_spans_at(old(wasm).data(), old(wasm).spec_pos()) == Ok::<
            (Seq<Span>, int),
            Error,
        >((spans@, final(wasm).spec_pos())),
        r matches Ok(spans) ==> spans@.len() == functions@.len() && (var_u32(
            old(wasm).data(),
            old(wasm).spec_pos(),
        ) matches Ok((n, _)) && n == spans@.len()) && forall|i: int|
            0 <= i < spans@.len() ==> body_ok(old(wasm).data(), #[trigger] spans@[i])
                && body_typechecks(old(wasm).data(), spans@[i], types@[functions@[i] as int]),
        code_section_end(
            old(wasm).data(),
            old(wasm).spec_pos(),
            functions@.map_values(|x: usize| x as int),
            types@.map_values(|ft: FuncType| sig(ft)),
        ) matches Some(e) ==> r is Ok && final(wasm).spec_pos() == e,
{
    let ghost bs = wasm.data();
    let ghost p0 = wasm.spec_pos();
    let n = wasm.read_var_u32()?;
    let ghost p1 = wasm.spec_pos();
    if n as usize != functions.len() {
        return Err(Error::FunctionCountMismatch);
    }
    let ghost fs = functions@.map_values(|x: usize| x as int);
    let ghost sigs = types@.map_values(|ft: FuncType| sig(ft));
    let ghost goal = code_section_end(bs, p0, fs, sigs);
    let mut spans: Vec<Span> = Vec::new();
    let mut i: usize = 0;
    while i < functions.len()
        invariant
            wasm.data() == bs,
            bs == old(wasm).data(),
            p0 == old(wasm).spec_pos(),
            var_u32(bs, p0) matches Ok((m, _)) && m == n,
            n == functions@.len(),
            wasm.wf(),
            i <= functions@.len(),
            spans@.len() == i,
            forall|j: int|
                0 <= j < spans@.len() ==> body_ok(bs, #[trigger] spans@[j]) && body_typechecks(
                    bs,
                    spans@[j],
                    types@[functions@[j] as int],
                ),
            fs == functions@.map_values(|x: usize| x as int),
            sigs == types@.map_values(|ft: FuncType| sig(ft)),
            goal == code_section_end(bs, p0, fs, sigs),
            goal is Some ==> goal == bodies_end(bs, wasm.spec_pos(), i as nat, n as nat, fs, sigs),
            var_u32(bs, p0) == Ok::<(u32, int), Error>((n, p1)),
            code_bodies_run(bs, p1, n as nat) == prepend(
                spans@,
                code_bodies_run(bs, wasm.spec_pos(), (n - i) as nat),
            ),
        decreases functions@.len() - i,
    {
        let ghost cur = wasm.spec_pos();
        let size = wasm.read_var_u32()?;
        let from = wasm.pos();
        let total = wasm.len();
        if size as usize > total - from {
            return Err(Error::Eof);
        }
        let ty_idx = functions[i];
        if ty_idx >= types.len() {
            return Err(Error::InvalidTypeIdx);
        }
        let body_end = from + size as usize;
        validate_body(wasm, body_end, &types[ty_idx])?;
        let span = Span { from, len: size as usize };
        proof {
            lemma_prepend_assoc(
                spans@,
                seq![span],
                code_bodies_run(bs, wasm.spec_pos(), (n - i - 1) as nat),
            );
        }
        let ghost s0 = spans@;
        spans.push(span);
        assert(spans@ =~= s0 + seq![span]);
        i = i + 1;
    }
    assert(spans@ + Seq::<Span>::empty() =~= spans@);
    assert(goal is Some ==> goal == Some(wasm.spec_pos()));
    Ok(spans)
}

} // verus!

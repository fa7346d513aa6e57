//! The execution engine: a runtime instance built from a validated module,
//! and an interpreter that runs one function body on an operand stack.
use vstd::prelude::*;

use crate::error::Error;
use crate::reader::{
    byte_at, lemma_sleb_bounds, lemma_uleb_bounds, var_i32, var_i64, var_u32, WasmReader,
};
use crate::types::{sig, FuncType, Span, ValType};
use crate::validation::code::{declared_locals, read_declared_locals};
use crate::validation::ValidationInfo;

pub mod store;
pub mod value;

use crate::execution::store::{FuncInst, Store};
use crate::execution::value::{type_of, zero_of, Value};

verus! {

/// The 32-bit two's-complement sum: the mathematical sum brought back into
/// range by adding or subtracting 2^32.
pub open spec fn i32_add_wrapping(a: i32, b: i32) -> i32 {
    if a + b > i32::MAX {
        (a + b - 0x1_0000_0000) as i32
    } else if a + b < i32::MIN {
        (a + b + 0x1_0000_0000) as i32
    } else {
        (a + b) as i32
    }
}

/// The interpreter's state: read position, locals, operand stack.
pub struct ExecState {
    pub pos: int,
    /// How many blocks, loops and ifs are open; `end` at depth 0 ends the function.
    pub depth: nat,
    pub locals: Seq<Value>,
    pub stack: Seq<Value>,
}

/// The outcome of one interpreter step.
pub enum Step {
    Next(ExecState),
    Done(Seq<Value>),
    Fault(Error),
}

/// One step: read an opcode and its immediates at `s.pos` and apply it.
/// `end` finishes; `local.get`, `local.set`, `i32.add` and `i32.const` act on
/// the locals and the stack; any other opcode byte is passed over.
pub open spec fn step(bs: Seq<u8>, s: ExecState) -> Step {
    match byte_at(bs, s.pos) {
        Err(err) => Step::Fault(err),
        Ok((op, p1)) => if op == 0x0B {
            if s.depth == 0 {
                Step::Done(s.stack)
            } else {
                Step::Next(ExecState { pos: p1, depth: (s.depth - 1) as nat, ..s })
            }
        } else if op == 0x02 || op == 0x03 || op == 0x04 {
            match byte_at(bs, p1) {
                Err(err) => Step::Fault(err),
                Ok((_, p2)) => Step::Next(ExecState { pos: p2, depth: s.depth + 1, ..s }),
            }
        } else if op == 0x22 {
            match var_u32(bs, p1) {
                Err(err) => Step::Fault(err),
                Ok((_, p2)) => Step::Next(ExecState { pos: p2, ..s }),
            }
        } else if op == 0x42 {
            match var_i64(bs, p1) {
                Err(err) => Step::Fault(err),
                Ok((_, p2)) => Step::Next(ExecState { pos: p2, ..s }),
            }
        } else if op == 0x20 {
            match var_u32(bs, p1) {
                Err(err) => Step::Fault(err),
                Ok((idx, p2)) => if idx < s.locals.len() {
                    Step::Next(
                        ExecState {
                            pos: p2,
 depth: s.depth,
                            locals: s.locals,
                            stack: s.stack.push(s.locals[idx as int]),
                        },
                    )
                } else {
                    Step::Fault(Error::InvalidLocalIdx)
                },
            }
        } else if op == 0x21 {
            match var_u32(bs, p1) {
                Err(err) => Step::Fault(err),
                Ok((idx, p2)) => if idx >= s.locals.len() {
                    Step::Fault(Error::InvalidLocalIdx)
                } else if s.stack.len() == 0 {
                    Step::Fault(Error::OperandStackUnderflow)
                } else if type_of(s.stack.last()) != type_of(s.locals[idx as int]) {
                    Step::Fault(Error::OperandTypeMismatch)
                } else {
                    Step::Next(
                        ExecState {
                            pos: p2,
 depth: s.depth,
                            locals: s.locals.update(idx as int, s.stack.last()),
                            stack: s.stack.drop_last(),
                        },
                    )
                },
            }
        } else if op == 0x6A {
            if s.stack.len() < 2 {
                Step::Fault(Error::OperandStackUnderflow)
            } else {
                match (s.stack.last(), s.stack.drop_last().last()) {
                    (Value::I32(v1), Value::I32(v2)) => Step::Next(
                        ExecState {
                            pos: p1,
 depth: s.depth,
                            locals: s.locals,
                            stack: s.stack.drop_last().drop_last().push(
                                Value::I32(i32_add_wrapping(v1, v2)),
                            ),
                        },
                    ),
                    _ => Step::Fault(Error::OperandTypeMismatch),
                }
            }
        } else if op == 0x41 {
            match var_i32(bs, p1) {
                Err(err) => Step::Fault(err),
                Ok((c, p2)) => Step::Next(
                    ExecState { pos: p2,
 depth: s.depth, locals: s.locals, stack: s.stack.push(Value::I32(c)) },
                ),
            }
        } else {
            Step::Next(ExecState { pos: p1, ..s })
        },
    }
}

#[via_fn]
proof fn run_decreases(bs: Seq<u8>, s: ExecState) {
    lemma_uleb_bounds(bs, s.pos + 1, 5);
    lemma_sleb_bounds(bs, s.pos + 1, 5);
    lemma_sleb_bounds(bs, s.pos + 1, 10);
}

/// Steps from `s` until `end` (the final operand stack) or a fault.
pub open spec fn run(bs: Seq<u8>, s: ExecState) -> Result<Seq<Value>, Error>
    decreases bs.len() - s.pos,
    via run_decreases
{
    match step(bs, s) {
        Step::Next(s2) => run(bs, s2),
        Step::Done(stack) => Ok(stack),
        Step::Fault(err) => Err(err),
    }
}

/// Runs the code at `start` with `locals` and an empty operand stack, until
/// the function's own `end`; returns the final operand stack.
fn execute(wasm: &[u8], start: usize, locals: Vec<Value>) -> (r: Result<Vec<Value>, Error>)
    requires
        start <= wasm@.len(),
    ensures
        match r {
            Ok(stack) => run(wasm@, ExecState { pos: start as int, depth: 0, locals: locals@, stack: Seq::empty() })
                == Ok::<Seq<Value>, Error>(stack@),
            Err(err) => run(wasm@, ExecState { pos: start as int, depth: 0, locals: locals@, stack: Seq::empty() })
                == Err::<Seq<Value>, Error>(err),
        },
{
    let ghost bs = wasm@;
    let ghost s0 = ExecState { pos: start as int, depth: 0, locals: locals@, stack: Seq::empty() };
    let mut reader = WasmReader::new(wasm);
    reader.move_to(start);
    let mut frame = locals;
    let mut stack: Vec<Value> = Vec::new();
    let mut depth: usize = 0;
    let total = reader.len();
    loop
        invariant
            depth <= reader.spec_pos(),
            total == bs.len(),
            reader.data() == bs,
            bs == wasm@,
            s0 == (ExecState { pos: start as int, depth: 0, locals: locals@, stack: Seq::empty() }),
            reader.wf(),
            run(bs, s0) == run(
                bs,
                ExecState { pos: reader.spec_pos(), depth: depth as nat, locals: frame@, stack: stack@ },
            ),
        decreases bs.len() - reader.spec_pos(),
    {
        let ghost cur = ExecState { pos: reader.spec_pos(), depth: depth as nat, locals: frame@, stack: stack@ };
        proof {
            lemma_uleb_bounds(bs, cur.pos + 1, 5);
            lemma_sleb_bounds(bs, cur.pos + 1, 5);
            lemma_sleb_bounds(bs, cur.pos + 1, 10);
        }
        let op = reader.read_u8()?;
        match op {
            // end: of the function at depth 0, else of a block, loop or if
            0x0B => {
                if depth == 0 {
                    return Ok(stack);
                }
                depth = depth - 1;
            },
            // block, loop, if: not run yet; passed over with their block type
            0x02 | 0x03 | 0x04 => {
                reader.read_u8()?;
                assert(depth < total);
                depth = depth + 1;
            },
            // local.tee: not run yet; passed over with its index
            0x22 => {
                reader.read_var_u32()?;
            },
            // i64.const: not run yet; passed over with its immediate
            0x42 => {
                reader.read_var_i64()?;
            },
            // local.get: [] -> [t]
            0x20 => {
                let idx = reader.read_var_u32()?;
                if idx as usize >= frame.len() {
                    return Err(Error::InvalidLocalIdx);
                }
                stack.push(frame[idx as usize]);
            },
            // local.set: [t] -> []
            0x21 => {
                let idx = reader.read_var_u32()?;
                if idx as usize >= frame.len() {
                    return Err(Error::InvalidLocalIdx);
                }
                let value = match stack.pop() {
                    Some(v) => v,
                    None => {
                        return Err(Error::OperandStackUnderflow);
                    },
                };
                if value.to_ty() != frame[idx as usize].to_ty() {
                    return Err(Error::OperandTypeMismatch);
                }
                frame.set(idx as usize, value);
            },
            // i32.add: [i32 i32] -> [i32]
            0x6A => {
                if stack.len() < 2 {
                    return Err(Error::OperandStackUnderflow);
                }
                let v1 = stack.pop();
                let v2 = stack.pop();
                match (v1, v2) {
                    (Some(Value::I32(v1)), Some(Value::I32(v2))) => {
                        stack.push(Value::I32(v1.wrapping_add(v2)));
                    },
                    _ => {
                        return Err(Error::OperandTypeMismatch);
                    },
                }
            },
            // i32.const: [] -> [i32]
            0x41 => {
                let constant = reader.read_var_i32()?;
                stack.push(Value::I32(constant));
            },
            // Not implemented yet: passed over with no effect.
            _ => {},
        }
    }
}

/// The top `rs.len()` values of a final operand stack, bottom-most first, if
/// their types are `rs`.
pub open spec fn take_results(stack: Seq<Value>, rs: Seq<ValType>) -> Result<Seq<Value>, Error> {
    if stack.len() < rs.len() {
        Err(Error::OperandStackUnderflow)
    } else {
        let top = stack.subrange(stack.len() - rs.len(), stack.len() as int);
        if top.map_values(|v: Value| type_of(v)) == rs {
            Ok(top)
        } else {
            Err(Error::OperandTypeMismatch)
        }
    }
}

/// The function instance that the store builder makes of the body at `block`
/// with type index `ty` and parameter types `params`: its locals are the
/// parameters followed by the declared locals of the header, and its code the
/// instructions after the header.
pub open spec fn func_inst_of(
    bs: Seq<u8>,
    ty: usize,
    params: Seq<ValType>,
    block: Span,
    f: FuncInst,
) -> bool {
    &&& f.ty == ty
    &&& declared_locals(bs, block.from as int) matches Ok((declared, p)) && f.locals@ == params
        + declared && f.code_expr.from == p
    &&& f.code_expr.from + f.code_expr.len == block.from + block.len
}

fn copy_valtypes(v: &Vec<ValType>) -> (r: Vec<ValType>)
    ensures
        r@ == v@,
{
    let mut r: Vec<ValType> = Vec::new();
    let mut i: usize = 0;
    while i < v.len()
        invariant
            i <= v@.len(),
            r@ == v@.subrange(0, i as int),
        decreases v@.len() - i,
    {
        r.push(v[i]);
        i = i + 1;
        assert(r@ =~= v@.subrange(0, i as int));
    }
    assert(v@.subrange(0, v@.len() as int) =~= v@);
    r
}

fn copy_types(types: &Vec<FuncType>) -> (r: Vec<FuncType>)
    ensures
        r@.len() == types@.len(),
        forall|i: int| 0 <= i < r@.len() ==> sig(#[trigger] r@[i]) == sig(types@[i]),
{
    let mut r: Vec<FuncType> = Vec::new();
    let mut i: usize = 0;
    while i < types.len()
        invariant
            i <= types@.len(),
            r@.len() == i,
            forall|j: int| 0 <= j < r@.len() ==> sig(#[trigger] r@[j]) == sig(types@[j]),
        decreases types@.len() - i,
    {
        let params = copy_valtypes(&types[i].params);
        let results = copy_valtypes(&types[i].results);
        let ft = FuncType { params, results };
        r.push(ft);
        i = i + 1;
    }
    r
}

/// An instantiated module: the module buffer, its function types and its store.
pub struct RuntimeInstance<'b> {
    wasm_bytecode: &'b [u8],
    types: Vec<FuncType>,
    store: Store,
}

impl<'b> RuntimeInstance<'b> {
    /// The module buffer.
    pub closed spec fn spec_wasm(&self) -> Seq<u8> {
        self.wasm_bytecode@
    }

    /// The signature of each function type.
    pub closed spec fn spec_types(&self) -> Seq<(Seq<ValType>, Seq<ValType>)> {
        self.types@.map_values(|ft: FuncType| sig(ft))
    }

    /// The function instances.
    pub closed spec fn spec_funcs(&self) -> Seq<FuncInst> {
        self.store.funcs@
    }

    /// What invoking function `idx` with `params` yields: the parameters'
    /// types must be the function's; the locals are the arguments in place of
    /// the parameters, then the declared locals, zeroed; the code runs to its `end`; the results are
    /// the top values of the final stack, typed as the function declares.
    pub open spec fn spec_invoke(&self, idx: usize, params: Seq<Value>) -> Result<
        Seq<Value>,
        Error,
    > {
        if idx >= self.spec_funcs().len() || self.spec_funcs()[idx as int].ty
            >= self.spec_types().len() {
            Err(Error::InvalidFuncIdx)
        } else {
            let f = self.spec_funcs()[idx as int];
            let (ps, rs) = self.spec_types()[f.ty as int];
            if params.map_values(|v: Value| type_of(v)) != ps {
                Err(Error::InvalidParamTypes)
            } else if f.locals@.len() < ps.len() {
                Err(Error::InvalidFuncIdx)
            } else if f.code_expr.from > self.spec_wasm().len() {
                Err(Error::Eof)
            } else {
                match run(
                    self.spec_wasm(),
                    ExecState {
                        pos: f.code_expr.from as int,
                        depth: 0,
                        locals: params + f.locals@.subrange(
                            ps.len() as int,
                            f.locals@.len() as int,
                        ).map_values(|t: ValType| zero_of(t)),
                        stack: Seq::empty(),
                    },
                ) {
                    Ok(stack) => take_results(stack, rs),
                    Err(err) => Err(err),
                }
            }
        }
    }

    /// Instantiates a validated module: one function instance per declared
    /// function, in declaration order.
    pub fn new(validation_info: &ValidationInfo<'b>) -> (r: Result<Self, Error>)
        ensures
            validation_info.wf() ==> r is Ok,
            r matches Ok(inst) ==> {
                &&& inst.spec_wasm() == validation_info.spec_wasm()
                &&& inst.spec_types().len() == validation_info.spec_type_count()
                &&& forall|i: int|
                    0 <= i < inst.spec_types().len() ==> #[trigger] inst.spec_types()[i] == sig(
                        validation_info.spec_types()[i],
                    )
                &&& inst.spec_funcs().len() == validation_info.spec_functions().len()
                &&& forall|i: int|
                    0 <= i < inst.spec_funcs().len() ==> func_inst_of(
                        validation_info.spec_wasm(),
                        validation_info.spec_functions()[i],
                        validation_info.spec_types()[validation_info.spec_functions()[i] as int].params@,
                        validation_info.spec_func_blocks()[i],
                        #[trigger] inst.spec_funcs()[i],
                    )
            },
    {
        let store = Self::init_store(validation_info)?;
        let types = copy_types(validation_info.types());
        Ok(RuntimeInstance { wasm_bytecode: validation_info.wasm(), types, store })
    }

    /// Re-reads each function body: decodes its locals header and keeps the
    /// span of the instructions after it.
    fn init_store(validation_info: &ValidationInfo) -> (r: Result<Store, Error>)
        ensures
            validation_info.wf() ==> r is Ok,
            r matches Ok(store) ==> {
                &&& store.funcs@.len() == validation_info.spec_functions().len()
                &&& store.funcs@.len() <= validation_info.spec_func_blocks().len()
                &&& forall|i: int|
                    0 <= i < store.funcs@.len() ==> func_inst_of(
                        validation_info.spec_wasm(),
                        validation_info.spec_functions()[i],
                        validation_info.spec_types()[validation_info.spec_functions()[i] as int].params@,
                        validation_info.spec_func_blocks()[i],
                        #[trigger] store.funcs@[i],
                    )
            },
    {
        let wasm = validation_info.wasm();
        let functions = validation_info.functions();
        let func_blocks = validation_info.func_blocks();
        let types = validation_info.types();
        if functions.len() > func_blocks.len() {
            return Err(Error::FunctionCountMismatch);
        }
        let mut wasm_reader = WasmReader::new(wasm);
        let mut funcs: Vec<FuncInst> = Vec::new();
        let mut i: usize = 0;
        while i < functions.len()
            invariant
                wasm_reader.data() == wasm@,
                wasm@ == validation_info.spec_wasm(),
                functions@ == validation_info.spec_functions(),
                func_blocks@ == validation_info.spec_func_blocks(),
                types@ == validation_info.spec_types(),
                types@.len() == validation_info.spec_type_count(),
                functions@.len() <= func_blocks@.len(),
                wasm_reader.wf(),
                i <= functions@.len(),
                funcs@.len() == i,
                forall|j: int|
                    0 <= j < funcs@.len() ==> func_inst_of(
                        wasm@,
                        functions@[j],
                        types@[functions@[j] as int].params@,
                        func_blocks@[j],
                        #[trigger] funcs@[j],
                    ),
                validation_info.wf() ==> forall|j: int|
                    0 <= j < func_blocks@.len() ==> crate::validation::code::body_ok(
                        wasm@,
                        #[trigger] func_blocks@[j],
                    ),
            decreases functions@.len() - i,
        {
            let block = func_blocks[i];
            if block.from > wasm_reader.len() || block.len > wasm_reader.len() - block.from {
                return Err(Error::Eof);
            }
            wasm_reader.move_to(block.from);
            let ty = functions[i];
            if ty >= types.len() {
                return Err(Error::InvalidTypeIdx);
            }
            let declared = read_declared_locals(&mut wasm_reader)?;
            let bytes_read = wasm_reader.pos() - block.from;
            if bytes_read > block.len {
                return Err(Error::CodeSizeMismatch);
            }
            let code_expr = Span { from: wasm_reader.pos(), len: block.len - bytes_read };
            // Parameters first, then the declared locals.
            let mut locals = copy_valtypes(&types[ty].params);
            let ghost ps = locals@;
            let mut j: usize = 0;
            while j < declared.len()
                invariant
                    j <= declared@.len(),
                    locals@ == ps + declared@.subrange(0, j as int),
                decreases declared@.len() - j,
            {
                locals.push(declared[j]);
                j = j + 1;
                assert(locals@ =~= ps + declared@.subrange(0, j as int));
            }
            assert(declared@.subrange(0, declared@.len() as int) =~= declared@);
            funcs.push(FuncInst { ty, locals, code_expr });
            i = i + 1;
        }
        Ok(Store { funcs })
    }

    /// Invokes function `func_idx` with `params` and returns its results, in
    /// the order the function declares them. The instance is left as it was.
    ///
    /// Arguments whose types differ from the function's parameter types are
    /// rejected with `Error::InvalidParamTypes` before any instruction runs:
    /// a recoverable error, where an unrecoverable abort would also meet the
    /// call contract. Opcodes the interpreter does not run yet are passed over
    /// (see `step`), so a validated body that uses them may end in
    /// `OperandStackUnderflow` or `OperandTypeMismatch`.
    #[verifier::loop_isolation(false)]
    pub fn invoke_func(&mut self, func_idx: usize, params: Vec<Value>) -> (r: Result<
        Vec<Value>,
        Error,
    >)
        ensures
            *final(self) == *old(self),
            match r {
                Ok(v) => old(self).spec_invoke(func_idx, params@) == Ok::<Seq<Value>, Error>(v@),
                Err(err) => old(self).spec_invoke(func_idx, params@) == Err::<Seq<Value>, Error>(
                    err,
                ),
            },
    {
        if func_idx >= self.store.funcs.len() {
            return Err(Error::InvalidFuncIdx);
        }
        let func_inst = &self.store.funcs[func_idx];
        if func_inst.ty >= self.types.len() {
            return Err(Error::InvalidFuncIdx);
        }
        let func_ty = &self.types[func_inst.ty];
        let ghost ps = func_ty.params@;
        let ghost rs = func_ty.results@;
        assert(self.spec_types()[func_inst.ty as int] == (ps, rs));
        // The arguments must have the parameter types.
        if params.len() != func_ty.params.len() {
            return Err(Error::InvalidParamTypes);
        }
        let mut i: usize = 0;
        while i < params.len()
            invariant
                params@.len() == ps.len(),
                ps == func_ty.params@,
                i <= params@.len(),
                forall|j: int| 0 <= j < i ==> type_of(#[trigger] params@[j]) == ps[j],
            decreases params@.len() - i,
        {
            if params[i].to_ty() != func_ty.params[i] {
                assert(params@.map_values(|v: Value| type_of(v))[i as int] != ps[i as int]);
                return Err(Error::InvalidParamTypes);
            }
            i = i + 1;
        }
        assert(params@.map_values(|v: Value| type_of(v)) =~= ps);
        // The arguments stand for the parameters; the declared locals after
        // them start at zero.
        let np = func_ty.params.len();
        if func_inst.locals.len() < np {
            return Err(Error::InvalidFuncIdx);
        }
        let ghost declared = func_inst.locals@.subrange(np as int, func_inst.locals@.len() as int);
        let mut frame = params;
        let ghost p0 = frame@;
        let mut j: usize = np;
        while j < func_inst.locals.len()
            invariant
                np <= j <= func_inst.locals@.len(),
                declared == func_inst.locals@.subrange(np as int, func_inst.locals@.len() as int),
                frame@ == p0 + func_inst.locals@.subrange(np as int, j as int).map_values(
                    |t: ValType| zero_of(t),
                ),
            decreases func_inst.locals@.len() - j,
        {
            frame.push(Value::default_from_ty(func_inst.locals[j]));
            j = j + 1;
            assert(frame@ =~= p0 + func_inst.locals@.subrange(np as int, j as int).map_values(
                |t: ValType| zero_of(t),
            ));
        }
        if func_inst.code_expr.from > self.wasm_bytecode.len() {
            return Err(Error::Eof);
        }
        let stack = execute(self.wasm_bytecode, func_inst.code_expr.from, frame)?;
        // The results are the top values of the final stack, bottom-most first.
        let n = func_ty.results.len();
        if stack.len() < n {
            return Err(Error::OperandStackUnderflow);
        }
        let base = stack.len() - n;
        let ghost top = stack@.subrange(base as int, stack@.len() as int);
        let mut results: Vec<Value> = Vec::new();
        let mut k: usize = 0;
        while k < n
            invariant
                n == rs.len(),
                rs == func_ty.results@,
                base + n == stack@.len(),
                top == stack@.subrange(base as int, stack@.len() as int),
                k <= n,
                results@ == top.subrange(0, k as int),
                forall|j: int| 0 <= j < k ==> type_of(#[trigger] top[j]) == rs[j],
            decreases n - k,
        {
            let v = stack[base + k];
            if v.to_ty() != func_ty.results[k] {
                assert(top.map_values(|v: Value| type_of(v))[k as int] != rs[k as int]);
                return Err(Error::OperandTypeMismatch);
            }
            results.push(v);
            k = k + 1;
            assert(results@ =~= top.subrange(0, k as int));
        }
        assert(top.subrange(0, n as int) =~= top);
        assert(top.map_values(|v: Value| type_of(v)) =~= rs);
        Ok(results)
    }
}

/// Invoking has no hidden state: the result is a function of the instance,
/// the function index and the arguments, and `invoke_func` leaves the instance
/// unchanged, so invoking again with the same index and arguments yields the
/// same result.
pub proof fn lemma_invoke_deterministic(
    first: RuntimeInstance,
    second: RuntimeInstance,
    idx: usize,
    params: Seq<Value>,
)
    requires
        first == second,
    ensures
        first.spec_invoke(idx, params) == second.spec_invoke(idx, params),
{
}

/// The body `local.get 0; i32.const 1; i32.add; end`.
pub open spec fn add_one_code() -> Seq<u8> {
    seq![0x20u8, 0x00, 0x41, 0x01, 0x6A, 0x0B]
}

/// The body `local.get 0; i32.const 1; i32.add`, wherever it stands in a
/// buffer, returns its argument plus one in 32-bit two's complement, for every
/// argument: 11 gives 12, 0 gives 1, -5 gives -4, and the largest value wraps
/// round to the smallest.
pub proof fn lemma_add_one_wraps(bs: Seq<u8>, p: int, x: i32)
    requires
        0 <= p,
        p + 6 <= bs.len(),
        bs.subrange(p, p + 6) == add_one_code(),
    ensures
        run(bs, ExecState { pos: p, depth: 0, locals: seq![Value::I32(x)], stack: Seq::empty() })
            == Ok::<Seq<Value>, Error>(seq![Value::I32(i32_add_wrapping(x, 1))]),
        i32_add_wrapping(11, 1) == 12,
        i32_add_wrapping(0, 1) == 1,
        i32_add_wrapping(-5i32, 1) == -4i32,
        i32_add_wrapping(i32::MAX, 1) == i32::MIN,
{
    reveal_with_fuel(run, 5);
    reveal_with_fuel(crate::reader::uleb, 2);
    reveal_with_fuel(crate::reader::sleb, 2);
    assert forall|i: int| 0 <= i < 6 implies bs[p + i] == #[trigger] add_one_code()[i] by {
        assert(bs[p + i] == bs.subrange(p, p + 6)[i]);
    }
    assert(bs[p] == 0x20 && bs[p + 1] == 0x00 && bs[p + 2] == 0x41 && bs[p + 3] == 0x01);
    assert(bs[p + 4] == 0x6A && bs[p + 5] == 0x0B);
    let l = seq![Value::I32(x)];
    let s0 = ExecState { pos: p, depth: 0, locals: l, stack: Seq::empty() };
    let s1 = ExecState { pos: p + 2, depth: 0, locals: l, stack: seq![Value::I32(x)] };
    let s2 = ExecState { pos: p + 4, depth: 0, locals: l, stack: seq![Value::I32(x), Value::I32(1)] };
    let s3 = ExecState {
        pos: p + 5,
        depth: 0,
        locals: l,
        stack: seq![Value::I32(i32_add_wrapping(1, x))],
    };
    assert(var_u32(bs, p + 1) == Ok::<(u32, int), Error>((0, p + 2)));
    assert(step(bs, s0) == Step::Next(s1));
    assert(var_i32(bs, p + 3) == Ok::<(i32, int), Error>((1, p + 4)));
    assert(s1.stack.push(Value::I32(1)) =~= s2.stack);
    assert(step(bs, s1) == Step::Next(s2));
    assert(s2.stack.drop_last().drop_last().push(Value::I32(i32_add_wrapping(1, x))) =~= s3.stack);
    assert(step(bs, s2) == Step::Next(s3));
    assert(step(bs, s3) == Step::Done(s3.stack));
}

/// Invoking a function of type [i32] -> [i32], with no declared locals and
/// the body `local.get 0; i32.const 1; i32.add`, on an i32 argument returns
/// that argument plus one in 32-bit two's complement.
pub proof fn lemma_invoke_add_one(inst: RuntimeInstance, idx: usize, x: i32)
    requires
        idx < inst.spec_funcs().len(),
        inst.spec_funcs()[idx as int].ty < inst.spec_types().len(),
        inst.spec_types()[inst.spec_funcs()[idx as int].ty as int] == (
            seq![ValType::I32],
            seq![ValType::I32],
        ),
        inst.spec_funcs()[idx as int].locals@ == seq![ValType::I32],
        inst.spec_funcs()[idx as int].code_expr.from + 6 <= inst.spec_wasm().len(),
        inst.spec_wasm().subrange(
            inst.spec_funcs()[idx as int].code_expr.from as int,
            inst.spec_funcs()[idx as int].code_expr.from + 6,
        ) == add_one_code(),
    ensures
        inst.spec_invoke(idx, seq![Value::I32(x)]) == Ok::<Seq<Value>, Error>(
            seq![Value::I32(i32_add_wrapping(x, 1))],
        ),
{
    let f = inst.spec_funcs()[idx as int];
    let params = seq![Value::I32(x)];
    assert(params.map_values(|v: Value| type_of(v)) =~= seq![ValType::I32]);
    let zeros = f.locals@.subrange(1, f.locals@.len() as int).map_values(|t: ValType| zero_of(t));
    assert(params + zeros =~= params);
    lemma_add_one_wraps(inst.spec_wasm(), f.code_expr.from as int, x);
    let out = seq![Value::I32(i32_add_wrapping(x, 1))];
    assert(out.subrange(0, 1) =~= out);
    assert(out.map_values(|v: Value| type_of(v)) =~= seq![ValType::I32]);
}

} // verus!

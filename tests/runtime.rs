use wasm::{validate, Error, LabelKind, RuntimeInstance, SectionTy, ValType, Value};

const I32: u8 = 0x7F;
const I64: u8 = 0x7E;

fn leb(mut n: u32, out: &mut Vec<u8>) {
    loop {
        let byte = (n & 0x7F) as u8;
        n >>= 7;
        if n == 0 {
            out.push(byte);
            return;
        }
        out.push(byte | 0x80);
    }
}

fn section(id: u8, contents: &[u8], out: &mut Vec<u8>) {
    out.push(id);
    leb(contents.len() as u32, out);
    out.extend_from_slice(contents);
}

fn module(sections: &[(u8, Vec<u8>)]) -> Vec<u8> {
    let mut out = vec![0x00, 0x61, 0x73, 0x6d, 0x01, 0x00, 0x00, 0x00];
    for (id, contents) in sections {
        section(*id, contents, &mut out);
    }
    out
}

fn type_section(types: &[(&[u8], &[u8])]) -> (u8, Vec<u8>) {
    let mut c = Vec::new();
    leb(types.len() as u32, &mut c);
    for (params, results) in types {
        c.push(0x60);
        leb(params.len() as u32, &mut c);
        c.extend_from_slice(params);
        leb(results.len() as u32, &mut c);
        c.extend_from_slice(results);
    }
    (1, c)
}

fn function_section(type_indices: &[u32]) -> (u8, Vec<u8>) {
    let mut c = Vec::new();
    leb(type_indices.len() as u32, &mut c);
    for idx in type_indices {
        leb(*idx, &mut c);
    }
    (3, c)
}

fn export_section(name: &str, func_idx: u32) -> (u8, Vec<u8>) {
    let mut c = vec![1];
    leb(name.len() as u32, &mut c);
    c.extend_from_slice(name.as_bytes());
    c.push(0x00);
    leb(func_idx, &mut c);
    (7, c)
}

/// Bodies are given as (locals header, instructions).
fn code_section(bodies: &[(&[u8], &[u8])]) -> (u8, Vec<u8>) {
    let mut c = Vec::new();
    leb(bodies.len() as u32, &mut c);
    for (locals, instrs) in bodies {
        leb((locals.len() + instrs.len()) as u32, &mut c);
        c.extend_from_slice(locals);
        c.extend_from_slice(instrs);
    }
    (10, c)
}

/// One function of type `params -> results` with the given body.
fn single_function(params: &[u8], results: &[u8], locals: &[u8], instrs: &[u8]) -> Vec<u8> {
    module(&[
        type_section(&[(params, results)]),
        function_section(&[0]),
        code_section(&[(locals, instrs)]),
    ])
}

fn add_one_module() -> Vec<u8> {
    module(&[
        type_section(&[(&[I32], &[I32])]),
        function_section(&[0]),
        export_section("add_one", 0),
        code_section(&[(&[0x00], &[0x20, 0x00, 0x41, 0x01, 0x6A, 0x0B])]),
    ])
}

fn run_i32(bytes: &[u8], arg: i32) -> i32 {
    let info = validate(bytes).expect("validation failed");
    let mut instance = RuntimeInstance::new(&info).expect("instantiation failed");
    match instance.invoke_func(0, vec![Value::I32(arg)]).expect("invocation failed")[..] {
        [Value::I32(r)] => r,
        ref other => panic!("unexpected results {:?}", other),
    }
}

#[test]
fn add_one_wraps_around() {
    let bytes = add_one_module();
    assert_eq!(run_i32(&bytes, 11), 12);
    assert_eq!(run_i32(&bytes, 0), 1);
    assert_eq!(run_i32(&bytes, -5), -4);
    assert_eq!(run_i32(&bytes, i32::MAX), i32::MIN);
    assert_eq!(run_i32(&bytes, -1), 0);
}

#[test]
fn repeated_invocation_gives_same_result() {
    let bytes = add_one_module();
    let info = validate(&bytes).expect("validation failed");
    let mut instance = RuntimeInstance::new(&info).expect("instantiation failed");
    let first = instance.invoke_func(0, vec![Value::I32(41)]);
    let second = instance.invoke_func(0, vec![Value::I32(41)]);
    assert_eq!(first, Ok(vec![Value::I32(42)]));
    assert_eq!(first, second);
}

#[test]
fn one_instance_per_declared_function() {
    let bytes = module(&[
        type_section(&[(&[I32], &[I32]), (&[], &[I32])]),
        function_section(&[0, 1]),
        code_section(&[
            (&[0x00], &[0x20, 0x00, 0x0B]),
            (&[0x00], &[0x41, 0x07, 0x0B]),
        ]),
    ]);
    let info = validate(&bytes).expect("validation failed");
    let mut instance = RuntimeInstance::new(&info).expect("instantiation failed");
    assert_eq!(instance.invoke_func(0, vec![Value::I32(3)]), Ok(vec![Value::I32(3)]));
    assert_eq!(instance.invoke_func(1, vec![]), Ok(vec![Value::I32(7)]));
    assert_eq!(instance.invoke_func(2, vec![]), Err(Error::InvalidFuncIdx));
}

#[test]
fn export_before_type_is_out_of_order() {
    let bytes = module(&[
        export_section("f", 0),
        type_section(&[(&[], &[])]),
    ]);
    assert_eq!(validate(&bytes).err(), Some(Error::SectionOutOfOrder(SectionTy::Type)));
}

#[test]
fn code_count_differs_from_function_count() {
    let bytes = module(&[
        type_section(&[(&[], &[])]),
        function_section(&[0, 0]),
        code_section(&[(&[0x00], &[0x0B])]),
    ]);
    assert_eq!(validate(&bytes).err(), Some(Error::FunctionCountMismatch));
}

#[test]
fn functions_without_code_section() {
    let bytes = module(&[type_section(&[(&[], &[])]), function_section(&[0])]);
    assert_eq!(validate(&bytes).err(), Some(Error::FunctionCountMismatch));
}

#[test]
fn too_many_results_rejected() {
    let bytes = single_function(&[], &[I32], &[0x00], &[0x41, 0x01, 0x41, 0x02, 0x0B]);
    assert_eq!(validate(&bytes).err(), Some(Error::EndInvalidValueStack));
}

#[test]
fn too_few_results_rejected() {
    let bytes = single_function(&[], &[I32, I32], &[0x00], &[0x41, 0x01, 0x0B]);
    assert_eq!(validate(&bytes).err(), Some(Error::EndInvalidValueStack));
    let empty = single_function(&[], &[I32], &[0x00], &[0x0B]);
    assert_eq!(validate(&empty).err(), Some(Error::EndInvalidValueStack));
}

#[test]
fn exact_results_accepted() {
    let bytes = single_function(&[], &[I32, I32], &[0x00], &[0x41, 0x01, 0x41, 0x02, 0x0B]);
    let info = validate(&bytes).expect("validation failed");
    let mut instance = RuntimeInstance::new(&info).expect("instantiation failed");
    assert_eq!(instance.invoke_func(0, vec![]), Ok(vec![Value::I32(1), Value::I32(2)]));
}

#[test]
fn unreachable_makes_any_pop_succeed() {
    // unreachable; i32.add; i32.add; end, in a function returning i32
    let bytes = single_function(&[], &[I32], &[0x00], &[0x00, 0x6A, 0x6A, 0x0B]);
    assert!(validate(&bytes).is_ok());
    // unreachable; local.set 0 (i64); end
    let bytes = single_function(&[I64], &[], &[0x00], &[0x00, 0x21, 0x00, 0x0B]);
    assert!(validate(&bytes).is_ok());
}

#[test]
fn return_makes_rest_of_scope_polymorphic() {
    // i32.const 1; return; i32.add; end
    let bytes = single_function(&[], &[I32], &[0x00], &[0x41, 0x01, 0x0F, 0x6A, 0x0B]);
    assert!(validate(&bytes).is_ok());
    // return with nothing on the stack for an i32 result
    let bytes = single_function(&[], &[I32], &[0x00], &[0x0F, 0x0B]);
    assert_eq!(validate(&bytes).err(), Some(Error::EndInvalidValueStack));
}

#[test]
fn unspecified_ends_with_a_new_label() {
    // unreachable; block; i32.add; end; ... : the block does not see the marker
    let bytes = single_function(&[], &[], &[0x00], &[0x00, 0x02, 0x40, 0x6A, 0x0B, 0x0B]);
    assert_eq!(validate(&bytes).err(), Some(Error::FoundLabel(LabelKind::Block)));
}

#[test]
fn pop_across_label_is_rejected() {
    // i32.const 1; block; local.set 0; end
    let bytes = single_function(&[I32], &[], &[0x00], &[0x41, 0x01, 0x02, 0x40, 0x21, 0x00, 0x0B, 0x0B]);
    assert_eq!(validate(&bytes).err(), Some(Error::FoundLabel(LabelKind::Block)));
}

#[test]
fn value_type_mismatch_rejected() {
    // i64.const 1; i32.const 1; i32.add
    let bytes = single_function(&[], &[I32], &[0x00], &[0x42, 0x01, 0x41, 0x01, 0x6A, 0x0B]);
    assert_eq!(
        validate(&bytes).err(),
        Some(Error::InvalidValidationStackValType(Some(ValType::I64)))
    );
    let bytes = single_function(&[], &[I32], &[0x00], &[0x6A, 0x0B]);
    assert_eq!(validate(&bytes).err(), Some(Error::InvalidValidationStackValType(None)));
}

#[test]
fn blocks_and_if_else_validate() {
    // block (result i32) i32.const 1 end; local.get 0; if (result i32) i32.const 2 else i32.const 3 end; i32.add
    let instrs = [
        0x02, I32, 0x41, 0x01, 0x0B, 0x20, 0x00, 0x04, I32, 0x41, 0x02, 0x05, 0x41, 0x03, 0x0B,
        0x6A, 0x0B,
    ];
    let bytes = single_function(&[I32], &[I32], &[0x00], &instrs);
    assert!(validate(&bytes).is_ok());
    // if with a result but without else
    let bytes = single_function(&[I32], &[I32], &[0x00], &[0x20, 0x00, 0x04, I32, 0x41, 0x02, 0x0B, 0x0B]);
    assert_eq!(validate(&bytes).err(), Some(Error::EndInvalidValueStack));
    // else without if
    let bytes = single_function(&[], &[], &[0x00], &[0x02, 0x40, 0x05, 0x0B, 0x0B]);
    assert_eq!(validate(&bytes).err(), Some(Error::ElseWithoutIf));
    // leftover value inside a block
    let bytes = single_function(&[], &[], &[0x00], &[0x02, 0x40, 0x41, 0x01, 0x0B, 0x0B]);
    assert_eq!(validate(&bytes).err(), Some(Error::EndInvalidValueStack));
}

#[test]
fn declared_locals_start_at_zero_and_can_be_set() {
    // one declared i32 local: local.get 1 is zero
    let bytes = single_function(&[I32], &[I32], &[0x01, 0x01, I32], &[0x20, 0x01, 0x0B]);
    assert_eq!(run_i32(&bytes, 9), 0);
    // i32.const 5; local.set 1; local.get 1; local.get 0; i32.add
    let instrs = [0x41, 0x05, 0x21, 0x01, 0x20, 0x01, 0x20, 0x00, 0x6A, 0x0B];
    let bytes = single_function(&[I32], &[I32], &[0x01, 0x01, I32], &instrs);
    assert_eq!(run_i32(&bytes, 9), 14);
}

#[test]
fn multi_byte_constants() {
    // i32.const -123456 (C0 BB 78); local.get 0; i32.add
    let bytes = single_function(&[I32], &[I32], &[0x00], &[0x41, 0xC0, 0xBB, 0x78, 0x20, 0x00, 0x6A, 0x0B]);
    assert_eq!(run_i32(&bytes, 123456), 0);
    // i32.const 624485 (E5 8E 26)
    let bytes = single_function(&[I32], &[I32], &[0x00], &[0x41, 0xE5, 0x8E, 0x26, 0x0B]);
    assert_eq!(run_i32(&bytes, 0), 624485);
}

#[test]
fn overlong_constant_rejected() {
    // six bytes for an i32
    let bytes = single_function(&[], &[I32], &[0x00], &[0x41, 0x80, 0x80, 0x80, 0x80, 0x80, 0x00, 0x0B]);
    assert_eq!(validate(&bytes).err(), Some(Error::MalformedVarInt));
    // five bytes whose value does not fit an i32
    let bytes = single_function(&[], &[I32], &[0x00], &[0x41, 0xFF, 0xFF, 0xFF, 0xFF, 0x0F, 0x0B]);
    assert_eq!(validate(&bytes).err(), Some(Error::MalformedVarInt));
}

#[test]
fn wrong_argument_types_rejected() {
    let bytes = add_one_module();
    let info = validate(&bytes).expect("validation failed");
    let mut instance = RuntimeInstance::new(&info).expect("instantiation failed");
    assert_eq!(instance.invoke_func(0, vec![Value::I64(11)]), Err(Error::InvalidParamTypes));
    assert_eq!(instance.invoke_func(0, vec![]), Err(Error::InvalidParamTypes));
    assert_eq!(
        instance.invoke_func(0, vec![Value::I32(1), Value::I32(2)]),
        Err(Error::InvalidParamTypes)
    );
}

#[test]
fn header_errors() {
    assert_eq!(validate(&[0x00, 0x61, 0x73]).err(), Some(Error::Eof));
    assert_eq!(validate(&[0x00, 0x61, 0x73, 0x6e, 1, 0, 0, 0]).err(), Some(Error::InvalidMagic));
    assert_eq!(validate(&[0x00, 0x61, 0x73, 0x6d, 1, 0]).err(), Some(Error::Eof));
    assert_eq!(validate(&[0x00, 0x61, 0x73, 0x6d, 2, 0, 0, 0]).err(), Some(Error::InvalidVersion));
    assert!(validate(&[0x00, 0x61, 0x73, 0x6d, 1, 0, 0, 0]).is_ok());
}

#[test]
fn custom_sections_skipped_anywhere() {
    let custom = (0u8, vec![0x04, b'n', b'a', b'm', b'e', 0xAA, 0xBB]);
    let bytes = module(&[
        custom.clone(),
        type_section(&[(&[I32], &[I32])]),
        custom.clone(),
        function_section(&[0]),
        custom.clone(),
        code_section(&[(&[0x00], &[0x20, 0x00, 0x41, 0x01, 0x6A, 0x0B])]),
        custom,
    ]);
    assert_eq!(run_i32(&bytes, 1), 2);
}

#[test]
fn unsupported_sections_rejected() {
    let base = [0x00, 0x61, 0x73, 0x6d, 0x01, 0x00, 0x00, 0x00];
    let mut data = base.to_vec();
    section(11, &[0x00], &mut data);
    assert_eq!(validate(&data).err(), Some(Error::UnsupportedSection(SectionTy::Data)));
    let mut element = base.to_vec();
    section(9, &[0x00], &mut element);
    assert_eq!(validate(&element).err(), Some(Error::UnsupportedSection(SectionTy::Element)));
    let mut count = base.to_vec();
    section(12, &[0x00], &mut count);
    assert_eq!(validate(&count).err(), Some(Error::UnsupportedSection(SectionTy::DataCount)));
}

#[test]
fn malformed_sections_rejected() {
    let base = [0x00, 0x61, 0x73, 0x6d, 0x01, 0x00, 0x00, 0x00];
    let mut unknown = base.to_vec();
    section(13, &[], &mut unknown);
    assert_eq!(validate(&unknown).err(), Some(Error::InvalidSectionType(13)));
    // a type section whose header claims one byte more than its contents use
    let mut sized = base.to_vec();
    section(1, &[0x00, 0x00], &mut sized);
    assert_eq!(validate(&sized).err(), Some(Error::SectionSizeMismatch(SectionTy::Type)));
    // a section longer than the buffer
    let mut short = base.to_vec();
    short.extend_from_slice(&[0x01, 0x05, 0x00]);
    assert_eq!(validate(&short).err(), Some(Error::Eof));
    // two type sections
    let twice = module(&[type_section(&[]), type_section(&[])]);
    assert_eq!(validate(&twice).err(), Some(Error::SectionOutOfOrder(SectionTy::Type)));
    // a bad function type tag
    let bad_tag = module(&[(1, vec![0x01, 0x61, 0x00, 0x00])]);
    assert_eq!(validate(&bad_tag).err(), Some(Error::InvalidFuncTypeTag(0x61)));
    // a bad value type
    let bad_ty = module(&[(1, vec![0x01, 0x60, 0x01, 0x40, 0x00])]);
    assert_eq!(validate(&bad_ty).err(), Some(Error::InvalidValType(0x40)));
}

#[test]
fn function_body_errors() {
    // a type index beyond the type section
    let bytes = module(&[type_section(&[(&[], &[])]), function_section(&[1])]);
    assert_eq!(validate(&bytes).err(), Some(Error::InvalidTypeIdx));
    // a local index beyond the locals
    let bytes = single_function(&[], &[], &[0x00], &[0x20, 0x00, 0x0B]);
    assert_eq!(validate(&bytes).err(), Some(Error::InvalidLocalIdx));
    // an opcode the validator does not know (f32.add)
    let bytes = single_function(&[], &[], &[0x00], &[0x92, 0x0B]);
    assert_eq!(validate(&bytes).err(), Some(Error::UnsupportedInstruction(0x92)));
    // instructions that run past the body's end
    let bytes = single_function(&[], &[], &[0x00], &[0x01]);
    assert_eq!(validate(&bytes).err(), Some(Error::CodeSizeMismatch));
    // too many declared locals
    let bytes = single_function(&[], &[], &[0x01, 0xFF, 0xFF, 0x03, I32], &[0x0B]);
    assert_eq!(validate(&bytes).err(), Some(Error::TooManyLocals));
    // a block type that is neither empty nor a value type
    let bytes = single_function(&[], &[], &[0x00], &[0x02, 0x00, 0x0B, 0x0B]);
    assert_eq!(validate(&bytes).err(), Some(Error::InvalidBlockType(0x00)));
}

#[test]
fn module_level_items_decoded() {
    // import "m" "f" (func 0); a table, a memory, a global, an export and a start function
    let import = (2u8, vec![0x01, 0x01, b'm', 0x01, b'f', 0x00, 0x00]);
    let table = (4u8, vec![0x01, 0x70, 0x00, 0x01]);
    let memory = (5u8, vec![0x01, 0x01, 0x01, 0x02]);
    let global = (6u8, vec![0x01, I32, 0x01, 0x41, 0x2A, 0x0B]);
    let start = (8u8, vec![0x00]);
    let bytes = module(&[
        type_section(&[(&[], &[])]),
        import,
        function_section(&[0]),
        table,
        memory,
        global,
        export_section("g", 0),
        start,
        code_section(&[(&[0x00], &[0x0B])]),
    ]);
    let info = validate(&bytes).expect("validation failed");
    let mut instance = RuntimeInstance::new(&info).expect("instantiation failed");
    assert_eq!(instance.invoke_func(0, vec![]), Ok(vec![]));
    let bad_global = module(&[(6u8, vec![0x01, I32, 0x02, 0x41, 0x2A, 0x0B])]);
    assert_eq!(validate(&bad_global).err(), Some(Error::InvalidMut(0x02)));
    let bad_import = module(&[(2u8, vec![0x01, 0x01, b'm', 0x01, b'f', 0x04, 0x00])]);
    assert_eq!(validate(&bad_import).err(), Some(Error::InvalidImportDesc(0x04)));
    let bad_limits = module(&[(5u8, vec![0x01, 0x02, 0x01])]);
    assert_eq!(validate(&bad_limits).err(), Some(Error::InvalidLimitsType(0x02)));
}

#[test]
fn more_decoding_errors() {
    let bad_export = module(&[(7u8, vec![0x01, 0x01, b'e', 0x04, 0x00])]);
    assert_eq!(validate(&bad_export).err(), Some(Error::InvalidExportDesc(0x04)));
    let bad_table = module(&[(4u8, vec![0x01, 0x71, 0x00, 0x01])]);
    assert_eq!(validate(&bad_table).err(), Some(Error::InvalidRefType(0x71)));
    let bad_init = module(&[(6u8, vec![0x01, I32, 0x00, 0x01, 0x0B])]);
    assert_eq!(validate(&bad_init).err(), Some(Error::InvalidConstExpr));
}

#[test]
fn unimplemented_opcodes_are_passed_over_when_running() {
    // i64.const 1 validates, but the interpreter passes over it with its
    // immediate, so the declared i64 result is missing from the final stack.
    let bytes = single_function(&[], &[I64], &[0x00], &[0x42, 0x01, 0x0B]);
    let info = validate(&bytes).expect("validation failed");
    let mut instance = RuntimeInstance::new(&info).expect("instantiation failed");
    assert_eq!(instance.invoke_func(0, vec![]), Err(Error::OperandStackUnderflow));
    // i64.const -22 is the bytes 0x42 0x6A: the immediate 0x6A is not run as i32.add.
    let bytes = single_function(
        &[I64],
        &[I64, I64, I64],
        &[0x00],
        &[0x20, 0x00, 0x20, 0x00, 0x42, 0x6A, 0x0B],
    );
    let info = validate(&bytes).expect("validation failed");
    let mut instance = RuntimeInstance::new(&info).expect("instantiation failed");
    assert_eq!(instance.invoke_func(0, vec![Value::I64(3)]), Err(Error::OperandStackUnderflow));
}

#[test]
fn block_end_does_not_end_the_function() {
    // block (result i32) i32.const 5 end; local.get 0; i32.add; end
    let instrs = [0x02, I32, 0x41, 0x05, 0x0B, 0x20, 0x00, 0x6A, 0x0B];
    let bytes = single_function(&[I32], &[I32], &[0x00], &instrs);
    assert_eq!(run_i32(&bytes, 10), 15);
}

#[test]
fn local_tee_immediate_is_not_run() {
    // local.get 0; local.tee 11; end, with twelve locals: the index 0x0B is no `end`.
    let instrs = [0x20, 0x00, 0x22, 0x0B, 0x0B];
    let bytes = single_function(&[I32], &[I32], &[0x01, 0x0B, I32], &instrs);
    assert_eq!(run_i32(&bytes, 8), 8);
}

#[test]
fn two_results_in_declaration_order() {
    let bytes = single_function(&[I32, I32], &[I32, I32], &[0x00], &[0x20, 0x00, 0x20, 0x01, 0x0B]);
    let info = validate(&bytes).expect("validation failed");
    let mut instance = RuntimeInstance::new(&info).expect("instantiation failed");
    assert_eq!(
        instance.invoke_func(0, vec![Value::I32(1), Value::I32(2)]),
        Ok(vec![Value::I32(1), Value::I32(2)])
    );
}

#[test]
fn local_tee_keeps_the_value() {
    // local.get 0; local.tee 0 validates as [i32] -> [i32]
    let bytes = single_function(&[I32], &[I32], &[0x00], &[0x20, 0x00, 0x22, 0x00, 0x0B]);
    assert!(validate(&bytes).is_ok());
    // local.tee of an i64 local from an i32 value
    let bytes = single_function(&[I64], &[], &[0x00], &[0x41, 0x00, 0x22, 0x00, 0x0B]);
    assert_eq!(
        validate(&bytes).err(),
        Some(Error::InvalidValidationStackValType(Some(ValType::I32)))
    );
}

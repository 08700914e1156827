use mir_jit::code_alloc::unix_mmap;
use mir_jit::context::{Context, CtxState};
use mir_jit::ir::{Opcode, Operand, Ty, Var};
use mir_jit::JitError;

fn i64_var(name: &str) -> Var {
    Var { name: name.to_string(), ty: Ty::I64 }
}

/// Builds `add(a, b) = a + b` in a fresh context and returns the context
/// with the module and item indices, linked and ready for generation.
fn build_add(ctx: &mut Context, module: &str, func: &str) -> (usize, usize) {
    let m = ctx.new_module(module).unwrap();
    ctx.export(func).unwrap();
    let fi = ctx
        .new_func(func, vec![Ty::I64], vec![i64_var("a"), i64_var("b")])
        .unwrap();
    let a = ctx.reg("a").unwrap();
    let b = ctx.reg("b").unwrap();
    let res = ctx.new_func_reg("res", Ty::I64).unwrap();
    ctx.append_insn(
        Opcode::Add,
        vec![Operand::Reg(res), Operand::Reg(a), Operand::Reg(b)],
    )
    .unwrap();
    ctx.append_insn(Opcode::Ret, vec![Operand::Reg(res)]).unwrap();
    ctx.finish_func().unwrap();
    ctx.finish_module().unwrap();
    ctx.load_module(m).unwrap();
    ctx.link().unwrap();
    (m, fi)
}

#[test]
fn test_mir_jit_compile_add() {
    let mut ctx = Context::init(unix_mmap());
    let (m, fi) = build_add(&mut ctx, "test_mod", "add");
    let ep = ctx.gen(m, fi).unwrap();
    let result = ctx.invoke(ep, &vec![10, 20]).unwrap();
    assert_eq!(result, 30);
    assert_eq!(ctx.invoke(ep, &vec![100, 50]).unwrap(), 150);
    ctx.finish().unwrap();
}

#[test]
fn find_func_by_name() {
    let mut ctx = Context::init(unix_mmap());
    let (m, fi) = build_add(&mut ctx, "m_calc", "add_nums");
    assert_eq!(ctx.module_tail(), Some(m));
    assert_eq!(ctx.find_func(m, "add_nums"), Some(fi));
    assert_eq!(ctx.find_func(m, "other"), None);
    let ep = ctx.gen(m, fi).unwrap();
    assert_eq!(ctx.invoke(ep, &vec![100, 50]).unwrap(), 150);
}

#[test]
fn malformed_arity_rejected_no_partial_append() {
    let mut ctx = Context::init(unix_mmap());
    let m = ctx.new_module("m").unwrap();
    let fi = ctx
        .new_func("f", vec![Ty::I64], vec![i64_var("a")])
        .unwrap();
    let a = ctx.reg("a").unwrap();
    // `add` has arity 3; two operands must fail fast
    let r = ctx.append_insn(Opcode::Add, vec![Operand::Reg(a), Operand::Reg(a)]);
    assert_eq!(r, Err(JitError::MalformedInstruction));
    // wrong operand kind for the destination fails too
    let r = ctx.append_insn(
        Opcode::Add,
        vec![Operand::Imm(1), Operand::Reg(a), Operand::Reg(a)],
    );
    assert_eq!(r, Err(JitError::MalformedInstruction));
    // an undeclared register is out of scope
    let r = ctx.append_insn(Opcode::Ret, vec![Operand::Reg(a + 1)]);
    assert_eq!(r, Err(JitError::MalformedInstruction));
    // the list is unchanged: the body is still empty, so sealing fails
    assert_eq!(ctx.finish_func(), Err(JitError::MalformedInstruction));
    // and the function still works once a proper body is appended
    ctx.append_insn(Opcode::Ret, vec![Operand::Reg(a)]).unwrap();
    ctx.finish_func().unwrap();
    ctx.finish_module().unwrap();
    ctx.load_module(m).unwrap();
    ctx.link().unwrap();
    let ep = ctx.gen(m, fi).unwrap();
    assert_eq!(ctx.invoke(ep, &vec![7]).unwrap(), 7);
}

#[test]
fn duplicate_symbol_neither_callable() {
    let mut ctx = Context::init(unix_mmap());
    let m1 = ctx.new_module("m1").unwrap();
    ctx.export("f").unwrap();
    ctx.new_func("f", vec![Ty::I64], vec![]).unwrap();
    ctx.append_insn(Opcode::Ret, vec![Operand::Imm(1)]).unwrap();
    ctx.finish_func().unwrap();
    ctx.finish_module().unwrap();
    let m2 = ctx.new_module("m2").unwrap();
    ctx.export("f").unwrap();
    ctx.new_func("f", vec![Ty::I64], vec![]).unwrap();
    ctx.append_insn(Opcode::Ret, vec![Operand::Imm(2)]).unwrap();
    ctx.finish_func().unwrap();
    ctx.finish_module().unwrap();
    ctx.load_module(m1).unwrap();
    assert_eq!(
        ctx.load_module(m2),
        Err(JitError::DuplicateSymbol("f".to_string()))
    );
    // a third module calling `f` cannot link: the name resolves to nothing
    let m3 = ctx.new_module("m3").unwrap();
    ctx.export("g").unwrap();
    ctx.new_func("g", vec![Ty::I64], vec![]).unwrap();
    let d = ctx.new_func_reg("d", Ty::I64).unwrap();
    ctx.append_insn(
        Opcode::Call,
        vec![Operand::Reg(d), Operand::Str("f".to_string())],
    )
    .unwrap();
    ctx.append_insn(Opcode::Ret, vec![Operand::Reg(d)]).unwrap();
    ctx.finish_func().unwrap();
    ctx.finish_module().unwrap();
    ctx.load_module(m3).unwrap();
    let errs = ctx.link().unwrap_err();
    assert_eq!(errs, vec![JitError::DuplicateSymbol("f".to_string())]);
}

#[test]
fn unresolved_symbol_blocks_generation() {
    let mut ctx = Context::init(unix_mmap());
    let m = ctx.new_module("m").unwrap();
    ctx.export("caller").unwrap();
    let fi = ctx.new_func("caller", vec![Ty::I64], vec![]).unwrap();
    let d = ctx.new_func_reg("d", Ty::I64).unwrap();
    ctx.append_insn(
        Opcode::Call,
        vec![Operand::Reg(d), Operand::Str("missing_fn".to_string())],
    )
    .unwrap();
    ctx.append_insn(Opcode::Ret, vec![Operand::Reg(d)]).unwrap();
    ctx.finish_func().unwrap();
    ctx.finish_module().unwrap();
    ctx.load_module(m).unwrap();
    let errs = ctx.link().unwrap_err();
    assert_eq!(errs, vec![JitError::UnresolvedSymbol("missing_fn".to_string())]);
    // generation refuses the never-linked function
    assert_eq!(ctx.gen(m, fi), Err(JitError::NotLinked));
}

#[test]
fn use_after_finish_is_deterministic() {
    let mut ctx = Context::init(unix_mmap());
    let (m, fi) = build_add(&mut ctx, "m", "add");
    let ep = ctx.gen(m, fi).unwrap();
    ctx.finish().unwrap();
    assert_eq!(ctx.state(), CtxState::Finished);
    assert_eq!(ctx.new_module("x"), Err(JitError::UseAfterFinish));
    assert_eq!(
        ctx.new_func("f", vec![Ty::I64], vec![]),
        Err(JitError::UseAfterFinish)
    );
    assert_eq!(
        ctx.append_insn(Opcode::Ret, vec![Operand::Imm(0)]),
        Err(JitError::UseAfterFinish)
    );
    assert_eq!(ctx.load_module(0), Err(JitError::UseAfterFinish));
    assert_eq!(ctx.link(), Err(vec![JitError::UseAfterFinish]));
    assert_eq!(ctx.gen(m, fi), Err(JitError::UseAfterFinish));
    // the entry point died with its region
    assert_eq!(ctx.invoke(ep, &vec![1, 2]), Err(JitError::ProtectionFailure));
}

#[test]
fn finalizing_twice_safely_rejected() {
    let mut ctx = Context::init(unix_mmap());
    ctx.new_module("m").unwrap();
    ctx.new_func("f", vec![Ty::I64], vec![]).unwrap();
    ctx.append_insn(Opcode::Ret, vec![Operand::Imm(0)]).unwrap();
    ctx.finish_func().unwrap();
    assert_eq!(ctx.finish_func(), Err(JitError::AlreadyFinalized));
    ctx.finish_module().unwrap();
    assert_eq!(ctx.finish_module(), Err(JitError::AlreadyFinalized));
    ctx.finish().unwrap();
    assert_eq!(ctx.finish(), Err(JitError::UseAfterFinish));
}

#[test]
fn builder_state_errors() {
    let mut ctx = Context::init(unix_mmap());
    assert_eq!(
        ctx.new_func("f", vec![Ty::I64], vec![]),
        Err(JitError::NoOpenModule)
    );
    ctx.new_module("m").unwrap();
    assert_eq!(
        ctx.append_insn(Opcode::Ret, vec![Operand::Imm(0)]),
        Err(JitError::NoOpenFunction)
    );
    ctx.new_func("f", vec![Ty::I64], vec![i64_var("a")]).unwrap();
    // duplicate register name
    assert_eq!(
        ctx.new_func_reg("a", Ty::I64),
        Err(JitError::DuplicateSymbol("a".to_string()))
    );
    // an open function blocks new items and sealing the module
    assert_eq!(
        ctx.new_func("g", vec![Ty::I64], vec![]),
        Err(JitError::UnfinishedFunction)
    );
    assert_eq!(ctx.finish_module(), Err(JitError::UnfinishedFunction));
    ctx.append_insn(Opcode::Ret, vec![Operand::Imm(0)]).unwrap();
    ctx.finish_func().unwrap();
    // duplicate item name in one module
    assert_eq!(
        ctx.new_func("f", vec![Ty::I64], vec![]),
        Err(JitError::DuplicateSymbol("f".to_string()))
    );
    ctx.finish_module().unwrap();
    // loading needs a finalized module and a valid handle, exactly once
    assert_eq!(ctx.load_module(7), Err(JitError::InvalidHandle));
    ctx.load_module(0).unwrap();
    assert_eq!(ctx.load_module(0), Err(JitError::AlreadyLoaded));
}

#[test]
fn export_of_missing_item_unresolved() {
    let mut ctx = Context::init(unix_mmap());
    let m = ctx.new_module("m").unwrap();
    ctx.export("ghost_item").unwrap();
    assert_eq!(ctx.export("ghost_item"), Err(JitError::DuplicateSymbol("ghost_item".to_string())));
    ctx.finish_module().unwrap();
    assert_eq!(
        ctx.load_module(m),
        Err(JitError::UnresolvedSymbol("ghost_item".to_string()))
    );
}

#[test]
fn data_and_forward_items() {
    let mut ctx = Context::init(unix_mmap());
    let m = ctx.new_module("m").unwrap();
    ctx.export("table").unwrap();
    ctx.new_data("table", 8, vec![1, 2, 3, 4]).unwrap();
    ctx.new_forward("later").unwrap();
    ctx.finish_module().unwrap();
    ctx.load_module(m).unwrap();
    ctx.link().unwrap();
}

#[test]
fn wrap_around_arithmetic() {
    let mut ctx = Context::init(unix_mmap());
    let m = ctx.new_module("m").unwrap();
    ctx.export("wrap").unwrap();
    let fi = ctx
        .new_func("wrap", vec![Ty::I64], vec![i64_var("a"), i64_var("b")])
        .unwrap();
    let a = ctx.reg("a").unwrap();
    let b = ctx.reg("b").unwrap();
    let r = ctx.new_func_reg("r", Ty::I64).unwrap();
    ctx.append_insn(
        Opcode::Add,
        vec![Operand::Reg(r), Operand::Reg(a), Operand::Reg(b)],
    )
    .unwrap();
    ctx.append_insn(Opcode::Ret, vec![Operand::Reg(r)]).unwrap();
    ctx.finish_func().unwrap();
    ctx.finish_module().unwrap();
    ctx.load_module(m).unwrap();
    ctx.link().unwrap();
    let ep = ctx.gen(m, fi).unwrap();
    assert_eq!(ctx.invoke(ep, &vec![i64::MAX, 1]).unwrap(), i64::MIN);
    assert_eq!(ctx.invoke(ep, &vec![-5, 3]).unwrap(), -2);
}

#[test]
fn mov_sub_mul_and_immediates() {
    let mut ctx = Context::init(unix_mmap());
    let m = ctx.new_module("m").unwrap();
    ctx.export("poly").unwrap();
    // poly(x) = x * 6 - 2, via a moved immediate
    let fi = ctx
        .new_func("poly", vec![Ty::I64], vec![i64_var("x")])
        .unwrap();
    let x = ctx.reg("x").unwrap();
    let t = ctx.new_func_reg("t", Ty::I64).unwrap();
    ctx.append_insn(Opcode::Mov, vec![Operand::Reg(t), Operand::Imm(6)])
        .unwrap();
    ctx.append_insn(
        Opcode::Mul,
        vec![Operand::Reg(t), Operand::Reg(x), Operand::Reg(t)],
    )
    .unwrap();
    ctx.append_insn(
        Opcode::Sub,
        vec![Operand::Reg(t), Operand::Reg(t), Operand::Imm(2)],
    )
    .unwrap();
    ctx.append_insn(Opcode::Ret, vec![Operand::Reg(t)]).unwrap();
    ctx.finish_func().unwrap();
    ctx.finish_module().unwrap();
    ctx.load_module(m).unwrap();
    ctx.link().unwrap();
    let ep = ctx.gen(m, fi).unwrap();
    assert_eq!(ctx.invoke(ep, &vec![7]).unwrap(), 40);
    assert_eq!(ctx.invoke(ep, &vec![0]).unwrap(), -2);
}

#[test]
fn error_kind_names() {
    assert_eq!(JitError::NotLinked.kind_name(), "NotLinked");
    assert_eq!(
        JitError::DuplicateSymbol("x".to_string()).kind_name(),
        "DuplicateSymbol"
    );
    assert_eq!(JitError::UseAfterFinish.kind_name(), "UseAfterFinish");
}

#[test]
fn regeneration_keeps_previous_entry() {
    let mut ctx = Context::init(unix_mmap());
    let (m, fi) = build_add(&mut ctx, "m", "add");
    let ep1 = ctx.gen(m, fi).unwrap();
    let ep2 = ctx.gen(m, fi).unwrap();
    // a fresh, independent entry point; the old one stays valid
    assert_ne!(ep1.region, ep2.region);
    assert_eq!(ctx.invoke(ep1, &vec![2, 3]).unwrap(), 5);
    assert_eq!(ctx.invoke(ep2, &vec![2, 3]).unwrap(), 5);
}

#[test]
fn module_bookkeeping() {
    let mut ctx = Context::init(unix_mmap());
    assert_eq!(ctx.module_count(), 0);
    assert_eq!(ctx.module_tail(), None);
    ctx.new_module("first").unwrap();
    ctx.finish_module().unwrap();
    ctx.new_module("second").unwrap();
    ctx.finish_module().unwrap();
    assert_eq!(ctx.module_count(), 2);
    assert_eq!(ctx.module_tail(), Some(1));
    assert!(ctx.func_at(0, 0).is_none());
    assert_eq!(ctx.state(), CtxState::Active);
}

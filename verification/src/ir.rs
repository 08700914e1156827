//! The typed intermediate representation.
//!
//! A module is a named, ordered collection of items; an item is a function,
//! a forward-declared prototype, or a raw data blob.  A function owns a
//! register table (the parameters first, then the declared locals) and an
//! append-only instruction list.  Every instruction is an opcode with a
//! fixed-arity operand list, and its shape — operand count and operand
//! kinds, with every register operand declared in the function — is checked
//! when it is appended, never deferred.
//!
//! This file also fixes the meaning of a function body: `eval_insns` runs a
//! straight-line body over a register file of 64-bit integers, with
//! wrap-around arithmetic, and returns the value of the first `ret`
//! reached.  The code generator and the invoker are proved against exactly
//! this semantics.

use vstd::prelude::*;

verus! {

/// An IR value type.  The register machine is 64-bit: every register,
/// parameter and return value is a 64-bit signed integer.
#[derive(Clone, Copy, Debug, PartialEq, Eq, Structural)]
pub enum Ty {
    I64,
}

/// A named register declaration (a parameter or a local).
#[derive(Clone, Debug, PartialEq, Eq)]
pub struct Var {
    pub name: String,
    pub ty: Ty,
}

/// Mathematical model of a register declaration.
#[verifier::ext_equal]
pub ghost struct VarModel {
    pub name: Seq<char>,
    pub ty: Ty,
}

impl View for Var {
    type V = VarModel;

    open spec fn view(&self) -> VarModel {
        VarModel { name: self.name@, ty: self.ty }
    }
}

/// An instruction opcode.  `mov`, `add`, `sub` and `mul` write their first
/// operand; `ret` leaves the function; `call` names an item that the linker
/// must resolve.
#[derive(Clone, Copy, Debug, PartialEq, Eq, Structural)]
pub enum Opcode {
    Mov,
    Add,
    Sub,
    Mul,
    Ret,
    Call,
}

/// An instruction operand.
///
/// The destination of `mov`/`add`/`sub`/`mul`/`call` must be `Reg`; a source
/// of `mov`/`add`/`sub`/`mul`/`ret` is `Reg` or `Imm`; the target of `call`
/// is `Str`.  `Mem` and `Label` complete the operand taxonomy of the data
/// model but no opcode of this engine accepts them, so appending an
/// instruction holding one fails the shape check.
#[derive(Clone, Debug, PartialEq)]
pub enum Operand {
    /// A register, by its index in the function's register table.
    Reg(usize),
    /// An immediate 64-bit integer.
    Imm(i64),
    /// A memory reference: a base register and a byte displacement.
    Mem { base: usize, disp: i64 },
    /// A label, by instruction index.
    Label(usize),
    /// A symbolic name, resolved by the linker.
    Str(String),
}

/// Mathematical model of an operand.
#[verifier::ext_equal]
pub ghost enum OperandModel {
    Reg(int),
    Imm(i64),
    Mem { base: int, disp: i64 },
    Label(int),
    Str(Seq<char>),
}

impl View for Operand {
    type V = OperandModel;

    open spec fn view(&self) -> OperandModel {
        match self {
            Operand::Reg(i) => OperandModel::Reg(*i as int),
            Operand::Imm(v) => OperandModel::Imm(*v),
            Operand::Mem { base, disp } => OperandModel::Mem { base: *base as int, disp: *disp },
            Operand::Label(i) => OperandModel::Label(*i as int),
            Operand::Str(s) => OperandModel::Str(s@),
        }
    }
}

/// One instruction: an opcode with its operand list.
#[derive(Clone, Debug, PartialEq)]
pub struct Insn {
    pub op: Opcode,
    pub operands: Vec<Operand>,
}

/// Mathematical model of an instruction.
#[verifier::ext_equal]
pub ghost struct InsnModel {
    pub op: Opcode,
    pub operands: Seq<OperandModel>,
}

impl View for Insn {
    type V = InsnModel;

    open spec fn view(&self) -> InsnModel {
        InsnModel { op: self.op, operands: self.operands@.map_values(|o: Operand| o@) }
    }
}

/// A function item: a typed signature, a register table whose first
/// `nparams` entries are the parameters, and the instruction list.
#[derive(Clone, Debug, PartialEq)]
pub struct Func {
    pub name: String,
    /// Ordered return types of the signature.
    pub rets: Vec<Ty>,
    /// How many leading entries of `regs` are parameters.
    pub nparams: usize,
    /// All registers in scope: parameters first, then declared locals.
    pub regs: Vec<Var>,
    pub insns: Vec<Insn>,
    /// Set once by `finish_func`; a finalized function is immutable.
    pub finalized: bool,
    /// Set by a successful link of the owning context.
    pub linked: bool,
}

/// Mathematical model of a function item.
#[verifier::ext_equal]
pub ghost struct FuncModel {
    pub name: Seq<char>,
    pub rets: Seq<Ty>,
    pub nparams: int,
    pub regs: Seq<VarModel>,
    pub insns: Seq<InsnModel>,
    pub finalized: bool,
    pub linked: bool,
}

impl View for Func {
    type V = FuncModel;

    open spec fn view(&self) -> FuncModel {
        FuncModel {
            name: self.name@,
            rets: self.rets@,
            nparams: self.nparams as int,
            regs: self.regs@.map_values(|v: Var| v@),
            insns: self.insns@.map_values(|i: Insn| i@),
            finalized: self.finalized,
            linked: self.linked,
        }
    }
}

/// A module item.
#[derive(Clone, Debug, PartialEq)]
pub enum Item {
    Func(Func),
    /// A raw data blob with its alignment in bytes.
    Data { name: String, align: usize, bytes: Vec<u8> },
    /// A forward-declared prototype: a name that a later load may bind.
    Forward { name: String },
}

/// Mathematical model of a module item.
#[verifier::ext_equal]
pub ghost enum ItemModel {
    Func(FuncModel),
    Data { name: Seq<char>, align: int, bytes: Seq<u8> },
    Forward { name: Seq<char> },
}

impl View for Item {
    type V = ItemModel;

    open spec fn view(&self) -> ItemModel {
        match self {
            Item::Func(f) => ItemModel::Func(f@),
            Item::Data { name, align, bytes } => ItemModel::Data {
                name: name@,
                align: *align as int,
                bytes: bytes@,
            },
            Item::Forward { name } => ItemModel::Forward { name: name@ },
        }
    }
}

/// The name of any item.
pub open spec fn item_name_of(item: ItemModel) -> Seq<char> {
    match item {
        ItemModel::Func(f) => f.name,
        ItemModel::Data { name, .. } => name,
        ItemModel::Forward { name } => name,
    }
}

/// A named, ordered collection of items, together with the list of names
/// the module exports into its context's flat symbol namespace.
#[derive(Clone, Debug, PartialEq)]
pub struct Module {
    pub name: String,
    pub items: Vec<Item>,
    /// The exported names, in declaration order.  Only these take part in
    /// cross-module resolution.
    pub exports: Vec<String>,
    /// Set once by `finish_module`; a finalized module is immutable.
    pub finalized: bool,
    /// Set when the module's exports are registered into the context.
    pub loaded: bool,
}

/// Mathematical model of a module.
#[verifier::ext_equal]
pub ghost struct ModuleModel {
    pub name: Seq<char>,
    pub items: Seq<ItemModel>,
    pub exports: Seq<Seq<char>>,
    pub finalized: bool,
    pub loaded: bool,
}

impl View for Module {
    type V = ModuleModel;

    open spec fn view(&self) -> ModuleModel {
        ModuleModel {
            name: self.name@,
            items: self.items@.map_values(|i: Item| i@),
            exports: self.exports@.map_values(|e: String| e@),
            finalized: self.finalized,
            loaded: self.loaded,
        }
    }
}

/// Declared operand count of each opcode.
pub open spec fn arity(op: Opcode) -> nat {
    match op {
        Opcode::Mov => 2,
        Opcode::Add => 3,
        Opcode::Sub => 3,
        Opcode::Mul => 3,
        Opcode::Ret => 1,
        Opcode::Call => 2,
    }
}

/// Whether `o` may stand where a value is read: a declared register or an
/// immediate.
pub open spec fn is_src(o: OperandModel, nregs: int) -> bool {
    match o {
        OperandModel::Reg(i) => 0 <= i < nregs,
        OperandModel::Imm(_) => true,
        _ => false,
    }
}

/// Whether `o` may stand where a value is written: a declared register.
pub open spec fn is_dst(o: OperandModel, nregs: int) -> bool {
    o matches OperandModel::Reg(i) && 0 <= i < nregs
}

/// The declared shape of an instruction: the operand count equals the
/// opcode's arity and each operand has the kind the opcode asks for, with
/// every register operand declared among the function's `nregs` registers.
pub open spec fn insn_wf(op: Opcode, operands: Seq<OperandModel>, nregs: int) -> bool {
    &&& operands.len() == arity(op)
    &&& match op {
        Opcode::Mov => is_dst(operands[0], nregs) && is_src(operands[1], nregs),
        Opcode::Add | Opcode::Sub | Opcode::Mul => is_dst(operands[0], nregs) && is_src(
            operands[1],
            nregs,
        ) && is_src(operands[2], nregs),
        Opcode::Ret => is_src(operands[0], nregs),
        Opcode::Call => is_dst(operands[0], nregs) && operands[1] is Str,
    }
}

/// No two registers of one function share a name.
pub open spec fn regs_unique(regs: Seq<VarModel>) -> bool {
    forall|i: int, j: int| 0 <= i < j < regs.len() ==> regs[i].name != regs[j].name
}

/// Well-formedness of a function: a sound register table, every
/// instruction well-shaped, and — once the function is finalized — a
/// non-empty body whose last instruction is `ret`.
pub open spec fn func_wf(f: FuncModel) -> bool {
    &&& 0 <= f.nparams <= f.regs.len()
    &&& regs_unique(f.regs)
    &&& forall|i: int|
        0 <= i < f.insns.len() ==> #[trigger] insn_wf(f.insns[i].op, f.insns[i].operands, f.regs.len() as int)
    &&& f.finalized ==> f.insns.len() > 0 && f.insns.last().op == Opcode::Ret
}

/// Well-formedness of a module: item names are unique within the module
/// and every function item is well-formed.
pub open spec fn module_wf(m: ModuleModel) -> bool {
    &&& forall|i: int, j: int|
        0 <= i < j < m.items.len() ==> item_name_of(#[trigger] m.items[i]) != item_name_of(
            #[trigger] m.items[j],
        )
    &&& forall|i: int|
        0 <= i < m.items.len() ==> (#[trigger] m.items[i] matches ItemModel::Func(f) ==> func_wf(
            f,
        ))
    &&& m.finalized ==> forall|i: int|
        0 <= i < m.items.len() ==> (#[trigger] m.items[i] matches ItemModel::Func(f)
            ==> f.finalized)
}

/// The value an operand reads from the register file; reads outside the
/// file (ruled out for well-shaped instructions) give zero.
pub open spec fn src_value(o: OperandModel, regs: Seq<i64>) -> i64 {
    match o {
        OperandModel::Reg(i) => if 0 <= i < regs.len() {
            regs[i]
        } else {
            0i64
        },
        OperandModel::Imm(v) => v,
        _ => 0i64,
    }
}

/// The register index an operand writes; writes of non-register operands
/// (ruled out for well-shaped instructions) go nowhere.
pub open spec fn dst_index(o: OperandModel) -> int {
    match o {
        OperandModel::Reg(i) => i,
        _ => -1,
    }
}

/// The register file after a write: out-of-range writes (ruled out for
/// well-shaped instructions) go nowhere.
pub open spec fn write_reg(regs: Seq<i64>, d: int, v: i64) -> Seq<i64> {
    if 0 <= d < regs.len() {
        regs.update(d, v)
    } else {
        regs
    }
}

/// Wrap-around 64-bit arithmetic of the register machine.
pub open spec fn apply_op(op: Opcode, a: i64, b: i64) -> i64 {
    match op {
        Opcode::Add => vstd::wrapping::i64_specs::wrapping_add(a, b),
        Opcode::Sub => vstd::wrapping::i64_specs::wrapping_sub(a, b),
        Opcode::Mul => vstd::wrapping::i64_specs::wrapping_mul(a, b),
        _ => 0i64,
    }
}

/// Runs a straight-line body over register file `regs`: the value of the
/// first `ret` reached, or `None` if the body ends without one or holds an
/// instruction (a `call`) this semantics does not execute.
pub open spec fn eval_insns(insns: Seq<InsnModel>, regs: Seq<i64>) -> Option<i64>
    decreases insns.len(),
{
    if insns.len() == 0 {
        None
    } else {
        let insn = insns.first();
        match insn.op {
            Opcode::Ret => Some(src_value(insn.operands[0], regs)),
            Opcode::Mov => eval_insns(
                insns.drop_first(),
                write_reg(regs, dst_index(insn.operands[0]), src_value(insn.operands[1], regs)),
            ),
            Opcode::Add | Opcode::Sub | Opcode::Mul => eval_insns(
                insns.drop_first(),
                write_reg(
                    regs,
                    dst_index(insn.operands[0]),
                    apply_op(
                        insn.op,
                        src_value(insn.operands[1], regs),
                        src_value(insn.operands[2], regs),
                    ),
                ),
            ),
            Opcode::Call => None,
        }
    }
}

/// The register file a call starts from: the arguments fill the parameter
/// registers and every declared local starts at zero.
pub open spec fn init_regs(f: FuncModel, args: Seq<i64>) -> Seq<i64>
    recommends
        args.len() == f.nparams,
{
    args + Seq::new((f.regs.len() - f.nparams) as nat, |i: int| 0i64)
}

/// The result of running function `f` on `args` under the straight-line
/// semantics.
pub open spec fn func_result(f: FuncModel, args: Seq<i64>) -> Option<i64>
    recommends
        args.len() == f.nparams,
{
    eval_insns(f.insns, init_regs(f, args))
}

/// Runtime check of an instruction's declared shape, exactly the
/// well-formedness the IR builder enforces at append time.
pub fn insn_shape_ok(op: Opcode, operands: &Vec<Operand>, nregs: usize) -> (r: bool)
    ensures
        r == insn_wf(op, operands@.map_values(|o: Operand| o@), nregs as int),
{
    let expected: usize = match op {
        Opcode::Mov => 2,
        Opcode::Add => 3,
        Opcode::Sub => 3,
        Opcode::Mul => 3,
        Opcode::Ret => 1,
        Opcode::Call => 2,
    };
    if operands.len() != expected {
        return false;
    }
    let ghost ops = operands@.map_values(|o: Operand| o@);
    match op {
        Opcode::Mov => operand_is_dst(&operands[0], nregs) && operand_is_src(&operands[1], nregs),
        Opcode::Add | Opcode::Sub | Opcode::Mul => operand_is_dst(&operands[0], nregs)
            && operand_is_src(&operands[1], nregs) && operand_is_src(&operands[2], nregs),
        Opcode::Ret => operand_is_src(&operands[0], nregs),
        Opcode::Call => operand_is_dst(&operands[0], nregs) && (match &operands[1] {
            Operand::Str(_) => true,
            _ => false,
        }),
    }
}

/// Runtime check of `is_src`.
fn operand_is_src(o: &Operand, nregs: usize) -> (r: bool)
    ensures
        r == is_src(o@, nregs as int),
{
    match o {
        Operand::Reg(i) => *i < nregs,
        Operand::Imm(_) => true,
        _ => false,
    }
}

/// Runtime check of `is_dst`.
fn operand_is_dst(o: &Operand, nregs: usize) -> (r: bool)
    ensures
        r == is_dst(o@, nregs as int),
{
    match o {
        Operand::Reg(i) => *i < nregs,
        _ => false,
    }
}

} // verus!

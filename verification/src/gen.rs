//! The code generator boundary and the invoker.
//!
//! Generation takes a finalized, linked function, serialises its body into
//! a portable image — a byte encoding of the register machine's
//! instructions — writes the image into a fresh region obtained from the
//! context's allocator, seals the region execute-only, and returns an entry
//! point.  Invocation fetches the sealed bytes, decodes them, and runs the
//! register machine; it is proved to return exactly `func_result` of the
//! generated IR, so what a caller executes is precisely the function that
//! was generated — and, one level down, exactly the bytes that were
//! written before the seal.
//!
//! The image format: three 64-bit little-endian header words (register
//! count, parameter count, instruction count), then each instruction as an
//! opcode byte followed by its operands, each operand a tag byte (`0`
//! register, `1` immediate) and a 64-bit little-endian payload.  Trailing
//! padding up to the page boundary is ignored by the decoder.

use vstd::prelude::*;

use crate::code_alloc::{exec_bytes, rounded_len, RegionId};
use crate::context::{ContextModel, CtxState};
use crate::errors::JitError;
use crate::ir::{
    arity, eval_insns, func_wf, insn_wf, module_wf, src_value, write_reg, Func, FuncModel, Insn,
    InsnModel, Opcode, Operand, OperandModel,
};

verus! {

/// 256 to the `n`.
pub open spec fn pow256(n: nat) -> nat
    decreases n,
{
    if n == 0 {
        1
    } else {
        256 * pow256((n - 1) as nat)
    }
}

/// The value of a little-endian byte string.
pub open spec fn le_val(s: Seq<u8>) -> nat
    decreases s.len(),
{
    if s.len() == 0 {
        0
    } else {
        s[0] as nat + 256 * le_val(s.drop_first())
    }
}

/// The `n`-byte little-endian encoding of `v` (modulo 256^n).
pub open spec fn le_bytes(v: nat, n: nat) -> Seq<u8>
    decreases n,
{
    if n == 0 {
        Seq::empty()
    } else {
        seq![(v % 256) as u8] + le_bytes(v / 256, (n - 1) as nat)
    }
}

/// The two's-complement unsigned reading of a 64-bit integer.
pub open spec fn u64_of_i64(x: i64) -> u64 {
    if x >= 0 {
        x as u64
    } else {
        (x + 0x1_0000_0000_0000_0000) as u64
    }
}

/// The two's-complement signed reading of a 64-bit word.
pub open spec fn i64_of_u64(x: u64) -> i64 {
    if x < 0x8000_0000_0000_0000 {
        x as i64
    } else {
        (x - 0x1_0000_0000_0000_0000) as i64
    }
}

/// The byte standing for each opcode in the image.
pub open spec fn opcode_byte(op: Opcode) -> u8 {
    match op {
        Opcode::Mov => 1,
        Opcode::Add => 2,
        Opcode::Sub => 3,
        Opcode::Mul => 4,
        Opcode::Ret => 5,
        Opcode::Call => 6,
    }
}

/// The opcode a byte stands for.  A `call` never reaches an image — the
/// generator refuses it — so its byte decodes to nothing.
pub open spec fn op_of_byte(b: u8) -> Option<Opcode> {
    if b == 1 {
        Some(Opcode::Mov)
    } else if b == 2 {
        Some(Opcode::Add)
    } else if b == 3 {
        Some(Opcode::Sub)
    } else if b == 4 {
        Some(Opcode::Mul)
    } else if b == 5 {
        Some(Opcode::Ret)
    } else {
        None
    }
}

/// One encoded operand: a tag byte and a 64-bit payload.
pub open spec fn enc_operand(o: OperandModel) -> Seq<u8> {
    match o {
        OperandModel::Reg(i) => seq![0u8] + le_bytes(i as nat, 8),
        OperandModel::Imm(v) => seq![1u8] + le_bytes(u64_of_i64(v) as nat, 8),
        _ => Seq::empty(),
    }
}

/// The encoded operand list, in order.
pub open spec fn enc_operands(ops: Seq<OperandModel>) -> Seq<u8>
    decreases ops.len(),
{
    if ops.len() == 0 {
        Seq::empty()
    } else {
        enc_operand(ops.first()) + enc_operands(ops.drop_first())
    }
}

/// One encoded instruction: opcode byte, then its operands.
pub open spec fn enc_insn(i: InsnModel) -> Seq<u8> {
    seq![opcode_byte(i.op)] + enc_operands(i.operands)
}

/// The encoded body, in program order.
pub open spec fn enc_insns(insns: Seq<InsnModel>) -> Seq<u8>
    decreases insns.len(),
{
    if insns.len() == 0 {
        Seq::empty()
    } else {
        enc_insn(insns.first()) + enc_insns(insns.drop_first())
    }
}

/// The whole image of a function, header first.
pub open spec fn encode_func(f: FuncModel) -> Seq<u8> {
    le_bytes(f.regs.len(), 8) + le_bytes(f.nparams as nat, 8) + le_bytes(f.insns.len(), 8)
        + enc_insns(f.insns)
}

/// The image as it sits in its sealed region: the encoding, zero-padded to
/// whole pages.
pub open spec fn padded_image(f: FuncModel) -> Seq<u8> {
    encode_func(f) + Seq::new(
        (rounded_len(encode_func(f).len()) - encode_func(f).len()) as nat,
        |i: int| 0u8,
    )
}

/// What this engine's code generator accepts: exactly one return value and
/// a body free of `call` — calls into other items are the linker's and
/// host's business, not this generator's.
pub open spec fn generatable(f: FuncModel) -> bool {
    &&& f.rets.len() == 1
    &&& forall|i: int| 0 <= i < f.insns.len() ==> (#[trigger] f.insns[i]).op != Opcode::Call
}

/// A decoded image: what the invoker runs.
#[verifier::ext_equal]
pub ghost struct ProgModel {
    pub nregs: int,
    pub nparams: int,
    pub insns: Seq<InsnModel>,
}

/// Reads one 64-bit little-endian word.
pub open spec fn dec_u64(s: Seq<u8>) -> Option<(nat, Seq<u8>)> {
    if s.len() < 8 {
        None
    } else {
        Some((le_val(s.take(8)), s.skip(8)))
    }
}

/// Reads one operand.
pub open spec fn dec_operand(s: Seq<u8>) -> Option<(OperandModel, Seq<u8>)> {
    if s.len() < 9 {
        None
    } else {
        let tag = s[0];
        let body = s.drop_first();
        if tag == 0 {
            let v = le_val(body.take(8));
            if v <= usize::MAX {
                Some((OperandModel::Reg(v as int), body.skip(8)))
            } else {
                None
            }
        } else if tag == 1 {
            Some((OperandModel::Imm(i64_of_u64(le_val(body.take(8)) as u64)), body.skip(8)))
        } else {
            None
        }
    }
}

/// Reads `n` operands.
pub open spec fn dec_operands(s: Seq<u8>, n: nat) -> Option<(Seq<OperandModel>, Seq<u8>)>
    decreases n,
{
    if n == 0 {
        Some((Seq::empty(), s))
    } else {
        match dec_operand(s) {
            None => None,
            Some((o, s1)) => match dec_operands(s1, (n - 1) as nat) {
                None => None,
                Some((os, s2)) => Some((seq![o] + os, s2)),
            },
        }
    }
}

/// Reads one instruction.
pub open spec fn dec_insn(s: Seq<u8>) -> Option<(InsnModel, Seq<u8>)> {
    if s.len() == 0 {
        None
    } else {
        match op_of_byte(s[0]) {
            None => None,
            Some(op) => match dec_operands(s.drop_first(), arity(op)) {
                None => None,
                Some((os, s1)) => Some((InsnModel { op, operands: os }, s1)),
            },
        }
    }
}

/// Reads `n` instructions.
pub open spec fn dec_insns(s: Seq<u8>, n: nat) -> Option<(Seq<InsnModel>, Seq<u8>)>
    decreases n,
{
    if n == 0 {
        Some((Seq::empty(), s))
    } else {
        match dec_insn(s) {
            None => None,
            Some((i, s1)) => match dec_insns(s1, (n - 1) as nat) {
                None => None,
                Some((is, s2)) => Some((seq![i] + is, s2)),
            },
        }
    }
}

/// Decodes a whole image; trailing bytes (the page padding) are ignored.
pub open spec fn dec_prog(s: Seq<u8>) -> Option<ProgModel> {
    match dec_u64(s) {
        None => None,
        Some((nregs, s1)) => match dec_u64(s1) {
            None => None,
            Some((nparams, s2)) => match dec_u64(s2) {
                None => None,
                Some((ninsns, s3)) => if nregs <= usize::MAX && nparams <= nregs && ninsns
                    <= usize::MAX {
                    match dec_insns(s3, ninsns) {
                        None => None,
                        Some((insns, _)) => Some(
                            ProgModel {
                                nregs: nregs as int,
                                nparams: nparams as int,
                                insns: insns,
                            },
                        ),
                    }
                } else {
                    None
                },
            },
        },
    }
}

/// `le_bytes` always emits exactly `n` bytes.
pub proof fn lemma_le_bytes_len(v: nat, n: nat)
    ensures
        le_bytes(v, n).len() == n,
    decreases n,
{
    if n > 0 {
        lemma_le_bytes_len(v / 256, (n - 1) as nat);
    }
}

/// Little-endian encoding round-trips for values in range.
pub proof fn lemma_le_round_trip(v: nat, n: nat)
    requires
        v < pow256(n),
    ensures
        le_val(le_bytes(v, n)) == v,
    decreases n,
{
    if n == 0 {
    } else {
        assert(pow256(n) == 256 * pow256((n - 1) as nat));
        assert(v / 256 < pow256((n - 1) as nat)) by (nonlinear_arith)
            requires
                v < 256 * pow256((n - 1) as nat),
        ;
        lemma_le_round_trip(v / 256, (n - 1) as nat);
        let s = le_bytes(v, n);
        assert(s == seq![(v % 256) as u8] + le_bytes(v / 256, (n - 1) as nat));
        assert(s.drop_first() =~= le_bytes(v / 256, (n - 1) as nat));
        assert(s[0] == (v % 256) as u8);
        assert(le_val(s) == v % 256 + 256 * (v / 256));
        assert(v % 256 + 256 * (v / 256) == v) by {
            vstd::arithmetic::div_mod::lemma_fundamental_div_mod(v as int, 256);
        }
    }
}

/// The signed/unsigned 64-bit readings invert each other.
pub proof fn lemma_i64_round_trip(x: i64)
    ensures
        i64_of_u64(u64_of_i64(x)) == x,
{
}

/// 256^8 spelled out.
pub proof fn lemma_pow256_8()
    ensures
        pow256(8) == 0x1_0000_0000_0000_0000,
{
    reveal_with_fuel(pow256, 9);
}

/// Reading a word back off its encoding.
pub proof fn lemma_dec_u64_enc(v: nat, rest: Seq<u8>)
    requires
        v < 0x1_0000_0000_0000_0000,
    ensures
        dec_u64(le_bytes(v, 8) + rest) == Some((v, rest)),
{
    lemma_pow256_8();
    lemma_le_bytes_len(v, 8);
    let s = le_bytes(v, 8) + rest;
    assert(s.take(8) =~= le_bytes(v, 8));
    assert(s.skip(8) =~= rest);
    lemma_le_round_trip(v, 8);
}

/// Reading an operand back off its encoding.
pub proof fn lemma_dec_operand_enc(o: OperandModel, rest: Seq<u8>)
    requires
        o matches OperandModel::Reg(i) ==> 0 <= i <= usize::MAX,
        o is Reg || o is Imm,
    ensures
        dec_operand(enc_operand(o) + rest) == Some((o, rest)),
{
    lemma_pow256_8();
    match o {
        OperandModel::Reg(i) => {
            lemma_le_bytes_len(i as nat, 8);
            let s = enc_operand(o) + rest;
            assert(s.len() >= 9);
            assert(s[0] == 0u8);
            assert(s.drop_first() =~= le_bytes(i as nat, 8) + rest);
            let body = s.drop_first();
            assert(body.take(8) =~= le_bytes(i as nat, 8));
            assert(body.skip(8) =~= rest);
            lemma_le_round_trip(i as nat, 8);
        },
        OperandModel::Imm(v) => {
            let u = u64_of_i64(v);
            lemma_le_bytes_len(u as nat, 8);
            let s = enc_operand(o) + rest;
            assert(s.len() >= 9);
            assert(s[0] == 1u8);
            let body = s.drop_first();
            assert(body =~= le_bytes(u as nat, 8) + rest);
            assert(body.take(8) =~= le_bytes(u as nat, 8));
            assert(body.skip(8) =~= rest);
            lemma_le_round_trip(u as nat, 8);
            lemma_i64_round_trip(v);
        },
        _ => {},
    }
}

/// Whether every operand of `ops` can appear in an image: a register
/// index no wider than the machine, or an immediate.
pub open spec fn ops_encodable(ops: Seq<OperandModel>) -> bool {
    forall|i: int|
        0 <= i < ops.len() ==> ((#[trigger] ops[i]) matches OperandModel::Reg(r) ==> 0 <= r
            <= usize::MAX) && (ops[i] is Reg || ops[i] is Imm)
}

/// Reading an operand list back off its encoding.
pub proof fn lemma_dec_operands_enc(ops: Seq<OperandModel>, rest: Seq<u8>)
    requires
        ops_encodable(ops),
    ensures
        dec_operands(enc_operands(ops) + rest, ops.len()) == Some((ops, rest)),
    decreases ops.len(),
{
    if ops.len() == 0 {
        assert(enc_operands(ops) + rest =~= rest);
    } else {
        let o = ops.first();
        let tailops = ops.drop_first();
        assert(ops_encodable(tailops)) by {
            assert(forall|i: int|
                0 <= i < tailops.len() ==> tailops[i] == ops[i + 1]);
        }
        let s = enc_operands(ops) + rest;
        assert(s =~= enc_operand(o) + (enc_operands(tailops) + rest));
        lemma_dec_operand_enc(o, enc_operands(tailops) + rest);
        lemma_dec_operands_enc(tailops, rest);
        assert(seq![o] + tailops =~= ops);
    }
}

/// Reading an instruction back off its encoding.
pub proof fn lemma_dec_insn_enc(insn: InsnModel, rest: Seq<u8>, nregs: int)
    requires
        insn_wf(insn.op, insn.operands, nregs),
        nregs <= usize::MAX,
        insn.op != Opcode::Call,
    ensures
        dec_insn(enc_insn(insn) + rest) == Some((insn, rest)),
{
    let s = enc_insn(insn) + rest;
    assert(s[0] == opcode_byte(insn.op));
    assert(op_of_byte(opcode_byte(insn.op)) == Some(insn.op));
    assert(s.drop_first() =~= enc_operands(insn.operands) + rest);
    assert(ops_encodable(insn.operands)) by {
        assert(insn.operands.len() == arity(insn.op));
    }
    lemma_dec_operands_enc(insn.operands, rest);
    assert(insn.operands.len() == arity(insn.op));
}

/// Whether a body can appear in an image under `nregs` registers.
pub open spec fn insns_encodable(insns: Seq<InsnModel>, nregs: int) -> bool {
    &&& forall|i: int|
        0 <= i < insns.len() ==> insn_wf(
            (#[trigger] insns[i]).op,
            insns[i].operands,
            nregs,
        ) && insns[i].op != Opcode::Call
}

/// Reading a body back off its encoding.
pub proof fn lemma_dec_insns_enc(insns: Seq<InsnModel>, rest: Seq<u8>, nregs: int)
    requires
        insns_encodable(insns, nregs),
        nregs <= usize::MAX,
    ensures
        dec_insns(enc_insns(insns) + rest, insns.len()) == Some((insns, rest)),
    decreases insns.len(),
{
    if insns.len() == 0 {
        assert(enc_insns(insns) + rest =~= rest);
    } else {
        let i0 = insns.first();
        let tl = insns.drop_first();
        assert(insns_encodable(tl, nregs)) by {
            assert(forall|i: int| 0 <= i < tl.len() ==> tl[i] == insns[i + 1]);
        }
        let s = enc_insns(insns) + rest;
        assert(s =~= enc_insn(i0) + (enc_insns(tl) + rest));
        lemma_dec_insn_enc(i0, enc_insns(tl) + rest, nregs);
        lemma_dec_insns_enc(tl, rest, nregs);
        assert(seq![i0] + tl =~= insns);
    }
}

/// The whole image decodes back to exactly the generated function's
/// registers, parameters and body, padding and all.
pub proof fn lemma_decode_image(f: FuncModel)
    requires
        func_wf(f),
        generatable(f),
        f.regs.len() <= usize::MAX,
        f.insns.len() <= usize::MAX,
    ensures
        dec_prog(padded_image(f)) == Some(
            ProgModel { nregs: f.regs.len() as int, nparams: f.nparams, insns: f.insns },
        ),
{
    lemma_pow256_8();
    let enc = encode_func(f);
    let pad = Seq::new((rounded_len(enc.len()) - enc.len()) as nat, |i: int| 0u8);
    let s = padded_image(f);
    let body = enc_insns(f.insns);
    lemma_le_bytes_len(f.regs.len(), 8);
    lemma_le_bytes_len(f.nparams as nat, 8);
    lemma_le_bytes_len(f.insns.len(), 8);
    let r1 = le_bytes(f.nparams as nat, 8) + le_bytes(f.insns.len(), 8) + (body + pad);
    assert(s =~= le_bytes(f.regs.len(), 8) + r1);
    lemma_dec_u64_enc(f.regs.len(), r1);
    let r2 = le_bytes(f.insns.len(), 8) + (body + pad);
    assert(r1 =~= le_bytes(f.nparams as nat, 8) + r2);
    lemma_dec_u64_enc(f.nparams as nat, r2);
    let r3 = body + pad;
    assert(r2 =~= le_bytes(f.insns.len(), 8) + r3);
    lemma_dec_u64_enc(f.insns.len(), r3);
    assert(insns_encodable(f.insns, f.regs.len() as int)) by {
        assert(forall|i: int|
            0 <= i < f.insns.len() ==> insn_wf(
                (#[trigger] f.insns[i]).op,
                f.insns[i].operands,
                f.regs.len() as int,
            ));
    }
    lemma_dec_insns_enc(f.insns, pad, f.regs.len() as int);
    assert(r3 =~= enc_insns(f.insns) + pad);
}

/// A non-empty straight-line body that ends in `ret` and holds no `call`
/// always returns.
pub proof fn lemma_straightline_returns(insns: Seq<InsnModel>, regs: Seq<i64>)
    requires
        insns.len() > 0,
        insns.last().op == Opcode::Ret,
        forall|i: int| 0 <= i < insns.len() ==> (#[trigger] insns[i]).op != Opcode::Call,
    ensures
        eval_insns(insns, regs) is Some,
    decreases insns.len(),
{
    let first = insns.first();
    if first.op == Opcode::Ret {
    } else {
        let tl = insns.drop_first();
        assert(insns.len() > 1) by {
            assert(insns[0].op != Opcode::Ret);
            assert(insns.last().op == Opcode::Ret);
        }
        assert(tl.last() == insns.last());
        assert(forall|i: int| 0 <= i < tl.len() ==> tl[i] == insns[i + 1]);
        match first.op {
            Opcode::Mov => {
                lemma_straightline_returns(
                    tl,
                    crate::ir::write_reg(
                        regs,
                        crate::ir::dst_index(first.operands[0]),
                        crate::ir::src_value(first.operands[1], regs),
                    ),
                );
            },
            Opcode::Add | Opcode::Sub | Opcode::Mul => {
                lemma_straightline_returns(
                    tl,
                    crate::ir::write_reg(
                        regs,
                        crate::ir::dst_index(first.operands[0]),
                        crate::ir::apply_op(
                            first.op,
                            crate::ir::src_value(first.operands[1], regs),
                            crate::ir::src_value(first.operands[2], regs),
                        ),
                    ),
                );
            },
            _ => {},
        }
    }
}

/// An invocable entry point: the sealed region holding one generated
/// image, with the image's register and parameter counts.  It is bound to
/// the region, so it is invalidated — every invocation refused — the
/// moment the region is released.
#[derive(Clone, Copy, Debug, PartialEq, Eq, Structural)]
pub struct EntryPoint {
    pub region: RegionId,
    pub nparams: usize,
    pub nregs: usize,
}

/// Exactly what `invoke` returns, from the allocator's model alone: fetch
/// the sealed bytes (refused unless the region is mapped and
/// execute-allowed), decode the image, and run the register machine.
pub open spec fn invoke_spec(
    allocv: Seq<Option<crate::code_alloc::RegionModel>>,
    ep: EntryPoint,
    args: Seq<i64>,
) -> Result<i64, JitError> {
    match exec_bytes(allocv, ep.region.0 as int) {
        None => Err(JitError::ProtectionFailure),
        Some(bytes) => match dec_prog(bytes) {
            None => Err(JitError::GenerationFailure),
            Some(p) => if args.len() != p.nparams {
                Err(JitError::GenerationFailure)
            } else {
                match eval_insns(
                    p.insns,
                    args + Seq::new((p.nregs - p.nparams) as nat, |i: int| 0i64),
                ) {
                    Some(v) => Ok(v),
                    None => Err(JitError::GenerationFailure),
                }
            },
        },
    }
}

/// The unsigned 64-bit word with the two's-complement bits of `x`.
fn u64_from_i64(x: i64) -> (r: u64)
    ensures
        r == u64_of_i64(x),
{
    if x >= 0 {
        x as u64
    } else {
        let z: i64 = x - i64::MIN;
        (z as u64) + 0x8000_0000_0000_0000u64
    }
}

/// The signed 64-bit integer with the bits of `x`.
fn i64_from_u64(x: u64) -> (r: i64)
    ensures
        r == i64_of_u64(x),
{
    if x < 0x8000_0000_0000_0000u64 {
        x as i64
    } else {
        let y: u64 = x - 0x8000_0000_0000_0000u64;
        (y as i64) + i64::MIN
    }
}

/// Appends the 8-byte little-endian encoding of `v`.
fn push_le(out: &mut Vec<u8>, v: u64)
    ensures
        final(out)@ == old(out)@ + le_bytes(v as nat, 8),
{
    let ghost base = old(out)@;
    let mut x = v;
    let mut t: usize = 0;
    while t < 8
        invariant
            t <= 8,
            out@.len() == base.len() + t,
            out@.take(base.len() as int) == base,
            le_bytes(v as nat, 8) == out@.skip(base.len() as int) + le_bytes(
                x as nat,
                (8 - t) as nat,
            ),
        decreases 8 - t,
    {
        let ghost x0 = x as nat;
        let ghost emitted = out@.skip(base.len() as int);
        let b = (x % 256) as u8;
        out.push(b);
        x = x / 256;
        proof {
            assert(le_bytes(x0, (8 - t) as nat) == seq![(x0 % 256) as u8] + le_bytes(
                x0 / 256,
                (8 - t - 1) as nat,
            ));
            assert(out@.take(base.len() as int) =~= base);
            assert(out@.skip(base.len() as int) =~= emitted + seq![b]);
            assert(emitted + (seq![b] + le_bytes(x as nat, (8 - t - 1) as nat)) =~= (emitted
                + seq![b]) + le_bytes(x as nat, (8 - t - 1) as nat));
        }
        t = t + 1;
    }
    proof {
        lemma_le_bytes_len(x as nat, 0);
        assert(out@ =~= base + le_bytes(v as nat, 8));
    }
}

/// Serialises a function into its image.
fn encode_func_exec(f: &Func) -> (out: Vec<u8>)
    requires
        func_wf(f@),
        generatable(f@),
    ensures
        out@ == encode_func(f@),
{
    let mut out: Vec<u8> = Vec::new();
    push_le(&mut out, f.regs.len() as u64);
    push_le(&mut out, f.nparams as u64);
    push_le(&mut out, f.insns.len() as u64);
    let ghost header = le_bytes(f@.regs.len(), 8) + le_bytes(f@.nparams as nat, 8) + le_bytes(
        f@.insns.len(),
        8,
    );
    proof {
        assert(out@ =~= header);
    }
    let ghost insv = f@.insns;
    let n = f.insns.len();
    proof {
        assert(insv.skip(0) =~= insv);
        assert(out@ + enc_insns(insv.skip(0)) =~= header + enc_insns(insv));
    }
    let mut k: usize = 0;
    while k < n
        invariant
            k <= n,
            n == insv.len(),
            insv == f@.insns,
            func_wf(f@),
            generatable(f@),
            out@ + enc_insns(insv.skip(k as int)) == header + enc_insns(insv),
        decreases n - k,
    {
        proof {
            assert(insv.skip(k as int).first() == insv[k as int]);
            assert(insv.skip(k as int).drop_first() =~= insv.skip(k as int + 1));
        }
        let ghost out0 = out@;
        let insn = &f.insns[k];
        proof {
            assert(insn@ == insv[k as int]);
            assert(insn_wf(insn@.op, insn@.operands, f@.regs.len() as int));
            assert(insn@.op != Opcode::Call);
        }
        let ob: u8 = match insn.op {
            Opcode::Mov => 1,
            Opcode::Add => 2,
            Opcode::Sub => 3,
            Opcode::Mul => 4,
            Opcode::Ret => 5,
            Opcode::Call => 6,
        };
        proof {
            assert(ob == opcode_byte(insn@.op));
        }
        out.push(ob);
        let ghost opsv = insn@.operands;
        let ghost ops_base = out@;
        let nops = insn.operands.len();
        proof {
            assert(opsv.skip(0) =~= opsv);
            assert(out@ + enc_operands(opsv.skip(0)) =~= ops_base + enc_operands(opsv));
        }
        let mut q: usize = 0;
        while q < nops
            invariant
                q <= nops,
                nops == opsv.len(),
                opsv == insn@.operands,
                insn_wf(insn@.op, insn@.operands, f@.regs.len() as int),
                insn@.op != Opcode::Call,
                out@ + enc_operands(opsv.skip(q as int)) == ops_base + enc_operands(opsv),
            decreases nops - q,
        {
            proof {
                assert(opsv.skip(q as int).first() == opsv[q as int]);
                assert(opsv.skip(q as int).drop_first() =~= opsv.skip(q as int + 1));
                assert(opsv[q as int] is Reg || opsv[q as int] is Imm);
            }
            let ghost out_q = out@;
            match &insn.operands[q] {
                Operand::Reg(i) => {
                    out.push(0u8);
                    push_le(&mut out, *i as u64);
                    proof {
                        assert(opsv[q as int] == OperandModel::Reg(*i as int));
                        assert(out@ =~= out_q + enc_operand(opsv[q as int]));
                    }
                },
                Operand::Imm(v) => {
                    out.push(1u8);
                    let u = u64_from_i64(*v);
                    push_le(&mut out, u);
                    proof {
                        assert(opsv[q as int] == OperandModel::Imm(*v));
                        assert(out@ =~= out_q + enc_operand(opsv[q as int]));
                    }
                },
                _ => {
                    proof {
                        assert(false);
                    }
                },
            }
            proof {
                assert(enc_operands(opsv.skip(q as int)) == enc_operand(opsv[q as int])
                    + enc_operands(opsv.skip(q as int + 1)));
                assert(out@ + enc_operands(opsv.skip(q as int + 1)) =~= ops_base + enc_operands(
                    opsv,
                ));
            }
            q = q + 1;
        }
        proof {
            assert(opsv.skip(nops as int) =~= Seq::<OperandModel>::empty());
            assert(out@ =~= ops_base + enc_operands(opsv));
            assert(out@ =~= out0 + enc_insn(insv[k as int]));
            assert(enc_insns(insv.skip(k as int)) == enc_insn(insv[k as int]) + enc_insns(
                insv.skip(k as int + 1),
            ));
            assert(out@ + enc_insns(insv.skip(k as int + 1)) =~= header + enc_insns(insv));
        }
        k = k + 1;
    }
    proof {
        assert(insv.skip(n as int) =~= Seq::<InsnModel>::empty());
        assert(out@ =~= header + enc_insns(insv));
        assert(out@ =~= encode_func(f@));
    }
    out
}

/// `le_val` of `n` bytes stays below 256^n.
pub proof fn lemma_le_val_bound(s: Seq<u8>)
    ensures
        le_val(s) < pow256(s.len()),
    decreases s.len(),
{
    if s.len() == 0 {
    } else {
        lemma_le_val_bound(s.drop_first());
    }
}

/// 256^n never shrinks.
pub proof fn lemma_pow256_mono(a: nat, b: nat)
    requires
        a <= b,
    ensures
        pow256(a) <= pow256(b),
    decreases b,
{
    if a < b {
        lemma_pow256_mono(a, (b - 1) as nat);
        assert(pow256(b) == 256 * pow256((b - 1) as nat));
        assert(256 * pow256((b - 1) as nat) >= pow256((b - 1) as nat)) by (nonlinear_arith)
            requires
                pow256((b - 1) as nat) >= 0,
        ;
    }
}

/// Reads one 64-bit little-endian word at byte offset `off`.
#[verifier::loop_isolation(false)]
fn read_le(bytes: &Vec<u8>, off: usize) -> (r: Option<(u64, usize)>)
    requires
        off <= bytes@.len(),
    ensures
        match r {
            Some(p) => {
                &&& dec_u64(bytes@.skip(off as int)) == Some((p.0 as nat, bytes@.skip(
                    p.1 as int,
                )))
                &&& p.1 == off + 8
                &&& p.1 <= bytes@.len()
            },
            None => dec_u64(bytes@.skip(off as int)) is None,
        },
{
    if bytes.len() - off < 8 {
        return None;
    }
    let ghost s8 = bytes@.skip(off as int).take(8);
    proof {
        lemma_pow256_8();
        assert(s8.skip(8) =~= Seq::<u8>::empty());
    }
    let mut acc: u64 = 0;
    let mut t: usize = 0;
    while t < 8
        invariant
            t <= 8,
            acc as nat == le_val(s8.skip((8 - t) as int)),
        decreases 8 - t,
    {
        let b = bytes[off + 7 - t];
        proof {
            let idx = (8 - t - 1) as int;
            assert(s8[idx] == bytes@[off + 7 - t]);
            assert(s8.skip(idx).first() == s8[idx]);
            assert(s8.skip(idx).drop_first() =~= s8.skip(idx + 1));
            assert(le_val(s8.skip(idx)) == s8[idx] as nat + 256 * le_val(s8.skip(idx + 1)));
            lemma_le_val_bound(s8.skip(idx + 1));
            assert(s8.skip(idx + 1).len() == t);
            lemma_pow256_mono(t as nat, 7);
            reveal_with_fuel(pow256, 8);
            assert(pow256(7) == 0x100_0000_0000_0000);
            assert(acc < 0x100_0000_0000_0000);
        }
        acc = (b as u64) + 256 * acc;
        t = t + 1;
    }
    proof {
        assert(s8.skip(0) =~= s8);
        assert(acc as nat == le_val(s8));
        assert(bytes@.skip(off as int).len() >= 8);
        assert(bytes@.skip(off as int).skip(8) =~= bytes@.skip(off as int + 8));
    }
    Some((acc, off + 8))
}

/// Reads one operand at byte offset `off`.
#[verifier::loop_isolation(false)]
fn read_operand(bytes: &Vec<u8>, off: usize) -> (r: Option<(Operand, usize)>)
    requires
        off <= bytes@.len(),
    ensures
        match r {
            Some(p) => {
                &&& dec_operand(bytes@.skip(off as int)) == Some((p.0@, bytes@.skip(p.1 as int)))
                &&& p.1 <= bytes@.len()
            },
            None => dec_operand(bytes@.skip(off as int)) is None,
        },
{
    if bytes.len() - off < 9 {
        return None;
    }
    let tag = bytes[off];
    proof {
        assert(bytes@.skip(off as int)[0] == tag);
        assert(bytes@.skip(off as int).drop_first() =~= bytes@.skip(off as int + 1));
    }
    if tag == 0 {
        match read_le(bytes, off + 1) {
            Some((v, off2)) => {
                proof {
                    let body = bytes@.skip(off as int + 1);
                    assert(dec_u64(body) == Some((v as nat, bytes@.skip(off2 as int))));
                    assert(le_val(body.take(8)) == v as nat);
                    assert(body.skip(8) == bytes@.skip(off2 as int));
                }
                if v <= usize::MAX as u64 {
                    let reg = v as usize;
                    proof {
                        assert(reg as int == v as nat as int);
                    }
                    Some((Operand::Reg(reg), off2))
                } else {
                    None
                }
            },
            None => {
                proof {
                    assert(false);
                }
                None
            },
        }
    } else if tag == 1 {
        match read_le(bytes, off + 1) {
            Some((v, off2)) => {
                proof {
                    let body = bytes@.skip(off as int + 1);
                    assert(dec_u64(body) == Some((v as nat, bytes@.skip(off2 as int))));
                    assert(le_val(body.take(8)) == v as nat);
                    assert(le_val(body.take(8)) as u64 == v);
                    assert(body.skip(8) == bytes@.skip(off2 as int));
                }
                Some((Operand::Imm(i64_from_u64(v)), off2))
            },
            None => {
                proof {
                    assert(false);
                }
                None
            },
        }
    } else {
        None
    }
}

/// Reads one instruction at byte offset `off`.
#[verifier::loop_isolation(false)]
fn read_insn(bytes: &Vec<u8>, off: usize) -> (r: Option<(Insn, usize)>)
    requires
        off <= bytes@.len(),
    ensures
        match r {
            Some(p) => {
                &&& dec_insn(bytes@.skip(off as int)) == Some((p.0@, bytes@.skip(p.1 as int)))
                &&& p.1 <= bytes@.len()
                &&& p.0.operands@.len() == arity(p.0.op)
            },
            None => dec_insn(bytes@.skip(off as int)) is None,
        },
{
    if off >= bytes.len() {
        return None;
    }
    let ob = bytes[off];
    proof {
        assert(bytes@.skip(off as int)[0] == ob);
        assert(bytes@.skip(off as int).drop_first() =~= bytes@.skip(off as int + 1));
    }
    let op: Opcode = if ob == 1 {
        Opcode::Mov
    } else if ob == 2 {
        Opcode::Add
    } else if ob == 3 {
        Opcode::Sub
    } else if ob == 4 {
        Opcode::Mul
    } else if ob == 5 {
        Opcode::Ret
    } else {
        return None;
    };
    proof {
        assert(op_of_byte(ob) == Some(op));
    }
    let nops: usize = match op {
        Opcode::Mov => 2,
        Opcode::Add => 3,
        Opcode::Sub => 3,
        Opcode::Mul => 3,
        Opcode::Ret => 1,
        Opcode::Call => 2,
    };
    proof {
        assert(nops as nat == arity(op));
    }
    let mut ops: Vec<Operand> = Vec::new();
    let mut cur = off + 1;
    proof {
        assert(ops@.map_values(|o: Operand| o@) =~= Seq::<OperandModel>::empty());
    }
    let mut q: usize = 0;
    while q < nops
        invariant
            q <= nops,
            cur <= bytes@.len(),
            ops@.len() == q,
            ({
                let rest = dec_operands(bytes@.skip(cur as int), (nops - q) as nat);
                dec_operands(bytes@.skip(off as int + 1), nops as nat) == (match rest {
                    Some(pr) => Some((ops@.map_values(|o: Operand| o@) + pr.0, pr.1)),
                    None => None::<(Seq<OperandModel>, Seq<u8>)>,
                })
            }),
        decreases nops - q,
    {
        let ghost opsv0 = ops@.map_values(|o: Operand| o@);
        match read_operand(bytes, cur) {
            Some((o, cur2)) => {
                ops.push(o);
                proof {
                    assert(ops@.map_values(|x: Operand| x@) =~= opsv0 + seq![o@]);
                    let rest2 = dec_operands(bytes@.skip(cur2 as int), (nops - q - 1) as nat);
                    match rest2 {
                        Some(pr2) => {
                            assert(dec_operands(bytes@.skip(cur as int), (nops - q) as nat)
                                == Some((seq![o@] + pr2.0, pr2.1)));
                            assert(opsv0 + (seq![o@] + pr2.0) =~= (opsv0 + seq![o@]) + pr2.0);
                        },
                        None => {
                            assert(dec_operands(bytes@.skip(cur as int), (nops - q) as nat)
                                is None);
                        },
                    }
                }
                cur = cur2;
            },
            None => {
                proof {
                    assert(dec_operands(bytes@.skip(cur as int), (nops - q) as nat) is None);
                }
                return None;
            },
        }
        q = q + 1;
    }
    proof {
        assert(dec_operands(bytes@.skip(cur as int), 0) == Some((
            Seq::<OperandModel>::empty(),
            bytes@.skip(cur as int),
        )));
        assert(ops@.map_values(|o: Operand| o@) + Seq::<OperandModel>::empty() =~= ops@.map_values(
            |o: Operand| o@,
        ));
    }
    let insn = Insn { op, operands: ops };
    Some((insn, cur))
}

/// A decoded image, ready to run.
struct Prog {
    nregs: usize,
    nparams: usize,
    insns: Vec<Insn>,
}

/// Decodes a whole image.
#[verifier::loop_isolation(false)]
fn read_prog(bytes: &Vec<u8>) -> (r: Option<Prog>)
    ensures
        match r {
            Some(p) => {
                &&& dec_prog(bytes@) == Some(
                    ProgModel {
                        nregs: p.nregs as int,
                        nparams: p.nparams as int,
                        insns: p.insns@.map_values(|x: Insn| x@),
                    },
                )
                &&& p.nparams <= p.nregs
                &&& forall|i: int|
                    0 <= i < p.insns@.len() ==> (#[trigger] p.insns@[i]).operands@.len() == arity(
                        p.insns@[i].op,
                    )
            },
            None => dec_prog(bytes@) is None,
        },
{
    proof {
        assert(bytes@.skip(0) =~= bytes@);
    }
    let (nregs64, off1) = match read_le(bytes, 0) {
        Some(p) => p,
        None => {
            return None;
        },
    };
    let (nparams64, off2) = match read_le(bytes, off1) {
        Some(p) => p,
        None => {
            return None;
        },
    };
    let (ninsns64, off3) = match read_le(bytes, off2) {
        Some(p) => p,
        None => {
            return None;
        },
    };
    if nregs64 > usize::MAX as u64 || nparams64 > nregs64 || ninsns64 > usize::MAX as u64 {
        return None;
    }
    let nregs = nregs64 as usize;
    let nparams = nparams64 as usize;
    let ninsns = ninsns64 as usize;
    let mut insns: Vec<Insn> = Vec::new();
    let mut cur = off3;
    proof {
        assert(insns@.map_values(|x: Insn| x@) =~= Seq::<InsnModel>::empty());
    }
    let mut k: usize = 0;
    while k < ninsns
        invariant
            k <= ninsns,
            cur <= bytes@.len(),
            insns@.len() == k,
            forall|i: int|
                0 <= i < insns@.len() ==> (#[trigger] insns@[i]).operands@.len() == arity(
                    insns@[i].op,
                ),
            ({
                let rest = dec_insns(bytes@.skip(cur as int), (ninsns - k) as nat);
                dec_insns(bytes@.skip(off3 as int), ninsns as nat) == (match rest {
                    Some(pr) => Some((insns@.map_values(|x: Insn| x@) + pr.0, pr.1)),
                    None => None::<(Seq<InsnModel>, Seq<u8>)>,
                })
            }),
        decreases ninsns - k,
    {
        let ghost insv0 = insns@.map_values(|x: Insn| x@);
        match read_insn(bytes, cur) {
            Some((insn, cur2)) => {
                insns.push(insn);
                proof {
                    assert(insns@.map_values(|x: Insn| x@) =~= insv0 + seq![insn@]);
                    let rest2 = dec_insns(bytes@.skip(cur2 as int), (ninsns - k - 1) as nat);
                    match rest2 {
                        Some(pr2) => {
                            assert(dec_insns(bytes@.skip(cur as int), (ninsns - k) as nat)
                                == Some((seq![insn@] + pr2.0, pr2.1)));
                            assert(insv0 + (seq![insn@] + pr2.0) =~= (insv0 + seq![insn@])
                                + pr2.0);
                        },
                        None => {
                            assert(dec_insns(bytes@.skip(cur as int), (ninsns - k) as nat)
                                is None);
                        },
                    }
                }
                cur = cur2;
            },
            None => {
                proof {
                    assert(dec_insns(bytes@.skip(cur as int), (ninsns - k) as nat) is None);
                }
                return None;
            },
        }
        k = k + 1;
    }
    proof {
        assert(dec_insns(bytes@.skip(cur as int), 0) == Some((
            Seq::<InsnModel>::empty(),
            bytes@.skip(cur as int),
        )));
        assert(insns@.map_values(|x: Insn| x@) + Seq::<InsnModel>::empty() =~= insns@.map_values(
            |x: Insn| x@,
        ));
    }
    Some(Prog { nregs, nparams, insns })
}

/// The value an operand reads from the register file.
fn src_val(o: &Operand, regs: &Vec<i64>) -> (r: i64)
    ensures
        r == src_value(o@, regs@),
{
    match o {
        Operand::Reg(i) => if *i < regs.len() {
            regs[*i]
        } else {
            0i64
        },
        Operand::Imm(v) => *v,
        _ => 0i64,
    }
}

/// Writes `v` to the register an operand names; out-of-range and
/// non-register writes go nowhere, as in the semantics.
fn dst_write(regs: &mut Vec<i64>, o: &Operand, v: i64)
    ensures
        final(regs)@ == write_reg(old(regs)@, crate::ir::dst_index(o@), v),
{
    match o {
        Operand::Reg(i) => {
            if *i < regs.len() {
                regs[*i] = v;
            }
        },
        _ => {},
    }
}

/// Runs a decoded image on `args`: exactly `eval_insns` over the initial
/// register file.
#[verifier::loop_isolation(false)]
fn run_prog(p: &Prog, args: &Vec<i64>) -> (r: Option<i64>)
    requires
        p.nparams <= p.nregs,
        args@.len() == p.nparams,
        forall|i: int|
            0 <= i < p.insns@.len() ==> (#[trigger] p.insns@[i]).operands@.len() == arity(
                p.insns@[i].op,
            ),
    ensures
        r == eval_insns(
            p.insns@.map_values(|x: Insn| x@),
            args@ + Seq::new((p.nregs - p.nparams) as nat, |i: int| 0i64),
        ),
{
    let mut regs: Vec<i64> = Vec::new();
    let mut t: usize = 0;
    while t < args.len()
        invariant
            t <= args@.len(),
            regs@ =~= args@.take(t as int),
        decreases args@.len() - t,
    {
        let a = args[t];
        regs.push(a);
        t = t + 1;
    }
    while regs.len() < p.nregs
        invariant
            args@.len() <= regs@.len() <= p.nregs,
            regs@ =~= args@ + Seq::new((regs@.len() - args@.len()) as nat, |i: int| 0i64),
        decreases p.nregs - regs@.len(),
    {
        regs.push(0i64);
    }
    let ghost regs0 = regs@;
    proof {
        assert(regs0 =~= args@ + Seq::new((p.nregs - p.nparams) as nat, |i: int| 0i64));
    }
    let ghost insv = p.insns@.map_values(|x: Insn| x@);
    proof {
        assert(insv.skip(0) =~= insv);
    }
    let n = p.insns.len();
    let mut pc: usize = 0;
    while pc < n
        invariant
            pc <= n,
            eval_insns(insv.skip(pc as int), regs@) == eval_insns(insv, regs0),
        decreases n - pc,
    {
        proof {
            assert(insv.skip(pc as int).first() == insv[pc as int]);
            assert(insv.skip(pc as int).drop_first() =~= insv.skip(pc as int + 1));
            assert(insv[pc as int] == p.insns@[pc as int]@);
        }
        let insn = &p.insns[pc];
        match insn.op {
            Opcode::Ret => {
                let v = src_val(&insn.operands[0], &regs);
                proof {
                    assert(insn@.operands[0] == insn.operands@[0]@);
                }
                return Some(v);
            },
            Opcode::Mov => {
                let v = src_val(&insn.operands[1], &regs);
                let ghost rpre = regs@;
                dst_write(&mut regs, &insn.operands[0], v);
                proof {
                    assert(insn@.operands[0] == insn.operands@[0]@);
                    assert(insn@.operands[1] == insn.operands@[1]@);
                    assert(regs@ == write_reg(
                        rpre,
                        crate::ir::dst_index(insn@.operands[0]),
                        src_value(insn@.operands[1], rpre),
                    ));
                }
            },
            Opcode::Add | Opcode::Sub | Opcode::Mul => {
                let a = src_val(&insn.operands[1], &regs);
                let b = src_val(&insn.operands[2], &regs);
                let v: i64 = match insn.op {
                    Opcode::Add => a.wrapping_add(b),
                    Opcode::Sub => a.wrapping_sub(b),
                    _ => a.wrapping_mul(b),
                };
                proof {
                    assert(v == crate::ir::apply_op(insn@.op, a, b));
                }
                let ghost rpre = regs@;
                dst_write(&mut regs, &insn.operands[0], v);
                proof {
                    assert(insn@.operands[0] == insn.operands@[0]@);
                    assert(insn@.operands[1] == insn.operands@[1]@);
                    assert(insn@.operands[2] == insn.operands@[2]@);
                    assert(regs@ == write_reg(
                        rpre,
                        crate::ir::dst_index(insn@.operands[0]),
                        crate::ir::apply_op(
                            insn@.op,
                            src_value(insn@.operands[1], rpre),
                            src_value(insn@.operands[2], rpre),
                        ),
                    ));
                }
            },
            Opcode::Call => {
                proof {
                    assert(eval_insns(insv.skip(pc as int), regs@) is None);
                }
                return None;
            },
        }
        pc = pc + 1;
    }
    proof {
        assert(insv.skip(n as int) =~= Seq::<InsnModel>::empty());
    }
    None
}

/// Rounding up to whole pages never shrinks a request.
pub proof fn lemma_rounded_ge(len: nat)
    ensures
        rounded_len(len) >= len,
{
    let p = crate::code_alloc::PAGE_SIZE as int;
    let x = len as int;
    vstd::arithmetic::div_mod::lemma_fundamental_div_mod(x + p - 1, p);
    assert(((x + p - 1) / p) * p >= x) by (nonlinear_arith)
        requires
            p == 4096,
            x >= 0,
            (x + p - 1) == p * ((x + p - 1) / p) + ((x + p - 1) % p),
            0 <= (x + p - 1) % p < p,
    ;
}

/// The image of a function is never empty: it always holds its header.
pub proof fn lemma_encode_len(f: FuncModel)
    ensures
        encode_func(f).len() >= 24,
{
    lemma_le_bytes_len(f.regs.len(), 8);
    lemma_le_bytes_len(f.nparams as nat, 8);
    lemma_le_bytes_len(f.insns.len(), 8);
}

/// What a generated entry point does when invoked: exactly the generated
/// function, under the straight-line semantics — the invoked bytes are the
/// written bytes, and the written bytes mean the IR they were generated
/// from.
pub proof fn lemma_generated_code_faithful(
    allocv: Seq<Option<crate::code_alloc::RegionModel>>,
    ep: EntryPoint,
    f: FuncModel,
    args: Seq<i64>,
)
    requires
        func_wf(f),
        f.finalized,
        generatable(f),
        f.regs.len() <= usize::MAX,
        f.insns.len() <= usize::MAX,
        ep.nparams as int == f.nparams,
        ep.nregs as int == f.regs.len(),
        exec_bytes(allocv, ep.region.0 as int) == Some(padded_image(f)),
        args.len() == f.nparams,
    ensures
        crate::ir::func_result(f, args) is Some,
        invoke_spec(allocv, ep, args) == Ok::<i64, JitError>(
            crate::ir::func_result(f, args)->Some_0,
        ),
{
    lemma_decode_image(f);
    lemma_straightline_returns(f.insns, crate::ir::init_regs(f, args));
    assert(crate::ir::init_regs(f, args) =~= args + Seq::new(
        (f.regs.len() - f.nparams) as nat,
        |i: int| 0i64,
    ));
}

impl crate::context::Context {
    /// Invokes the code generator on function item `i` of module `m`: the
    /// function must be finalized and linked, and within what this
    /// generator accepts (one return value, no `call`).  Its image is
    /// written into a fresh region of the context's allocator, sealed
    /// execute-only — never observable half-written — and returned as an
    /// entry point.  Memory-layer failures abort only this generation
    /// attempt; the context stays valid.
    pub fn gen(&mut self, m: usize, i: usize) -> (r: Result<EntryPoint, JitError>)
        requires
            old(self).wf(),
        ensures
            final(self).wf(),
            ({
                let pre = old(self)@;
                match r {
                    Ok(ep) => {
                        let f = pre.modules[m as int].items[i as int]->Func_0;
                        &&& pre.state == CtxState::Active
                        &&& m < pre.modules.len()
                        &&& i < pre.modules[m as int].items.len()
                        &&& pre.modules[m as int].items[i as int] is Func
                        &&& f.finalized && f.linked && generatable(f)
                        &&& ep.nparams as int == f.nparams
                        &&& ep.nregs as int == f.regs.len()
                        &&& ep.region.0 as int == pre.alloc.len()
                        &&& final(self)@ == ContextModel {
                            alloc: pre.alloc.push(
                                Some(
                                    crate::code_alloc::RegionModel {
                                        prot: crate::code_alloc::Protection::ReadExec,
                                        bytes: padded_image(f),
                                    },
                                ),
                            ),
                            ..pre
                        }
                        &&& exec_bytes(final(self)@.alloc, ep.region.0 as int) == Some(
                            padded_image(f),
                        )
                    },
                    Err(e) => {
                        &&& final(self)@ == pre
                        &&& if pre.state != CtxState::Active {
                            e == JitError::UseAfterFinish
                        } else if !(m < pre.modules.len() && i < pre.modules[m as int].items.len()
                            && pre.modules[m as int].items[i as int] is Func) {
                            e == JitError::InvalidHandle
                        } else if !pre.modules[m as int].items[i as int]->Func_0.finalized {
                            e == JitError::NotFinalized
                        } else if !pre.modules[m as int].items[i as int]->Func_0.linked {
                            e == JitError::NotLinked
                        } else if !generatable(pre.modules[m as int].items[i as int]->Func_0) {
                            e == JitError::GenerationFailure
                        } else {
                            e == JitError::AllocationFailure && encode_func(
                                pre.modules[m as int].items[i as int]->Func_0,
                            ).len() > crate::code_alloc::max_map_len()
                        }
                    },
                }
            }),
    {
        match self.state() {
            CtxState::Active => {},
            _ => {
                return Err(JitError::UseAfterFinish);
            },
        }
        let ghost pre = self@;
        let (bytes, fm, nparams, nregs) = match self.func_at(m, i) {
            Some(f) => {
                if !f.finalized {
                    return Err(JitError::NotFinalized);
                }
                if !f.linked {
                    return Err(JitError::NotLinked);
                }
                if f.rets.len() != 1 {
                    return Err(JitError::GenerationFailure);
                }
                let ghost insv = f@.insns;
                let n = f.insns.len();
                let mut k: usize = 0;
                let mut has_call = false;
                while k < n && !has_call
                    invariant
                        k <= n,
                        n == insv.len(),
                        insv == f@.insns,
                        has_call ==> k < n && insv[k as int].op == Opcode::Call,
                        !has_call ==> forall|t: int|
                            0 <= t < k ==> (#[trigger] insv[t]).op != Opcode::Call,
                    decreases n - k + (if has_call { 0int } else { 1int }),
                {
                    match f.insns[k].op {
                        Opcode::Call => {
                            has_call = true;
                        },
                        _ => {
                            k = k + 1;
                        },
                    }
                }
                if has_call {
                    return Err(JitError::GenerationFailure);
                }
                proof {
                    assert(generatable(f@));
                    assert(module_wf(pre.modules[m as int]));
                    assert(func_wf(f@));
                }
                let bytes = encode_func_exec(f);
                (bytes, Ghost(f@), f.nparams, f.regs.len())
            },
            None => {
                return Err(JitError::InvalidHandle);
            },
        };
        let ghost fmodel: FuncModel = fm@;
        proof {
            lemma_encode_len(fmodel);
        }
        let blen = bytes.len();
        let alloc = self.alloc_mut();
        let id = match alloc.map(blen) {
            Ok(id) => id,
            Err(_) => {
                return Err(JitError::AllocationFailure);
            },
        };
        proof {
            lemma_rounded_ge(blen as nat);
        }
        let ghost a1 = alloc@;
        match alloc.write(id, 0, &bytes) {
            Ok(()) => {},
            Err(_) => {
                proof {
                    assert(crate::code_alloc::write_allowed(a1, id.0 as int, 0, bytes@.len()));
                    assert(false);
                }
                return Err(JitError::GenerationFailure);
            },
        }
        let ghost a2 = alloc@;
        match alloc.protect(id, crate::code_alloc::Protection::ReadExec) {
            Ok(()) => {},
            Err(_) => {
                proof {
                    assert(crate::code_alloc::is_mapped(a2, id.0 as int));
                    assert(false);
                }
                return Err(JitError::GenerationFailure);
            },
        }
        proof {
            let zeros = Seq::new(rounded_len(blen as nat), |t: int| 0u8);
            let written = crate::code_alloc::spliced(zeros, 0, bytes@);
            assert(written =~= padded_image(fmodel)) by {
                assert(zeros.take(0) =~= Seq::<u8>::empty());
                assert(zeros.skip(0 + bytes@.len() as int) =~= Seq::new(
                    (rounded_len(encode_func(fmodel).len()) - encode_func(fmodel).len()) as nat,
                    |t: int| 0u8,
                ));
            }
            assert(alloc@ =~~= pre.alloc.push(
                Some(
                    crate::code_alloc::RegionModel {
                        prot: crate::code_alloc::Protection::ReadExec,
                        bytes: padded_image(fmodel),
                    },
                ),
            ));
        }
        Ok(EntryPoint { region: id, nparams, nregs })
    }

    /// Invokes a generated entry point on `args`.  The backing region must
    /// still be mapped and sealed execute-allowed — a released region's
    /// entry points are refused with `ProtectionFailure` — and the result
    /// is exactly what the sealed bytes, decoded and run, return.
    pub fn invoke(&self, ep: EntryPoint, args: &Vec<i64>) -> (r: Result<i64, JitError>)
        ensures
            r == invoke_spec(self@.alloc, ep, args@),
    {
        let alloc = self.alloc_ref();
        let bytes = match alloc.read_exec(ep.region) {
            Ok(b) => b,
            Err(_) => {
                return Err(JitError::ProtectionFailure);
            },
        };
        let prog = match read_prog(&bytes) {
            Some(p) => p,
            None => {
                return Err(JitError::GenerationFailure);
            },
        };
        if args.len() != prog.nparams {
            return Err(JitError::GenerationFailure);
        }
        match run_prog(&prog, args) {
            Some(v) => Ok(v),
            None => Err(JitError::GenerationFailure),
        }
    }
}

} // verus!

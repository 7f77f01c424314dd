use vstd::prelude::*;
use crate::constant_pool::{
    BootstrapArgument, ConstantPoolEntry, LiteralConstant, MemberKind, MemberRef, NameAndType, class_at,
    resolve_bootstrap_argument, resolve_class, resolve_literal, resolve_member, resolve_name_and_type,
};
use crate::cursor::{be16, can_read, read_u1, read_u2, read_u4};
use crate::error::{ErrorKind, Frame, ParseError, fails_with};

verus! {

/// The decoded operands of one instruction.
#[derive(Debug)]
pub enum Operand {
    NoOperand,
    /// A local variable slot (loads, stores, `ret`).
    Local(u16),
    /// An immediate value (`bipush`, `sipush`, the array type of `newarray`).
    Immediate(i32),
    Increment { index: u16, delta: i16 },
    /// A branch offset relative to the instruction's own position.
    Branch(i32),
    /// A loadable constant (`ldc`, `ldc_w`, `ldc2_w`).
    Constant(BootstrapArgument),
    Field(MemberRef),
    Method(MemberRef),
    InterfaceMethod { method: MemberRef, count: u8 },
    InvokeDynamic { bootstrap_method_attr_index: u16, name_and_type: NameAndType },
    Class(String),
    MultiNewArray { class_name: String, dimensions: u8 },
    TableSwitch { default: i32, low: i32, high: i32, offsets: Vec<i32> },
    LookupSwitch { default: i32, pairs: Vec<(i32, i32)> },
}

#[derive(Debug)]
pub struct Instruction {
    /// Offset of the opcode in the code array.
    pub pc: usize,
    pub opcode: u8,
    /// The instruction carried a `wide` prefix (then `opcode` is the widened one).
    pub wide: bool,
    pub operand: Operand,
}

#[derive(Debug)]
pub struct ByteCode {
    pub instructions: Vec<Instruction>,
}

pub const WIDE: u8 = 0xc4;
pub const TABLESWITCH: u8 = 0xaa;
pub const LOOKUPSWITCH: u8 = 0xab;

/// The opcodes that the JVM defines for class files (0x00 to 0xc9).
pub open spec fn is_opcode(op: u8) -> bool {
    op <= 0xc9
}

/// Loads, stores and `ret`: a local variable index operand.
pub open spec fn is_local_op(op: u8) -> bool {
    (0x15 <= op <= 0x19) || (0x36 <= op <= 0x3a) || op == 0xa9
}

/// Conditional branches, `goto`, `jsr`, `ifnull`, `ifnonnull`: a 16-bit offset.
pub open spec fn is_branch16_op(op: u8) -> bool {
    (0x99 <= op <= 0xa8) || op == 0xc6 || op == 0xc7
}

/// Opcodes whose operand is one ClassInfo index.
pub open spec fn is_class_op(op: u8) -> bool {
    op == 0xbb || op == 0xbd || op == 0xc0 || op == 0xc1
}

/// Number of operand bytes of an opcode without a `wide` prefix, other than the two switches.
pub open spec fn operand_length(op: u8) -> int {
    if op == 0x10 || op == 0x12 || op == 0xbc || is_local_op(op) { 1 }
    else if op == 0x11 || op == 0x13 || op == 0x14 || op == 0x84 || is_branch16_op(op)
        || (0xb2 <= op <= 0xb8) || is_class_op(op) { 2 }
    else if op == 0xc5 { 3 }
    else if op == 0xb9 || op == 0xba || op == 0xc8 || op == 0xc9 { 4 }
    else { 0 }
}

fn is_local_opcode(op: u8) -> (r: bool)
    ensures
        r == is_local_op(op),
{
    (0x15 <= op && op <= 0x19) || (0x36 <= op && op <= 0x3a) || op == 0xa9
}

fn member_of_kind(pool: &[ConstantPoolEntry], i: u16, field: bool, method: bool, interface: bool) -> (r: Result<MemberRef, ParseError>)
    ensures
        r is Ok ==> (r->Ok_0.kind == MemberKind::Field ==> field)
            && (r->Ok_0.kind == MemberKind::Method ==> method)
            && (r->Ok_0.kind == MemberKind::InterfaceMethod ==> interface),
{
    let m = resolve_member(pool, i)?;
    let ok = match m.kind {
        MemberKind::Field => field,
        MemberKind::Method => method,
        MemberKind::InterfaceMethod => interface,
    };
    if !ok {
        return Err(ParseError::new(ErrorKind::PoolKindMismatch));
    }
    Ok(m)
}

/// Resolves the constant that `ldc`/`ldc_w` (`two_slot` false) or `ldc2_w` (true) loads.
fn loadable_constant(pool: &[ConstantPoolEntry], i: u16, two_slot: bool) -> (r: Result<BootstrapArgument, ParseError>)
    ensures
        r is Ok && two_slot ==> (r->Ok_0 matches BootstrapArgument::Literal(l) && (l is Long || l is Double)),
        r is Ok && !two_slot ==> !(r->Ok_0 matches BootstrapArgument::Literal(l) && (l is Long || l is Double)),
{
    if two_slot {
        let l = resolve_literal(pool, i)?;
        match l {
            LiteralConstant::Long(_) | LiteralConstant::Double(_) => Ok(BootstrapArgument::Literal(l)),
            _ => Err(ParseError::new(ErrorKind::PoolKindMismatch)),
        }
    } else {
        let a = resolve_bootstrap_argument(pool, i)?;
        let wide = match &a {
            BootstrapArgument::Literal(LiteralConstant::Long(_)) => true,
            BootstrapArgument::Literal(LiteralConstant::Double(_)) => true,
            _ => false,
        };
        if wide {
            return Err(ParseError::new(ErrorKind::PoolKindMismatch));
        }
        Ok(a)
    }
}

fn invoke_dynamic(pool: &[ConstantPoolEntry], i: u16) -> (r: Result<Operand, ParseError>)
    ensures
        r is Ok ==> r->Ok_0 is InvokeDynamic,
{
    if i == 0 || i as usize >= pool.len() {
        return Err(ParseError::new(ErrorKind::BadPoolIndex));
    }
    match &pool[i as usize] {
        ConstantPoolEntry::InvokeDynamic { bootstrap_method_attr_index, name_and_type_index } => {
            let name_and_type = resolve_name_and_type(pool, *name_and_type_index)?;
            Ok(Operand::InvokeDynamic { bootstrap_method_attr_index: *bootstrap_method_attr_index, name_and_type })
        },
        ConstantPoolEntry::Placeholder => Err(ParseError::new(ErrorKind::BadPoolIndex)),
        _ => Err(ParseError::new(ErrorKind::PoolKindMismatch)),
    }
}

/// Reads a big-endian signed 32-bit value.
fn read_i4(code: &[u8], pc: &mut usize) -> (r: Result<i32, ParseError>)
    ensures
        r is Ok <==> can_read(code@, *old(pc) as int, 4),
        r is Ok ==> *final(pc) == *old(pc) + 4,
        r is Err ==> fails_with(r, ErrorKind::UnexpectedEnd),
{
    Ok(read_u4(code, pc)? as i32)
}

/// Reads the operands of `tableswitch` or `lookupswitch` whose opcode is at `start`.
fn read_switch(code: &[u8], pc: &mut usize, start: usize, table: bool) -> (r: Result<Operand, ParseError>)
    requires
        *old(pc) == start + 1,
        *old(pc) <= code@.len(),
    ensures
        r is Ok ==> *old(pc) + 8 <= *final(pc) <= code@.len(),
        r is Ok && table ==> r->Ok_0 is TableSwitch,
        r is Ok && !table ==> r->Ok_0 is LookupSwitch,
{
    let pad: usize = (4 - *pc % 4) % 4;
    let mut k: usize = 0;
    while k < pad
        invariant
            pad < 4,
            k <= pad,
            *pc == start + 1 + k,
            start + 1 <= code@.len(),
        decreases pad - k,
    {
        read_u1(code, pc)?;
        k = k + 1;
    }
    let default = read_i4(code, pc)?;
    if table {
        let low = read_i4(code, pc)?;
        let high = read_i4(code, pc)?;
        if low > high {
            return Err(ParseError::new(ErrorKind::BadOperand));
        }
        let count: u64 = (high as i64 - low as i64 + 1) as u64;
        let mut offsets: Vec<i32> = Vec::new();
        let mut n: u64 = 0;
        while n < count
            invariant
                start + 13 <= *pc <= code@.len(),
            decreases count - n,
        {
            offsets.push(read_i4(code, pc)?);
            n = n + 1;
        }
        Ok(Operand::TableSwitch { default, low, high, offsets })
    } else {
        let npairs = read_i4(code, pc)?;
        if npairs < 0 {
            return Err(ParseError::new(ErrorKind::BadOperand));
        }
        let mut pairs: Vec<(i32, i32)> = Vec::new();
        let mut n: i32 = 0;
        while n < npairs
            invariant
                start + 9 <= *pc <= code@.len(),
            decreases npairs - n,
        {
            let key = read_i4(code, pc)?;
            let offset = read_i4(code, pc)?;
            pairs.push((key, offset));
            n = n + 1;
        }
        Ok(Operand::LookupSwitch { default, pairs })
    }
}

/// Opcodes whose operands are plain numbers read from the code (no pool
/// reference, no `wide`, no switch table).
pub open spec fn is_plain_op(op: u8) -> bool {
    is_opcode(op) && !(0x12 <= op <= 0x14) && op != TABLESWITCH && op != LOOKUPSWITCH
        && !(0xb2 <= op <= 0xbb) && op != 0xbd && op != 0xc0 && op != 0xc1 && op != 0xc5 && op != WIDE
}

/// From `p` on, the code is a run of plain instructions whose operands all fit.
pub open spec fn plain_run(code: Seq<u8>, p: int) -> bool
    decreases code.len() - p,
{
    if p < 0 || p >= code.len() { true }
    else if !is_plain_op(code[p]) || !can_read(code, p + 1, operand_length(code[p])) { false }
    else { plain_run(code, p + 1 + operand_length(code[p])) }
}

/// Decodes the instruction at `pc` and moves past it.
pub fn decode_instruction(code: &[u8], pc: &mut usize, pool: &[ConstantPoolEntry]) -> (r: Result<Instruction, ParseError>)
    ensures
        *old(pc) >= code@.len() ==> fails_with(r, ErrorKind::UnexpectedEnd),
        r is Ok ==> *old(pc) < *final(pc) <= code@.len(),
        r is Ok ==> r->Ok_0.pc == *old(pc) && is_opcode(r->Ok_0.opcode),
        r is Ok && !r->Ok_0.wide ==> r->Ok_0.opcode == code@[*old(pc) as int],
        r is Ok && r->Ok_0.wide ==> code@[*old(pc) as int] == WIDE,
        *old(pc) < code@.len() && !is_opcode(code@[*old(pc) as int]) ==> fails_with(r, ErrorKind::UnrecognizedOpcode),
        *old(pc) < code@.len() && is_plain_op(code@[*old(pc) as int]) ==>
            (r is Ok <==> can_read(code@, *old(pc) + 1, operand_length(code@[*old(pc) as int]))),
        ({
            let op = code@[*old(pc) as int];
            is_opcode(op) && op != WIDE && op != TABLESWITCH && op != LOOKUPSWITCH && r is Ok
                ==> *final(pc) == *old(pc) + 1 + operand_length(op)
        }),
        ({
            let op = code@[*old(pc) as int];
            is_local_op(op) && r is Ok ==> r->Ok_0.operand == Operand::Local(code@[*old(pc) + 1] as u16)
        }),
        ({
            let op = code@[*old(pc) as int];
            is_branch16_op(op) && r is Ok ==>
                r->Ok_0.operand == Operand::Branch(be16(code@, *old(pc) + 1) as u16 as i16 as i32)
        }),
        ({
            let op = code@[*old(pc) as int];
            is_class_op(op) && r is Ok ==> (r->Ok_0.operand matches Operand::Class(c)
                && class_at(pool@, be16(code@, *old(pc) + 1)) == Some(c@))
        }),
{
    let start = *pc;
    let op = read_u1(code, pc)?;
    let mut wide = false;
    let mut opcode = op;
    let operand = if op > 0xc9 {
        return Err(ParseError::new(ErrorKind::UnrecognizedOpcode));
    } else if op == 0x10 {
        Operand::Immediate(read_u1(code, pc)? as i8 as i32)
    } else if op == 0x11 {
        Operand::Immediate(read_u2(code, pc)? as i16 as i32)
    } else if op == 0x12 {
        let i = read_u1(code, pc)?;
        Operand::Constant(loadable_constant(pool, i as u16, false)?)
    } else if op == 0x13 || op == 0x14 {
        let i = read_u2(code, pc)?;
        Operand::Constant(loadable_constant(pool, i, op == 0x14)?)
    } else if is_local_opcode(op) {
        Operand::Local(read_u1(code, pc)? as u16)
    } else if op == 0x84 {
        let index = read_u1(code, pc)? as u16;
        let delta = read_u1(code, pc)? as i8 as i16;
        Operand::Increment { index, delta }
    } else if (0x99 <= op && op <= 0xa8) || op == 0xc6 || op == 0xc7 {
        Operand::Branch(read_u2(code, pc)? as i16 as i32)
    } else if op == 0xc8 || op == 0xc9 {
        Operand::Branch(read_i4(code, pc)?)
    } else if op == TABLESWITCH || op == LOOKUPSWITCH {
        read_switch(code, pc, start, op == TABLESWITCH)?
    } else if 0xb2 <= op && op <= 0xb5 {
        let i = read_u2(code, pc)?;
        Operand::Field(member_of_kind(pool, i, true, false, false)?)
    } else if op == 0xb6 {
        let i = read_u2(code, pc)?;
        Operand::Method(member_of_kind(pool, i, false, true, false)?)
    } else if op == 0xb7 || op == 0xb8 {
        let i = read_u2(code, pc)?;
        Operand::Method(member_of_kind(pool, i, false, true, true)?)
    } else if op == 0xb9 {
        let i = read_u2(code, pc)?;
        let method = member_of_kind(pool, i, false, false, true)?;
        let count = read_u1(code, pc)?;
        let zero = read_u1(code, pc)?;
        if zero != 0 {
            return Err(ParseError::new(ErrorKind::BadOperand));
        }
        Operand::InterfaceMethod { method, count }
    } else if op == 0xba {
        let i = read_u2(code, pc)?;
        let operand = invoke_dynamic(pool, i)?;
        let zero = read_u2(code, pc)?;
        if zero != 0 {
            return Err(ParseError::new(ErrorKind::BadOperand));
        }
        operand
    } else if op == 0xbb || op == 0xbd || op == 0xc0 || op == 0xc1 {
        let i = read_u2(code, pc)?;
        Operand::Class(resolve_class(pool, i)?)
    } else if op == 0xbc {
        Operand::Immediate(read_u1(code, pc)? as i32)
    } else if op == 0xc5 {
        let i = read_u2(code, pc)?;
        let class_name = resolve_class(pool, i)?;
        let dimensions = read_u1(code, pc)?;
        Operand::MultiNewArray { class_name, dimensions }
    } else if op == WIDE {
        wide = true;
        opcode = read_u1(code, pc)?;
        if is_local_opcode(opcode) {
            Operand::Local(read_u2(code, pc)?)
        } else if opcode == 0x84 {
            let index = read_u2(code, pc)?;
            let delta = read_u2(code, pc)? as i16;
            Operand::Increment { index, delta }
        } else {
            return Err(ParseError::new(ErrorKind::BadOperand));
        }
    } else {
        Operand::NoOperand
    };
    Ok(Instruction { pc: start, opcode, wide, operand })
}

/// Decodes a whole code array, instruction by instruction from offset 0.
#[verifier::rlimit(50)]
pub fn decode_bytecode(code: &[u8], pool: &[ConstantPoolEntry]) -> (r: Result<ByteCode, ParseError>)
    ensures
        r is Ok ==> ({
            let v = r->Ok_0.instructions@;
            &&& code@.len() == 0 <==> v.len() == 0
            &&& v.len() > 0 ==> v[0].pc == 0
            &&& forall|k: int| 0 <= k < v.len() ==> (#[trigger] v[k]).pc < code@.len() && is_opcode(v[k].opcode)
            &&& forall|k: int| 0 <= k < v.len() && !v[k].wide ==> (#[trigger] v[k]).opcode == code@[v[k].pc as int]
            &&& forall|k: int| 0 < k < v.len() ==> v[k - 1].pc < (#[trigger] v[k]).pc
        }),
        code@.len() > 0 && !is_opcode(code@[0]) ==> fails_with(r, ErrorKind::UnrecognizedOpcode),
        plain_run(code@, 0) ==> r is Ok,
{
    let mut instructions: Vec<Instruction> = Vec::new();
    let mut pc: usize = 0;
    while pc < code.len()
        invariant
            pc <= code@.len(),
            instructions@.len() == 0 <==> pc == 0,
            pc > 0 ==> is_opcode(code@[0]),
            plain_run(code@, 0) ==> plain_run(code@, pc as int),
            instructions@.len() > 0 ==> instructions@[0].pc == 0,
            instructions@.len() > 0 ==> instructions@.last().pc < pc,
            forall|k: int| 0 <= k < instructions@.len() ==>
                (#[trigger] instructions@[k]).pc < code@.len() && is_opcode(instructions@[k].opcode),
            forall|k: int| 0 <= k < instructions@.len() && !instructions@[k].wide ==>
                (#[trigger] instructions@[k]).opcode == code@[instructions@[k].pc as int],
            forall|k: int| 0 < k < instructions@.len() ==> instructions@[k - 1].pc < (#[trigger] instructions@[k]).pc,
        decreases code@.len() - pc,
    {
        let at = pc;
        let instruction = match decode_instruction(code, &mut pc, pool) {
            Ok(i) => i,
            Err(e) => {
                let at32 = if at <= 0xffff_ffff { at as u32 } else { 0xffff_ffff };
                return Err(e.wrap(Frame::Instruction(at32)));
            },
        };
        instructions.push(instruction);
    }
    Ok(ByteCode { instructions })
}

} // verus!

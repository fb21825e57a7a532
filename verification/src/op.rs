//! The instruction codec: the closed set of instruction kinds, each kind's
//! fixed numeric tag and operand shape (none, one unsigned byte, or one
//! signed 16-bit big-endian offset), and the bidirectional mapping between
//! an instruction value and its byte encoding.

use vstd::prelude::*;

verus! {

/// One decoded unit of executable bytecode: a tag plus an optional operand.
///
/// No-operand kinds are structural or operator instructions; byte-operand
/// kinds carry an index (constant pool, global table, local slot) or a
/// count; offset-operand kinds are the five jump variants, whose operand is
/// a signed byte distance relative to the position just after the jump's
/// own three encoded bytes.
#[derive(Debug, Copy, Clone, PartialEq, Eq, Hash, Structural)]
pub enum Op {
    Return,
    Pop,
    PopN(u8),
    Constant(u8),
    Nil,
    False,
    True,
    Call(u8),
    Index,
    Func(u8),
    LocalGet(u8),
    LocalSet(u8),
    GlobalDefine(u8),
    GlobalGet(u8),
    GlobalSet(u8),
    Not,
    Eq,
    Ne,
    Gt,
    Ge,
    Lt,
    Le,
    Neg,
    Add,
    Sub,
    Mul,
    Div,
    Rem,
    Jump(i16),
    JumpFalsePeek(i16),
    JumpFalsePop(i16),
    JumpTruePeek(i16),
    JumpTruePop(i16),
}

/// A malformed instruction stream, reported by [`Op::scan`].
#[derive(Debug, Copy, Clone, PartialEq, Eq, Structural)]
pub enum OpError {
    /// The leading byte matches no defined instruction tag.
    UnknownOpcode { opcode: u8 },
    /// The buffer ends before all operand bytes of `op` are present; `b` is
    /// the index of the first missing byte and `op` carries a zero operand
    /// in place of the bytes that were never read.
    MissingByte { op: Op, b: usize },
}

/// The wire tag of each instruction kind (stable across versions).
pub open spec fn tag_of(op: Op) -> u8 {
    match op {
        Op::Return => 0x00,
        Op::Pop => 0x01,
        Op::PopN(_) => 0x02,
        Op::Constant(_) => 0x03,
        Op::Nil => 0x04,
        Op::False => 0x05,
        Op::True => 0x06,
        Op::Call(_) => 0x10,
        Op::Index => 0x11,
        Op::Func(_) => 0x12,
        Op::LocalGet(_) => 0x20,
        Op::LocalSet(_) => 0x21,
        Op::GlobalDefine(_) => 0x22,
        Op::GlobalGet(_) => 0x23,
        Op::GlobalSet(_) => 0x24,
        Op::Not => 0x30,
        Op::Eq => 0x31,
        Op::Ne => 0x32,
        Op::Gt => 0x33,
        Op::Ge => 0x34,
        Op::Lt => 0x35,
        Op::Le => 0x36,
        Op::Neg => 0x37,
        Op::Add => 0x38,
        Op::Sub => 0x39,
        Op::Mul => 0x3a,
        Op::Div => 0x3b,
        Op::Rem => 0x3c,
        Op::Jump(_) => 0x60,
        Op::JumpFalsePeek(_) => 0x61,
        Op::JumpFalsePop(_) => 0x62,
        Op::JumpTruePeek(_) => 0x63,
        Op::JumpTruePop(_) => 0x64,
    }
}

/// High byte of the big-endian encoding of a signed 16-bit operand.
pub open spec fn be_hi(v: i16) -> u8 {
    ((v as u16) >> 8) as u8
}

/// Low byte of the big-endian encoding of a signed 16-bit operand.
pub open spec fn be_lo(v: i16) -> u8 {
    (v as u16) as u8
}

/// The signed 16-bit value encoded big-endian by the two given bytes.
pub open spec fn i16_from_be(hi: u8, lo: u8) -> i16 {
    (((hi as u16) << 8) | (lo as u16)) as i16
}

/// The byte encoding of an instruction: its tag followed by 0, 1 or 2
/// operand bytes, so 1, 2 or 3 bytes in all.
pub open spec fn op_bytes(op: Op) -> Seq<u8> {
    match op {
        Op::PopN(b) | Op::Constant(b) | Op::Call(b) | Op::Func(b) | Op::LocalGet(b)
            | Op::LocalSet(b) | Op::GlobalDefine(b) | Op::GlobalGet(b) | Op::GlobalSet(b) =>
            seq![tag_of(op), b],
        Op::Jump(v) | Op::JumpFalsePeek(v) | Op::JumpFalsePop(v) | Op::JumpTruePeek(v)
            | Op::JumpTruePop(v) => seq![tag_of(op), be_hi(v), be_lo(v)],
        _ => seq![tag_of(op)],
    }
}

/// Tags of the instruction kinds that carry no operand.
pub open spec fn is_simple_tag(t: u8) -> bool {
    t == 0x00 || t == 0x01 || t == 0x04 || t == 0x05 || t == 0x06 || t == 0x11
        || (0x30 <= t && t <= 0x3c)
}

/// Tags of the instruction kinds that carry one unsigned byte operand.
pub open spec fn is_byte_tag(t: u8) -> bool {
    t == 0x02 || t == 0x03 || t == 0x10 || t == 0x12 || (0x20 <= t && t <= 0x24)
}

/// Tags of the five jump kinds, which carry one signed 16-bit operand.
pub open spec fn is_jump_tag(t: u8) -> bool {
    0x60 <= t && t <= 0x64
}

/// Whether a byte is the tag of some defined instruction.
pub open spec fn is_opcode(t: u8) -> bool {
    is_simple_tag(t) || is_byte_tag(t) || is_jump_tag(t)
}

/// The no-operand instruction with the given tag.
pub open spec fn simple_op(t: u8) -> Op {
    if t == 0x00 { Op::Return }
    else if t == 0x01 { Op::Pop }
    else if t == 0x04 { Op::Nil }
    else if t == 0x05 { Op::False }
    else if t == 0x06 { Op::True }
    else if t == 0x11 { Op::Index }
    else if t == 0x30 { Op::Not }
    else if t == 0x31 { Op::Eq }
    else if t == 0x32 { Op::Ne }
    else if t == 0x33 { Op::Gt }
    else if t == 0x34 { Op::Ge }
    else if t == 0x35 { Op::Lt }
    else if t == 0x36 { Op::Le }
    else if t == 0x37 { Op::Neg }
    else if t == 0x38 { Op::Add }
    else if t == 0x39 { Op::Sub }
    else if t == 0x3a { Op::Mul }
    else if t == 0x3b { Op::Div }
    else { Op::Rem }
}

/// The byte-operand instruction with the given tag and operand.
pub open spec fn byte_op(t: u8, b: u8) -> Op {
    if t == 0x02 { Op::PopN(b) }
    else if t == 0x03 { Op::Constant(b) }
    else if t == 0x10 { Op::Call(b) }
    else if t == 0x12 { Op::Func(b) }
    else if t == 0x20 { Op::LocalGet(b) }
    else if t == 0x21 { Op::LocalSet(b) }
    else if t == 0x22 { Op::GlobalDefine(b) }
    else if t == 0x23 { Op::GlobalGet(b) }
    else { Op::GlobalSet(b) }
}

/// The jump instruction with the given tag and relative offset.
pub open spec fn jump_op(t: u8, v: i16) -> Op {
    if t == 0x60 { Op::Jump(v) }
    else if t == 0x61 { Op::JumpFalsePeek(v) }
    else if t == 0x62 { Op::JumpFalsePop(v) }
    else if t == 0x63 { Op::JumpTruePeek(v) }
    else { Op::JumpTruePop(v) }
}

/// The operand-carrying instruction with the given tag and a zero operand,
/// as reported inside [`OpError::MissingByte`] for a truncated encoding.
pub open spec fn placeholder_op(t: u8) -> Op {
    if is_byte_tag(t) { byte_op(t, 0) } else { jump_op(t, 0) }
}

/// What decoding one instruction from the front of `code` yields: the end
/// of the stream (`Ok(None)`), an instruction (`Ok(Some(op))`), or a
/// malformed-stream error. Only the leading bytes are inspected; operand
/// values are not validated against any particular chunk.
pub open spec fn scan_spec(code: Seq<u8>) -> Result<Option<Op>, OpError> {
    if code.len() == 0 {
        Ok(None)
    } else {
        let t = code[0];
        if is_simple_tag(t) {
            Ok(Some(simple_op(t)))
        } else if is_byte_tag(t) {
            if code.len() < 2 {
                Err(OpError::MissingByte { op: byte_op(t, 0), b: 1 })
            } else {
                Ok(Some(byte_op(t, code[1])))
            }
        } else if is_jump_tag(t) {
            if code.len() < 2 {
                Err(OpError::MissingByte { op: jump_op(t, 0), b: 1 })
            } else if code.len() < 3 {
                Err(OpError::MissingByte { op: jump_op(t, 0), b: 2 })
            } else {
                Ok(Some(jump_op(t, i16_from_be(code[1], code[2]))))
            }
        } else {
            Err(OpError::UnknownOpcode { opcode: t })
        }
    }
}

/// Big-endian 16-bit encoding and decoding invert each other.
pub proof fn lemma_be_round_trip(v: i16)
    ensures
        i16_from_be(be_hi(v), be_lo(v)) == v,
{
    assert(((((((v as u16) >> 8) as u8) as u16) << 8) | (((v as u16) as u8) as u16)) as i16
        == v) by (bit_vector);
}

/// Shape facts about an instruction's encoding: it is 1 to 3 bytes long,
/// starts with the instruction's tag, and that tag is a defined opcode.
pub proof fn lemma_op_bytes_shape(op: Op)
    ensures
        1 <= op_bytes(op).len() <= 3,
        op_bytes(op)[0] == tag_of(op),
        is_opcode(tag_of(op)),
{
}

/// Decoding an encoded instruction, with any bytes at all behind it, yields
/// exactly that instruction: `decode` is a left inverse of `encode` and
/// reads nothing past the instruction's own bytes.
pub proof fn lemma_scan_op_bytes(op: Op, rest: Seq<u8>)
    ensures
        scan_spec(op_bytes(op).add(rest)) == Ok::<Option<Op>, OpError>(Some(op)),
{
    let code = op_bytes(op).add(rest);
    assert(code[0] == tag_of(op));
    match op {
        Op::Jump(v) | Op::JumpFalsePeek(v) | Op::JumpFalsePop(v) | Op::JumpTruePeek(v)
            | Op::JumpTruePop(v) => {
            lemma_be_round_trip(v);
            assert(code[1] == be_hi(v) && code[2] == be_lo(v));
        }
        _ => {}
    }
}

/// Truncation is detected: an encoded operand-carrying instruction with its
/// last byte removed decodes to `MissingByte` — not to the end-of-stream
/// signal and not to some other instruction.
pub proof fn lemma_scan_truncated(op: Op)
    requires
        op_bytes(op).len() >= 2,
    ensures
        scan_spec(op_bytes(op).take(op_bytes(op).len() - 1)) == Err::<Option<Op>, OpError>(OpError::MissingByte {
            op: placeholder_op(tag_of(op)),
            b: (op_bytes(op).len() - 1) as usize,
        }),
{
    let code = op_bytes(op).take(op_bytes(op).len() - 1);
    assert(code[0] == tag_of(op));
}

impl Op {
    /// The wire tag of this instruction.
    pub fn tag(&self) -> (t: u8)
        ensures
            t == tag_of(*self),
    {
        match *self {
            Op::Return => 0x00,
            Op::Pop => 0x01,
            Op::PopN(_) => 0x02,
            Op::Constant(_) => 0x03,
            Op::Nil => 0x04,
            Op::False => 0x05,
            Op::True => 0x06,
            Op::Call(_) => 0x10,
            Op::Index => 0x11,
            Op::Func(_) => 0x12,
            Op::LocalGet(_) => 0x20,
            Op::LocalSet(_) => 0x21,
            Op::GlobalDefine(_) => 0x22,
            Op::GlobalGet(_) => 0x23,
            Op::GlobalSet(_) => 0x24,
            Op::Not => 0x30,
            Op::Eq => 0x31,
            Op::Ne => 0x32,
            Op::Gt => 0x33,
            Op::Ge => 0x34,
            Op::Lt => 0x35,
            Op::Le => 0x36,
            Op::Neg => 0x37,
            Op::Add => 0x38,
            Op::Sub => 0x39,
            Op::Mul => 0x3a,
            Op::Div => 0x3b,
            Op::Rem => 0x3c,
            Op::Jump(_) => 0x60,
            Op::JumpFalsePeek(_) => 0x61,
            Op::JumpFalsePop(_) => 0x62,
            Op::JumpTruePeek(_) => 0x63,
            Op::JumpTruePop(_) => 0x64,
        }
    }

    /// Encode this instruction: the tag byte followed by its operand bytes.
    pub fn to_bytes(&self) -> (r: Vec<u8>)
        ensures
            r@ == op_bytes(*self),
    {
        let mut bytes: Vec<u8> = Vec::new();
        bytes.push(self.tag());
        match *self {
            Op::PopN(b) | Op::Constant(b) | Op::Call(b) | Op::Func(b) | Op::LocalGet(b)
                | Op::LocalSet(b) | Op::GlobalDefine(b) | Op::GlobalGet(b)
                | Op::GlobalSet(b) => {
                bytes.push(b);
            }
            Op::Jump(v) | Op::JumpFalsePeek(v) | Op::JumpFalsePop(v) | Op::JumpTruePeek(v)
                | Op::JumpTruePop(v) => {
                let u: u16 = v as u16;
                bytes.push((u >> 8) as u8);
                bytes.push(u as u8);
            }
            _ => {}
        }
        proof {
            assert(bytes@ =~= op_bytes(*self));
        }
        bytes
    }

    /// The fixed encoded size of this instruction, in bytes.
    pub fn size_bytes(&self) -> (n: usize)
        ensures
            n == op_bytes(*self).len(),
    {
        match *self {
            Op::PopN(_) | Op::Constant(_) | Op::Call(_) | Op::Func(_) | Op::LocalGet(_)
                | Op::LocalSet(_) | Op::GlobalDefine(_) | Op::GlobalGet(_)
                | Op::GlobalSet(_) => 2,
            Op::Jump(_) | Op::JumpFalsePeek(_) | Op::JumpFalsePop(_) | Op::JumpTruePeek(_)
                | Op::JumpTruePop(_) => 3,
            _ => 1,
        }
    }

    /// Decode exactly one instruction from the front of `code`. Returns
    /// `Ok(None)` on an empty buffer (end of stream), `UnknownOpcode` if
    /// the leading byte matches no tag, and `MissingByte` if the buffer
    /// ends inside the instruction's operand bytes.
    pub fn scan(code: &[u8]) -> (r: Result<Option<Op>, OpError>)
        ensures
            r == scan_spec(code@),
    {
        if code.len() == 0 {
            return Ok(None);
        }
        let t: u8 = code[0];
        if t == 0x00 || t == 0x01 || t == 0x04 || t == 0x05 || t == 0x06 || t == 0x11
            || (0x30 <= t && t <= 0x3c) {
            Ok(Some(Self::op_for_simple(t)))
        } else if t == 0x02 || t == 0x03 || t == 0x10 || t == 0x12 || (0x20 <= t && t <= 0x24) {
            if code.len() < 2 {
                Err(OpError::MissingByte { op: Self::op_for_byte(t, 0), b: 1 })
            } else {
                Ok(Some(Self::op_for_byte(t, code[1])))
            }
        } else if 0x60 <= t && t <= 0x64 {
            if code.len() < 2 {
                Err(OpError::MissingByte { op: Self::op_for_jump(t, 0), b: 1 })
            } else if code.len() < 3 {
                Err(OpError::MissingByte { op: Self::op_for_jump(t, 0), b: 2 })
            } else {
                let hi = code[1];
                let lo = code[2];
                let v: i16 = (((hi as u16) << 8) | (lo as u16)) as i16;
                Ok(Some(Self::op_for_jump(t, v)))
            }
        } else {
            Err(OpError::UnknownOpcode { opcode: t })
        }
    }

    /// Build the no-operand instruction with the given tag.
    fn op_for_simple(t: u8) -> (r: Op)
        requires
            is_simple_tag(t),
        ensures
            r == simple_op(t),
    {
        if t == 0x00 { Op::Return }
        else if t == 0x01 { Op::Pop }
        else if t == 0x04 { Op::Nil }
        else if t == 0x05 { Op::False }
        else if t == 0x06 { Op::True }
        else if t == 0x11 { Op::Index }
        else if t == 0x30 { Op::Not }
        else if t == 0x31 { Op::Eq }
        else if t == 0x32 { Op::Ne }
        else if t == 0x33 { Op::Gt }
        else if t == 0x34 { Op::Ge }
        else if t == 0x35 { Op::Lt }
        else if t == 0x36 { Op::Le }
        else if t == 0x37 { Op::Neg }
        else if t == 0x38 { Op::Add }
        else if t == 0x39 { Op::Sub }
        else if t == 0x3a { Op::Mul }
        else if t == 0x3b { Op::Div }
        else { Op::Rem }
    }

    /// Build the byte-operand instruction with the given tag and operand.
    fn op_for_byte(t: u8, b: u8) -> (r: Op)
        requires
            is_byte_tag(t),
        ensures
            r == byte_op(t, b),
    {
        if t == 0x02 { Op::PopN(b) }
        else if t == 0x03 { Op::Constant(b) }
        else if t == 0x10 { Op::Call(b) }
        else if t == 0x12 { Op::Func(b) }
        else if t == 0x20 { Op::LocalGet(b) }
        else if t == 0x21 { Op::LocalSet(b) }
        else if t == 0x22 { Op::GlobalDefine(b) }
        else if t == 0x23 { Op::GlobalGet(b) }
        else { Op::GlobalSet(b) }
    }

    /// Build the jump instruction with the given tag and relative offset.
    fn op_for_jump(t: u8, v: i16) -> (r: Op)
        requires
            is_jump_tag(t),
        ensures
            r == jump_op(t, v),
    {
        if t == 0x60 { Op::Jump(v) }
        else if t == 0x61 { Op::JumpFalsePeek(v) }
        else if t == 0x62 { Op::JumpFalsePop(v) }
        else if t == 0x63 { Op::JumpTruePeek(v) }
        else { Op::JumpTruePop(v) }
    }
}

} // verus!

//! Decoding the operations of compiled sequences.
//!
//! Each operation starts with an opcode byte. Operations that set, modify or compare a field
//! copy their operand bytes into a data buffer and refer to them by their index there; a
//! `PushOffset` names a field by its id, which is resolved into the field's offset.
use vstd::prelude::*;
use crate::assets::{Comparison, comparison_of};
use crate::decoder::{Decoder, lemma_shift_twice, shift, take};
use crate::deserialize::{Deserialize, be_value, read_varint, varint_size, varint_value};
use crate::lz78::varint_ends;

verus! {

/// An operation of a decoded sequence.
#[derive(Clone, Copy, Debug, PartialEq, Eq, Structural)]
pub enum Op {
    PushOffset(u32),
    SetField { data_idx: u32, len: u8 },
    SetFieldString(u32),
    ModifyFieldInt { data_idx: u32, len: u8 },
    ModifyFieldF32(u32),
    ModifyFieldF64(u32),
    Jump { target: u32 },
    CallSub { target: u32 },
    Return,
    Wait { num_updates: u16 },
    BranchIfTrue { target: u32 },
    BranchIfFalse { target: u32 },
    BranchUInt { comparison: Comparison, rhs_idx: u32, rhs_len: u8, target: u32 },
    BranchSInt { comparison: Comparison, rhs_idx: u32, rhs_len: u8, target: u32 },
    BranchF32 { comparison: Comparison, rhs_idx: u32, target: u32 },
    BranchF64 { comparison: Comparison, rhs_idx: u32, target: u32 },
    RunCustom { id: u16 },
    BranchCustom { id: u16, target: u32 },
}

pub const OP_SET_FIELD: u8 = 0x00;
pub const OP_SET_FIELD_STRING: u8 = 0x0f;
pub const OP_MODIFY_FIELD: u8 = 0x10;
pub const OP_MODIFY_FIELD_F32: u8 = 0x1e;
pub const OP_MODIFY_FIELD_F64: u8 = 0x1f;
pub const OP_BRANCH_FIELD: u8 = 0x20;
pub const BRANCH_COMPARE_SIGNED: u8 = 0x8;
pub const BRANCH_COMPARE_F32: u8 = 0xc;
pub const BRANCH_COMPARE_F64: u8 = 0xd;
pub const BRANCH_IF_TRUE: u8 = 0xe;
pub const BRANCH_IF_FALSE: u8 = 0xf;
pub const OP_PUSH_OFFSET: u8 = 0x30;
pub const OP_JUMP: u8 = 0x31;
pub const OP_CALL_SUB: u8 = 0x32;
pub const OP_RETURN: u8 = 0x33;
pub const OP_WAIT: u8 = 0x34;
pub const OP_RUN_CUSTOM: u8 = 0x35;
pub const OP_BRANCH_CUSTOM: u8 = 0x36;

/// The number of operand bytes a branch on a field's value copies, for the low bits `bo` of
/// its opcode.
pub open spec fn rhs_len(bo: u8) -> nat {
    if bo == BRANCH_COMPARE_F32 {
        4
    } else if bo == BRANCH_COMPARE_F64 {
        8
    } else if bo < BRANCH_COMPARE_SIGNED {
        bo as nat
    } else {
        (bo & 0x7) as nat
    }
}

/// The number of bytes after the opcode of a branch on a field, for the low bits `bo` of its
/// opcode: the target, then for a comparison its kind and the operand.
pub open spec fn branch_size(bo: u8) -> nat {
    if bo == BRANCH_IF_TRUE || bo == BRANCH_IF_FALSE {
        4
    } else {
        5 + rhs_len(bo)
    }
}

/// The number of bytes of the operation at the start of `s`.
pub open spec fn op_size(s: spec_fn(nat) -> u8) -> nat {
    let op_id = s(0);
    if op_id & 0xf0 == OP_SET_FIELD {
        if op_id == OP_SET_FIELD_STRING {
            (1 + varint_size(shift(s, 1)) + (varint_value(shift(s, 1)) as u16)) as nat
        } else {
            (1 + (1u8 << (op_id & 0xf))) as nat
        }
    } else if op_id & 0xf0 == OP_MODIFY_FIELD {
        if op_id == OP_MODIFY_FIELD_F32 {
            5
        } else if op_id == OP_MODIFY_FIELD_F64 {
            9
        } else {
            (1 + (1u8 << (op_id & 0xf))) as nat
        }
    } else if op_id & 0xf0 == OP_BRANCH_FIELD {
        1 + branch_size(op_id & 0xf)
    } else if op_id == OP_PUSH_OFFSET || op_id == OP_JUMP || op_id == OP_CALL_SUB {
        5
    } else if op_id == OP_RETURN {
        1
    } else if op_id == OP_WAIT || op_id == OP_RUN_CUSTOM {
        3
    } else {
        7
    }
}

/// Whether the operation at the start of `s` can be decoded: its opcode is known, a field
/// operand is 1, 2, 4, ... 128 bytes long, a comparison is known, a string's length ends, and a
/// field id is one of the `num_fields` fields.
pub open spec fn op_valid(s: spec_fn(nat) -> u8, num_fields: nat) -> bool {
    let op_id = s(0);
    if op_id & 0xf0 == OP_SET_FIELD {
        if op_id == OP_SET_FIELD_STRING {
            varint_ends(shift(s, 1))
        } else {
            op_id & 0xf < 8
        }
    } else if op_id & 0xf0 == OP_MODIFY_FIELD {
        op_id == OP_MODIFY_FIELD_F32 || op_id == OP_MODIFY_FIELD_F64 || op_id & 0xf < 8
    } else if op_id & 0xf0 == OP_BRANCH_FIELD {
        let bo = op_id & 0xf;
        bo == BRANCH_IF_TRUE || bo == BRANCH_IF_FALSE || s(5) <= 5
    } else if op_id == OP_PUSH_OFFSET {
        be_value(shift(s, 1), 4) < num_fields
    } else {
        OP_JUMP <= op_id <= OP_BRANCH_CUSTOM
    }
}

/// The two bytes of `v` in little- or big-endian order.
pub open spec fn is_native_u16(bytes: Seq<u8>, v: u16) -> bool {
    bytes == seq![(v % 256) as u8, (v / 256) as u8] || bytes == seq![(v / 256) as u8, (v % 256) as u8]
}

/// Whether decoding the branch at the start of `s` (after its opcode `op_id`), with `data0` in
/// the data buffer, gives `op` and leaves `data1` there.
pub open spec fn is_decoded_branch(s: spec_fn(nat) -> u8, op_id: u8, data0: Seq<u8>, op: Op, data1: Seq<u8>) -> bool {
    let target = be_value(s, 4) as u32;
    let bo = op_id & 0xf;
    let idx = data0.len() as u32;
    let comparison = comparison_of(s(4));
    let operand = data0 + take(shift(s, 5), rhs_len(bo));
    if bo == BRANCH_IF_TRUE {
        op == Op::BranchIfTrue { target } && data1 == data0
    } else if bo == BRANCH_IF_FALSE {
        op == Op::BranchIfFalse { target } && data1 == data0
    } else if bo == BRANCH_COMPARE_F32 {
        op == Op::BranchF32 { comparison, rhs_idx: idx, target } && data1 == operand
    } else if bo == BRANCH_COMPARE_F64 {
        op == Op::BranchF64 { comparison, rhs_idx: idx, target } && data1 == operand
    } else if bo < BRANCH_COMPARE_SIGNED {
        op == Op::BranchUInt { comparison, rhs_idx: idx, rhs_len: bo, target } && data1 == operand
    } else {
        op == Op::BranchSInt { comparison, rhs_idx: idx, rhs_len: bo & 0x7, target } && data1 == operand
    }
}

/// Whether decoding the operation at the start of `s`, with `data0` in the data buffer and the
/// field offsets `offsets`, gives `op` and leaves `data1` in the buffer. A string's length is
/// stored in the machine's byte order.
pub open spec fn is_decoded_op(s: spec_fn(nat) -> u8, data0: Seq<u8>, offsets: Seq<u32>, op: Op, data1: Seq<u8>) -> bool {
    let op_id = s(0);
    let t = shift(s, 1);
    let idx = data0.len() as u32;
    if op_id & 0xf0 == OP_SET_FIELD {
        if op_id == OP_SET_FIELD_STRING {
            let str_len = varint_value(t) as u16;
            let n = data0.len();
            &&& op == Op::SetFieldString(idx)
            &&& data1.len() == n + 2 + str_len
            &&& data1.take(n as int) == data0
            &&& is_native_u16(data1.subrange(n as int, (n + 2) as int), str_len)
            &&& data1.skip((n + 2) as int) == take(shift(t, varint_size(t)), str_len as nat)
        } else {
            let len = 1u8 << (op_id & 0xf);
            op == Op::SetField { data_idx: idx, len } && data1 == data0 + take(t, len as nat)
        }
    } else if op_id & 0xf0 == OP_MODIFY_FIELD {
        if op_id == OP_MODIFY_FIELD_F32 {
            op == Op::ModifyFieldF32(idx) && data1 == data0 + take(t, 4)
        } else if op_id == OP_MODIFY_FIELD_F64 {
            op == Op::ModifyFieldF64(idx) && data1 == data0 + take(t, 8)
        } else {
            let len = 1u8 << (op_id & 0xf);
            op == Op::ModifyFieldInt { data_idx: idx, len } && data1 == data0 + take(t, len as nat)
        }
    } else if op_id & 0xf0 == OP_BRANCH_FIELD {
        is_decoded_branch(t, op_id, data0, op, data1)
    } else {
        data1 == data0 && if op_id == OP_PUSH_OFFSET {
            op == Op::PushOffset(offsets[be_value(t, 4) as int])
        } else if op_id == OP_JUMP {
            op == Op::Jump { target: be_value(t, 4) as u32 }
        } else if op_id == OP_CALL_SUB {
            op == Op::CallSub { target: be_value(t, 4) as u32 }
        } else if op_id == OP_RETURN {
            op == Op::Return
        } else if op_id == OP_WAIT {
            op == Op::Wait { num_updates: be_value(t, 2) as u16 }
        } else if op_id == OP_RUN_CUSTOM {
            op == Op::RunCustom { id: be_value(t, 2) as u16 }
        } else {
            op == Op::BranchCustom { id: be_value(t, 2) as u16, target: be_value(shift(t, 2), 4) as u32 }
        }
    }
}

impl Comparison {
    /// Decodes a comparison from its number.
    pub fn decode<D: Decoder>(decoder: &mut D) -> (out: Comparison)
        requires
            old(decoder).can_produce(1),
            old(decoder).stream()(0) <= 5,
        ensures
            out == comparison_of(old(decoder).stream()(0)),
            final(decoder).stream() == shift(old(decoder).stream(), 1),
            forall|n: nat| #[trigger] final(decoder).can_produce(n) <== old(decoder).can_produce(n + 1),
    {
        let b = u8::deserialize(decoder);
        proof {
            reveal_with_fuel(be_value, 2);
        }
        match b {
            0 => Comparison::Equals,
            1 => Comparison::NotEquals,
            2 => Comparison::LessThan,
            3 => Comparison::GreaterThan,
            4 => Comparison::LessEquals,
            _ => Comparison::GreaterEquals,
        }
    }
}

/// The two bytes of `v` in the machine's byte order, as `u16::to_ne_bytes` gives them: the
/// little-endian or the big-endian ones.
#[verifier::external_body]
fn native_bytes(v: u16) -> (out: [u8; 2])
    ensures
        is_native_u16(out@, v),
{
    v.to_ne_bytes()
}

/// Copies the next `n` bytes of the decoder to the end of `data`.
fn copy_bytes<D: Decoder>(decoder: &mut D, data: &mut Vec<u8>, n: usize)
    requires
        old(decoder).can_produce(n as nat),
    ensures
        final(data)@ == old(data)@ + take(old(decoder).stream(), n as nat),
        final(decoder).stream() == shift(old(decoder).stream(), n as nat),
        forall|m: nat| #[trigger] final(decoder).can_produce(m) <== old(decoder).can_produce((m + n) as nat),
{
    let ghost s = decoder.stream();
    let ghost d0 = *decoder;
    let ghost data0 = data@;
    let mut k: usize = 0;
    proof {
        assert(shift(s, 0) =~= s);
        assert(data0 + take(s, 0) =~= data0);
    }
    while k < n
        invariant
            k <= n,
            d0 == *old(decoder),
            s == d0.stream(),
            data0 == old(data)@,
            d0.can_produce(n as nat),
            data@ == data0 + take(s, k as nat),
            decoder.stream() == shift(s, k as nat),
            forall|m: nat| #[trigger] decoder.can_produce(m) <== d0.can_produce((m + k) as nat),
        decreases n - k,
    {
        proof {
            d0.lemma_produce_monotone((1 + k) as nat, n as nat);
        }
        let ghost before = decoder.stream();
        let b = u8::deserialize(decoder);
        proof {
            reveal_with_fuel(be_value, 2);
            lemma_shift_twice(s, k as nat, 1);
            assert(take(s, (k + 1) as nat) =~= take(s, k as nat).push(b));
        }
        data.push(b);
        proof {
            assert(data@ =~= data0 + take(s, (k + 1) as nat));
            assert forall|m: nat| #[trigger] decoder.can_produce(m) <== d0.can_produce((m + (k + 1)) as nat) by {
                if d0.can_produce((m + (k + 1)) as nat) {
                    assert(m + (k + 1) == (m + 1) + k);
                }
            }
        }
        k = k + 1;
    }
}


/// Decodes a branch on a field with opcode `op_id`: its target, then for a comparison its kind
/// and the operand, which is copied into `data`.
pub fn decode_branch_op<D: Decoder>(op_id: u8, decoder: &mut D, data: &mut Vec<u8>) -> (out: Op)
    requires
        old(decoder).can_produce(branch_size(op_id & 0xf)),
        op_id & 0xf == BRANCH_IF_TRUE || op_id & 0xf == BRANCH_IF_FALSE || old(decoder).stream()(4) <= 5,
    ensures
        is_decoded_branch(old(decoder).stream(), op_id, old(data)@, out, final(data)@),
        final(decoder).stream() == shift(old(decoder).stream(), branch_size(op_id & 0xf)),
        forall|n: nat|
            #[trigger] final(decoder).can_produce(n) <== old(decoder).can_produce(n + branch_size(op_id & 0xf)),
{
    let ghost s = decoder.stream();
    let ghost d0 = *decoder;
    let ghost size = branch_size(op_id & 0xf);
    proof {
        d0.lemma_produce_monotone(4, size);
    }
    let target = u32::deserialize(decoder);
    let branch_op = op_id & 0xf;
    if branch_op == BRANCH_IF_TRUE {
        Op::BranchIfTrue { target }
    } else if branch_op == BRANCH_IF_FALSE {
        Op::BranchIfFalse { target }
    } else {
        proof {
            d0.lemma_produce_monotone(5, size);
        }
        let comparison = Comparison::decode(decoder);
        proof {
            lemma_shift_twice(s, 4, 1);
        }
        let rhs_idx = data.len() as u32;
        let ghost d1 = *decoder;
        if branch_op == BRANCH_COMPARE_F32 {
            copy_bytes(decoder, data, 4);
            proof {
                lemma_shift_twice(s, 5, 4);
            }
            Op::BranchF32 { comparison, rhs_idx, target }
        } else if branch_op == BRANCH_COMPARE_F64 {
            copy_bytes(decoder, data, 8);
            proof {
                lemma_shift_twice(s, 5, 8);
            }
            Op::BranchF64 { comparison, rhs_idx, target }
        } else if branch_op < BRANCH_COMPARE_SIGNED {
            let rhs_len = branch_op;
            copy_bytes(decoder, data, rhs_len as usize);
            proof {
                lemma_shift_twice(s, 5, rhs_len as nat);
            }
            Op::BranchUInt { comparison, rhs_idx, rhs_len, target }
        } else {
            let rhs_len = branch_op & 0x7;
            copy_bytes(decoder, data, rhs_len as usize);
            proof {
                lemma_shift_twice(s, 5, rhs_len as nat);
            }
            Op::BranchSInt { comparison, rhs_idx, rhs_len, target }
        }
    }
}

impl Op {
    /// Decodes an operation, copying its operands into `data`; a field id is resolved with
    /// `offsets`, the offsets of the fields by id.
    #[verifier::spinoff_prover]
    #[verifier::rlimit(40)]
    pub fn decode<D: Decoder>(decoder: &mut D, data: &mut Vec<u8>, offsets: &[u32]) -> (out: Op)
        requires
            op_valid(old(decoder).stream(), offsets@.len()),
            old(decoder).can_produce(op_size(old(decoder).stream())),
        ensures
            is_decoded_op(old(decoder).stream(), old(data)@, offsets@, out, final(data)@),
            final(decoder).stream() == shift(old(decoder).stream(), op_size(old(decoder).stream())),
            forall|n: nat|
                #[trigger] final(decoder).can_produce(n) <== old(decoder).can_produce(n + op_size(old(decoder).stream())),
    {
        let ghost s = decoder.stream();
        let ghost d0 = *decoder;
        let ghost size = op_size(s);
        proof {
            d0.lemma_produce_monotone(1, size);
        }
        let op_id = u8::deserialize(decoder);
        let ghost t = shift(s, 1);
        proof {
            reveal_with_fuel(be_value, 2);
        }
        match op_id & 0xf0 {
            OP_SET_FIELD => {
                let data_idx = data.len() as u32;
                if op_id == OP_SET_FIELD_STRING {
                    proof {
                        d0.lemma_produce_monotone(1 + varint_size(t), size);
                    }
                    let str_len = read_varint(decoder) as u16;
                    let ghost data0 = data@;
                    let bytes = native_bytes(str_len);
                    data.push(bytes[0]);
                    data.push(bytes[1]);
                    proof {
                        lemma_shift_twice(s, 1, varint_size(t));
                    }
                    let ghost data2 = data@;
                    copy_bytes(decoder, data, str_len as usize);
                    proof {
                        lemma_shift_twice(s, 1 + varint_size(t), str_len as nat);
                        assert(data@.take(data0.len() as int) =~= data0);
                        assert(data@.subrange(data0.len() as int, (data0.len() + 2) as int) =~= bytes@);
                        assert(data@.skip((data0.len() + 2) as int) =~= take(shift(t, varint_size(t)), str_len as nat));
                    }
                    Op::SetFieldString(data_idx)
                } else {
                    let len: u8 = 1 << (op_id & 0xf);
                    copy_bytes(decoder, data, len as usize);
                    proof {
                        lemma_shift_twice(s, 1, len as nat);
                    }
                    Op::SetField { data_idx, len }
                }
            },
            OP_MODIFY_FIELD => {
                let data_idx = data.len() as u32;
                if op_id == OP_MODIFY_FIELD_F32 {
                    copy_bytes(decoder, data, 4);
                    proof {
                        lemma_shift_twice(s, 1, 4);
                    }
                    Op::ModifyFieldF32(data_idx)
                } else if op_id == OP_MODIFY_FIELD_F64 {
                    copy_bytes(decoder, data, 8);
                    proof {
                        lemma_shift_twice(s, 1, 8);
                    }
                    Op::ModifyFieldF64(data_idx)
                } else {
                    let len: u8 = 1 << (op_id & 0xf);
                    copy_bytes(decoder, data, len as usize);
                    proof {
                        lemma_shift_twice(s, 1, len as nat);
                    }
                    Op::ModifyFieldInt { data_idx, len }
                }
            },
            OP_BRANCH_FIELD => {
                let op = decode_branch_op(op_id, decoder, data);
                proof {
                    lemma_shift_twice(s, 1, branch_size(op_id & 0xf));
                }
                op
            },
            _ => {
                match op_id {
                    OP_PUSH_OFFSET => {
                        let field_id = u32::deserialize(decoder) as usize;
                        proof {
                            lemma_shift_twice(s, 1, 4);
                        }
                        Op::PushOffset(offsets[field_id])
                    },
                    OP_JUMP => {
                        let target = u32::deserialize(decoder);
                        proof {
                            lemma_shift_twice(s, 1, 4);
                        }
                        Op::Jump { target }
                    },
                    OP_CALL_SUB => {
                        let target = u32::deserialize(decoder);
                        proof {
                            lemma_shift_twice(s, 1, 4);
                        }
                        Op::CallSub { target }
                    },
                    OP_RETURN => Op::Return,
                    OP_WAIT => {
                        let num_updates = u16::deserialize(decoder);
                        proof {
                            lemma_shift_twice(s, 1, 2);
                        }
                        Op::Wait { num_updates }
                    },
                    OP_RUN_CUSTOM => {
                        let id = u16::deserialize(decoder);
                        proof {
                            lemma_shift_twice(s, 1, 2);
                        }
                        Op::RunCustom { id }
                    },
                    _ => {
                        proof {
                            d0.lemma_produce_monotone(3, size);
                        }
                        let id = u16::deserialize(decoder);
                        proof {
                            lemma_shift_twice(s, 1, 2);
                        }
                        let target = u32::deserialize(decoder);
                        proof {
                            lemma_shift_twice(s, 3, 4);
                        }
                        Op::BranchCustom { id, target }
                    },
                }
            },
        }
    }
}

} // verus!

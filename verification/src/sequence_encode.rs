//! Compiling the operations of sequences into the compressed bytes that are built into a
//! game.
//!
//! A script is its number of operations as a varint, then each operation: an opcode and its
//! operands. Fields are named by ids that are shared by all sequences of a project; custom
//! operations and conditions by their rank among the names used in the script.
use vstd::prelude::*;
use vstd::string::StrSliceExecFns;
use crate::asset_sequences::{Op, Sequence};
use crate::asset_values::TypedValue;
use crate::assets::Comparison;
use crate::compression::{CompressionMethods, compress_after, compress_fits};
use crate::serialize::{CompressionBuffer, Serialize, encode_all, written_varint};
use crate::deserialize::{lemma_byte_digit, pow256};
use vstd::utf8::encode_utf8;

verus! {

pub const OP_SET_FIELD: u8 = 0x00;
pub const OP_SET_FIELD_STRING: u8 = 0x0f;
pub const OP_MODIFY_FIELD: u8 = 0x10;
pub const OP_MODIFY_FIELD_F32: u8 = 0x1e;
pub const OP_MODIFY_FIELD_F64: u8 = 0x1f;
pub const OP_BRANCH_FIELD: u8 = 0x20;
pub const BRANCH_COMPARE_SIGNED: u8 = 0x8;
pub const BRANCH_COMPARE_F32: u8 = 0xc;
pub const BRANCH_COMPARE_F64: u8 = 0xd;
pub const BRANCH_IF_TRUE: u8 = 0xe;
pub const BRANCH_IF_FALSE: u8 = 0xf;
pub const OP_PUSH_OFFSET: u8 = 0x30;
pub const OP_JUMP: u8 = 0x31;
pub const OP_CALL_SUB: u8 = 0x32;
pub const OP_RETURN: u8 = 0x33;
pub const OP_WAIT: u8 = 0x34;
pub const OP_RUN_CUSTOM: u8 = 0x35;
pub const OP_BRANCH_CUSTOM: u8 = 0x36;

/// Whether `v` is a number or a boolean.
pub open spec fn is_primitive(v: TypedValue) -> bool {
    ||| v is U8
    ||| v is U16
    ||| v is U32
    ||| v is U64
    ||| v is I8
    ||| v is I16
    ||| v is I32
    ||| v is I64
    ||| v is F32
    ||| v is F64
    ||| v is Bool
}

/// The number of bytes of the number or boolean `v`.
pub open spec fn primitive_len(v: TypedValue) -> nat {
    match v {
        TypedValue::U16(_) | TypedValue::I16(_) => 2,
        TypedValue::U32(_) | TypedValue::I32(_) | TypedValue::F32(_) => 4,
        TypedValue::U64(_) | TypedValue::I64(_) | TypedValue::F64(_) => 8,
        _ => 1,
    }
}

/// The base 2 logarithm of the length of `v`.
pub open spec fn len_log2(v: TypedValue) -> u8 {
    let len = primitive_len(v);
    if len == 1 {
        0
    } else if len == 2 {
        1
    } else if len == 4 {
        2
    } else {
        3
    }
}

/// The big-endian bytes of the number or boolean `v`; a floating-point number by its bits.
pub open spec fn value_bytes(v: TypedValue) -> Seq<u8> {
    match v {
        TypedValue::U8(x) => x.encoding(),
        TypedValue::U16(x) => x.encoding(),
        TypedValue::U32(x) => x.encoding(),
        TypedValue::U64(x) => x.encoding(),
        TypedValue::I8(x) => x.encoding(),
        TypedValue::I16(x) => x.encoding(),
        TypedValue::I32(x) => x.encoding(),
        TypedValue::I64(x) => x.encoding(),
        TypedValue::F32(x) => x.encoding(),
        TypedValue::F64(x) => x.encoding(),
        TypedValue::Bool(x) => x.encoding(),
        _ => seq![],
    }
}

/// The number of bytes of the number or boolean `val`.
pub fn len_of_typed_value(val: &TypedValue) -> (out: usize)
    requires
        is_primitive(*val),
    ensures
        out == primitive_len(*val),
{
    match val {
        TypedValue::U8(_) => 1,
        TypedValue::U16(_) => 2,
        TypedValue::U32(_) => 4,
        TypedValue::U64(_) => 8,
        TypedValue::I8(_) => 1,
        TypedValue::I16(_) => 2,
        TypedValue::I32(_) => 4,
        TypedValue::I64(_) => 8,
        TypedValue::F32(_) => 4,
        TypedValue::F64(_) => 8,
        _ => 1,
    }
}

/// The base 2 logarithm of a value length of 1, 2, 4 or 8 bytes.
fn log2_of_len(len: usize) -> (out: u8)
    requires
        len == 1 || len == 2 || len == 4 || len == 8,
    ensures
        out == (if len == 1 {
            0u8
        } else if len == 2 {
            1u8
        } else if len == 4 {
            2u8
        } else {
            3u8
        }),
{
    match len {
        1 => 0,
        2 => 1,
        4 => 2,
        _ => 3,
    }
}

/// Writes the number or boolean `value` big-endian.
fn serialize_value(value: &TypedValue, buffer: &mut CompressionBuffer)
    requires
        is_primitive(*value),
    ensures
        final(buffer)@ == old(buffer)@ + value_bytes(*value),
{
    match value {
        TypedValue::U8(x) => x.serialize(buffer),
        TypedValue::U16(x) => x.serialize(buffer),
        TypedValue::U32(x) => x.serialize(buffer),
        TypedValue::U64(x) => x.serialize(buffer),
        TypedValue::I8(x) => x.serialize(buffer),
        TypedValue::I16(x) => x.serialize(buffer),
        TypedValue::I32(x) => x.serialize(buffer),
        TypedValue::I64(x) => x.serialize(buffer),
        TypedValue::F32(x) => x.serialize(buffer),
        TypedValue::F64(x) => x.serialize(buffer),
        TypedValue::Bool(x) => x.serialize(buffer),
        _ => {},
    }
}

/// A byte is written as itself.
proof fn lemma_byte_encoding(b: u8)
    ensures
        b.encoding() == seq![b],
{
    lemma_byte_digit(b as u64, 0);
    assert(pow256(0) == 1);
    assert(b.encoding() =~= seq![b]);
}

/// Writes the byte `b`.
fn write_byte(buffer: &mut CompressionBuffer, b: u8)
    ensures
        final(buffer)@ == old(buffer)@ + seq![b],
{
    proof {
        lemma_byte_encoding(b);
    }
    b.serialize(buffer);
}

/// The number of a comparison.
pub open spec fn comparison_code(c: Comparison) -> u8 {
    match c {
        Comparison::Equals => 0,
        Comparison::NotEquals => 1,
        Comparison::LessThan => 2,
        Comparison::GreaterThan => 3,
        Comparison::LessEquals => 4,
        Comparison::GreaterEquals => 5,
    }
}

fn comparison_number(c: Comparison) -> (out: u8)
    ensures
        out == comparison_code(c),
{
    match c {
        Comparison::Equals => 0,
        Comparison::NotEquals => 1,
        Comparison::LessThan => 2,
        Comparison::GreaterThan => 3,
        Comparison::LessEquals => 4,
        Comparison::GreaterEquals => 5,
    }
}

/// Whether `a` comes before `b` or equals it, comparing characters from the first.
pub open spec fn text_le(a: Seq<char>, b: Seq<char>) -> bool
    decreases a.len(),
{
    if a.len() == 0 {
        true
    } else if b.len() == 0 {
        false
    } else if a[0] != b[0] {
        (a[0] as u32) < (b[0] as u32)
    } else {
        text_le(a.drop_first(), b.drop_first())
    }
}

proof fn lemma_text_le_refl(a: Seq<char>)
    ensures
        text_le(a, a),
    decreases a.len(),
{
    if a.len() > 0 {
        lemma_text_le_refl(a.drop_first());
    }
}

fn text_le_exec(a: &str, b: &str) -> (out: bool)
    ensures
        out == text_le(a@, b@),
{
    let n = a.unicode_len();
    let m = b.unicode_len();
    let mut i: usize = 0;
    proof {
        assert(a@.skip(0) =~= a@);
        assert(b@.skip(0) =~= b@);
    }
    while i < n && i < m
        invariant
            n == a@.len(),
            m == b@.len(),
            i <= n,
            i <= m,
            text_le(a@, b@) == text_le(a@.skip(i as int), b@.skip(i as int)),
        decreases n - i,
    {
        let x = a.get_char(i);
        let y = b.get_char(i);
        proof {
            assert(a@.skip(i as int)[0] == x);
            assert(b@.skip(i as int)[0] == y);
            assert(a@.skip(i as int).drop_first() =~= a@.skip(i + 1));
            assert(b@.skip(i as int).drop_first() =~= b@.skip(i + 1));
        }
        if x != y {
            return (x as u32) < (y as u32);
        }
        i = i + 1;
    }
    i == n
}

/// Whether `op` is a custom operation (`branch` false) or condition (`branch` true) whose name
/// comes before `name` or equals it.
pub open spec fn custom_name_le(op: Op, branch: bool, name: Seq<char>) -> bool {
    match op {
        Op::RunCustom { fname } => !branch && text_le(fname@, name),
        Op::BranchCustom { fname, .. } => branch && text_le(fname@, name),
        _ => false,
    }
}

/// How many of the first `k` operations of `script` are custom operations (or conditions) whose
/// names come before `name` or equal it.
pub open spec fn custom_names_le(script: Seq<Op>, branch: bool, name: Seq<char>, k: nat) -> nat
    decreases k,
{
    if k == 0 {
        0
    } else {
        custom_names_le(script, branch, name, (k - 1) as nat) + if custom_name_le(script[k - 1], branch, name) {
            1nat
        } else {
            0nat
        }
    }
}

/// The id of the custom operation (or condition) `name` in `script`: the position of its last
/// occurrence among the names of all of them, sorted.
pub open spec fn custom_id(script: Seq<Op>, branch: bool, name: Seq<char>) -> nat {
    (custom_names_le(script, branch, name, script.len()) - 1) as nat
}

proof fn lemma_custom_names_bounds(script: Seq<Op>, branch: bool, name: Seq<char>, k: nat, j: nat)
    requires
        j < k <= script.len(),
        custom_name_le(script[j as int], branch, name),
    ensures
        1 <= custom_names_le(script, branch, name, k) <= k,
    decreases k,
{
    if j < k - 1 {
        lemma_custom_names_bounds(script, branch, name, (k - 1) as nat, j);
    } else {
        lemma_custom_names_le_bound(script, branch, name, (k - 1) as nat);
    }
}

proof fn lemma_custom_names_le_bound(script: Seq<Op>, branch: bool, name: Seq<char>, k: nat)
    ensures
        custom_names_le(script, branch, name, k) <= k,
    decreases k,
{
    if k > 0 {
        lemma_custom_names_le_bound(script, branch, name, (k - 1) as nat);
    }
}

/// The id of the custom operation (or condition) at position `j` of `script`.
fn custom_op_id(script: &[Op], branch: bool, name: &String, Ghost(j): Ghost<nat>) -> (out: usize)
    requires
        j < script@.len(),
        custom_name_le(script@[j as int], branch, name@),
    ensures
        out == custom_id(script@, branch, name@),
{
    let mut count: usize = 0;
    let mut k: usize = 0;
    while k < script.len()
        invariant
            k <= script@.len(),
            count == custom_names_le(script@, branch, name@, k as nat),
        decreases script@.len() - k,
    {
        proof {
            lemma_custom_names_le_bound(script@, branch, name@, k as nat);
        }
        let counts = match &script[k] {
            Op::RunCustom { fname } => !branch && text_le_exec(fname.as_str(), name.as_str()),
            Op::BranchCustom { fname, .. } => branch && text_le_exec(fname.as_str(), name.as_str()),
            _ => false,
        };
        if counts {
            count = count + 1;
        }
        k = k + 1;
    }
    proof {
        lemma_custom_names_bounds(script@, branch, name@, script@.len(), j);
    }
    count - 1
}

/// A field: its node and its property.
pub type FieldKey = (Seq<char>, Seq<char>);

/// The fields of `offsets`, in the order of their ids.
pub open spec fn keys_view(offsets: Seq<(String, String)>) -> Seq<FieldKey> {
    offsets.map_values(|p: (String, String)| (p.0@, p.1@))
}

/// The id of `key` among `keys`: its position, or the next free id when it has none.
pub open spec fn key_id(keys: Seq<FieldKey>, key: FieldKey) -> nat
    decreases keys.len(),
{
    if keys.len() == 0 {
        0
    } else if keys[0] == key {
        0
    } else {
        1 + key_id(keys.drop_first(), key)
    }
}

/// `keys` with `key` given an id when it has none.
pub open spec fn with_key(keys: Seq<FieldKey>, key: FieldKey) -> Seq<FieldKey> {
    if key_id(keys, key) < keys.len() {
        keys
    } else {
        keys.push(key)
    }
}

/// The fields after encoding `op`.
pub open spec fn keys_after(keys: Seq<FieldKey>, op: Op) -> Seq<FieldKey> {
    match op {
        Op::PushOffset { node, property } => with_key(keys, (node@, property@)),
        _ => keys,
    }
}

/// The bytes of the operation `op` of `script`, with the fields `keys` given ids so far.
pub open spec fn op_bytes(op: Op, keys: Seq<FieldKey>, script: Seq<Op>) -> Seq<u8> {
    match op {
        Op::PushOffset { node, property } => seq![OP_PUSH_OFFSET] + (key_id(keys, (node@, property@)) as u16).encoding(),
        Op::SetValue { value } => seq![OP_SET_FIELD | len_log2(value)] + value_bytes(value),
        Op::SetString { value } => seq![OP_SET_FIELD_STRING] + written_varint(encode_utf8(value@).len() as usize)
            + encode_all(encode_utf8(value@)),
        Op::Modify { value } => seq![OP_MODIFY_FIELD | len_log2(value)] + value_bytes(value),
        Op::ModifyF32 { value } => seq![OP_MODIFY_FIELD_F32] + value.encoding(),
        Op::ModifyF64 { value } => seq![OP_MODIFY_FIELD_F64] + value.encoding(),
        Op::Jump { target } => seq![OP_JUMP] + written_varint(target as usize),
        Op::Call { target } => seq![OP_CALL_SUB] + written_varint(target as usize),
        Op::Return => seq![OP_RETURN],
        Op::Wait { frames } => seq![OP_WAIT] + written_varint(frames as usize),
        Op::BranchIfTrue { target } => seq![OP_BRANCH_FIELD | BRANCH_IF_TRUE] + written_varint(target as usize),
        Op::BranchIfFalse { target } => seq![OP_BRANCH_FIELD | BRANCH_IF_FALSE] + written_varint(target as usize),
        Op::BranchUInt { comparison, value, target } => seq![OP_BRANCH_FIELD | len_log2(value)] + written_varint(
            target as usize,
        ) + seq![comparison_code(comparison)] + value_bytes(value),
        Op::BranchSInt { comparison, value, target } => seq![OP_BRANCH_FIELD | BRANCH_COMPARE_SIGNED | len_log2(value)]
            + written_varint(target as usize) + seq![comparison_code(comparison)] + value_bytes(value),
        Op::BranchF32 { comparison, value, target } => seq![OP_BRANCH_FIELD | BRANCH_COMPARE_F32] + written_varint(
            target as usize,
        ) + seq![comparison_code(comparison)] + value.encoding(),
        Op::BranchF64 { comparison, value, target } => seq![OP_BRANCH_FIELD | BRANCH_COMPARE_F64] + written_varint(
            target as usize,
        ) + seq![comparison_code(comparison)] + value.encoding(),
        Op::RunCustom { fname } => seq![OP_RUN_CUSTOM] + written_varint(custom_id(script, false, fname@) as usize),
        Op::BranchCustom { fname, target } => seq![OP_BRANCH_CUSTOM] + written_varint(
            custom_id(script, true, fname@) as usize,
        ) + written_varint(target as usize),
    }
}


/// The bytes of the first `k` operations of `script` and the fields given ids after them,
/// starting from the fields `keys`.
pub open spec fn script_state(script: Seq<Op>, keys: Seq<FieldKey>, k: nat) -> (Seq<u8>, Seq<FieldKey>)
    decreases k,
{
    if k == 0 {
        (seq![], keys)
    } else {
        let (bytes, ks) = script_state(script, keys, (k - 1) as nat);
        (bytes + op_bytes(script[k - 1], ks, script), keys_after(ks, script[k - 1]))
    }
}

/// The bytes of `script` before compression: its length, then its operations.
pub open spec fn script_bytes(script: Seq<Op>, keys: Seq<FieldKey>) -> Seq<u8> {
    written_varint(script.len() as usize) + script_state(script, keys, script.len()).0
}

/// The methods sequences are compressed with.
pub open spec fn sequence_methods() -> Seq<CompressionMethods> {
    seq![CompressionMethods::LZ77, CompressionMethods::RC]
}

/// Whether every value `op` holds for a field is a number or a boolean.
pub open spec fn op_encodable(op: Op) -> bool {
    match op {
        Op::SetValue { value } => is_primitive(value),
        Op::Modify { value } => is_primitive(value),
        Op::BranchUInt { value, .. } => is_primitive(value),
        Op::BranchSInt { value, .. } => is_primitive(value),
        _ => true,
    }
}

/// The id of the field `node`.`property`, given one if it has none.
fn offset_id(required_offsets: &mut Vec<(String, String)>, node: &String, property: &String) -> (out: usize)
    ensures
        out == key_id(keys_view(old(required_offsets)@), (node@, property@)),
        keys_view(final(required_offsets)@) == with_key(keys_view(old(required_offsets)@), (node@, property@)),
{
    let ghost keys = keys_view(required_offsets@);
    let ghost key = (node@, property@);
    let mut i: usize = 0;
    proof {
        assert(keys.skip(0) =~= keys);
    }
    while i < required_offsets.len()
        invariant
            i <= required_offsets@.len(),
            keys == keys_view(required_offsets@),
            key == (node@, property@),
            key_id(keys, key) == i + key_id(keys.skip(i as int), key),
        decreases required_offsets@.len() - i,
    {
        proof {
            assert(keys.skip(i as int).drop_first() =~= keys.skip(i + 1));
            assert(keys.skip(i as int)[0] == keys[i as int]);
            assert(keys[i as int] == (required_offsets@[i as int].0@, required_offsets@[i as int].1@));
        }
        let same_node = required_offsets[i].0 == *node;
        let same_property = required_offsets[i].1 == *property;
        proof {
            assert(same_node == (required_offsets@[i as int].0@ == node@));
            assert(same_property == (required_offsets@[i as int].1@ == property@));
        }
        if same_node && same_property {
            proof {
                assert(keys.skip(i as int)[0] == key);
            }
            return i;
        }
        i = i + 1;
    }
    proof {
        assert(keys.skip(i as int).len() == 0);
    }
    required_offsets.push((node.clone(), property.clone()));
    proof {
        assert(keys_view(required_offsets@) =~= keys.push(key));
    }
    i
}

/// Compiles `script`: its length as a varint, then each operation, compressed with LZ77 and
/// range coding. Fields get ids in `required_offsets`, which holds the fields by id and is
/// shared by the sequences of a project; custom operations and conditions get the position of
/// their last occurrence among the names of all of them in the script, sorted.
#[verifier::spinoff_prover]
#[verifier::rlimit(60)]
pub fn encode_script(script: &[Op], required_offsets: &mut Vec<(String, String)>) -> (out: Vec<u8>)
    requires
        forall|k: int| 0 <= k < script@.len() ==> op_encodable(#[trigger] script@[k]),
        script_bytes(script@, keys_view(old(required_offsets)@)).len() < usize::MAX,
        compress_fits(script_bytes(script@, keys_view(old(required_offsets)@)), sequence_methods()),
    ensures
        keys_view(final(required_offsets)@) == script_state(
            script@,
            keys_view(old(required_offsets)@),
            script@.len(),
        ).1,
        out@ == compress_after(script_bytes(script@, keys_view(old(required_offsets)@)), sequence_methods(), 2),
{
    let ghost keys0 = keys_view(required_offsets@);
    let mut buffer = CompressionBuffer::new();
    buffer.write_varint(script.len());
    let mut k: usize = 0;
    proof {
        assert(buffer@ =~= written_varint(script@.len() as usize) + script_state(script@, keys0, 0).0);
    }
    while k < script.len()
        invariant
            k <= script@.len(),
            forall|j: int| 0 <= j < script@.len() ==> op_encodable(#[trigger] script@[j]),
            buffer@ == written_varint(script@.len() as usize) + script_state(script@, keys0, k as nat).0,
            keys_view(required_offsets@) == script_state(script@, keys0, k as nat).1,
        decreases script@.len() - k,
    {
        let ghost before = buffer@;
        let ghost ks = keys_view(required_offsets@);
        let op = &script[k];
        proof {
            assert(op_encodable(*op));
        }
        match op {
            Op::PushOffset { node, property } => {
                let id = offset_id(required_offsets, node, property);
                write_byte(&mut buffer, OP_PUSH_OFFSET);
                (id as u16).serialize(&mut buffer);
            },
            Op::SetValue { value } => {
                let len = len_of_typed_value(value);
                let len_log2 = log2_of_len(len);
                write_byte(&mut buffer, OP_SET_FIELD | len_log2);
                serialize_value(value, &mut buffer);
            },
            Op::SetString { value } => {
                write_byte(&mut buffer, OP_SET_FIELD_STRING);
                value.as_str().serialize(&mut buffer);
            },
            Op::Modify { value } => {
                let len = len_of_typed_value(value);
                let len_log2 = log2_of_len(len);
                write_byte(&mut buffer, OP_MODIFY_FIELD | len_log2);
                serialize_value(value, &mut buffer);
            },
            Op::ModifyF32 { value } => {
                write_byte(&mut buffer, OP_MODIFY_FIELD_F32);
                value.serialize(&mut buffer);
            },
            Op::ModifyF64 { value } => {
                write_byte(&mut buffer, OP_MODIFY_FIELD_F64);
                value.serialize(&mut buffer);
            },
            Op::Jump { target } => {
                write_byte(&mut buffer, OP_JUMP);
                buffer.write_varint(*target as usize);
            },
            Op::Call { target } => {
                write_byte(&mut buffer, OP_CALL_SUB);
                buffer.write_varint(*target as usize);
            },
            Op::Return => write_byte(&mut buffer, OP_RETURN),
            Op::Wait { frames } => {
                write_byte(&mut buffer, OP_WAIT);
                buffer.write_varint(*frames as usize);
            },
            Op::BranchIfTrue { target } => {
                write_byte(&mut buffer, OP_BRANCH_FIELD | BRANCH_IF_TRUE);
                buffer.write_varint(*target as usize);
            },
            Op::BranchIfFalse { target } => {
                write_byte(&mut buffer, OP_BRANCH_FIELD | BRANCH_IF_FALSE);
                buffer.write_varint(*target as usize);
            },
            Op::BranchUInt { comparison, target, value } => {
                let rhs_len = len_of_typed_value(value);
                let rhs_len_log2 = log2_of_len(rhs_len);
                write_byte(&mut buffer, OP_BRANCH_FIELD | rhs_len_log2);
                buffer.write_varint(*target as usize);
                write_byte(&mut buffer, comparison_number(*comparison));
                serialize_value(value, &mut buffer);
            },
            Op::BranchSInt { comparison, target, value } => {
                let rhs_len = len_of_typed_value(value);
                let rhs_len_log2 = log2_of_len(rhs_len);
                write_byte(&mut buffer, OP_BRANCH_FIELD | BRANCH_COMPARE_SIGNED | rhs_len_log2);
                buffer.write_varint(*target as usize);
                write_byte(&mut buffer, comparison_number(*comparison));
                serialize_value(value, &mut buffer);
            },
            Op::BranchF32 { comparison, target, value } => {
                write_byte(&mut buffer, OP_BRANCH_FIELD | BRANCH_COMPARE_F32);
                buffer.write_varint(*target as usize);
                write_byte(&mut buffer, comparison_number(*comparison));
                value.serialize(&mut buffer);
            },
            Op::BranchF64 { comparison, target, value } => {
                write_byte(&mut buffer, OP_BRANCH_FIELD | BRANCH_COMPARE_F64);
                buffer.write_varint(*target as usize);
                write_byte(&mut buffer, comparison_number(*comparison));
                value.serialize(&mut buffer);
            },
            Op::RunCustom { fname } => {
                proof {
                    lemma_text_le_refl(fname@);
                }
                write_byte(&mut buffer, OP_RUN_CUSTOM);
                let id = custom_op_id(script, false, fname, Ghost(k as nat));
                buffer.write_varint(id);
            },
            Op::BranchCustom { fname, target } => {
                proof {
                    lemma_text_le_refl(fname@);
                }
                write_byte(&mut buffer, OP_BRANCH_CUSTOM);
                let id = custom_op_id(script, true, fname, Ghost(k as nat));
                buffer.write_varint(id);
                buffer.write_varint(*target as usize);
            },
        }
        proof {
            assert(buffer@ =~= before + op_bytes(script@[k as int], ks, script@));
        }
        k = k + 1;
    }
    buffer.encode()
}


/// Whether `script` can be compiled when the fields `keys` have ids: its field values are
/// numbers or booleans, and its bytes fit the compressor.
pub open spec fn script_compilable(script: Seq<Op>, keys: Seq<FieldKey>) -> bool {
    &&& forall|k: int| 0 <= k < script.len() ==> op_encodable(#[trigger] script[k])
    &&& script_bytes(script, keys).len() < usize::MAX
    &&& compress_fits(script_bytes(script, keys), sequence_methods())
}

/// The compiled data of the first `k` of `sequences` and the fields given ids by them.
pub open spec fn compiled_state(sequences: Seq<Sequence>, k: nat) -> (Seq<Seq<u8>>, Seq<FieldKey>)
    decreases k,
{
    if k == 0 {
        (seq![], seq![])
    } else {
        let (data, keys) = compiled_state(sequences, (k - 1) as nat);
        let script = sequences[k - 1].script@;
        (
            data.push(compress_after(script_bytes(script, keys), sequence_methods(), 2)),
            script_state(script, keys, script.len()).1,
        )
    }
}

/// Whether the sequences can be compiled: each one has its position as its id, and each
/// script can be compiled with the fields the ones before it gave ids.
pub open spec fn sequences_compilable(sequences: Seq<Sequence>) -> bool {
    forall|k: int|
        0 <= k < sequences.len() ==> (#[trigger] sequences[k]).meta.id == k && script_compilable(
            sequences[k].script@,
            compiled_state(sequences, k as nat).1,
        )
}

/// The compiled sequences of a project, and the fields they name, by id.
pub struct CompilationResult {
    /// The bytes representing the actual compiled sequences.
    pub compiled_data: Vec<Vec<u8>>,
    /// The fields whose offsets must be available, by id: node and property.
    pub required_offsets: Vec<(String, String)>,
}

/// Compiles the sequences of a project, giving the fields they name ids shared by all of them.
pub fn compile_sequences(sequences: &[Sequence]) -> (out: CompilationResult)
    requires
        sequences_compilable(sequences@),
    ensures
        out.compiled_data@.len() == sequences@.len(),
        forall|k: int|
            0 <= k < sequences@.len() ==> (#[trigger] out.compiled_data@[k])@ == compiled_state(sequences@, sequences@.len()).0[k],
        keys_view(out.required_offsets@) == compiled_state(sequences@, sequences@.len()).1,
{
    let mut required_offsets: Vec<(String, String)> = Vec::new();
    let mut compiled_data: Vec<Vec<u8>> = Vec::new();
    let mut i: usize = 0;
    proof {
        assert(keys_view(required_offsets@) =~= Seq::<FieldKey>::empty());
    }
    while i < sequences.len()
        invariant
            i <= sequences@.len(),
            sequences_compilable(sequences@),
            compiled_data@.len() == i,
            compiled_data@.len() == compiled_state(sequences@, i as nat).0.len(),
            forall|k: int| 0 <= k < i ==> (#[trigger] compiled_data@[k])@ == compiled_state(sequences@, i as nat).0[k],
            keys_view(required_offsets@) == compiled_state(sequences@, i as nat).1,
        decreases sequences@.len() - i,
    {
        let sequence = &sequences[i];
        proof {
            assert(sequences@[i as int].meta.id == i);
            assert(script_compilable(sequence.script@, compiled_state(sequences@, i as nat).1));
        }
        let data = encode_script(sequence.script.as_slice(), &mut required_offsets);
        let ghost prev = compiled_data@;
        compiled_data.push(data);
        proof {
            assert forall|k: int| 0 <= k < i + 1 implies (#[trigger] compiled_data@[k])@ == compiled_state(
                sequences@,
                (i + 1) as nat,
            ).0[k] by {
                if k < i {
                    assert(compiled_data@[k] == prev[k]);
                }
            }
        }
        i = i + 1;
    }
    CompilationResult { compiled_data, required_offsets }
}

/// The opcode of a field operation on a number or boolean names its length the way the
/// run-time decoder reads it: the low bits `k` of the opcode give a value of `1 << k` bytes,
/// and exactly the value's bytes follow the opcode (for a branch, after the target and the
/// comparison). Set operations carry the set-field opcode in the high bits, modify operations
/// the modify-field opcode, branches the branch-on-field opcode with the signed flag for
/// signed comparisons.
pub proof fn lemma_value_opcodes(op: Op, keys: Seq<FieldKey>, script: Seq<Op>)
    ensures
        op matches Op::SetValue { value } ==> is_primitive(value) ==> {
            let b = op_bytes(op, keys, script);
            &&& b[0] & 0xf0 == OP_SET_FIELD
            &&& (1u8 << (b[0] & 0x0f)) as nat == value_bytes(value).len()
            &&& b.len() == 1 + (1u8 << (b[0] & 0x0f))
        },
        op matches Op::Modify { value } ==> is_primitive(value) ==> {
            let b = op_bytes(op, keys, script);
            &&& b[0] & 0xf0 == OP_MODIFY_FIELD
            &&& (1u8 << (b[0] & 0x0f)) as nat == value_bytes(value).len()
            &&& b.len() == 1 + (1u8 << (b[0] & 0x0f))
        },
        op matches Op::BranchUInt { value, .. } ==> is_primitive(value) ==> {
            let b = op_bytes(op, keys, script);
            &&& b[0] & 0xf8 == OP_BRANCH_FIELD
            &&& (1u8 << (b[0] & 0x07)) as nat == value_bytes(value).len()
        },
        op matches Op::BranchSInt { value, .. } ==> is_primitive(value) ==> {
            let b = op_bytes(op, keys, script);
            &&& b[0] & 0xf8 == OP_BRANCH_FIELD | BRANCH_COMPARE_SIGNED
            &&& (1u8 << (b[0] & 0x07)) as nat == value_bytes(value).len()
        },
{
    assert((1u8 << 0u8) == 1 && (1u8 << 1u8) == 2 && (1u8 << 2u8) == 4 && (1u8 << 3u8) == 8) by (bit_vector);
    assert(forall|k: u8|
        k <= 3 ==> (0x00u8 | k) & 0xf0 == 0 && (0x00u8 | k) & 0x0f == k && (0x10u8 | k) & 0xf0 == 0x10 && (0x10u8
            | k) & 0x0f == k && (0x20u8 | k) & 0xf8 == 0x20 && (0x20u8 | k) & 0x07 == k) by (bit_vector);
    match op {
        Op::SetValue { value } | Op::Modify { value } | Op::BranchUInt { value, .. } => {
            if is_primitive(value) {
                lemma_value_bytes_len(value);
            }
        },
        Op::BranchSInt { value, .. } => {
            if is_primitive(value) {
                lemma_value_bytes_len(value);
                let k = len_log2(value);
                let b = op_bytes(op, keys, script);
                let b0 = b[0];
                assert(b0 == OP_BRANCH_FIELD | BRANCH_COMPARE_SIGNED | k);
                assert(b0 & 0xf8 == OP_BRANCH_FIELD | BRANCH_COMPARE_SIGNED && b0 & 0x07 == k) by (bit_vector)
                    requires
                        b0 == OP_BRANCH_FIELD | BRANCH_COMPARE_SIGNED | k,
                        k <= 3,
                ;
                assert((1u8 << (b[0] & 0x07)) as nat == value_bytes(value).len());
            }
        },
        _ => {},
    }
}

proof fn lemma_value_bytes_len(v: TypedValue)
    requires
        is_primitive(v),
    ensures
        value_bytes(v).len() == primitive_len(v),
{
}

} // verus!

//! Typed values in the asset server's messages: a value is read according to a type, and the
//! arguments of a node each come with their own type.
//!
//! Floating-point values are carried as their IEEE-754 bit patterns.
use vstd::prelude::*;
use vstd::utf8::decode_utf8;
use crate::assets::{AssetError, Type, are_types, is_type, lemma_rest_after, lemma_skip_skip, type_outcome, types_outcome};
use crate::base_serde::{ByteReader, Deserialize, ParseOutcome, fixed_outcome, le_value, length_prefix, outcome_error};

verus! {

broadcast use vstd::std_specs::vec::group_vec_axioms;

/// The mathematical form of a `Type`.
pub enum TypeView {
    U8,
    U16,
    U32,
    U64,
    I8,
    I16,
    I32,
    I64,
    F32,
    F64,
    Bool,
    String,
    Vec(Box<TypeView>),
    Tuple(Seq<TypeView>),
    Project,
    Node(Seq<char>),
    NodeList,
    Sequence,
}

/// The mathematical form of `t`.
pub open spec fn type_view(t: Type) -> TypeView
    decreases t, 0nat,
{
    match t {
        Type::U8 => TypeView::U8,
        Type::U16 => TypeView::U16,
        Type::U32 => TypeView::U32,
        Type::U64 => TypeView::U64,
        Type::I8 => TypeView::I8,
        Type::I16 => TypeView::I16,
        Type::I32 => TypeView::I32,
        Type::I64 => TypeView::I64,
        Type::F32 => TypeView::F32,
        Type::F64 => TypeView::F64,
        Type::Bool => TypeView::Bool,
        Type::String => TypeView::String,
        Type::Vec(item) => TypeView::Vec(Box::new(type_view(*item))),
        Type::Tuple(items) => TypeView::Tuple(types_view(items@)),
        Type::Project => TypeView::Project,
        Type::Node(name) => TypeView::Node(name@),
        Type::NodeList => TypeView::NodeList,
        Type::Sequence => TypeView::Sequence,
    }
}

/// The mathematical forms of the types of `s`.
pub open spec fn types_view(s: Seq<Type>) -> Seq<TypeView>
    decreases s, 1nat,
{
    if s.len() == 0 {
        seq![]
    } else {
        types_view(s.drop_last()).push(type_view(s.last()))
    }
}

/// The text of the string at the start of `input`.
pub open spec fn text_at(input: Seq<u8>) -> Seq<char> {
    decode_utf8(input.skip(4).take(length_prefix(input) as int))
}

/// The type written at the start of `input`.
pub open spec fn type_view_at(input: Seq<u8>) -> TypeView
    decreases input.len(), 0nat,
{
    if input.len() == 0 {
        TypeView::U8
    } else {
        let tag = input[0];
        if tag == 0 {
            TypeView::U8
        } else if tag == 1 {
            TypeView::U16
        } else if tag == 2 {
            TypeView::U32
        } else if tag == 3 {
            TypeView::U64
        } else if tag == 4 {
            TypeView::I8
        } else if tag == 5 {
            TypeView::I16
        } else if tag == 6 {
            TypeView::I32
        } else if tag == 7 {
            TypeView::I64
        } else if tag == 8 {
            TypeView::F32
        } else if tag == 9 {
            TypeView::F64
        } else if tag == 10 {
            TypeView::Bool
        } else if tag == 11 {
            TypeView::String
        } else if tag == 12 {
            TypeView::Vec(Box::new(type_view_at(input.skip(1))))
        } else if tag == 13 {
            if input.len() < 5 {
                TypeView::Tuple(seq![])
            } else {
                TypeView::Tuple(types_view_at(input.skip(5), le_value(input.skip(1), 4)))
            }
        } else if tag == 14 {
            TypeView::Project
        } else if tag == 15 {
            TypeView::Node(text_at(input.skip(1)))
        } else if tag == 16 {
            TypeView::NodeList
        } else {
            TypeView::Sequence
        }
    }
}

/// The `k` types written one after the other at the start of `s`.
pub open spec fn types_view_at(s: Seq<u8>, k: nat) -> Seq<TypeView>
    decreases s.len(), k,
{
    if k == 0 {
        seq![]
    } else {
        match types_outcome(s, (k - 1) as nat) {
            ParseOutcome::Value(off) => if off <= s.len() {
                types_view_at(s, (k - 1) as nat).push(type_view_at(s.skip(off as int)))
            } else {
                types_view_at(s, (k - 1) as nat)
            },
            _ => types_view_at(s, (k - 1) as nat),
        }
    }
}

/// A type read from `input` is the type written there.
pub proof fn lemma_type_view_at(input: Seq<u8>, t: Type)
    requires
        type_outcome(input) is Value,
        is_type(input, t),
    ensures
        type_view(t) == type_view_at(input),
    decreases input.len(), 0nat,
{
    let tag = input[0];
    if tag == 12 {
        match t {
            Type::Vec(item) => {
                lemma_type_view_at(input.skip(1), *item);
            },
            _ => {},
        }
    } else if tag == 13 {
        match t {
            Type::Tuple(items) => {
                let s = input.skip(5);
                let k = le_value(input.skip(1), 4);
                lemma_types_view_at(s, items@, k);
                assert(items@.take(k as int) =~= items@);
            },
            _ => {},
        }
    }
}

/// The first `k` types read from `s` are the types written there.
proof fn lemma_types_view_at(s: Seq<u8>, items: Seq<Type>, k: nat)
    requires
        k <= items.len(),
        types_outcome(s, k) is Value,
        are_types(s, items, k),
    ensures
        types_view(items.take(k as int)) == types_view_at(s, k),
    decreases s.len(), k,
{
    if k > 0 {
        let prev = types_outcome(s, (k - 1) as nat);
        if !(prev is Value) {
            crate::assets::lemma_types_outcome_stuck(s, (k - 1) as nat, k);
        }
        lemma_types_view_at(s, items, (k - 1) as nat);
        let off = match prev {
            ParseOutcome::Value(o) => o,
            _ => 0,
        };
        assert(type_outcome(s.skip(off as int)) is Value);
        lemma_type_view_at(s.skip(off as int), items[k - 1]);
        assert(items.take(k as int).drop_last() =~= items.take(k - 1));
    }
}


/// The arguments of a node.
#[derive(Debug, PartialEq)]
pub struct NodeArgs {
    pub args: Vec<TypedValue>,
}

/// A value combined with its type. `F32` and `F64` hold the bits of the number.
#[derive(Debug, PartialEq)]
pub enum TypedValue {
    U8(u8),
    U16(u16),
    U32(u32),
    U64(u64),
    I8(i8),
    I16(i16),
    I32(i32),
    I64(i64),
    F32(u32),
    F64(u64),
    Bool(bool),
    String(String),
    Vec(Vec<TypedValue>),
    Tuple(Vec<TypedValue>),
    Node(NodeArgs),
    NodeList(String),
    Sequence(String),
}

/// The mathematical form of a `TypedValue`.
pub enum ValueView {
    U8(u8),
    U16(u16),
    U32(u32),
    U64(u64),
    I8(i8),
    I16(i16),
    I32(i32),
    I64(i64),
    F32(u32),
    F64(u64),
    Bool(bool),
    String(Seq<char>),
    Vec(Seq<ValueView>),
    Tuple(Seq<ValueView>),
    Node(Seq<ValueView>),
    NodeList(Seq<char>),
    Sequence(Seq<char>),
}

/// The mathematical form of `v`.
pub open spec fn value_view(v: TypedValue) -> ValueView
    decreases v, 0nat,
{
    match v {
        TypedValue::U8(x) => ValueView::U8(x),
        TypedValue::U16(x) => ValueView::U16(x),
        TypedValue::U32(x) => ValueView::U32(x),
        TypedValue::U64(x) => ValueView::U64(x),
        TypedValue::I8(x) => ValueView::I8(x),
        TypedValue::I16(x) => ValueView::I16(x),
        TypedValue::I32(x) => ValueView::I32(x),
        TypedValue::I64(x) => ValueView::I64(x),
        TypedValue::F32(x) => ValueView::F32(x),
        TypedValue::F64(x) => ValueView::F64(x),
        TypedValue::Bool(x) => ValueView::Bool(x),
        TypedValue::String(x) => ValueView::String(x@),
        TypedValue::Vec(items) => ValueView::Vec(values_view(items@)),
        TypedValue::Tuple(items) => ValueView::Tuple(values_view(items@)),
        TypedValue::Node(args) => ValueView::Node(values_view(args.args@)),
        TypedValue::NodeList(x) => ValueView::NodeList(x@),
        TypedValue::Sequence(x) => ValueView::Sequence(x@),
    }
}

/// The mathematical forms of the values of `s`.
pub open spec fn values_view(s: Seq<TypedValue>) -> Seq<ValueView>
    decreases s, 1nat,
{
    if s.len() == 0 {
        seq![]
    } else {
        values_view(s.drop_last()).push(value_view(s.last()))
    }
}

impl View for TypedValue {
    type V = ValueView;

    open spec fn view(&self) -> ValueView {
        value_view(*self)
    }
}

/// `r`, with `n` more bytes read before it.
pub open spec fn after(n: nat, r: ParseOutcome) -> ParseOutcome {
    match r {
        ParseOutcome::Value(l) => ParseOutcome::Value(n + l),
        other => other,
    }
}

/// What reading a value of type `t` from `input` gives. A project value cannot be read: the
/// reader stops there.
pub open spec fn value_outcome(input: Seq<u8>, t: TypeView) -> ParseOutcome
    decreases input.len(), t, 0nat,
{
    match t {
        TypeView::U8 => fixed_outcome(input, 1),
        TypeView::U16 => fixed_outcome(input, 2),
        TypeView::U32 => fixed_outcome(input, 4),
        TypeView::U64 => fixed_outcome(input, 8),
        TypeView::I8 => fixed_outcome(input, 1),
        TypeView::I16 => fixed_outcome(input, 2),
        TypeView::I32 => fixed_outcome(input, 4),
        TypeView::I64 => fixed_outcome(input, 8),
        TypeView::F32 => fixed_outcome(input, 4),
        TypeView::F64 => fixed_outcome(input, 8),
        TypeView::Bool => fixed_outcome(input, 1),
        TypeView::String => <String as Deserialize>::outcome(input),
        TypeView::Vec(item) => if input.len() < 4 {
            ParseOutcome::Eof
        } else {
            after(4, vec_items_outcome(input.skip(4), *item, length_prefix(input)))
        },
        TypeView::Tuple(items) => tuple_items_outcome(input, items, items.len()),
        TypeView::Project => ParseOutcome::BadTag,
        TypeView::Node(_) => if input.len() < 4 {
            ParseOutcome::Eof
        } else {
            after(4, args_outcome(input.skip(4), t, length_prefix(input)))
        },
        TypeView::NodeList => <String as Deserialize>::outcome(input),
        TypeView::Sequence => <String as Deserialize>::outcome(input),
    }
}

/// What reading `k` values of type `item` one after the other from `s` gives.
pub open spec fn vec_items_outcome(s: Seq<u8>, item: TypeView, k: nat) -> ParseOutcome
    decreases s.len(), item, k,
{
    if k == 0 {
        ParseOutcome::Value(0)
    } else {
        match vec_items_outcome(s, item, (k - 1) as nat) {
            ParseOutcome::Value(off) => if off <= s.len() {
                after(off, value_outcome(s.skip(off as int), item))
            } else {
                ParseOutcome::Eof
            },
            other => other,
        }
    }
}

/// What reading values of the first `k` of `types` one after the other from `s` gives.
pub open spec fn tuple_items_outcome(s: Seq<u8>, types: Seq<TypeView>, k: nat) -> ParseOutcome
    decreases s.len(), types, k,
{
    if k == 0 {
        ParseOutcome::Value(0)
    } else {
        match tuple_items_outcome(s, types, (k - 1) as nat) {
            ParseOutcome::Value(off) => if off <= s.len() && k <= types.len() {
                after(off, value_outcome(s.skip(off as int), types[k - 1]))
            } else {
                ParseOutcome::Eof
            },
            other => other,
        }
    }
}

/// What reading the first `k` arguments of a node from `s` gives: each one a type, then a
/// value of that type.
pub open spec fn args_outcome(s: Seq<u8>, t: TypeView, k: nat) -> ParseOutcome
    decreases s.len(), t, k,
{
    if k == 0 {
        ParseOutcome::Value(0)
    } else {
        match args_outcome(s, t, (k - 1) as nat) {
            ParseOutcome::Value(off) => if off <= s.len() {
                match type_outcome(s.skip(off as int)) {
                    ParseOutcome::Value(l) => if 1 <= l && off + l <= s.len() {
                        after(off + l, value_outcome(s.skip((off + l) as int), type_view_at(s.skip(off as int))))
                    } else {
                        ParseOutcome::Eof
                    },
                    other => other,
                }
            } else {
                ParseOutcome::Eof
            },
            other => other,
        }
    }
}

/// Whether `v` is the value of type `t` at the start of `input`.
pub open spec fn is_value_at(input: Seq<u8>, t: TypeView, v: ValueView) -> bool
    decreases input.len(), t, 0nat,
{
    match t {
        TypeView::U8 => v matches ValueView::U8(x) && <u8 as Deserialize>::is_value(input, x),
        TypeView::U16 => v matches ValueView::U16(x) && <u16 as Deserialize>::is_value(input, x),
        TypeView::U32 => v matches ValueView::U32(x) && <u32 as Deserialize>::is_value(input, x),
        TypeView::U64 => v matches ValueView::U64(x) && <u64 as Deserialize>::is_value(input, x),
        TypeView::I8 => v matches ValueView::I8(x) && <i8 as Deserialize>::is_value(input, x),
        TypeView::I16 => v matches ValueView::I16(x) && <i16 as Deserialize>::is_value(input, x),
        TypeView::I32 => v matches ValueView::I32(x) && <i32 as Deserialize>::is_value(input, x),
        TypeView::I64 => v matches ValueView::I64(x) && <i64 as Deserialize>::is_value(input, x),
        TypeView::F32 => v matches ValueView::F32(x) && <u32 as Deserialize>::is_value(input, x),
        TypeView::F64 => v matches ValueView::F64(x) && <u64 as Deserialize>::is_value(input, x),
        TypeView::Bool => v matches ValueView::Bool(x) && <bool as Deserialize>::is_value(input, x),
        TypeView::String => v matches ValueView::String(x) && x == text_at(input),
        TypeView::Vec(item) => v matches ValueView::Vec(items) && input.len() >= 4 && items.len()
            == length_prefix(input) && vec_items_are(input.skip(4), *item, items, items.len()),
        TypeView::Tuple(types) => v matches ValueView::Tuple(items) && items.len() == types.len()
            && tuple_items_are(input, types, items, items.len()),
        TypeView::Project => false,
        TypeView::Node(_) => v matches ValueView::Node(items) && input.len() >= 4 && items.len()
            == length_prefix(input) && args_are(input.skip(4), t, items, items.len()),
        TypeView::NodeList => v matches ValueView::NodeList(x) && x == text_at(input),
        TypeView::Sequence => v matches ValueView::Sequence(x) && x == text_at(input),
    }
}

/// Whether the first `k` of `items` are values of type `item` one after the other at the
/// start of `s`.
pub open spec fn vec_items_are(s: Seq<u8>, item: TypeView, items: Seq<ValueView>, k: nat) -> bool
    decreases s.len(), item, k,
{
    if k == 0 {
        true
    } else {
        vec_items_are(s, item, items, (k - 1) as nat) && match vec_items_outcome(s, item, (k - 1) as nat) {
            ParseOutcome::Value(off) => off <= s.len() && is_value_at(s.skip(off as int), item, items[k - 1]),
            _ => false,
        }
    }
}

/// Whether the first `k` of `items` are values of the first `k` of `types` one after the other
/// at the start of `s`.
pub open spec fn tuple_items_are(s: Seq<u8>, types: Seq<TypeView>, items: Seq<ValueView>, k: nat) -> bool
    decreases s.len(), types, k,
{
    if k == 0 {
        true
    } else {
        tuple_items_are(s, types, items, (k - 1) as nat) && match tuple_items_outcome(s, types, (k - 1) as nat) {
            ParseOutcome::Value(off) => off <= s.len() && k <= types.len() && is_value_at(
                s.skip(off as int),
                types[k - 1],
                items[k - 1],
            ),
            _ => false,
        }
    }
}

/// Whether the first `k` of `items` are the node arguments at the start of `s`.
pub open spec fn args_are(s: Seq<u8>, t: TypeView, items: Seq<ValueView>, k: nat) -> bool
    decreases s.len(), t, k,
{
    if k == 0 {
        true
    } else {
        args_are(s, t, items, (k - 1) as nat) && match args_outcome(s, t, (k - 1) as nat) {
            ParseOutcome::Value(off) => off <= s.len() && match type_outcome(s.skip(off as int)) {
                ParseOutcome::Value(l) => 1 <= l && off + l <= s.len() && is_value_at(
                    s.skip((off + l) as int),
                    type_view_at(s.skip(off as int)),
                    items[k - 1],
                ),
                _ => false,
            },
            _ => false,
        }
    }
}


proof fn lemma_vec_items_stuck(s: Seq<u8>, item: TypeView, j: nat, k: nat)
    requires
        j <= k,
        !(vec_items_outcome(s, item, j) is Value),
    ensures
        vec_items_outcome(s, item, k) == vec_items_outcome(s, item, j),
    decreases k,
{
    if j < k {
        lemma_vec_items_stuck(s, item, j, (k - 1) as nat);
    }
}

proof fn lemma_tuple_items_stuck(s: Seq<u8>, types: Seq<TypeView>, j: nat, k: nat)
    requires
        j <= k,
        !(tuple_items_outcome(s, types, j) is Value),
    ensures
        tuple_items_outcome(s, types, k) == tuple_items_outcome(s, types, j),
    decreases k,
{
    if j < k {
        lemma_tuple_items_stuck(s, types, j, (k - 1) as nat);
    }
}

proof fn lemma_args_stuck(s: Seq<u8>, t: TypeView, j: nat, k: nat)
    requires
        j <= k,
        !(args_outcome(s, t, j) is Value),
    ensures
        args_outcome(s, t, k) == args_outcome(s, t, j),
    decreases k,
{
    if j < k {
        lemma_args_stuck(s, t, j, (k - 1) as nat);
    }
}

proof fn lemma_vec_items_are_prefix(s: Seq<u8>, item: TypeView, items: Seq<ValueView>, more: Seq<ValueView>, k: nat)
    requires
        k <= items.len(),
        k <= more.len(),
        forall|j: int| 0 <= j < k ==> items[j] == more[j],
        vec_items_are(s, item, items, k),
    ensures
        vec_items_are(s, item, more, k),
    decreases k,
{
    if k > 0 {
        lemma_vec_items_are_prefix(s, item, items, more, (k - 1) as nat);
    }
}

proof fn lemma_tuple_items_are_prefix(
    s: Seq<u8>,
    types: Seq<TypeView>,
    items: Seq<ValueView>,
    more: Seq<ValueView>,
    k: nat,
)
    requires
        k <= items.len(),
        k <= more.len(),
        forall|j: int| 0 <= j < k ==> items[j] == more[j],
        tuple_items_are(s, types, items, k),
    ensures
        tuple_items_are(s, types, more, k),
    decreases k,
{
    if k > 0 {
        lemma_tuple_items_are_prefix(s, types, items, more, (k - 1) as nat);
    }
}

proof fn lemma_args_are_prefix(s: Seq<u8>, t: TypeView, items: Seq<ValueView>, more: Seq<ValueView>, k: nat)
    requires
        k <= items.len(),
        k <= more.len(),
        forall|j: int| 0 <= j < k ==> items[j] == more[j],
        args_are(s, t, items, k),
    ensures
        args_are(s, t, more, k),
    decreases k,
{
    if k > 0 {
        lemma_args_are_prefix(s, t, items, more, (k - 1) as nat);
    }
}

/// The forms of the types of `s` are the forms of its types one by one.
proof fn lemma_types_view_index(s: Seq<Type>)
    ensures
        types_view(s).len() == s.len(),
        forall|i: int| 0 <= i < s.len() ==> #[trigger] types_view(s)[i] == type_view(s[i]),
    decreases s.len(),
{
    if s.len() > 0 {
        lemma_types_view_index(s.drop_last());
    }
}

/// Appending a value appends its form.
proof fn lemma_values_view_push(s: Seq<TypedValue>, v: TypedValue)
    ensures
        values_view(s.push(v)) == values_view(s).push(value_view(v)),
{
    assert(s.push(v).drop_last() =~= s);
}

proof fn lemma_values_view_len(s: Seq<TypedValue>)
    ensures
        values_view(s).len() == s.len(),
    decreases s.len(),
{
    if s.len() > 0 {
        lemma_values_view_len(s.drop_last());
    }
}

impl TypedValue {
    /// Reads a value of type `type_`: numbers, booleans and strings as such; a vector as a
    /// `u32` count and its items; a tuple as its items; a node as a `u32` count of arguments,
    /// each one a type and a value of it; node lists and sequences by name.
    pub fn read(input: &mut ByteReader, type_: &Type) -> (out: Result<TypedValue, AssetError>)
        requires
            old(input).wf(),
            !(value_outcome(old(input).rest(), type_view(*type_)) is BadTag),
        ensures
            final(input).wf(),
            final(input).data@ == old(input).data@,
            match out {
                Ok(v) => final(input).pos >= old(input).pos && value_outcome(old(input).rest(), type_view(*type_))
                    == ParseOutcome::Value((final(input).pos - old(input).pos) as nat) && is_value_at(
                    old(input).rest(),
                    type_view(*type_),
                    v@,
                ),
                Err(e) => outcome_error(value_outcome(old(input).rest(), type_view(*type_)), e),
            },
        decreases old(input).rest().len(), *type_,
    {
        let ghost r0 = input.rest();
        let ghost b0 = *input;
        match type_ {
            Type::U8 => Ok(TypedValue::U8(u8::deserialize(input)?)),
            Type::U16 => Ok(TypedValue::U16(u16::deserialize(input)?)),
            Type::U32 => Ok(TypedValue::U32(u32::deserialize(input)?)),
            Type::U64 => Ok(TypedValue::U64(u64::deserialize(input)?)),
            Type::I8 => Ok(TypedValue::I8(i8::deserialize(input)?)),
            Type::I16 => Ok(TypedValue::I16(i16::deserialize(input)?)),
            Type::I32 => Ok(TypedValue::I32(i32::deserialize(input)?)),
            Type::I64 => Ok(TypedValue::I64(i64::deserialize(input)?)),
            Type::F32 => Ok(TypedValue::F32(u32::deserialize(input)?)),
            Type::F64 => Ok(TypedValue::F64(u64::deserialize(input)?)),
            Type::Bool => Ok(TypedValue::Bool(bool::deserialize(input)?)),
            Type::String => Ok(TypedValue::String(String::deserialize(input)?)),
            Type::Vec(item_type) => {
                let ghost item = type_view(**item_type);
                let len = u32::deserialize(input)?;
                let ghost t = r0.skip(4);
                proof {
                    lemma_rest_after(b0, *input, 4);
                }
                let mut vec: Vec<TypedValue> = Vec::new();
                let mut i: u32 = 0;
                let ghost mut off: nat = 0;
                while i < len
                    invariant
                        input.wf(),
                        b0 == *old(input),
                        b0.wf(),
                        input.data@ == b0.data@,
                        r0 == b0.rest(),
                        r0.len() >= 4,
                        t == r0.skip(4),
                        *type_ == Type::Vec(*item_type),
                        item == type_view(**item_type),
                        len == length_prefix(r0),
                        !(value_outcome(r0, type_view(*type_)) is BadTag),
                        i <= len,
                        vec@.len() == i,
                        vec_items_outcome(t, item, i as nat) == ParseOutcome::Value(off),
                        off <= t.len(),
                        input.rest() == t.skip(off as int),
                        input.pos == b0.pos + 4 + off,
                        vec_items_are(t, item, values_view(vec@), i as nat),
                    decreases len - i,
                {
                    proof {
                        if value_outcome(t.skip(off as int), item) is BadTag {
                            lemma_vec_items_stuck(t, item, (i + 1) as nat, len as nat);
                        }
                    }
                    let ghost before = *input;
                    let v = match TypedValue::read(input, item_type) {
                        Ok(v) => v,
                        Err(e) => {
                            proof {
                                lemma_vec_items_stuck(t, item, (i + 1) as nat, len as nat);
                            }
                            return Err(e);
                        },
                    };
                    proof {
                        let l = (input.pos - before.pos) as nat;
                        lemma_rest_after(before, *input, l);
                        lemma_skip_skip(t, off, l);
                        off = off + l;
                    }
                    let ghost prev = vec@;
                    vec.push(v);
                    proof {
                        lemma_values_view_push(prev, v);
                        lemma_values_view_len(prev);
                        lemma_vec_items_are_prefix(t, item, values_view(prev), values_view(vec@), i as nat);
                    }
                    i = i + 1;
                }
                proof {
                    lemma_rest_after(b0, *input, 4 + off);
                    lemma_values_view_len(vec@);
                }
                Ok(TypedValue::Vec(vec))
            },
            Type::Tuple(item_types) => {
                let ghost types = types_view(item_types@);
                proof {
                    lemma_types_view_index(item_types@);
                    assert(r0.skip(0) =~= r0);
                }
                let mut items: Vec<TypedValue> = Vec::new();
                let mut i: usize = 0;
                let ghost mut off: nat = 0;
                while i < item_types.len()
                    invariant
                        input.wf(),
                        b0 == *old(input),
                        b0.wf(),
                        input.data@ == b0.data@,
                        r0 == b0.rest(),
                        *type_ == Type::Tuple(*item_types),
                        types == types_view(item_types@),
                        types.len() == item_types@.len(),
                        forall|j: int| 0 <= j < item_types@.len() ==> #[trigger] types[j] == type_view(item_types@[j]),
                        !(value_outcome(r0, type_view(*type_)) is BadTag),
                        i <= item_types@.len(),
                        items@.len() == i,
                        tuple_items_outcome(r0, types, i as nat) == ParseOutcome::Value(off),
                        off <= r0.len(),
                        input.rest() == r0.skip(off as int),
                        input.pos == b0.pos + off,
                        tuple_items_are(r0, types, values_view(items@), i as nat),
                    decreases item_types@.len() - i,
                {
                    proof {
                        if value_outcome(r0.skip(off as int), types[i as int]) is BadTag {
                            lemma_tuple_items_stuck(r0, types, (i + 1) as nat, types.len());
                        }
                        assert(decreases_to!(*item_types => item_types@[i as int]));
                    }
                    let ghost before = *input;
                    let v = match TypedValue::read(input, &item_types[i]) {
                        Ok(v) => v,
                        Err(e) => {
                            proof {
                                lemma_tuple_items_stuck(r0, types, (i + 1) as nat, types.len());
                            }
                            return Err(e);
                        },
                    };
                    proof {
                        let l = (input.pos - before.pos) as nat;
                        lemma_rest_after(before, *input, l);
                        lemma_skip_skip(r0, off, l);
                        off = off + l;
                    }
                    let ghost prev = items@;
                    items.push(v);
                    proof {
                        lemma_values_view_push(prev, v);
                        lemma_values_view_len(prev);
                        lemma_tuple_items_are_prefix(r0, types, values_view(prev), values_view(items@), i as nat);
                    }
                    i = i + 1;
                }
                proof {
                    lemma_rest_after(b0, *input, off);
                    lemma_values_view_len(items@);
                }
                Ok(TypedValue::Tuple(items))
            },
            Type::Project => {
                proof {
                    assert(false);
                }
                Err(AssetError::OtherError(String::new()))
            },
            Type::Node(_) => {
                let args_len = u32::deserialize(input)?;
                let ghost t = r0.skip(4);
                let ghost tv = type_view(*type_);
                proof {
                    lemma_rest_after(b0, *input, 4);
                }
                let mut args: Vec<TypedValue> = Vec::new();
                let mut i: u32 = 0;
                let ghost mut off: nat = 0;
                while i < args_len
                    invariant
                        input.wf(),
                        b0 == *old(input),
                        b0.wf(),
                        input.data@ == b0.data@,
                        r0 == b0.rest(),
                        r0.len() >= 4,
                        t == r0.skip(4),
                        tv == type_view(*type_),
                        tv is Node,
                        args_len == length_prefix(r0),
                        !(value_outcome(r0, tv) is BadTag),
                        i <= args_len,
                        args@.len() == i,
                        args_outcome(t, tv, i as nat) == ParseOutcome::Value(off),
                        off <= t.len(),
                        input.rest() == t.skip(off as int),
                        input.pos == b0.pos + 4 + off,
                        args_are(t, tv, values_view(args@), i as nat),
                    decreases args_len - i,
                {
                    let ghost at_type = *input;
                    proof {
                        if type_outcome(t.skip(off as int)) is BadTag {
                            lemma_args_stuck(t, tv, (i + 1) as nat, args_len as nat);
                        }
                    }
                    let arg_type = match Type::read(input) {
                        Ok(arg_type) => arg_type,
                        Err(e) => {
                            proof {
                                lemma_args_stuck(t, tv, (i + 1) as nat, args_len as nat);
                            }
                            return Err(e);
                        },
                    };
                    let ghost l1 = (input.pos - at_type.pos) as nat;
                    proof {
                        lemma_rest_after(at_type, *input, l1);
                        lemma_skip_skip(t, off, l1);
                        lemma_type_view_at(t.skip(off as int), arg_type);
                        if l1 == 0 {
                            assert(false);
                        }
                        if value_outcome(t.skip((off + l1) as int), type_view(arg_type)) is BadTag {
                            lemma_args_stuck(t, tv, (i + 1) as nat, args_len as nat);
                        }
                    }
                    let ghost before = *input;
                    let v = match TypedValue::read(input, &arg_type) {
                        Ok(v) => v,
                        Err(e) => {
                            proof {
                                lemma_args_stuck(t, tv, (i + 1) as nat, args_len as nat);
                            }
                            return Err(e);
                        },
                    };
                    proof {
                        let l2 = (input.pos - before.pos) as nat;
                        lemma_rest_after(before, *input, l2);
                        lemma_skip_skip(t, off + l1, l2);
                        off = off + l1 + l2;
                    }
                    let ghost prev = args@;
                    args.push(v);
                    proof {
                        lemma_values_view_push(prev, v);
                        lemma_values_view_len(prev);
                        lemma_args_are_prefix(t, tv, values_view(prev), values_view(args@), i as nat);
                    }
                    i = i + 1;
                }
                proof {
                    lemma_rest_after(b0, *input, 4 + off);
                    lemma_values_view_len(args@);
                }
                Ok(TypedValue::Node(NodeArgs { args }))
            },
            Type::NodeList => Ok(TypedValue::NodeList(String::deserialize(input)?)),
            Type::Sequence => Ok(TypedValue::Sequence(String::deserialize(input)?)),
        }
    }
}

} // verus!

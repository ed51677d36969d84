//! Reading the operations of sequence scripts from the Scheme data of sequence assets.
//!
//! The Scheme interpreter hands over each datum as a `Datum`: its value and its printed form,
//! which error messages quote. The fields that operations name are resolved against the node
//! definitions beforehand, and handed over by the text of their dotted paths.
use vstd::prelude::*;
use vstd::string::StringExecFns;
use crate::script_labels::{SkyliteProcError, decimal, decimal_string};
use crate::sequence_ir::{
    BranchCondition, Field, InputOp, Type, TypedValue, TypedValueView, expect_numeric_type, is_numeric,
};

verus! {

/// A Scheme number: its value as a 64-bit integer where it is an integer that fits one, and
/// the bits of its nearest `f32` and `f64`.
#[derive(Clone, Copy, Debug)]
pub struct SchemeNumber {
    pub int: Option<i64>,
    pub f32_bits: u32,
    pub f64_bits: u64,
}

/// The value of a Scheme datum.
#[derive(Debug)]
pub enum SchemeValue {
    Symbol(String),
    Str(String),
    Number(SchemeNumber),
    Bool(bool),
    List(Vec<Datum>),
    Other,
}

/// A Scheme datum and its printed form.
#[derive(Debug)]
pub struct Datum {
    pub value: SchemeValue,
    pub written: String,
}

/// A field path as written in a script, and what resolving it against the node definitions
/// gave.
#[derive(Debug)]
pub struct FieldEntry {
    pub path: String,
    pub field: Result<Field, SkyliteProcError>,
}

/// A node list asset: its name and its id.
#[derive(Debug)]
pub struct NodeListEntry {
    pub name: String,
    pub id: usize,
}

/// An error's kind and message.
pub enum ErrorView {
    Data(Seq<char>),
    Syntax(Seq<char>),
    Other(Seq<char>),
}

pub open spec fn error_view(e: SkyliteProcError) -> ErrorView {
    match e {
        SkyliteProcError::DataError(m) => ErrorView::Data(m@),
        SkyliteProcError::SyntaxError(m) => ErrorView::Syntax(m@),
        SkyliteProcError::OtherError(m) => ErrorView::Other(m@),
    }
}

/// The message of a failed conversion of an integer into a smaller integer type.
pub open spec fn out_of_range_message() -> Seq<char> {
    "out of range integral type conversion attempted"@
}

/// The error for a datum `d` that is not of the kind `what` names.
pub open spec fn expected_error(what: Seq<char>, d: Datum) -> ErrorView {
    ErrorView::Data("Expected "@ + what + ", found "@ + d.written@)
}

/// Whether the integer `i` fits the integer type `t`.
pub open spec fn int_fits(t: Type, i: i64) -> bool {
    match t {
        Type::U8 => 0 <= i <= 255,
        Type::U16 => 0 <= i <= 65535,
        Type::U32 => 0 <= i <= 0xffff_ffff,
        Type::U64 => 0 <= i,
        Type::I8 => -128 <= i <= 127,
        Type::I16 => -32768 <= i <= 32767,
        Type::I32 => -0x8000_0000 <= i <= 0x7fff_ffff,
        _ => true,
    }
}

/// The integer `i` as a value of the integer type `t`.
pub open spec fn int_value(t: Type, i: i64) -> TypedValueView {
    match t {
        Type::U8 => TypedValueView::U8(i as u8),
        Type::U16 => TypedValueView::U16(i as u16),
        Type::U32 => TypedValueView::U32(i as u32),
        Type::U64 => TypedValueView::U64(i as u64),
        Type::I8 => TypedValueView::I8(i as i8),
        Type::I16 => TypedValueView::I16(i as i16),
        Type::I32 => TypedValueView::I32(i as i32),
        _ => TypedValueView::I64(i),
    }
}

/// Whether `t` is one of the integer types.
pub open spec fn is_int_type(t: Type) -> bool {
    t is U8 || t is U16 || t is U32 || t is U64 || t is I8 || t is I16 || t is I32 || t is I64
}

/// The value of type `t` that `d` gives, for the types a field operation accepts: integers in
/// the type's range, numbers as floating-point numbers, booleans and strings.
pub open spec fn primitive_of(t: Type, d: Datum) -> Result<TypedValueView, ErrorView> {
    if is_int_type(t) {
        match d.value {
            SchemeValue::Number(n) => match n.int {
                Some(i) => if int_fits(t, i) {
                    Ok(int_value(t, i))
                } else {
                    Err(ErrorView::Data(out_of_range_message()))
                },
                None => Err(expected_error("integer"@, d)),
            },
            _ => Err(expected_error("integer"@, d)),
        }
    } else {
        match t {
            Type::F32 => match d.value {
                SchemeValue::Number(n) => Ok(TypedValueView::F32(n.f32_bits)),
                _ => Err(expected_error("floating point numer"@, d)),
            },
            Type::F64 => match d.value {
                SchemeValue::Number(n) => Ok(TypedValueView::F64(n.f64_bits)),
                _ => Err(expected_error("floating point numer"@, d)),
            },
            Type::Bool => match d.value {
                SchemeValue::Bool(b) => Ok(TypedValueView::Bool(b)),
                _ => Err(expected_error("boolean"@, d)),
            },
            Type::String => match d.value {
                SchemeValue::Str(s) => Ok(TypedValueView::String(s@)),
                _ => Err(expected_error("string"@, d)),
            },
            _ => Err(ErrorView::Data("Type not supported for operation."@)),
        }
    }
}

/// The smallest and largest values of the integer type `t`, from Rust's own constants.
pub open spec fn type_bounds(t: Type) -> (int, int) {
    match t {
        Type::U8 => (u8::MIN as int, u8::MAX as int),
        Type::U16 => (u16::MIN as int, u16::MAX as int),
        Type::U32 => (u32::MIN as int, u32::MAX as int),
        Type::U64 => (u64::MIN as int, u64::MAX as int),
        Type::I8 => (i8::MIN as int, i8::MAX as int),
        Type::I16 => (i16::MIN as int, i16::MAX as int),
        Type::I32 => (i32::MIN as int, i32::MAX as int),
        _ => (i64::MIN as int, i64::MAX as int),
    }
}

/// The integer an integer value holds, and whether the value is of the integer type `t`.
pub open spec fn integer_of(v: TypedValueView, t: Type) -> Option<int> {
    match (v, t) {
        (TypedValueView::U8(x), Type::U8) => Some(x as int),
        (TypedValueView::U16(x), Type::U16) => Some(x as int),
        (TypedValueView::U32(x), Type::U32) => Some(x as int),
        (TypedValueView::U64(x), Type::U64) => Some(x as int),
        (TypedValueView::I8(x), Type::I8) => Some(x as int),
        (TypedValueView::I16(x), Type::I16) => Some(x as int),
        (TypedValueView::I32(x), Type::I32) => Some(x as int),
        (TypedValueView::I64(x), Type::I64) => Some(x as int),
        _ => None,
    }
}

/// Reading an integer into an integer type succeeds exactly when the integer lies in the
/// type's whole range, and then gives a value of that type holding the same integer; outside
/// the range it gives the error of a failed integer conversion.
pub proof fn lemma_integers_read_in_range(t: Type, d: Datum)
    requires
        is_int_type(t),
        d.value matches SchemeValue::Number(n) && n.int is Some,
    ensures
        ({
            let i = d.value->Number_0.int.unwrap() as int;
            let r = primitive_of(t, d);
            &&& r is Ok <==> type_bounds(t).0 <= i <= type_bounds(t).1
            &&& r matches Ok(v) ==> integer_of(v, t) == Some(i)
            &&& r is Err ==> r == Err::<TypedValueView, ErrorView>(ErrorView::Data(out_of_range_message()))
        }),
{
    let i = d.value->Number_0.int.unwrap();
    assert(int_fits(t, i) ==> (int_value(t, i) == match t {
        Type::U8 => TypedValueView::U8(i as u8),
        Type::U16 => TypedValueView::U16(i as u16),
        Type::U32 => TypedValueView::U32(i as u32),
        Type::U64 => TypedValueView::U64(i as u64),
        Type::I8 => TypedValueView::I8(i as i8),
        Type::I16 => TypedValueView::I16(i as i16),
        Type::I32 => TypedValueView::I32(i as i32),
        _ => TypedValueView::I64(i),
    }));
}

/// Reading a number into a floating-point type gives its nearest value of that type, a boolean
/// gives itself and a string gives its characters; any other datum is refused.
pub proof fn lemma_other_primitives_read(t: Type, d: Datum)
    ensures
        t is F32 ==> (d.value matches SchemeValue::Number(n) ==> primitive_of(t, d) == Ok::<TypedValueView, ErrorView>(
            TypedValueView::F32(n.f32_bits),
        )) && (!(d.value is Number) ==> primitive_of(t, d) is Err),
        t is F64 ==> (d.value matches SchemeValue::Number(n) ==> primitive_of(t, d) == Ok::<TypedValueView, ErrorView>(
            TypedValueView::F64(n.f64_bits),
        )) && (!(d.value is Number) ==> primitive_of(t, d) is Err),
        t is Bool ==> (d.value matches SchemeValue::Bool(b) ==> primitive_of(t, d) == Ok::<TypedValueView, ErrorView>(
            TypedValueView::Bool(b),
        )) && (!(d.value is Bool) ==> primitive_of(t, d) is Err),
        t is String ==> (d.value matches SchemeValue::Str(x) ==> primitive_of(t, d) == Ok::<TypedValueView, ErrorView>(
            TypedValueView::String(x@),
        )) && (!(d.value is Str) ==> primitive_of(t, d) is Err),
        (t is Tuple || t is Vec || t is NodeList) ==> primitive_of(t, d) is Err,
{
}

/// Whether `out` is what reading a value of type `t` from `d` gives.
pub open spec fn value_result(out: Result<TypedValue, SkyliteProcError>, r: Result<TypedValueView, ErrorView>) -> bool {
    match out {
        Ok(v) => r == Ok::<TypedValueView, ErrorView>(v@),
        Err(e) => r == Err::<TypedValueView, ErrorView>(error_view(e)),
    }
}

fn expected(what: &str, d: &Datum) -> (out: SkyliteProcError)
    ensures
        error_view(out) == expected_error(what@, *d),
{
    proof {
        reveal_strlit("Expected ");
        reveal_strlit(", found ");
    }
    SkyliteProcError::DataError(String::from_str("Expected ").concat(what).concat(", found ").concat(d.written.as_str()))
}

fn out_of_range() -> (out: SkyliteProcError)
    ensures
        error_view(out) == ErrorView::Data(out_of_range_message()),
{
    proof {
        reveal_strlit("out of range integral type conversion attempted");
    }
    SkyliteProcError::DataError(String::from_str("out of range integral type conversion attempted"))
}

/// Reads a value of type `t` from `d`, for the types a field operation accepts.
pub fn primitive_from_scheme(t: &Type, d: &Datum) -> (out: Result<TypedValue, SkyliteProcError>)
    ensures
        value_result(out, primitive_of(*t, *d)),
{
    proof {
        reveal_strlit("integer");
        reveal_strlit("floating point numer");
        reveal_strlit("boolean");
        reveal_strlit("string");
        reveal_strlit("Type not supported for operation.");
    }
    match t {
        Type::U8 | Type::U16 | Type::U32 | Type::U64 | Type::I8 | Type::I16 | Type::I32 | Type::I64 => {
            let i = match &d.value {
                SchemeValue::Number(n) => match n.int {
                    Some(i) => i,
                    None => {
                        return Err(expected("integer", d));
                    },
                },
                _ => {
                    return Err(expected("integer", d));
                },
            };
            match t {
                Type::U8 => if 0 <= i && i <= 255 {
                    Ok(TypedValue::U8(i as u8))
                } else {
                    Err(out_of_range())
                },
                Type::U16 => if 0 <= i && i <= 65535 {
                    Ok(TypedValue::U16(i as u16))
                } else {
                    Err(out_of_range())
                },
                Type::U32 => if 0 <= i && i <= 0xffff_ffff {
                    Ok(TypedValue::U32(i as u32))
                } else {
                    Err(out_of_range())
                },
                Type::U64 => if 0 <= i {
                    Ok(TypedValue::U64(i as u64))
                } else {
                    Err(out_of_range())
                },
                Type::I8 => if -128 <= i && i <= 127 {
                    Ok(TypedValue::I8(i as i8))
                } else {
                    Err(out_of_range())
                },
                Type::I16 => if -32768 <= i && i <= 32767 {
                    Ok(TypedValue::I16(i as i16))
                } else {
                    Err(out_of_range())
                },
                Type::I32 => if -0x8000_0000 <= i && i <= 0x7fff_ffff {
                    Ok(TypedValue::I32(i as i32))
                } else {
                    Err(out_of_range())
                },
                _ => Ok(TypedValue::I64(i)),
            }
        },
        Type::F32 => match &d.value {
            SchemeValue::Number(n) => Ok(TypedValue::F32(n.f32_bits)),
            _ => Err(expected("floating point numer", d)),
        },
        Type::F64 => match &d.value {
            SchemeValue::Number(n) => Ok(TypedValue::F64(n.f64_bits)),
            _ => Err(expected("floating point numer", d)),
        },
        Type::Bool => match &d.value {
            SchemeValue::Bool(b) => Ok(TypedValue::Bool(*b)),
            _ => Err(expected("boolean", d)),
        },
        Type::String => match &d.value {
            SchemeValue::Str(s) => Ok(TypedValue::String(s.clone())),
            _ => Err(expected("string", d)),
        },
        _ => Err(SkyliteProcError::DataError(String::from_str("Type not supported for operation."))),
    }
}

/// The id of the node list named `name`, the first entry of that name.
pub open spec fn node_list_id(lists: Seq<NodeListEntry>, name: Seq<char>) -> Option<usize>
    decreases lists.len(),
{
    if lists.len() == 0 {
        None
    } else if lists[0].name@ == name {
        Some(lists[0].id)
    } else {
        node_list_id(lists.drop_first(), name)
    }
}

/// Whether every tuple type in `t` meets a list in `d`: the interpreter cannot take the length
/// of anything else, and raises an exception.
pub open spec fn tuples_on_lists(t: Type, d: Datum) -> bool
    decreases d,
{
    match t {
        Type::Tuple(ts) => match d.value {
            SchemeValue::List(v) => ts@.len() == v@.len() ==> forall|i: int|
                0 <= i < v@.len() ==> tuples_on_lists(ts@[i], #[trigger] v@[i]),
            _ => false,
        },
        Type::Vec(item) => match d.value {
            SchemeValue::List(v) => forall|i: int| 0 <= i < v@.len() ==> tuples_on_lists(*item, #[trigger] v@[i]),
            _ => true,
        },
        _ => true,
    }
}

/// The value of type `t` that `d` gives: for a vector type, a list of values of its item
/// type; for a tuple type, a list with one value of each of its types; for a node list, the
/// id of the node list the symbol names; otherwise as `primitive_of`.
pub open spec fn value_of(t: Type, d: Datum, lists: Seq<NodeListEntry>) -> Result<TypedValueView, ErrorView>
    decreases d, 0nat,
{
    match t {
        Type::Vec(item) => match d.value {
            SchemeValue::List(v) => match values_of(*item, v@, lists) {
                Ok(s) => Ok(TypedValueView::Vec(s)),
                Err(e) => Err(e),
            },
            _ => Err(ErrorView::Data("Not a list: "@ + d.written@)),
        },
        Type::Tuple(ts) => match d.value {
            SchemeValue::List(v) => if ts@.len() != v@.len() {
                Err(ErrorView::Data("Tuple definition has differing number of types and values."@))
            } else {
                match tuple_of(ts@, v@, lists) {
                    Ok(s) => Ok(TypedValueView::Tuple(s)),
                    Err(e) => Err(e),
                }
            },
            _ => Err(ErrorView::Data("Not a list: "@ + d.written@)),
        },
        Type::NodeList => match d.value {
            SchemeValue::Symbol(name) => match node_list_id(lists, name@) {
                Some(id) => Ok(TypedValueView::NodeList(id)),
                None => Err(ErrorView::Data("Node list not found: "@ + name@)),
            },
            _ => Err(expected_error("symbol"@, d)),
        },
        _ => primitive_of(t, d),
    }
}

/// The values of type `t` that the data `ds` give, or the error of the first that gives none.
pub open spec fn values_of(t: Type, ds: Seq<Datum>, lists: Seq<NodeListEntry>) -> Result<Seq<TypedValueView>, ErrorView>
    decreases ds, 1nat,
{
    if ds.len() == 0 {
        Ok(seq![])
    } else {
        match values_of(t, ds.drop_last(), lists) {
            Err(e) => Err(e),
            Ok(s) => match value_of(t, ds.last(), lists) {
                Ok(v) => Ok(s.push(v)),
                Err(e) => Err(e),
            },
        }
    }
}

/// The values of the types `ts` that the data `ds` give, one by one, or the error of the first
/// that gives none.
pub open spec fn tuple_of(ts: Seq<Type>, ds: Seq<Datum>, lists: Seq<NodeListEntry>) -> Result<Seq<TypedValueView>, ErrorView>
    decreases ds, 1nat,
{
    if ds.len() == 0 || ts.len() == 0 {
        Ok(seq![])
    } else {
        match tuple_of(ts.drop_last(), ds.drop_last(), lists) {
            Err(e) => Err(e),
            Ok(s) => match value_of(ts.last(), ds.last(), lists) {
                Ok(v) => Ok(s.push(v)),
                Err(e) => Err(e),
            },
        }
    }
}

/// Once the values of a prefix of the data give an error, so do those of all the data.
proof fn lemma_values_error(t: Type, ds: Seq<Datum>, lists: Seq<NodeListEntry>, k: nat)
    requires
        k <= ds.len(),
        values_of(t, ds.take(k as int), lists) is Err,
    ensures
        values_of(t, ds, lists) == values_of(t, ds.take(k as int), lists),
    decreases ds.len() - k,
{
    if k < ds.len() {
        assert(ds.take(k as int + 1).drop_last() =~= ds.take(k as int));
        lemma_values_error(t, ds, lists, k + 1);
    } else {
        assert(ds.take(k as int) =~= ds);
    }
}

proof fn lemma_tuple_error(ts: Seq<Type>, ds: Seq<Datum>, lists: Seq<NodeListEntry>, k: nat)
    requires
        k <= ds.len(),
        ts.len() == ds.len(),
        tuple_of(ts.take(k as int), ds.take(k as int), lists) is Err,
    ensures
        tuple_of(ts, ds, lists) == tuple_of(ts.take(k as int), ds.take(k as int), lists),
    decreases ds.len() - k,
{
    if k < ds.len() {
        assert(ds.take(k as int + 1).drop_last() =~= ds.take(k as int));
        assert(ts.take(k as int + 1).drop_last() =~= ts.take(k as int));
        lemma_tuple_error(ts, ds, lists, k + 1);
    } else {
        assert(ds.take(k as int) =~= ds);
        assert(ts.take(k as int) =~= ts);
    }
}

fn find_node_list(lists: &[NodeListEntry], name: &String) -> (out: Option<usize>)
    ensures
        out == node_list_id(lists@, name@),
{
    let mut i: usize = 0;
    proof {
        assert(lists@.skip(0) =~= lists@);
    }
    while i < lists.len()
        invariant
            i <= lists@.len(),
            node_list_id(lists@, name@) == node_list_id(lists@.skip(i as int), name@),
        decreases lists@.len() - i,
    {
        proof {
            assert(lists@.skip(i as int).drop_first() =~= lists@.skip(i + 1));
            assert(lists@.skip(i as int)[0] == lists@[i as int]);
        }
        if lists[i].name == *name {
            return Some(lists[i].id);
        }
        i = i + 1;
    }
    None
}

/// Reads a value of type `t` from `d`, as `value_of` says.
pub fn value_from_scheme(t: &Type, d: &Datum, lists: &[NodeListEntry]) -> (out: Result<TypedValue, SkyliteProcError>)
    requires
        tuples_on_lists(*t, *d),
    ensures
        value_result(out, value_of(*t, *d, lists@)),
    decreases *d, 0nat,
{
    proof {
        reveal_strlit("Not a list: ");
        reveal_strlit("Tuple definition has differing number of types and values.");
        reveal_strlit("Node list not found: ");
        reveal_strlit("symbol");
    }
    match t {
        Type::Vec(item) => match &d.value {
            SchemeValue::List(v) => {
                let mut out: Vec<TypedValue> = Vec::new();
                let mut i: usize = 0;
                while i < v.len()
                    invariant
                        i <= v@.len(),
                        d.value == SchemeValue::List(*v),
                        *t == Type::Vec(*item),
                        forall|k: int| 0 <= k < v@.len() ==> tuples_on_lists(**item, #[trigger] v@[k]),
                        values_of(**item, v@.take(i as int), lists@) == Ok::<Seq<TypedValueView>, ErrorView>(
                            crate::sequence_ir::values_view(out@),
                        ),
                    decreases v@.len() - i,
                {
                    proof {
                        assert(v@.take(i + 1).drop_last() =~= v@.take(i as int));
                        assert(v@.take(i + 1).last() == v@[i as int]);
                    }
                    let r = value_from_scheme(item, &v[i], lists);
                    match r {
                        Ok(x) => {
                            let ghost before = out@;
                            out.push(x);
                            proof {
                                assert(out@.drop_last() =~= before);
                            }
                        },
                        Err(e) => {
                            proof {
                                assert(values_of(**item, v@.take(i + 1), lists@) == Err::<Seq<TypedValueView>, ErrorView>(
                                    error_view(e),
                                ));
                                lemma_values_error(**item, v@, lists@, (i + 1) as nat);
                            }
                            return Err(e);
                        },
                    }
                    i = i + 1;
                }
                proof {
                    assert(v@.take(i as int) =~= v@);
                }
                Ok(TypedValue::Vec(out))
            },
            _ => Err(SkyliteProcError::DataError(String::from_str("Not a list: ").concat(d.written.as_str()))),
        },
        Type::Tuple(ts) => match &d.value {
            SchemeValue::List(v) => {
                if ts.len() != v.len() {
                    return Err(
                        SkyliteProcError::DataError(
                            String::from_str("Tuple definition has differing number of types and values."),
                        ),
                    );
                }
                let mut out: Vec<TypedValue> = Vec::new();
                let mut i: usize = 0;
                while i < v.len()
                    invariant
                        i <= v@.len(),
                        ts@.len() == v@.len(),
                        d.value == SchemeValue::List(*v),
                        *t == Type::Tuple(*ts),
                        forall|k: int| 0 <= k < v@.len() ==> tuples_on_lists(ts@[k], #[trigger] v@[k]),
                        tuple_of(ts@.take(i as int), v@.take(i as int), lists@) == Ok::<Seq<TypedValueView>, ErrorView>(
                            crate::sequence_ir::values_view(out@),
                        ),
                    decreases v@.len() - i,
                {
                    proof {
                        assert(v@.take(i + 1).drop_last() =~= v@.take(i as int));
                        assert(v@.take(i + 1).last() == v@[i as int]);
                        assert(ts@.take(i + 1).drop_last() =~= ts@.take(i as int));
                        assert(ts@.take(i + 1).last() == ts@[i as int]);
                    }
                    let r = value_from_scheme(&ts[i], &v[i], lists);
                    match r {
                        Ok(x) => {
                            let ghost before = out@;
                            out.push(x);
                            proof {
                                assert(out@.drop_last() =~= before);
                            }
                        },
                        Err(e) => {
                            proof {
                                assert(tuple_of(ts@.take(i + 1), v@.take(i + 1), lists@) == Err::<
                                    Seq<TypedValueView>,
                                    ErrorView,
                                >(error_view(e)));
                                lemma_tuple_error(ts@, v@, lists@, (i + 1) as nat);
                            }
                            return Err(e);
                        },
                    }
                    i = i + 1;
                }
                proof {
                    assert(v@.take(i as int) =~= v@);
                    assert(ts@.take(i as int) =~= ts@);
                }
                Ok(TypedValue::Tuple(out))
            },
            _ => Err(SkyliteProcError::DataError(String::from_str("Not a list: ").concat(d.written.as_str()))),
        },
        Type::NodeList => match &d.value {
            SchemeValue::Symbol(name) => match find_node_list(lists, name) {
                Some(id) => Ok(TypedValue::NodeList(id)),
                None => Err(SkyliteProcError::DataError(String::from_str("Node list not found: ").concat(name.as_str()))),
            },
            _ => Err(expected("symbol", d)),
        },
        _ => primitive_from_scheme(t, d),
    }
}

/// The position of the first entry for the field path `path`.
pub open spec fn field_index(fields: Seq<FieldEntry>, path: Seq<char>) -> Option<int>
    decreases fields.len(),
{
    if fields.len() == 0 {
        None
    } else if fields.last().path@ == path && !(field_index(fields.drop_last(), path) is Some) {
        Some(fields.len() - 1)
    } else {
        field_index(fields.drop_last(), path)
    }
}

/// What resolving the field path `path` gave.
pub open spec fn resolved(fields: Seq<FieldEntry>, path: Seq<char>) -> Result<Field, ErrorView> {
    match fields[field_index(fields, path).unwrap()].field {
        Ok(f) => Ok(f),
        Err(e) => Err(error_view(e)),
    }
}

/// The symbol `d` holds, or the error for a datum that is no symbol.
pub open spec fn symbol_of(d: Datum) -> Result<Seq<char>, ErrorView> {
    match d.value {
        SchemeValue::Symbol(s) => Ok(s@),
        _ => Err(expected_error("symbol"@, d)),
    }
}

/// The error for a form of `len` items that should have `num` arguments, if it has not.
pub open spec fn args_error(len: nat, num: nat, context: Seq<char>) -> Option<ErrorView> {
    if len - 1 != num {
        Some(
            ErrorView::Syntax(
                context + ": expected "@ + decimal(num) + " arguments, got "@ + decimal((len - 1) as nat),
            ),
        )
    } else {
        None
    }
}

/// A branch condition, with its value taken by its view.
pub enum ConditionView {
    IfTrue(Field),
    IfFalse(Field),
    Equals(Field, TypedValueView),
    NotEquals(Field, TypedValueView),
    LessThan(Field, TypedValueView),
    GreaterThan(Field, TypedValueView),
    LessEquals(Field, TypedValueView),
    GreaterEquals(Field, TypedValueView),
}

pub open spec fn condition_view(c: BranchCondition) -> ConditionView {
    match c {
        BranchCondition::IfTrue(f) => ConditionView::IfTrue(f),
        BranchCondition::IfFalse(f) => ConditionView::IfFalse(f),
        BranchCondition::Equals(f, v) => ConditionView::Equals(f, v@),
        BranchCondition::NotEquals(f, v) => ConditionView::NotEquals(f, v@),
        BranchCondition::LessThan(f, v) => ConditionView::LessThan(f, v@),
        BranchCondition::GreaterThan(f, v) => ConditionView::GreaterThan(f, v@),
        BranchCondition::LessEquals(f, v) => ConditionView::LessEquals(f, v@),
        BranchCondition::GreaterEquals(f, v) => ConditionView::GreaterEquals(f, v@),
    }
}

/// The condition on the boolean field `path`, true or false.
pub open spec fn bool_condition(fields: Seq<FieldEntry>, path: Seq<char>, negate: bool) -> Result<ConditionView, ErrorView> {
    match resolved(fields, path) {
        Err(e) => Err(e),
        Ok(f) => if f.typename is Bool {
            Ok(
                if negate {
                    ConditionView::IfFalse(f)
                } else {
                    ConditionView::IfTrue(f)
                },
            )
        } else {
            Err(ErrorView::Data("Expected bool for branch condition."@))
        },
    }
}

/// The comparison of kind `kind` (equals, not equals, less, greater, less or equal, greater
/// or equal) of the field and value in `items`.
pub open spec fn make_comparison(kind: nat, f: Field, v: TypedValueView) -> ConditionView {
    if kind == 0 {
        ConditionView::Equals(f, v)
    } else if kind == 1 {
        ConditionView::NotEquals(f, v)
    } else if kind == 2 {
        ConditionView::LessThan(f, v)
    } else if kind == 3 {
        ConditionView::GreaterThan(f, v)
    } else if kind == 4 {
        ConditionView::LessEquals(f, v)
    } else {
        ConditionView::GreaterEquals(f, v)
    }
}

/// The context named in the error of a comparison with the wrong number of arguments.
pub open spec fn comparison_context(kind: nat) -> Seq<char> {
    if kind == 0 {
        "branch if equals (=)"@
    } else if kind == 1 {
        "branch if not equals (!=)"@
    } else if kind == 2 {
        "branch if less than (<)"@
    } else if kind == 3 {
        "branch if greater than (>)"@
    } else if kind == 4 {
        "branch if less or equals (<=)"@
    } else {
        "branch if greater or equals (>=)"@
    }
}

/// The comparison condition of kind `kind` in `items`: two arguments, a field and a value of
/// its type (a numeric one for the order comparisons).
pub open spec fn comparison_condition(items: Seq<Datum>, fields: Seq<FieldEntry>, kind: nat) -> Result<ConditionView, ErrorView> {
    match args_error(items.len(), 2, comparison_context(kind)) {
        Some(e) => Err(e),
        None => match symbol_of(items[1]) {
            Err(e) => Err(e),
            Ok(p) => match resolved(fields, p) {
                Err(e) => Err(e),
                Ok(f) => if kind >= 2 && !is_numeric(f.typename) {
                    Err(ErrorView::Data("Expected numeric type"@))
                } else {
                    match primitive_of(f.typename, items[2]) {
                        Err(e) => Err(e),
                        Ok(v) => Ok(make_comparison(kind, f, v)),
                    }
                },
            },
        },
    }
}

/// The kind of comparison an operator names.
pub open spec fn comparison_kind(op: Seq<char>) -> Option<nat> {
    if op == "="@ || op == "=="@ {
        Some(0)
    } else if op == "!="@ {
        Some(1)
    } else if op == "<"@ {
        Some(2)
    } else if op == ">"@ {
        Some(3)
    } else if op == "<="@ {
        Some(4)
    } else if op == ">="@ {
        Some(5)
    } else {
        None
    }
}

/// The branch condition `def` describes: a symbol names a boolean field that must be true;
/// `(! field)` one that must be false; `(op field value)` compares a field with a value; a
/// list of a single symbol names a boolean field that must be true.
pub open spec fn branch_condition_of(def: Datum, fields: Seq<FieldEntry>) -> Result<ConditionView, ErrorView> {
    match def.value {
        SchemeValue::Symbol(s) => bool_condition(fields, s@, false),
        SchemeValue::List(v) => {
            let items = v@;
            match symbol_of(items[0]) {
                Err(e) => Err(e),
                Ok(op) => if op == "!"@ {
                    match args_error(items.len(), 1, "branch if false"@) {
                        Some(e) => Err(e),
                        None => match symbol_of(items[1]) {
                            Err(e) => Err(e),
                            Ok(p) => bool_condition(fields, p, true),
                        },
                    }
                } else {
                    match comparison_kind(op) {
                        Some(kind) => comparison_condition(items, fields, kind),
                        None => if items.len() == 1 {
                            bool_condition(fields, op, false)
                        } else {
                            Err(ErrorView::Syntax("Unknown operator "@ + op))
                        },
                    }
                },
            }
        },
        _ => Err(ErrorView::Data("Not a list: "@ + def.written@)),
    }
}

/// The field path that reading the condition `def` resolves, if it gets that far.
pub open spec fn condition_path(def: Datum) -> Option<Seq<char>> {
    match def.value {
        SchemeValue::Symbol(s) => Some(s@),
        SchemeValue::List(v) => {
            let items = v@;
            match symbol_of(items[0]) {
                Err(_) => None,
                Ok(op) => if op == "!"@ {
                    if items.len() == 2 {
                        match symbol_of(items[1]) {
                            Ok(p) => Some(p),
                            Err(_) => None,
                        }
                    } else {
                        None
                    }
                } else if comparison_kind(op) is Some {
                    if items.len() == 3 {
                        match symbol_of(items[1]) {
                            Ok(p) => Some(p),
                            Err(_) => None,
                        }
                    } else {
                        None
                    }
                } else if items.len() == 1 {
                    Some(op)
                } else {
                    None
                }
            }
        },
        _ => None,
    }
}

/// Whether the condition `def` can be read: it is no empty list (whose first item the reader
/// takes), and the field it names was resolved.
pub open spec fn condition_ready(def: Datum, fields: Seq<FieldEntry>) -> bool {
    &&& def.value matches SchemeValue::List(v) ==> v@.len() > 0
    &&& condition_path(def) matches Some(p) ==> field_index(fields, p) is Some
}

fn symbol_from(d: &Datum) -> (out: Result<String, SkyliteProcError>)
    ensures
        match out {
            Ok(s) => symbol_of(*d) == Ok::<Seq<char>, ErrorView>(s@),
            Err(e) => symbol_of(*d) == Err::<Seq<char>, ErrorView>(error_view(e)),
        },
{
    proof {
        reveal_strlit("symbol");
    }
    match &d.value {
        SchemeValue::Symbol(s) => Ok(s.clone()),
        _ => Err(expected("symbol", d)),
    }
}

fn check_args(len: usize, num: usize, context: &str) -> (out: Result<(), SkyliteProcError>)
    requires
        len >= 1,
    ensures
        match out {
            Ok(()) => args_error(len as nat, num as nat, context@) is None,
            Err(e) => args_error(len as nat, num as nat, context@) == Some(error_view(e)),
        },
{
    if len - 1 != num {
        proof {
            reveal_strlit(": expected ");
            reveal_strlit(" arguments, got ");
        }
        Err(
            SkyliteProcError::SyntaxError(
                String::from_str(context).concat(": expected ").concat(decimal_string(num).as_str()).concat(
                    " arguments, got ",
                ).concat(decimal_string(len - 1).as_str()),
            ),
        )
    } else {
        Ok(())
    }
}

/// Takes the resolution of the field path `path` out of `fields`.
fn take_field(fields: &mut Vec<FieldEntry>, path: &String) -> (out: Result<Field, SkyliteProcError>)
    requires
        field_index(old(fields)@, path@) is Some,
    ensures
        out == old(fields)@[field_index(old(fields)@, path@).unwrap()].field,
{
    let ghost fs = fields@;
    let mut i: usize = 0;
    while i < fields.len()
        invariant
            i <= fields@.len(),
            fields@ == fs,
            fs == old(fields)@,
            field_index(fs, path@) is Some,
            field_index(fs.take(i as int), path@) is None,
        decreases fields@.len() - i,
    {
        proof {
            assert(fs.take(i + 1).drop_last() =~= fs.take(i as int));
            lemma_field_index_prefix(fs, path@, (i + 1) as nat);
        }
        if fields[i].path == *path {
            proof {
                assert(fs.take(i + 1).last() == fs[i as int]);
                assert(field_index(fs.take(i + 1), path@) == Some(i as int));
            }
            let entry = fields.remove(i);
            return entry.field;
        }
        i = i + 1;
    }
    proof {
        lemma_field_index_prefix(fs, path@, fs.len());
        assert(fs.take(fs.len() as int) =~= fs);
    }
    Err(SkyliteProcError::OtherError(String::new()))
}

/// The first entry of a path in a prefix is its first entry in the whole table.
proof fn lemma_field_index_prefix(fs: Seq<FieldEntry>, path: Seq<char>, k: nat)
    requires
        k <= fs.len(),
    ensures
        field_index(fs.take(k as int), path) is Some ==> field_index(fs, path) == field_index(fs.take(k as int), path),
        field_index(fs.take(k as int), path) is None ==> (field_index(fs, path) is Some ==> field_index(fs, path).unwrap() >= k),
    decreases fs.len() - k,
{
    if k < fs.len() {
        assert(fs.take(k as int + 1).drop_last() =~= fs.take(k as int));
        lemma_field_index_prefix(fs, path, k + 1);
    } else {
        assert(fs.take(k as int) =~= fs);
    }
}

/// Whether `out` is what `r` describes.
pub open spec fn condition_result(out: Result<BranchCondition, SkyliteProcError>, r: Result<ConditionView, ErrorView>) -> bool {
    match out {
        Ok(c) => r == Ok::<ConditionView, ErrorView>(condition_view(c)),
        Err(e) => r == Err::<ConditionView, ErrorView>(error_view(e)),
    }
}

fn is_text(s: &String, lit: &str) -> (out: bool)
    ensures
        out == (s@ == lit@),
{
    let t = String::from_str(lit);
    *s == t
}

fn bool_condition_from(fields: &mut Vec<FieldEntry>, path: &String, negate: bool) -> (out: Result<BranchCondition, SkyliteProcError>)
    requires
        field_index(old(fields)@, path@) is Some,
    ensures
        condition_result(out, bool_condition(old(fields)@, path@, negate)),
{
    proof {
        reveal_strlit("Expected bool for branch condition.");
    }
    let field = take_field(fields, path)?;
    match field.typename {
        Type::Bool => Ok(
            if negate {
                BranchCondition::IfFalse(field)
            } else {
                BranchCondition::IfTrue(field)
            },
        ),
        _ => Err(SkyliteProcError::DataError(String::from_str("Expected bool for branch condition."))),
    }
}

fn comparison_from(items: &Vec<Datum>, fields: &mut Vec<FieldEntry>, kind: u8) -> (out: Result<BranchCondition, SkyliteProcError>)
    requires
        items@.len() >= 1,
        kind <= 5,
        items@.len() == 3 ==> (symbol_of(items@[1]) matches Ok(p) ==> field_index(old(fields)@, p) is Some),
    ensures
        condition_result(out, comparison_condition(items@, old(fields)@, kind as nat)),
{
    proof {
        reveal_strlit("branch if equals (=)");
        reveal_strlit("branch if not equals (!=)");
        reveal_strlit("branch if less than (<)");
        reveal_strlit("branch if greater than (>)");
        reveal_strlit("branch if less or equals (<=)");
        reveal_strlit("branch if greater or equals (>=)");
    }
    let context = if kind == 0 {
        "branch if equals (=)"
    } else if kind == 1 {
        "branch if not equals (!=)"
    } else if kind == 2 {
        "branch if less than (<)"
    } else if kind == 3 {
        "branch if greater than (>)"
    } else if kind == 4 {
        "branch if less or equals (<=)"
    } else {
        "branch if greater or equals (>=)"
    };
    check_args(items.len(), 2, context)?;
    let path = symbol_from(&items[1])?;
    let field = take_field(fields, &path)?;
    if kind >= 2 {
        expect_numeric_type(&field.typename)?;
    }
    let value = primitive_from_scheme(&field.typename, &items[2])?;
    Ok(
        if kind == 0 {
            BranchCondition::Equals(field, value)
        } else if kind == 1 {
            BranchCondition::NotEquals(field, value)
        } else if kind == 2 {
            BranchCondition::LessThan(field, value)
        } else if kind == 3 {
            BranchCondition::GreaterThan(field, value)
        } else if kind == 4 {
            BranchCondition::LessEquals(field, value)
        } else {
            BranchCondition::GreaterEquals(field, value)
        },
    )
}

fn condition_from(def: &Datum, fields: &mut Vec<FieldEntry>) -> (out: Result<BranchCondition, SkyliteProcError>)
    requires
        condition_ready(*def, old(fields)@),
    ensures
        condition_result(out, branch_condition_of(*def, old(fields)@)),
{
    proof {
        reveal_strlit("!");
        reveal_strlit("=");
        reveal_strlit("==");
        reveal_strlit("!=");
        reveal_strlit("<");
        reveal_strlit(">");
        reveal_strlit("<=");
        reveal_strlit(">=");
        reveal_strlit("Not a list: ");
        reveal_strlit("branch if false");
        reveal_strlit("Unknown operator ");
    }
    match &def.value {
        SchemeValue::Symbol(s) => bool_condition_from(fields, s, false),
        SchemeValue::List(v) => {
            let op = symbol_from(&v[0])?;
            if is_text(&op, "!") {
                check_args(v.len(), 1, "branch if false")?;
                let path = symbol_from(&v[1])?;
                bool_condition_from(fields, &path, true)
            } else if is_text(&op, "=") || is_text(&op, "==") {
                comparison_from(v, fields, 0)
            } else if is_text(&op, "!=") {
                comparison_from(v, fields, 1)
            } else if is_text(&op, "<") {
                comparison_from(v, fields, 2)
            } else if is_text(&op, ">") {
                comparison_from(v, fields, 3)
            } else if is_text(&op, "<=") {
                comparison_from(v, fields, 4)
            } else if is_text(&op, ">=") {
                comparison_from(v, fields, 5)
            } else if v.len() == 1 {
                bool_condition_from(fields, &op, false)
            } else {
                Err(SkyliteProcError::SyntaxError(String::from_str("Unknown operator ").concat(op.as_str())))
            }
        },
        _ => Err(SkyliteProcError::DataError(String::from_str("Not a list: ").concat(def.written.as_str()))),
    }
}

/// Reads a branch condition from its Scheme datum, with the resolutions of the field paths it
/// may name.
pub fn branch_condition_from_scheme(def: &Datum, fields: Vec<FieldEntry>) -> (out: Result<BranchCondition, SkyliteProcError>)
    requires
        condition_ready(*def, fields@),
    ensures
        condition_result(out, branch_condition_of(*def, fields@)),
{
    let mut fields = fields;
    condition_from(def, &mut fields)
}

/// An operation of a script, with its values taken by their views.
pub enum InputOpView {
    SetValue { field: Field, val: TypedValueView },
    Modify { field: Field, delta: TypedValueView },
    Branch { condition: ConditionView, label: Seq<char> },
    Jump { label: Seq<char> },
    CallSub { sub: Seq<char> },
    Return,
    Wait { updates: u16 },
    RunCustom { id: Seq<char> },
    BranchCustom { id: Seq<char>, label: Seq<char> },
}

pub open spec fn input_op_view(op: InputOp) -> InputOpView {
    match op {
        InputOp::SetValue { field, val } => InputOpView::SetValue { field, val: val@ },
        InputOp::Modify { field, delta } => InputOpView::Modify { field, delta: delta@ },
        InputOp::Branch { condition, label } => InputOpView::Branch { condition: condition_view(condition), label: label@ },
        InputOp::Jump { label } => InputOpView::Jump { label: label@ },
        InputOp::CallSub { sub } => InputOpView::CallSub { sub: sub@ },
        InputOp::Return => InputOpView::Return,
        InputOp::Wait { updates } => InputOpView::Wait { updates },
        InputOp::RunCustom { id } => InputOpView::RunCustom { id: id@ },
        InputOp::BranchCustom { id, label } => InputOpView::BranchCustom { id: id@, label: label@ },
    }
}

/// An operation on the field named by the second item of `items`, with the third item read as
/// a value of the field's type by `value`.
pub open spec fn field_op_of(
    items: Seq<Datum>,
    fields: Seq<FieldEntry>,
    lists: Seq<NodeListEntry>,
    context: Seq<char>,
    set: bool,
) -> Result<InputOpView, ErrorView> {
    match args_error(items.len(), 2, context) {
        Some(e) => Err(e),
        None => match symbol_of(items[1]) {
            Err(e) => Err(e),
            Ok(p) => match resolved(fields, p) {
                Err(e) => Err(e),
                Ok(f) => if set {
                    match value_of(f.typename, items[2], lists) {
                        Err(e) => Err(e),
                        Ok(v) => Ok(InputOpView::SetValue { field: f, val: v }),
                    }
                } else {
                    match primitive_of(f.typename, items[2]) {
                        Err(e) => Err(e),
                        Ok(v) => Ok(InputOpView::Modify { field: f, delta: v }),
                    }
                },
            },
        },
    }
}

/// The symbol operands `k` of `items`, after checking for `num` arguments.
pub open spec fn symbol_arg(items: Seq<Datum>, num: nat, context: Seq<char>, k: int) -> Result<Seq<char>, ErrorView> {
    match args_error(items.len(), num, context) {
        Some(e) => Err(e),
        None => symbol_of(items[k]),
    }
}

/// The operation `def` describes: `(set field value)`, `(modify field delta)`,
/// `(branch condition label)`, `(jump label)`, `(call sub)`, `(return)`, `(wait updates)`,
/// `(run-custom name)` or `(branch-custom name label)`.
pub open spec fn input_op_of(def: Datum, fields: Seq<FieldEntry>, lists: Seq<NodeListEntry>) -> Result<InputOpView, ErrorView> {
    match def.value {
        SchemeValue::List(v) => {
            let items = v@;
            if items.len() == 0 {
                Err(ErrorView::Syntax("Expected sequence directive, got empty list"@))
            } else {
                match symbol_of(items[0]) {
                    Err(e) => Err(e),
                    Ok(m) => if m == "set"@ {
                        field_op_of(items, fields, lists, "set"@, true)
                    } else if m == "modify"@ {
                        field_op_of(items, fields, lists, "modify"@, false)
                    } else if m == "branch"@ {
                        match args_error(items.len(), 2, "branch"@) {
                            Some(e) => Err(e),
                            None => match branch_condition_of(items[1], fields) {
                                Err(e) => Err(e),
                                Ok(c) => match symbol_of(items[2]) {
                                    Err(e) => Err(e),
                                    Ok(l) => Ok(InputOpView::Branch { condition: c, label: l }),
                                },
                            },
                        }
                    } else if m == "jump"@ {
                        match symbol_arg(items, 1, "jump"@, 1) {
                            Err(e) => Err(e),
                            Ok(l) => Ok(InputOpView::Jump { label: l }),
                        }
                    } else if m == "call"@ {
                        match symbol_arg(items, 1, "call"@, 1) {
                            Err(e) => Err(e),
                            Ok(l) => Ok(InputOpView::CallSub { sub: l }),
                        }
                    } else if m == "return"@ {
                        match args_error(items.len(), 0, "return"@) {
                            Some(e) => Err(e),
                            None => Ok(InputOpView::Return),
                        }
                    } else if m == "wait"@ {
                        match args_error(items.len(), 1, "wait"@) {
                            Some(e) => Err(e),
                            None => match primitive_of(Type::U16, items[1]) {
                                Err(e) => Err(e),
                                Ok(TypedValueView::U16(u)) => Ok(InputOpView::Wait { updates: u }),
                                Ok(_) => Err(ErrorView::Other(seq![])),
                            },
                        }
                    } else if m == "run-custom"@ {
                        match symbol_arg(items, 1, "run-custom"@, 1) {
                            Err(e) => Err(e),
                            Ok(l) => Ok(InputOpView::RunCustom { id: l }),
                        }
                    } else if m == "branch-custom"@ {
                        match symbol_arg(items, 2, "branch-custom"@, 1) {
                            Err(e) => Err(e),
                            Ok(id) => match symbol_of(items[2]) {
                                Err(e) => Err(e),
                                Ok(l) => Ok(InputOpView::BranchCustom { id, label: l }),
                            },
                        }
                    } else {
                        Err(ErrorView::Syntax("Illegal sequence directive '"@ + m + "'"@))
                    },
                }
            }
        },
        _ => Err(ErrorView::Data("Not a list: "@ + def.written@)),
    }
}

/// Whether the operation `def` can be read: the field it names was resolved, a value set into
/// a field meets lists where the field's type has tuples, and a branch condition can be read.
pub open spec fn input_op_ready(def: Datum, fields: Seq<FieldEntry>) -> bool {
    def.value matches SchemeValue::List(v) ==> {
        let items = v@;
        items.len() == 3 ==> match symbol_of(items[0]) {
            Ok(m) => {
                &&& (m == "set"@ || m == "modify"@) ==> (symbol_of(items[1]) matches Ok(p) ==> field_index(fields, p) is Some)
                &&& m == "set"@ ==> (symbol_of(items[1]) matches Ok(p) ==> (resolved(fields, p) matches Ok(f)
                    ==> tuples_on_lists(f.typename, items[2])))
                &&& m == "branch"@ ==> condition_ready(items[1], fields)
            },
            Err(_) => true,
        }
    }
}

/// Whether `out` is what `r` describes.
pub open spec fn input_op_result(out: Result<InputOp, SkyliteProcError>, r: Result<InputOpView, ErrorView>) -> bool {
    match out {
        Ok(op) => r == Ok::<InputOpView, ErrorView>(input_op_view(op)),
        Err(e) => r == Err::<InputOpView, ErrorView>(error_view(e)),
    }
}

fn field_op_from(
    items: &Vec<Datum>,
    fields: &mut Vec<FieldEntry>,
    lists: &[NodeListEntry],
    context: &str,
    set: bool,
) -> (out: Result<InputOp, SkyliteProcError>)
    requires
        items@.len() >= 1,
        items@.len() == 3 ==> (symbol_of(items@[1]) matches Ok(p) ==> field_index(old(fields)@, p) is Some),
        set && items@.len() == 3 ==> (symbol_of(items@[1]) matches Ok(p) ==> (resolved(old(fields)@, p) matches Ok(f)
            ==> tuples_on_lists(f.typename, items@[2]))),
    ensures
        input_op_result(out, field_op_of(items@, old(fields)@, lists@, context@, set)),
{
    check_args(items.len(), 2, context)?;
    let path = symbol_from(&items[1])?;
    let field = take_field(fields, &path)?;
    if set {
        let val = value_from_scheme(&field.typename, &items[2], lists)?;
        Ok(InputOp::SetValue { field, val })
    } else {
        let delta = primitive_from_scheme(&field.typename, &items[2])?;
        Ok(InputOp::Modify { field, delta })
    }
}

/// Reads an operation of a sequence script from its Scheme datum, with the resolutions of the
/// field paths it may name and the node lists of the project.
pub fn input_op_from_scheme(def: &Datum, fields: Vec<FieldEntry>, lists: &[NodeListEntry]) -> (out: Result<
    InputOp,
    SkyliteProcError,
>)
    requires
        input_op_ready(*def, fields@),
    ensures
        input_op_result(out, input_op_of(*def, fields@, lists@)),
{
    proof {
        reveal_strlit("Not a list: ");
        reveal_strlit("Expected sequence directive, got empty list");
        reveal_strlit("set");
        reveal_strlit("modify");
        reveal_strlit("branch");
        reveal_strlit("jump");
        reveal_strlit("call");
        reveal_strlit("return");
        reveal_strlit("wait");
        reveal_strlit("run-custom");
        reveal_strlit("branch-custom");
        reveal_strlit("Illegal sequence directive '");
        reveal_strlit("'");
    }
    let mut fields = fields;
    let v = match &def.value {
        SchemeValue::List(v) => v,
        _ => {
            return Err(SkyliteProcError::DataError(String::from_str("Not a list: ").concat(def.written.as_str())));
        },
    };
    if v.len() == 0 {
        return Err(SkyliteProcError::SyntaxError(String::from_str("Expected sequence directive, got empty list")));
    }
    let m = symbol_from(&v[0])?;
    if is_text(&m, "set") {
        field_op_from(v, &mut fields, lists, "set", true)
    } else if is_text(&m, "modify") {
        field_op_from(v, &mut fields, lists, "modify", false)
    } else if is_text(&m, "branch") {
        check_args(v.len(), 2, "branch")?;
        let condition = condition_from(&v[1], &mut fields)?;
        let label = symbol_from(&v[2])?;
        Ok(InputOp::Branch { condition, label })
    } else if is_text(&m, "jump") {
        check_args(v.len(), 1, "jump")?;
        let label = symbol_from(&v[1])?;
        Ok(InputOp::Jump { label })
    } else if is_text(&m, "call") {
        check_args(v.len(), 1, "call")?;
        let sub = symbol_from(&v[1])?;
        Ok(InputOp::CallSub { sub })
    } else if is_text(&m, "return") {
        check_args(v.len(), 0, "return")?;
        Ok(InputOp::Return)
    } else if is_text(&m, "wait") {
        check_args(v.len(), 1, "wait")?;
        let updates = match primitive_from_scheme(&Type::U16, &v[1])? {
            TypedValue::U16(u) => u,
            _ => 0,
        };
        Ok(InputOp::Wait { updates })
    } else if is_text(&m, "run-custom") {
        check_args(v.len(), 1, "run-custom")?;
        let id = symbol_from(&v[1])?;
        Ok(InputOp::RunCustom { id })
    } else if is_text(&m, "branch-custom") {
        check_args(v.len(), 2, "branch-custom")?;
        let id = symbol_from(&v[1])?;
        let label = symbol_from(&v[2])?;
        Ok(InputOp::BranchCustom { id, label })
    } else {
        Err(
            SkyliteProcError::SyntaxError(
                String::from_str("Illegal sequence directive '").concat(m.as_str()).concat("'"),
            ),
        )
    }
}

} // verus!

//! The intermediate representation of sequence scripts.
//!
//! Each line of a script becomes one or more IR operations: an operation on a field is
//! preceded by one `PushOffset` for each segment of the field's path. The main script and each
//! subroutine end with a `Return` or a `Jump`, and subroutines are appended after the main
//! script under the label `sub-<name>`.
//!
//! Floating-point values are carried as their IEEE-754 bit patterns.
use vstd::prelude::*;
use vstd::string::StringExecFns;
use crate::assets::Comparison;
use crate::field_compare::int_comparison_holds;
use crate::ident_case::{change_case, convert_case, IdentCase};
use crate::script_labels::SkyliteProcError;

verus! {

broadcast use vstd::std_specs::vec::group_vec_axioms;

/// Type of a variable or parameter.
#[derive(Debug, PartialEq)]
pub enum Type {
    U8,
    U16,
    U32,
    U64,
    I8,
    I16,
    I32,
    I64,
    F32,
    F64,
    Bool,
    String,
    Tuple(Vec<Type>),
    Vec(Box<Type>),
    NodeList,
}

/// A data item combined with its type. `F32` and `F64` hold the bits of the number.
#[derive(Debug, PartialEq)]
pub enum TypedValue {
    U8(u8),
    U16(u16),
    U32(u32),
    U64(u64),
    I8(i8),
    I16(i16),
    I32(i32),
    I64(i64),
    F32(u32),
    F64(u64),
    Bool(bool),
    String(String),
    Tuple(Vec<TypedValue>),
    Vec(Vec<TypedValue>),
    NodeList(usize),
}

/// The mathematical form of a `TypedValue`.
pub enum TypedValueView {
    U8(u8),
    U16(u16),
    U32(u32),
    U64(u64),
    I8(i8),
    I16(i16),
    I32(i32),
    I64(i64),
    F32(u32),
    F64(u64),
    Bool(bool),
    String(Seq<char>),
    Tuple(Seq<TypedValueView>),
    Vec(Seq<TypedValueView>),
    NodeList(usize),
}

/// The mathematical form of `v`.
pub open spec fn value_view(v: TypedValue) -> TypedValueView
    decreases v, 0nat,
{
    match v {
        TypedValue::U8(x) => TypedValueView::U8(x),
        TypedValue::U16(x) => TypedValueView::U16(x),
        TypedValue::U32(x) => TypedValueView::U32(x),
        TypedValue::U64(x) => TypedValueView::U64(x),
        TypedValue::I8(x) => TypedValueView::I8(x),
        TypedValue::I16(x) => TypedValueView::I16(x),
        TypedValue::I32(x) => TypedValueView::I32(x),
        TypedValue::I64(x) => TypedValueView::I64(x),
        TypedValue::F32(x) => TypedValueView::F32(x),
        TypedValue::F64(x) => TypedValueView::F64(x),
        TypedValue::Bool(x) => TypedValueView::Bool(x),
        TypedValue::String(s) => TypedValueView::String(s@),
        TypedValue::Tuple(items) => TypedValueView::Tuple(values_view(items@)),
        TypedValue::Vec(items) => TypedValueView::Vec(values_view(items@)),
        TypedValue::NodeList(x) => TypedValueView::NodeList(x),
    }
}

/// The mathematical forms of the values of `s`.
pub open spec fn values_view(s: Seq<TypedValue>) -> Seq<TypedValueView>
    decreases s, 1nat,
{
    if s.len() == 0 {
        seq![]
    } else {
        values_view(s.drop_last()).push(value_view(s.last()))
    }
}

impl View for TypedValue {
    type V = TypedValueView;

    open spec fn view(&self) -> TypedValueView {
        value_view(*self)
    }
}

fn copy_value(v: &TypedValue) -> (out: TypedValue)
    ensures
        out@ == v@,
    decreases *v, 0nat,
{
    match v {
        TypedValue::U8(x) => TypedValue::U8(*x),
        TypedValue::U16(x) => TypedValue::U16(*x),
        TypedValue::U32(x) => TypedValue::U32(*x),
        TypedValue::U64(x) => TypedValue::U64(*x),
        TypedValue::I8(x) => TypedValue::I8(*x),
        TypedValue::I16(x) => TypedValue::I16(*x),
        TypedValue::I32(x) => TypedValue::I32(*x),
        TypedValue::I64(x) => TypedValue::I64(*x),
        TypedValue::F32(x) => TypedValue::F32(*x),
        TypedValue::F64(x) => TypedValue::F64(*x),
        TypedValue::Bool(x) => TypedValue::Bool(*x),
        TypedValue::String(s) => TypedValue::String(s.clone()),
        TypedValue::Tuple(items) => TypedValue::Tuple(copy_values(items)),
        TypedValue::Vec(items) => TypedValue::Vec(copy_values(items)),
        TypedValue::NodeList(x) => TypedValue::NodeList(*x),
    }
}

fn copy_values(items: &Vec<TypedValue>) -> (out: Vec<TypedValue>)
    ensures
        values_view(out@) == values_view(items@),
    decreases *items, 1nat,
{
    let mut out: Vec<TypedValue> = Vec::new();
    let mut i: usize = 0;
    while i < items.len()
        invariant
            i <= items@.len(),
            out@.len() == i,
            values_view(out@) == values_view(items@.take(i as int)),
        decreases items@.len() - i,
    {
        proof {
            assert(decreases_to!(*items => items@[i as int]));
        }
        let c = copy_value(&items[i]);
        let ghost prev = out@;
        out.push(c);
        proof {
            assert(out@.drop_last() =~= prev);
            assert(items@.take(i + 1).drop_last() =~= items@.take(i as int));
        }
        i = i + 1;
    }
    proof {
        assert(items@.take(items@.len() as int) =~= items@);
    }
    out
}

impl Clone for TypedValue {
    fn clone(&self) -> (out: Self)
        ensures
            out@ == self@,
    {
        copy_value(self)
    }
}


/// One segment of the path to a field: the node, and its property that holds the next node or
/// the field itself.
#[derive(Debug, PartialEq)]
pub struct FieldPathSegment(pub String, pub String);

/// A field used in an `InputOp`.
#[derive(Debug, PartialEq)]
pub struct Field {
    pub path: Vec<FieldPathSegment>,
    pub typename: Type,
}

/// Condition of a branch operation.
#[derive(Debug, PartialEq)]
pub enum BranchCondition {
    IfTrue(Field),
    IfFalse(Field),
    Equals(Field, TypedValue),
    NotEquals(Field, TypedValue),
    LessThan(Field, TypedValue),
    GreaterThan(Field, TypedValue),
    LessEquals(Field, TypedValue),
    GreaterEquals(Field, TypedValue),
}

/// An operation of a sequence script, as written.
#[derive(Debug, PartialEq)]
pub enum InputOp {
    /// Sets a field to the specified value.
    SetValue { field: Field, val: TypedValue },
    /// Adds a value to a numeric field.
    Modify { field: Field, delta: TypedValue },
    /// Jumps to a label when a condition is fulfilled.
    Branch { condition: BranchCondition, label: String },
    /// Unconditionally jump to a label.
    Jump { label: String },
    /// Call a subroutine of the sequence.
    CallSub { sub: String },
    /// Return from a subroutine.
    Return,
    /// Wait the given number of updates.
    Wait { updates: u16 },
    /// Call a custom function.
    RunCustom { id: String },
    /// Branch on the result of a custom function.
    BranchCustom { id: String, label: String },
}

/// A line of a script: an operation and its labels.
#[derive(Debug, PartialEq)]
pub struct InputLine {
    pub labels: Vec<String>,
    pub input_op: InputOp,
}

/// A sequence: the node it runs on, its subroutines by name, and its main script.
#[derive(Debug, PartialEq)]
pub struct Sequence {
    pub target_node_name: String,
    pub subs: Vec<(String, Vec<InputLine>)>,
    pub script: Vec<InputLine>,
}

/// An operation of the intermediate representation. Each one is compiled into one operation.
#[derive(Debug, PartialEq)]
pub enum OpIR {
    PushOffset(String, String),
    SetField { val: TypedValue },
    ModifyField { delta: TypedValue },
    Jump { label: String },
    CallSub { sub: String },
    Return,
    Wait { updates: u16 },
    BranchIfTrue { label: String },
    BranchIfFalse { label: String },
    BranchCmp { comparison: Comparison, rhs: TypedValue, label: String },
    RunCustom { id: String },
    BranchCustom { id: String, label: String },
}

/// A line of the intermediate representation.
#[derive(Debug, PartialEq)]
pub struct OpIRLine {
    pub labels: Vec<String>,
    pub op_ir: OpIR,
}

/// The mathematical form of an `OpIR`.
pub enum OpIRView {
    PushOffset(Seq<char>, Seq<char>),
    SetField(TypedValueView),
    ModifyField(TypedValueView),
    Jump(Seq<char>),
    CallSub(Seq<char>),
    Return,
    Wait(u16),
    BranchIfTrue(Seq<char>),
    BranchIfFalse(Seq<char>),
    BranchCmp(Comparison, TypedValueView, Seq<char>),
    RunCustom(Seq<char>),
    BranchCustom(Seq<char>, Seq<char>),
}

/// The mathematical form of an `OpIRLine`.
pub struct OpIRLineView {
    pub labels: Seq<Seq<char>>,
    pub op: OpIRView,
}

impl View for OpIR {
    type V = OpIRView;

    open spec fn view(&self) -> OpIRView {
        match *self {
            OpIR::PushOffset(node, property) => OpIRView::PushOffset(node@, property@),
            OpIR::SetField { val } => OpIRView::SetField(val@),
            OpIR::ModifyField { delta } => OpIRView::ModifyField(delta@),
            OpIR::Jump { label } => OpIRView::Jump(label@),
            OpIR::CallSub { sub } => OpIRView::CallSub(sub@),
            OpIR::Return => OpIRView::Return,
            OpIR::Wait { updates } => OpIRView::Wait(updates),
            OpIR::BranchIfTrue { label } => OpIRView::BranchIfTrue(label@),
            OpIR::BranchIfFalse { label } => OpIRView::BranchIfFalse(label@),
            OpIR::BranchCmp { comparison, rhs, label } => OpIRView::BranchCmp(comparison, rhs@, label@),
            OpIR::RunCustom { id } => OpIRView::RunCustom(id@),
            OpIR::BranchCustom { id, label } => OpIRView::BranchCustom(id@, label@),
        }
    }
}

/// The texts of `s`.
pub open spec fn strings_view(s: Seq<String>) -> Seq<Seq<char>> {
    s.map_values(|x: String| x@)
}

impl View for OpIRLine {
    type V = OpIRLineView;

    open spec fn view(&self) -> OpIRLineView {
        OpIRLineView { labels: strings_view(self.labels@), op: self.op_ir@ }
    }
}

/// The mathematical forms of the operations of `s`.
pub open spec fn ops_view(s: Seq<OpIR>) -> Seq<OpIRView> {
    s.map_values(|o: OpIR| o@)
}

/// The mathematical forms of the lines of `s`.
pub open spec fn lines_view(s: Seq<OpIRLine>) -> Seq<OpIRLineView> {
    s.map_values(|l: OpIRLine| l@)
}

/// The operation that adds the offset of one path segment: the node's type name and the
/// property's field name.
pub open spec fn segment_op(seg: FieldPathSegment) -> OpIRView {
    OpIRView::PushOffset(
        convert_case(IdentCase::UpperCamelCase, seg.0@),
        convert_case(IdentCase::LowerSnakeCase, seg.1@),
    )
}

/// The operations that select `field`.
pub open spec fn offset_ops(field: Field) -> Seq<OpIRView> {
    field.path@.map_values(|seg: FieldPathSegment| segment_op(seg))
}

/// The operations of a branch on `c` to `label`.
pub open spec fn condition_ops(c: BranchCondition, label: Seq<char>) -> Seq<OpIRView> {
    match c {
        BranchCondition::IfTrue(f) => offset_ops(f).push(OpIRView::BranchIfTrue(label)),
        BranchCondition::IfFalse(f) => offset_ops(f).push(OpIRView::BranchIfFalse(label)),
        BranchCondition::Equals(f, v) => offset_ops(f).push(OpIRView::BranchCmp(Comparison::Equals, v@, label)),
        BranchCondition::NotEquals(f, v) => offset_ops(f).push(OpIRView::BranchCmp(Comparison::NotEquals, v@, label)),
        BranchCondition::LessThan(f, v) => offset_ops(f).push(OpIRView::BranchCmp(Comparison::LessThan, v@, label)),
        BranchCondition::GreaterThan(f, v) => offset_ops(f).push(OpIRView::BranchCmp(Comparison::GreaterThan, v@, label)),
        BranchCondition::LessEquals(f, v) => offset_ops(f).push(OpIRView::BranchCmp(Comparison::LessEquals, v@, label)),
        BranchCondition::GreaterEquals(f, v) => offset_ops(f).push(
            OpIRView::BranchCmp(Comparison::GreaterEquals, v@, label),
        ),
    }
}

/// The operations of one script operation.
pub open spec fn input_ops(op: InputOp) -> Seq<OpIRView> {
    match op {
        InputOp::SetValue { field, val } => offset_ops(field).push(OpIRView::SetField(val@)),
        InputOp::Modify { field, delta } => offset_ops(field).push(OpIRView::ModifyField(delta@)),
        InputOp::Branch { condition, label } => condition_ops(condition, label@),
        InputOp::Jump { label } => seq![OpIRView::Jump(label@)],
        InputOp::CallSub { sub } => seq![OpIRView::CallSub(sub@)],
        InputOp::Return => seq![OpIRView::Return],
        InputOp::Wait { updates } => seq![OpIRView::Wait(updates)],
        InputOp::RunCustom { id } => seq![OpIRView::RunCustom(id@)],
        InputOp::BranchCustom { id, label } => seq![OpIRView::BranchCustom(id@, label@)],
    }
}

/// The lines of `ops`, the first one carrying `labels`.
pub open spec fn labeled(ops: Seq<OpIRView>, labels: Seq<Seq<char>>) -> Seq<OpIRLineView> {
    Seq::new(
        ops.len(),
        |i: int| OpIRLineView { labels: if i == 0 { labels } else { seq![] }, op: ops[i] },
    )
}

/// The IR of one script line.
pub open spec fn line_ir(line: InputLine) -> Seq<OpIRLineView> {
    labeled(input_ops(line.input_op), strings_view(line.labels@))
}

/// The IR of a script: the IR of its lines one after the other.
pub open spec fn script_ir(s: Seq<InputLine>) -> Seq<OpIRLineView>
    decreases s.len(),
{
    if s.len() == 0 {
        seq![]
    } else {
        script_ir(s.drop_last()) + line_ir(s.last())
    }
}

/// Whether `op` leaves the current section of the script for good.
pub open spec fn is_transfer(op: OpIRView) -> bool {
    op is Return || op is Jump
}

/// A section of the IR with a `Return` added, unless it already ends with a `Return` or a
/// `Jump`.
pub open spec fn ended_section(s: Seq<OpIRLineView>) -> Seq<OpIRLineView> {
    if s.len() > 0 && is_transfer(s.last().op) {
        s
    } else {
        s.push(OpIRLineView { labels: seq![], op: OpIRView::Return })
    }
}

/// The label of the subroutine `name`.
pub open spec fn sub_label(name: Seq<char>) -> Seq<char> {
    seq!['s', 'u', 'b', '-'] + name
}

/// `l`, with a call of the subroutine `name` sent to its label.
pub open spec fn renamed_call(l: OpIRLineView, name: Seq<char>) -> OpIRLineView {
    match l.op {
        OpIRView::CallSub(s) => if s == name {
            OpIRLineView { labels: l.labels, op: OpIRView::CallSub(sub_label(name)) }
        } else {
            l
        },
        _ => l,
    }
}

/// `script` with the subroutine `sub` appended under its label, and the calls of `name`
/// throughout sent to that label.
pub open spec fn with_sub(script: Seq<OpIRLineView>, name: Seq<char>, sub: Seq<OpIRLineView>) -> Seq<OpIRLineView> {
    let first = OpIRLineView { labels: sub[0].labels.push(sub_label(name)), op: sub[0].op };
    (script + sub.update(0, first)).map_values(|l: OpIRLineView| renamed_call(l, name))
}

/// `main` with the subroutines `subs` appended one after the other.
pub open spec fn with_subs(main: Seq<OpIRLineView>, subs: Seq<(String, Vec<InputLine>)>) -> Seq<OpIRLineView>
    decreases subs.len(),
{
    if subs.len() == 0 {
        main
    } else {
        with_sub(with_subs(main, subs.drop_last()), subs.last().0@, ended_section(script_ir(subs.last().1@)))
    }
}

/// The IR of a sequence.
pub open spec fn sequence_ir(sequence: Sequence) -> Seq<OpIRLineView> {
    with_subs(ended_section(script_ir(sequence.script@)), sequence.subs@)
}

/// Whether every script of `sequence` has a line.
pub open spec fn scripts_nonempty(sequence: Sequence) -> bool {
    &&& sequence.script@.len() > 0
    &&& forall|k: int| 0 <= k < sequence.subs@.len() ==> (#[trigger] sequence.subs@[k]).1@.len() > 0
}

fn clone_strings(v: &Vec<String>) -> (out: Vec<String>)
    ensures
        strings_view(out@) == strings_view(v@),
{
    let mut out: Vec<String> = Vec::new();
    let mut i: usize = 0;
    while i < v.len()
        invariant
            i <= v@.len(),
            out@.len() == i,
            forall|j: int| 0 <= j < i ==> out@[j]@ == v@[j]@,
        decreases v@.len() - i,
    {
        out.push(v[i].clone());
        i = i + 1;
    }
    proof {
        assert(strings_view(out@) =~= strings_view(v@));
    }
    out
}

fn push_offset_ops_for_field(field: &Field) -> (out: Vec<OpIR>)
    ensures
        ops_view(out@) == offset_ops(*field),
{
    let mut out: Vec<OpIR> = Vec::new();
    let mut i: usize = 0;
    while i < field.path.len()
        invariant
            i <= field.path@.len(),
            out@.len() == i,
            forall|j: int| 0 <= j < i ==> (#[trigger] out@[j])@ == segment_op(field.path@[j]),
        decreases field.path@.len() - i,
    {
        let seg = &field.path[i];
        let node = change_case(seg.0.as_str(), IdentCase::UpperCamelCase);
        let property = change_case(seg.1.as_str(), IdentCase::LowerSnakeCase);
        out.push(OpIR::PushOffset(node, property));
        i = i + 1;
    }
    proof {
        assert(ops_view(out@) =~= offset_ops(*field));
    }
    out
}

/// Gives each operation of `ops` a line, the first one with `labels`.
fn lines_of_ops(ops: Vec<OpIR>, labels: &Vec<String>) -> (out: Vec<OpIRLine>)
    ensures
        lines_view(out@) == labeled(ops_view(ops@), strings_view(labels@)),
{
    let ghost all = ops@;
    let n: usize = ops.len();
    let mut rest = ops;
    let mut out: Vec<OpIRLine> = Vec::new();
    let mut i: usize = 0;
    while rest.len() > 0
        invariant
            i + rest@.len() == all.len(),
            all.len() == n,
            rest@ == all.skip(i as int),
            out@.len() == i,
            forall|j: int| 0 <= j < i ==> (#[trigger] out@[j])@ == labeled(ops_view(all), strings_view(labels@))[j],
        decreases rest@.len(),
    {
        let op_ir = rest.remove(0);
        let line_labels = if i == 0 {
            clone_strings(labels)
        } else {
            Vec::new()
        };
        proof {
            assert(strings_view(Seq::<String>::empty()) =~= Seq::<Seq<char>>::empty());
            assert(op_ir == all[i as int]);
            assert(rest@ =~= all.skip(i + 1));
        }
        out.push(OpIRLine { labels: line_labels, op_ir });
        i = i + 1;
    }
    proof {
        assert(lines_view(out@) =~= labeled(ops_view(all), strings_view(labels@)));
    }
    out
}


fn branch_cmp_ops(field: &Field, comparison: Comparison, rhs: &TypedValue, label: &String) -> (out: Vec<OpIR>)
    ensures
        ops_view(out@) == offset_ops(*field).push(OpIRView::BranchCmp(comparison, rhs@, label@)),
{
    let mut ir_ops = push_offset_ops_for_field(field);
    ir_ops.push(OpIR::BranchCmp { comparison, rhs: rhs.clone(), label: label.clone() });
    proof {
        assert(ops_view(ir_ops@) =~= offset_ops(*field).push(OpIRView::BranchCmp(comparison, rhs@, label@)));
    }
    ir_ops
}

/// The IR of one script line: the offsets of the field it works on, if any, then its
/// operation; the first line carries the script line's labels.
pub fn input_to_ir_single(input: &InputLine) -> (out: Vec<OpIRLine>)
    ensures
        lines_view(out@) == line_ir(*input),
{
    let ir_ops: Vec<OpIR> = match &input.input_op {
        InputOp::SetValue { field, val } => {
            let mut ir_ops = push_offset_ops_for_field(field);
            ir_ops.push(OpIR::SetField { val: val.clone() });
            proof {
                assert(ops_view(ir_ops@) =~= input_ops(input.input_op));
            }
            ir_ops
        },
        InputOp::Modify { field, delta } => {
            let mut ir_ops = push_offset_ops_for_field(field);
            ir_ops.push(OpIR::ModifyField { delta: delta.clone() });
            proof {
                assert(ops_view(ir_ops@) =~= input_ops(input.input_op));
            }
            ir_ops
        },
        InputOp::Branch { condition, label } => {
            match condition {
                BranchCondition::IfTrue(field) => {
                    let mut ir_ops = push_offset_ops_for_field(field);
                    ir_ops.push(OpIR::BranchIfTrue { label: label.clone() });
                    proof {
                        assert(ops_view(ir_ops@) =~= input_ops(input.input_op));
                    }
                    ir_ops
                },
                BranchCondition::IfFalse(field) => {
                    let mut ir_ops = push_offset_ops_for_field(field);
                    ir_ops.push(OpIR::BranchIfFalse { label: label.clone() });
                    proof {
                        assert(ops_view(ir_ops@) =~= input_ops(input.input_op));
                    }
                    ir_ops
                },
                BranchCondition::Equals(field, typed_value) => branch_cmp_ops(
                    field,
                    Comparison::Equals,
                    typed_value,
                    label,
                ),
                BranchCondition::NotEquals(field, typed_value) => branch_cmp_ops(
                    field,
                    Comparison::NotEquals,
                    typed_value,
                    label,
                ),
                BranchCondition::LessThan(field, typed_value) => branch_cmp_ops(
                    field,
                    Comparison::LessThan,
                    typed_value,
                    label,
                ),
                BranchCondition::GreaterThan(field, typed_value) => branch_cmp_ops(
                    field,
                    Comparison::GreaterThan,
                    typed_value,
                    label,
                ),
                BranchCondition::LessEquals(field, typed_value) => branch_cmp_ops(
                    field,
                    Comparison::LessEquals,
                    typed_value,
                    label,
                ),
                BranchCondition::GreaterEquals(field, typed_value) => branch_cmp_ops(
                    field,
                    Comparison::GreaterEquals,
                    typed_value,
                    label,
                ),
            }
        },
        InputOp::Jump { label } => {
            let ir_ops = vec![OpIR::Jump { label: label.clone() }];
            proof {
                assert(ops_view(ir_ops@) =~= input_ops(input.input_op));
            }
            ir_ops
        },
        InputOp::CallSub { sub } => {
            let ir_ops = vec![OpIR::CallSub { sub: sub.clone() }];
            proof {
                assert(ops_view(ir_ops@) =~= input_ops(input.input_op));
            }
            ir_ops
        },
        InputOp::Return => {
            let ir_ops = vec![OpIR::Return];
            proof {
                assert(ops_view(ir_ops@) =~= input_ops(input.input_op));
            }
            ir_ops
        },
        InputOp::Wait { updates } => {
            let ir_ops = vec![OpIR::Wait { updates: *updates }];
            proof {
                assert(ops_view(ir_ops@) =~= input_ops(input.input_op));
            }
            ir_ops
        },
        InputOp::RunCustom { id } => {
            let ir_ops = vec![OpIR::RunCustom { id: id.clone() }];
            proof {
                assert(ops_view(ir_ops@) =~= input_ops(input.input_op));
            }
            ir_ops
        },
        InputOp::BranchCustom { id, label } => {
            let ir_ops = vec![OpIR::BranchCustom { id: id.clone(), label: label.clone() }];
            proof {
                assert(ops_view(ir_ops@) =~= input_ops(input.input_op));
            }
            ir_ops
        },
    };
    lines_of_ops(ir_ops, &input.labels)
}


/// Every operation of a script line gives at least one IR line.
proof fn lemma_line_ir_nonempty(line: InputLine)
    ensures
        line_ir(line).len() > 0,
{
    match line.input_op {
        InputOp::Branch { condition, label } => {
            assert(condition_ops(condition, label@).len() > 0);
        },
        _ => {},
    }
}

/// The IR of a script with a line is not empty.
proof fn lemma_script_ir_nonempty(s: Seq<InputLine>)
    requires
        s.len() > 0,
    ensures
        script_ir(s).len() > 0,
{
    lemma_line_ir_nonempty(s.last());
}

/// The IR of a script: the IR of each line, one after the other.
pub fn generate_ir(input: &[InputLine]) -> (out: Vec<OpIRLine>)
    ensures
        lines_view(out@) == script_ir(input@),
{
    let mut out: Vec<OpIRLine> = Vec::new();
    let mut i: usize = 0;
    proof {
        assert(input@.take(0) =~= Seq::<InputLine>::empty());
        assert(lines_view(out@) =~= Seq::<OpIRLineView>::empty());
    }
    while i < input.len()
        invariant
            i <= input@.len(),
            lines_view(out@) == script_ir(input@.take(i as int)),
        decreases input@.len() - i,
    {
        let mut lines = input_to_ir_single(&input[i]);
        let ghost before = out@;
        let ghost added = lines@;
        out.append(&mut lines);
        proof {
            assert(input@.take(i + 1).drop_last() =~= input@.take(i as int));
            assert(lines_view(out@) =~= lines_view(before) + lines_view(added));
        }
        i = i + 1;
    }
    proof {
        assert(input@.take(input@.len() as int) =~= input@);
    }
    out
}

/// Ends a section of the script: the main script and each subroutine must end with a
/// `Return` or a `Jump`, else execution would continue past its end; a `Return` is added
/// where it does not.
pub fn end_script_section(script: &mut Vec<OpIRLine>)
    requires
        old(script)@.len() > 0,
    ensures
        lines_view(final(script)@) == ended_section(lines_view(old(script)@)),
{
    let last = script.len() - 1;
    let needs_return = match script[last].op_ir {
        OpIR::Return => false,
        OpIR::Jump { .. } => false,
        _ => true,
    };
    let ghost before = script@;
    if needs_return {
        script.push(OpIRLine { labels: Vec::new(), op_ir: OpIR::Return });
        proof {
            assert(strings_view(Seq::<String>::empty()) =~= Seq::<Seq<char>>::empty());
            assert(lines_view(script@) =~= lines_view(before).push(
                OpIRLineView { labels: seq![], op: OpIRView::Return },
            ));
        }
    }
}

/// Appends the subroutine `sub` to `script`: its first line gets the label `sub-<name>`, and
/// every call of `name` in the script is sent to that label.
pub fn append_subroutine(script: &mut Vec<OpIRLine>, name: &str, sub: Vec<OpIRLine>)
    requires
        sub@.len() > 0,
    ensures
        lines_view(final(script)@) == with_sub(lines_view(old(script)@), name@, lines_view(sub@)),
{
    let ghost old_script = script@;
    let ghost old_sub = sub@;
    let mut sub = sub;
    let mut subroutine_label = String::from_str("sub-");
    proof {
        reveal_strlit("sub-");
    }
    subroutine_label.append(name);
    let mut first = sub.remove(0);
    let ghost first_labels = first.labels@;
    let ghost rest = sub@;
    first.labels.push(subroutine_label.clone());
    proof {
        assert(strings_view(first.labels@) =~= strings_view(first_labels).push(subroutine_label@));
    }
    let ghost first_view = first@;
    script.push(first);
    script.append(&mut sub);
    let ghost joined = lines_view(old_script) + lines_view(old_sub).update(
        0,
        OpIRLineView { labels: lines_view(old_sub)[0].labels.push(sub_label(name@)), op: lines_view(old_sub)[0].op },
    );
    proof {
        assert(subroutine_label@ =~= sub_label(name@));
        assert(rest =~= old_sub.subrange(1, old_sub.len() as int));
        assert(script@ =~= old_script.push(script@[old_script.len() as int]) + rest);
        assert forall|j: int| 0 <= j < joined.len() implies (#[trigger] lines_view(script@)[j]) == joined[j] by {
            if j < old_script.len() {
                assert(script@[j] == old_script[j]);
            } else if j == old_script.len() {
                assert(script@[j]@ == first_view);
            } else {
                assert(script@[j] == old_sub[j - old_script.len()]);
            }
        }
        assert(lines_view(script@) =~= joined);
    }
    let name_string = String::from_str(name);
    let mut i: usize = 0;
    while i < script.len()
        invariant
            i <= script@.len(),
            script@.len() == joined.len(),
            name_string@ == name@,
            subroutine_label@ == sub_label(name@),
            forall|j: int| 0 <= j < i ==> (#[trigger] script@[j])@ == renamed_call(joined[j], name@),
            forall|j: int| i <= j < script@.len() ==> (#[trigger] script@[j])@ == joined[j],
        decreases script@.len() - i,
    {
        let is_call = match &script[i].op_ir {
            OpIR::CallSub { sub } => *sub == name_string,
            _ => false,
        };
        if is_call {
            let labels = clone_strings(&script[i].labels);
            script.set(i, OpIRLine { labels, op_ir: OpIR::CallSub { sub: subroutine_label.clone() } });
        }
        i = i + 1;
    }
    proof {
        assert(lines_view(script@) =~= with_sub(lines_view(old_script), name@, lines_view(old_sub)));
    }
}

/// The IR of a sequence: the main script, then each subroutine under its label, each section
/// ending with a `Return` or a `Jump`.
pub fn sequence_to_ir(sequence: &Sequence) -> (out: Vec<OpIRLine>)
    requires
        scripts_nonempty(*sequence),
    ensures
        lines_view(out@) == sequence_ir(*sequence),
{
    let mut main_ir = generate_ir(sequence.script.as_slice());
    proof {
        lemma_script_ir_nonempty(sequence.script@);
    }
    end_script_section(&mut main_ir);
    let mut k: usize = 0;
    proof {
        assert(sequence.subs@.take(0) =~= Seq::<(String, Vec<InputLine>)>::empty());
    }
    while k < sequence.subs.len()
        invariant
            k <= sequence.subs@.len(),
            scripts_nonempty(*sequence),
            lines_view(main_ir@) == with_subs(
                ended_section(script_ir(sequence.script@)),
                sequence.subs@.take(k as int),
            ),
        decreases sequence.subs@.len() - k,
    {
        let (sub_name, sub_script) = &sequence.subs[k];
        proof {
            assert(sequence.subs@[k as int].1@.len() > 0);
            lemma_script_ir_nonempty(sub_script@);
        }
        let mut sub_ir = generate_ir(sub_script.as_slice());
        end_script_section(&mut sub_ir);
        proof {
            assert(lines_view(sub_ir@).len() == sub_ir@.len());
        }
        append_subroutine(&mut main_ir, sub_name.as_str(), sub_ir);
        proof {
            assert(sequence.subs@.take(k + 1).drop_last() =~= sequence.subs@.take(k as int));
        }
        k = k + 1;
    }
    proof {
        assert(sequence.subs@.take(sequence.subs@.len() as int) =~= sequence.subs@);
    }
    main_ir
}


/// The number of IR lines of a section compiled from `script`.
pub open spec fn section_len(script: Seq<InputLine>) -> nat {
    ended_section(script_ir(script)).len()
}

/// Where the `k`-th subroutine of `subs` starts, after a main section of `m` lines.
pub open spec fn sub_offset(m: nat, subs: Seq<(String, Vec<InputLine>)>, k: nat) -> nat
    decreases k,
{
    if k == 0 {
        m
    } else {
        sub_offset(m, subs, (k - 1) as nat) + section_len(subs[k - 1].1@)
    }
}

proof fn lemma_sub_offset_prefix(m: nat, subs: Seq<(String, Vec<InputLine>)>, k: nat)
    requires
        k < subs.len(),
    ensures
        sub_offset(m, subs.drop_last(), k) == sub_offset(m, subs, k),
    decreases k,
{
    if k > 0 {
        lemma_sub_offset_prefix(m, subs, (k - 1) as nat);
    }
}

proof fn lemma_sub_offset_monotone(m: nat, subs: Seq<(String, Vec<InputLine>)>, a: nat, b: nat)
    requires
        a <= b,
    ensures
        m <= sub_offset(m, subs, a) <= sub_offset(m, subs, b),
    decreases b,
{
    if b > 0 {
        if a < b {
            lemma_sub_offset_monotone(m, subs, a, (b - 1) as nat);
        } else {
            lemma_sub_offset_monotone(m, subs, (b - 1) as nat, (b - 1) as nat);
        }
    }
}

/// Appending a subroutine keeps the labels of the lines before it and whether they leave
/// their section, labels its first line and ends with its last line's kind.
proof fn lemma_with_sub_shape(script: Seq<OpIRLineView>, name: Seq<char>, sub: Seq<OpIRLineView>)
    requires
        sub.len() > 0,
    ensures
        with_sub(script, name, sub).len() == script.len() + sub.len(),
        forall|i: int| 0 <= i < script.len() ==> (#[trigger] with_sub(script, name, sub)[i]).labels == script[i].labels
            && is_transfer(with_sub(script, name, sub)[i].op) == is_transfer(script[i].op),
        with_sub(script, name, sub)[script.len() as int].labels.contains(sub_label(name)),
        is_transfer(with_sub(script, name, sub).last().op) == is_transfer(sub.last().op),
{
    let r = with_sub(script, name, sub);
    let first = OpIRLineView { labels: sub[0].labels.push(sub_label(name)), op: sub[0].op };
    let joined = script + sub.update(0, first);
    assert(r[script.len() as int] == renamed_call(first, name));
    assert(first.labels[first.labels.len() - 1] == sub_label(name));
    assert(r.last() == renamed_call(joined.last(), name));
}

/// The layout of a script with subroutines appended.
#[verifier::rlimit(30)]
proof fn lemma_with_subs_layout(main: Seq<OpIRLineView>, subs: Seq<(String, Vec<InputLine>)>)
    requires
        main.len() > 0,
        is_transfer(main.last().op),
        forall|k: int| 0 <= k < subs.len() ==> (#[trigger] subs[k]).1@.len() > 0,
    ensures
        with_subs(main, subs).len() == sub_offset(main.len(), subs, subs.len()),
        is_transfer(with_subs(main, subs)[main.len() - 1].op),
        forall|k: int| 0 <= k < subs.len() ==> {
            &&& (#[trigger] with_subs(main, subs)[sub_offset(main.len(), subs, k as nat) as int]).labels.contains(
                sub_label(subs[k].0@),
            )
            &&& is_transfer(with_subs(main, subs)[sub_offset(main.len(), subs, (k + 1) as nat) - 1].op)
        },
    decreases subs.len(),
{
    if subs.len() > 0 {
        let prev_subs = subs.drop_last();
        let prev = with_subs(main, prev_subs);
        let n = (subs.len() - 1) as nat;
        assert forall|k: int| 0 <= k < prev_subs.len() implies (#[trigger] prev_subs[k]).1@.len() > 0 by {
            assert(prev_subs[k] == subs[k]);
        }
        lemma_with_subs_layout(main, prev_subs);
        let name = subs.last().0@;
        let sec = ended_section(script_ir(subs.last().1@));
        lemma_script_ir_nonempty(subs.last().1@);
        lemma_with_sub_shape(prev, name, sec);
        let r = with_subs(main, subs);
        assert(r == with_sub(prev, name, sec));
        lemma_sub_offset_prefix(main.len(), subs, n);
        lemma_sub_offset_monotone(main.len(), subs, 0, n);
        assert forall|k: int| 0 <= k < subs.len() implies {
            &&& (#[trigger] r[sub_offset(main.len(), subs, k as nat) as int]).labels.contains(sub_label(subs[k].0@))
            &&& is_transfer(r[sub_offset(main.len(), subs, (k + 1) as nat) - 1].op)
        } by {
            if k < n {
                lemma_sub_offset_prefix(main.len(), subs, k as nat);
                lemma_sub_offset_prefix(main.len(), subs, (k + 1) as nat);
                lemma_sub_offset_monotone(main.len(), subs, (k + 1) as nat, n);
                assert(prev_subs[k] == subs[k]);
            }
        }
    }
}

/// The layout of a sequence's IR: the main section, then each subroutine in turn, each
/// section ending with a `Return` or a `Jump` so that execution never runs past it, and each
/// subroutine's first line carrying the label `sub-<name>` that its calls are sent to.
pub proof fn lemma_sequence_ir_layout(sequence: Sequence)
    requires
        scripts_nonempty(sequence),
    ensures
        ({
            let ir = sequence_ir(sequence);
            let m = section_len(sequence.script@);
            let subs = sequence.subs@;
            &&& ir.len() == sub_offset(m, subs, subs.len())
            &&& is_transfer(ir[m - 1].op)
            &&& forall|k: int| 0 <= k < subs.len() ==> {
                &&& (#[trigger] ir[sub_offset(m, subs, k as nat) as int]).labels.contains(sub_label(subs[k].0@))
                &&& is_transfer(ir[sub_offset(m, subs, (k + 1) as nat) - 1].op)
            }
        }),
{
    lemma_script_ir_nonempty(sequence.script@);
    lemma_with_subs_layout(ended_section(script_ir(sequence.script@)), sequence.subs@);
}


/// Whether `t` is a numeric type.
pub open spec fn is_numeric(t: Type) -> bool {
    match t {
        Type::U8 | Type::U16 | Type::U32 | Type::U64 | Type::I8 | Type::I16 | Type::I32 | Type::I64 | Type::F32
        | Type::F64 => true,
        _ => false,
    }
}

/// Checks that `typename` is a numeric type, as fields compared by order or modified must be.
pub fn expect_numeric_type(typename: &Type) -> (out: Result<(), SkyliteProcError>)
    ensures
        out is Ok <==> is_numeric(*typename),
        out matches Err(e) ==> (e matches SkyliteProcError::DataError(m) && m@ == "Expected numeric type"@),
{
    match typename {
        Type::U8 | Type::U16 | Type::U32 | Type::U64 | Type::I8 | Type::I16 | Type::I32 | Type::I64 | Type::F32
        | Type::F64 => Ok(()),
        Type::Bool | Type::String | Type::Tuple(_) | Type::Vec(_) | Type::NodeList => Err(
            SkyliteProcError::DataError(String::from_str("Expected numeric type")),
        ),
    }
}

/// The relation between a field's value `lhs` and the condition's value `rhs` under which a
/// branch on the condition `c` is taken, as the condition's name says.
pub open spec fn condition_relation(c: BranchCondition, lhs: u64, rhs: u64) -> bool {
    match c {
        BranchCondition::Equals(..) => lhs == rhs,
        BranchCondition::NotEquals(..) => lhs != rhs,
        BranchCondition::LessThan(..) => lhs < rhs,
        BranchCondition::GreaterThan(..) => lhs > rhs,
        BranchCondition::LessEquals(..) => lhs <= rhs,
        BranchCondition::GreaterEquals(..) => lhs >= rhs,
        _ => true,
    }
}

/// The field a branch condition tests.
pub open spec fn condition_field(c: BranchCondition) -> Field {
    match c {
        BranchCondition::IfTrue(f) | BranchCondition::IfFalse(f) => f,
        BranchCondition::Equals(f, _) | BranchCondition::NotEquals(f, _) | BranchCondition::LessThan(f, _)
        | BranchCondition::GreaterThan(f, _) | BranchCondition::LessEquals(f, _) | BranchCondition::GreaterEquals(f, _) => f,
    }
}

/// A branch line becomes one push-offset operation for each segment of the tested field's path,
/// then a single branch to the line's label: on a boolean field, a branch on true or on false as
/// the condition says; on a comparison, a comparison branch with the condition's value whose
/// comparison, as the run-time test evaluates it, holds exactly when the condition's relation
/// does. Only the first operation carries the line's labels.
pub proof fn lemma_branch_ir_tests_the_condition(line: InputLine)
    requires
        line.input_op is Branch,
    ensures
        ({
            let c = line.input_op->Branch_condition;
            let label = line.input_op->Branch_label@;
            let f = condition_field(c);
            let ops = line_ir(line);
            let n = f.path@.len();
            &&& ops.len() == n + 1
            &&& forall|i: int| 0 <= i < n ==> (#[trigger] ops[i]).op is PushOffset && ops[i].op == segment_op(f.path@[i])
            &&& forall|i: int| 0 < i < n + 1 ==> (#[trigger] ops[i]).labels.len() == 0
            &&& ops[0].labels == strings_view(line.labels@)
            &&& c is IfTrue ==> ops[n as int].op == OpIRView::BranchIfTrue(label)
            &&& c is IfFalse ==> ops[n as int].op == OpIRView::BranchIfFalse(label)
            &&& !(c is IfTrue || c is IfFalse) ==> (ops[n as int].op matches OpIRView::BranchCmp(comparison, v, l) && l == label
                && forall|a: u64, b: u64| int_comparison_holds(a, comparison, b) == #[trigger] condition_relation(c, a, b))
        }),
{
    let c = line.input_op->Branch_condition;
    let f = condition_field(c);
    let label = line.input_op->Branch_label@;
    assert(condition_ops(c, label) == offset_ops(f).push(condition_ops(c, label).last()));
}

/// A line that sets or modifies a field becomes one push-offset operation for each segment of
/// the field's path, then the set or modify operation with the line's value; the other lines
/// become exactly one operation, carrying their operand.
pub proof fn lemma_line_ir_operations(line: InputLine)
    ensures
        line.input_op matches InputOp::SetValue { field, val } ==> {
            let ops = line_ir(line);
            &&& ops.len() == field.path@.len() + 1
            &&& forall|i: int| 0 <= i < field.path@.len() ==> (#[trigger] ops[i]).op == segment_op(field.path@[i])
            &&& ops[field.path@.len() as int].op == OpIRView::SetField(val@)
        },
        line.input_op matches InputOp::Modify { field, delta } ==> {
            let ops = line_ir(line);
            &&& ops.len() == field.path@.len() + 1
            &&& forall|i: int| 0 <= i < field.path@.len() ==> (#[trigger] ops[i]).op == segment_op(field.path@[i])
            &&& ops[field.path@.len() as int].op == OpIRView::ModifyField(delta@)
        },
        line.input_op matches InputOp::Jump { label } ==> line_ir(line).len() == 1 && line_ir(line)[0].op == OpIRView::Jump(label@),
        line.input_op matches InputOp::CallSub { sub } ==> line_ir(line).len() == 1 && line_ir(line)[0].op == OpIRView::CallSub(sub@),
        line.input_op is Return ==> line_ir(line).len() == 1 && line_ir(line)[0].op == OpIRView::Return,
        line.input_op matches InputOp::Wait { updates } ==> line_ir(line).len() == 1 && line_ir(line)[0].op == OpIRView::Wait(updates),
        line.input_op matches InputOp::RunCustom { id } ==> line_ir(line).len() == 1 && line_ir(line)[0].op == OpIRView::RunCustom(id@),
        line.input_op matches InputOp::BranchCustom { id, label } ==> line_ir(line).len() == 1 && line_ir(line)[0].op
            == OpIRView::BranchCustom(id@, label@),
{
}

} // verus!

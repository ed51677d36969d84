//! Messages of the asset server: asset metadata, variable types, projects and errors.
//!
//! Paths are kept as the platform's native bytes; converting them to paths is left to the
//! caller.
use vstd::prelude::*;
use vstd::string::StringSliceAdditionalSpecFns;
use crate::base_serde::{
    ByteReader, Deserialize, ParseOutcome, chain_outcome, fixed_outcome, is_eof_error, le_value,
    length_prefix, offset_of, outcome_error, values_outcome,
};

verus! {

broadcast use vstd::utf8::decode_utf8_encode_utf8;

/// An error of the asset server or of reading its messages.
#[derive(Debug)]
pub enum AssetError {
    /// An exception was raised within Racket.
    RacketException {
        project_root: Option<Vec<u8>>,
        asset_file: Option<Vec<u8>>,
        asset: Option<String>,
        message: String,
    },
    /// IO-Error
    IOError(IoFault),
    /// Something else went wrong.
    OtherError(String),
}

/// What went wrong in an I/O operation: the data ended before a read was complete, or
/// another failure, with its message.
#[derive(Debug)]
pub enum IoFault {
    UnexpectedEof,
    Other(String),
}

/// The kinds of assets.
#[derive(Clone, Copy, Debug, PartialEq, Eq, Structural)]
pub enum AssetType {
    Project,
    Node,
    NodeList,
    Sequence,
}

/// What reading an asset type from `input` gives.
pub open spec fn asset_type_outcome(input: Seq<u8>) -> ParseOutcome {
    if input.len() < 1 {
        ParseOutcome::Eof
    } else if input[0] <= 3 {
        ParseOutcome::Value(1)
    } else {
        ParseOutcome::BadTag
    }
}

/// The asset type with tag `tag`.
pub open spec fn asset_type_of(tag: u8) -> AssetType {
    if tag == 0 {
        AssetType::Project
    } else if tag == 1 {
        AssetType::Node
    } else if tag == 2 {
        AssetType::NodeList
    } else {
        AssetType::Sequence
    }
}

impl AssetType {
    /// Reads an asset type.
    pub fn read(input: &mut ByteReader) -> (out: Result<AssetType, AssetError>)
        requires
            old(input).wf(),
            !(asset_type_outcome(old(input).rest()) is BadTag),
        ensures
            final(input).wf(),
            final(input).data@ == old(input).data@,
            match out {
                Ok(t) => asset_type_outcome(old(input).rest()) == ParseOutcome::Value(1) && t == asset_type_of(
                    old(input).rest()[0],
                ) && final(input).pos == old(input).pos + 1,
                Err(e) => outcome_error(asset_type_outcome(old(input).rest()), e),
            },
    {
        let asset_type_byte = u8::deserialize(input)?;
        proof {
            reveal_with_fuel(le_value, 2);
        }
        match asset_type_byte {
            0 => Ok(AssetType::Project),
            1 => Ok(AssetType::Node),
            2 => Ok(AssetType::NodeList),
            _ => Ok(AssetType::Sequence),
        }
    }
}

/// The metadata of an asset.
#[derive(Clone, Debug, PartialEq)]
pub struct AssetMeta {
    pub id: u32,
    pub name: String,
    pub asset_type: AssetType,
    pub tracked_paths: Vec<Vec<u8>>,
}

/// The outcomes of reading the fields of asset metadata from `input`, field after field.
pub open spec fn meta_outcomes(input: Seq<u8>) -> (ParseOutcome, ParseOutcome, ParseOutcome, ParseOutcome) {
    let r1 = fixed_outcome(input, 4);
    let r2 = chain_outcome(r1, |o: nat| <String as Deserialize>::outcome(input.skip(o as int)));
    let r3 = chain_outcome(r2, |o: nat| asset_type_outcome(input.skip(o as int)));
    let r4 = chain_outcome(r3, |o: nat| <Vec<Vec<u8>> as Deserialize>::outcome(input.skip(o as int)));
    (r1, r2, r3, r4)
}

/// What reading asset metadata from `input` gives.
pub open spec fn meta_outcome(input: Seq<u8>) -> ParseOutcome {
    meta_outcomes(input).3
}

/// Whether `m` is the asset metadata at the start of `input`.
pub open spec fn is_meta(input: Seq<u8>, m: AssetMeta) -> bool {
    let (r1, r2, r3, r4) = meta_outcomes(input);
    &&& r4 is Value
    &&& m.id == le_value(input, 4)
    &&& <String as Deserialize>::is_value(input.skip(4), m.name)
    &&& m.asset_type == asset_type_of(input[offset_of(r2) as int])
    &&& <Vec<Vec<u8>> as Deserialize>::is_value(input.skip(offset_of(r3) as int), m.tracked_paths)
}

pub(crate) proof fn lemma_skip_skip(s: Seq<u8>, a: nat, b: nat)
    requires
        a + b <= s.len(),
    ensures
        s.skip(a as int).skip(b as int) == s.skip((a + b) as int),
{
    assert(s.skip(a as int).skip(b as int) =~= s.skip((a + b) as int));
}

pub(crate) proof fn lemma_rest_after(before: ByteReader, after: ByteReader, n: nat)
    requires
        before.wf(),
        after.data@ == before.data@,
        after.pos == before.pos + n,
        after.pos <= after.data@.len(),
    ensures
        after.rest() == before.rest().skip(n as int),
{
    assert(after.rest() =~= before.rest().skip(n as int));
}

impl AssetMeta {
    /// Reads asset metadata: the id, the name, the asset type and the tracked paths.
    pub fn read(input: &mut ByteReader) -> (out: Result<AssetMeta, AssetError>)
        requires
            old(input).wf(),
            !(meta_outcome(old(input).rest()) is BadTag),
        ensures
            final(input).wf(),
            final(input).data@ == old(input).data@,
            match out {
                Ok(m) => final(input).pos >= old(input).pos && meta_outcome(old(input).rest())
                    == ParseOutcome::Value((final(input).pos - old(input).pos) as nat) && is_meta(old(input).rest(), m),
                Err(e) => outcome_error(meta_outcome(old(input).rest()), e),
            },
    {
        let ghost r0 = input.rest();
        let ghost b0 = *input;
        let id = u32::deserialize(input)?;
        proof {
            lemma_rest_after(b0, *input, 4);
        }
        let ghost b1 = *input;
        let name = String::deserialize(input)?;
        let ghost o2 = offset_of(meta_outcomes(r0).1);
        proof {
            lemma_rest_after(b0, *input, o2);
        }
        let ghost b2 = *input;
        let asset_type = AssetType::read(input)?;
        let ghost o3 = offset_of(meta_outcomes(r0).2);
        proof {
            lemma_rest_after(b0, *input, o3);
        }
        let tracked_paths = Vec::<Vec<u8>>::deserialize(input)?;
        proof {
            lemma_rest_after(b0, *input, offset_of(meta_outcomes(r0).3));
        }
        Ok(AssetMeta { id, name, asset_type, tracked_paths })
    }
}

/// The types of variables.
#[derive(Debug, PartialEq)]
pub enum Type {
    U8,
    U16,
    U32,
    U64,
    I8,
    I16,
    I32,
    I64,
    F32,
    F64,
    Bool,
    String,
    Vec(Box<Type>),
    Tuple(Vec<Type>),
    Project,
    Node(String),
    NodeList,
    Sequence,
}

/// Whether `tag` names a type that has no further data.
pub open spec fn is_plain_type_tag(tag: u8) -> bool {
    tag <= 11 || tag == 14 || tag == 16 || tag == 17
}

/// What reading a type from `input` gives.
pub open spec fn type_outcome(input: Seq<u8>) -> ParseOutcome
    decreases input.len(), 0nat,
{
    if input.len() == 0 {
        ParseOutcome::Eof
    } else {
        let tag = input[0];
        if is_plain_type_tag(tag) {
            ParseOutcome::Value(1)
        } else if tag == 12 {
            match type_outcome(input.skip(1)) {
                ParseOutcome::Value(l) => ParseOutcome::Value(1 + l),
                other => other,
            }
        } else if tag == 13 {
            if input.len() < 5 {
                ParseOutcome::Eof
            } else {
                match types_outcome(input.skip(5), le_value(input.skip(1), 4)) {
                    ParseOutcome::Value(l) => ParseOutcome::Value(5 + l),
                    other => other,
                }
            }
        } else if tag == 15 {
            match <String as Deserialize>::outcome(input.skip(1)) {
                ParseOutcome::Value(l) => ParseOutcome::Value(1 + l),
                other => other,
            }
        } else {
            ParseOutcome::BadTag
        }
    }
}

/// What reading `k` types one after the other from `s` gives.
pub open spec fn types_outcome(s: Seq<u8>, k: nat) -> ParseOutcome
    decreases s.len(), k,
{
    if k == 0 {
        ParseOutcome::Value(0)
    } else {
        match types_outcome(s, (k - 1) as nat) {
            ParseOutcome::Value(off) => if off <= s.len() {
                match type_outcome(s.skip(off as int)) {
                    ParseOutcome::Value(l) => ParseOutcome::Value(off + l),
                    other => other,
                }
            } else {
                ParseOutcome::Eof
            },
            other => other,
        }
    }
}

/// Whether `t` is the type at the start of `input`.
pub open spec fn is_type(input: Seq<u8>, t: Type) -> bool
    decreases input.len(), 0nat,
{
    if input.len() == 0 {
        false
    } else {
        let tag = input[0];
        if tag == 0 {
            t is U8
        } else if tag == 1 {
            t is U16
        } else if tag == 2 {
            t is U32
        } else if tag == 3 {
            t is U64
        } else if tag == 4 {
            t is I8
        } else if tag == 5 {
            t is I16
        } else if tag == 6 {
            t is I32
        } else if tag == 7 {
            t is I64
        } else if tag == 8 {
            t is F32
        } else if tag == 9 {
            t is F64
        } else if tag == 10 {
            t is Bool
        } else if tag == 11 {
            t is String
        } else if tag == 12 {
            match t {
                Type::Vec(item) => is_type(input.skip(1), *item),
                _ => false,
            }
        } else if tag == 13 {
            input.len() >= 5 && match t {
                Type::Tuple(items) => items@.len() == le_value(input.skip(1), 4) && are_types(
                    input.skip(5),
                    items@,
                    items@.len(),
                ),
                _ => false,
            }
        } else if tag == 14 {
            t is Project
        } else if tag == 15 {
            match t {
                Type::Node(name) => <String as Deserialize>::is_value(input.skip(1), name),
                _ => false,
            }
        } else if tag == 16 {
            t is NodeList
        } else {
            t is Sequence
        }
    }
}

/// Whether the first `k` of `items` are the types one after the other at the start of `s`.
pub open spec fn are_types(s: Seq<u8>, items: Seq<Type>, k: nat) -> bool
    decreases s.len(), k,
{
    if k == 0 {
        true
    } else {
        are_types(s, items, (k - 1) as nat) && match types_outcome(s, (k - 1) as nat) {
            ParseOutcome::Value(off) => off <= s.len() && is_type(s.skip(off as int), items[k - 1]),
            _ => false,
        }
    }
}

pub(crate) proof fn lemma_types_outcome_stuck(s: Seq<u8>, j: nat, k: nat)
    requires
        j <= k,
        !(types_outcome(s, j) is Value),
    ensures
        types_outcome(s, k) == types_outcome(s, j),
    decreases k,
{
    if j < k {
        lemma_types_outcome_stuck(s, j, (k - 1) as nat);
    }
}

proof fn lemma_are_types_prefix(s: Seq<u8>, items: Seq<Type>, more: Seq<Type>, k: nat)
    requires
        k <= items.len(),
        items.len() <= more.len(),
        items == more.take(items.len() as int),
        are_types(s, items, k),
    ensures
        are_types(s, more, k),
    decreases k,
{
    if k > 0 {
        lemma_are_types_prefix(s, items, more, (k - 1) as nat);
        assert(items[k - 1] == more[k - 1]);
    }
}

impl Type {
    /// Reads a type.
    pub fn read(input: &mut ByteReader) -> (out: Result<Type, AssetError>)
        requires
            old(input).wf(),
            !(type_outcome(old(input).rest()) is BadTag),
        ensures
            final(input).wf(),
            final(input).data@ == old(input).data@,
            match out {
                Ok(t) => final(input).pos >= old(input).pos && type_outcome(old(input).rest())
                    == ParseOutcome::Value((final(input).pos - old(input).pos) as nat) && is_type(old(input).rest(), t),
                Err(e) => outcome_error(type_outcome(old(input).rest()), e),
            },
        decreases old(input).rest().len(),
    {
        let ghost r0 = input.rest();
        let ghost b0 = *input;
        let tag = u8::deserialize(input)?;
        proof {
            reveal_with_fuel(le_value, 2);
            lemma_rest_after(b0, *input, 1);
        }
        match tag {
            0 => Ok(Type::U8),
            1 => Ok(Type::U16),
            2 => Ok(Type::U32),
            3 => Ok(Type::U64),
            4 => Ok(Type::I8),
            5 => Ok(Type::I16),
            6 => Ok(Type::I32),
            7 => Ok(Type::I64),
            8 => Ok(Type::F32),
            9 => Ok(Type::F64),
            10 => Ok(Type::Bool),
            11 => Ok(Type::String),
            12 => {
                let item_type = Type::read(input)?;
                proof {
                    lemma_rest_after(b0, *input, (input.pos - b0.pos) as nat);
                }
                Ok(Type::Vec(Box::new(item_type)))
            },
            13 => {
                let len = u32::deserialize(input)?;
                let ghost t = r0.skip(5);
                proof {
                    lemma_rest_after(b0, *input, 5);
                }
                let mut item_types: Vec<Type> = Vec::new();
                let mut i: u32 = 0;
                let ghost mut off: nat = 0;
                proof {
                    assert(t.skip(0) =~= t);
                }
                while i < len
                    invariant
                        input.wf(),
                        b0 == *old(input),
                        input.data@ == b0.data@,
                        b0.wf(),
                        r0 == b0.rest(),
                        r0.len() >= 5,
                        r0[0] == 13,
                        t == r0.skip(5),
                        len == le_value(r0.skip(1), 4),
                        !(type_outcome(r0) is BadTag),
                        i <= len,
                        item_types@.len() == i,
                        types_outcome(t, i as nat) == ParseOutcome::Value(off),
                        off <= t.len(),
                        input.rest() == t.skip(off as int),
                        input.pos == b0.pos + 5 + off,
                        are_types(t, item_types@, i as nat),
                    decreases len - i,
                {
                    proof {
                        if type_outcome(t.skip(off as int)) is BadTag {
                            lemma_types_outcome_stuck(t, (i + 1) as nat, len as nat);
                        }
                    }
                    let ghost before = *input;
                    let item = match Type::read(input) {
                        Ok(item) => item,
                        Err(e) => {
                            proof {
                                lemma_types_outcome_stuck(t, (i + 1) as nat, len as nat);
                            }
                            return Err(e);
                        },
                    };
                    proof {
                        let l = (input.pos - before.pos) as nat;
                        lemma_rest_after(before, *input, l);
                        lemma_skip_skip(t, off, l);
                        off = off + l;
                    }
                    let ghost prev = item_types@;
                    item_types.push(item);
                    proof {
                        assert(prev == item_types@.take(i as int));
                        lemma_are_types_prefix(t, prev, item_types@, i as nat);
                    }
                    i = i + 1;
                }
                proof {
                    lemma_rest_after(b0, *input, 5 + off);
                }
                Ok(Type::Tuple(item_types))
            },
            14 => Ok(Type::Project),
            15 => {
                let name = String::deserialize(input)?;
                proof {
                    lemma_rest_after(b0, *input, (input.pos - b0.pos) as nat);
                }
                Ok(Type::Node(name))
            },
            16 => Ok(Type::NodeList),
            _ => Ok(Type::Sequence),
        }
    }
}

/// The outcomes of reading the four fields of an exception report from `input`.
pub open spec fn exception_outcomes(input: Seq<u8>) -> (ParseOutcome, ParseOutcome, ParseOutcome, ParseOutcome) {
    let r1 = <Vec<u8> as Deserialize>::outcome(input);
    let r2 = chain_outcome(r1, |o: nat| <Vec<u8> as Deserialize>::outcome(input.skip(o as int)));
    let r3 = chain_outcome(r2, |o: nat| <String as Deserialize>::outcome(input.skip(o as int)));
    let r4 = chain_outcome(r3, |o: nat| <String as Deserialize>::outcome(input.skip(o as int)));
    (r1, r2, r3, r4)
}

/// The bytes of a nonempty path at the start of `input`, or `None` for an empty one.
pub open spec fn is_optional_path(input: Seq<u8>, p: Option<Vec<u8>>) -> bool {
    match p {
        Some(bytes) => length_prefix(input) > 0 && <Vec<u8> as Deserialize>::is_value(input, bytes),
        None => length_prefix(input) == 0,
    }
}

/// Whether `e` is the error that reading an exception report from `input` gives: the report
/// itself, or the error met while reading it.
pub open spec fn is_reported_error(input: Seq<u8>, e: AssetError) -> bool {
    let (r1, r2, r3, r4) = exception_outcomes(input);
    if r4 is Value {
        match e {
            AssetError::RacketException { project_root, asset_file, asset, message } => {
                &&& is_optional_path(input, project_root)
                &&& is_optional_path(input.skip(offset_of(r1) as int), asset_file)
                &&& match asset {
                    Some(a) => length_prefix(input.skip(offset_of(r2) as int)) > 0 && <String as Deserialize>::is_value(
                        input.skip(offset_of(r2) as int),
                        a,
                    ),
                    None => length_prefix(input.skip(offset_of(r2) as int)) == 0,
                }
                &&& <String as Deserialize>::is_value(input.skip(offset_of(r3) as int), message)
            },
            _ => false,
        }
    } else {
        outcome_error(r4, e)
    }
}

impl AssetError {
    /// Reads the report of an exception raised in the asset server: the project root, the
    /// asset file, the asset and the message; empty ones are left out.
    pub fn read(input: &mut ByteReader) -> (out: AssetError)
        requires
            old(input).wf(),
        ensures
            final(input).wf(),
            final(input).data@ == old(input).data@,
            is_reported_error(old(input).rest(), out),
    {
        let ghost r0 = input.rest();
        let ghost b0 = *input;
        let project_root_bytes = match Vec::<u8>::deserialize(input) {
            Ok(bytes) => bytes,
            Err(err) => return err,
        };
        proof {
            lemma_rest_after(b0, *input, offset_of(exception_outcomes(r0).0));
        }
        let asset_file_bytes = match Vec::<u8>::deserialize(input) {
            Ok(bytes) => bytes,
            Err(err) => return err,
        };
        proof {
            lemma_rest_after(b0, *input, offset_of(exception_outcomes(r0).1));
        }
        let asset = match String::deserialize(input) {
            Ok(s) => s,
            Err(err) => return err,
        };
        proof {
            lemma_rest_after(b0, *input, offset_of(exception_outcomes(r0).2));
        }
        let message = match String::deserialize(input) {
            Ok(s) => s,
            Err(err) => return err,
        };
        let asset_len = asset.as_str().len();
        AssetError::RacketException {
            project_root: if project_root_bytes.len() > 0 {
                Some(project_root_bytes)
            } else {
                None
            },
            asset_file: if asset_file_bytes.len() > 0 {
                Some(asset_file_bytes)
            } else {
                None
            },
            asset: if asset_len > 0 {
                Some(asset)
            } else {
                None
            },
            message,
        }
    }
}

/// A project asset.
#[derive(Debug, Clone, PartialEq)]
pub struct Project {
    pub meta: AssetMeta,
    pub name: String,
}

/// What reading a project from `input` gives.
pub open spec fn project_outcome(input: Seq<u8>) -> ParseOutcome {
    chain_outcome(meta_outcome(input), |o: nat| <String as Deserialize>::outcome(input.skip(o as int)))
}

/// Whether `p` is the project at the start of `input`.
pub open spec fn is_project(input: Seq<u8>, p: Project) -> bool {
    &&& project_outcome(input) is Value
    &&& is_meta(input, p.meta)
    &&& <String as Deserialize>::is_value(input.skip(offset_of(meta_outcome(input)) as int), p.name)
}

impl Project {
    /// Reads a project: its metadata and its name.
    pub fn read(input: &mut ByteReader) -> (out: Result<Project, AssetError>)
        requires
            old(input).wf(),
            !(project_outcome(old(input).rest()) is BadTag),
        ensures
            final(input).wf(),
            final(input).data@ == old(input).data@,
            match out {
                Ok(p) => final(input).pos >= old(input).pos && project_outcome(old(input).rest())
                    == ParseOutcome::Value((final(input).pos - old(input).pos) as nat) && is_project(old(input).rest(), p),
                Err(e) => outcome_error(project_outcome(old(input).rest()), e),
            },
    {
        let ghost r0 = input.rest();
        let ghost b0 = *input;
        let meta = AssetMeta::read(input)?;
        proof {
            lemma_rest_after(b0, *input, (input.pos - b0.pos) as nat);
        }
        let name = String::deserialize(input)?;
        proof {
            lemma_rest_after(b0, *input, (input.pos - b0.pos) as nat);
        }
        Ok(Project { meta, name })
    }
}

/// Whether `out` is what the answer `response` to a request to load a project gives: a status
/// byte, then the project when the status is 0, or else an exception report.
pub open spec fn is_project_answer(response: Seq<u8>, out: Result<Project, AssetError>) -> bool {
    if response.len() == 0 {
        out matches Err(e) && is_eof_error(e)
    } else if response[0] == 0 {
        match out {
            Ok(p) => is_project(response.skip(1), p),
            Err(e) => outcome_error(project_outcome(response.skip(1)), e),
        }
    } else {
        out matches Err(e) && is_reported_error(response.skip(1), e)
    }
}

/// Reads a project from the asset server's answer to a request to load it.
pub fn load_project(response: &[u8]) -> (out: Result<Project, AssetError>)
    requires
        response@.len() > 0 && response@[0] == 0 ==> !(project_outcome(response@.skip(1)) is BadTag),
    ensures
        is_project_answer(response@, out),
{
    let mut input = ByteReader::new(response);
    let status = input.read_exact(1)?;
    proof {
        assert(input.rest() =~= response@.skip(1));
    }
    if status[0] == 0 {
        Ok(Project::read(&mut input)?)
    } else {
        Err(AssetError::read(&mut input))
    }
}

/// Reading values of byte sequences one after the other never meets an unknown tag.
proof fn lemma_byte_vectors_no_bad_tag(input: Seq<u8>, k: nat)
    ensures
        !(values_outcome::<Vec<u8>>(input, k) is BadTag),
    decreases k,
{
    if k > 0 {
        lemma_byte_vectors_no_bad_tag(input, (k - 1) as nat);
        let r = values_outcome::<Vec<u8>>(input, (k - 1) as nat);
        if r is Value {
            let o = offset_of(r);
            let t = input.skip(o as int);
            if t.len() >= 4 {
                lemma_bytes_no_bad_tag(t.skip(4), length_prefix(t));
            }
        }
    }
}

proof fn lemma_bytes_no_bad_tag(input: Seq<u8>, k: nat)
    ensures
        !(values_outcome::<u8>(input, k) is BadTag),
    decreases k,
{
    if k > 0 {
        lemma_bytes_no_bad_tag(input, (k - 1) as nat);
    }
}

/// Whether the answer `response` to a request to load a project can be read without meeting an
/// unknown asset type (on which reading it stops the program).
pub fn project_answer_readable(response: &[u8]) -> (out: bool)
    ensures
        out == (response@.len() > 0 && response@[0] == 0 ==> !(project_outcome(response@.skip(1)) is BadTag)),
{
    if response.len() == 0 || response[0] != 0 {
        return true;
    }
    let ghost r = response@.skip(1);
    let mut input = ByteReader::new(response);
    input.pos = 1;
    proof {
        assert(input.rest() =~= r);
        let (r1, r2, r3, r4) = meta_outcomes(r);
        if r3 is Value {
            let t = r.skip(offset_of(r3) as int);
            if t.len() >= 4 {
                lemma_byte_vectors_no_bad_tag(t.skip(4), length_prefix(t));
            }
        }
    }
    let ghost b0 = input;
    if u32::deserialize(&mut input).is_err() {
        return true;
    }
    proof {
        lemma_rest_after(b0, input, 4);
    }
    if String::deserialize(&mut input).is_err() {
        return true;
    }
    proof {
        lemma_rest_after(b0, input, (input.pos - b0.pos) as nat);
    }
    if input.pos >= response.len() {
        return true;
    }
    response[input.pos] <= 3
}

/// The comparisons of sequence branches.
#[derive(Clone, Copy, Debug, PartialEq, Eq, Structural)]
pub enum Comparison {
    Equals,
    NotEquals,
    LessThan,
    GreaterThan,
    LessEquals,
    GreaterEquals,
}

/// The comparison with opcode `op`.
pub open spec fn comparison_of(op: u8) -> Comparison {
    if op == 0 {
        Comparison::Equals
    } else if op == 1 {
        Comparison::NotEquals
    } else if op == 2 {
        Comparison::LessThan
    } else if op == 3 {
        Comparison::GreaterThan
    } else if op == 4 {
        Comparison::LessEquals
    } else {
        Comparison::GreaterEquals
    }
}

impl Comparison {
    /// Reads a comparison.
    pub fn read(input: &mut ByteReader) -> (out: Result<Comparison, AssetError>)
        requires
            old(input).wf(),
            old(input).rest().len() > 0 ==> old(input).rest()[0] <= 5,
        ensures
            final(input).wf(),
            final(input).data@ == old(input).data@,
            match out {
                Ok(c) => old(input).rest().len() > 0 && c == comparison_of(old(input).rest()[0])
                    && final(input).pos == old(input).pos + 1,
                Err(e) => old(input).rest().len() == 0 && is_eof_error(e),
            },
    {
        let opcode = u8::deserialize(input)?;
        proof {
            reveal_with_fuel(le_value, 2);
        }
        match opcode {
            0 => Ok(Comparison::Equals),
            1 => Ok(Comparison::NotEquals),
            2 => Ok(Comparison::LessThan),
            3 => Ok(Comparison::GreaterThan),
            4 => Ok(Comparison::LessEquals),
            _ => Ok(Comparison::GreaterEquals),
        }
    }
}

} // verus!

//! Node assets as the asset server sends them: metadata, then the node's parameters and its
//! properties, each a name and a type.
use vstd::prelude::*;
use crate::asset_values::{after, text_at};
use crate::assets::{
    AssetError, AssetMeta, Type, is_meta, is_type, lemma_rest_after, lemma_skip_skip, meta_outcome,
    type_outcome,
};
use crate::base_serde::{
    ByteReader, Deserialize, ParseOutcome, chain_outcome, is_eof_error, le_value,
    offset_of, outcome_error,
};

verus! {

/// A parameter or property of a node: its name and its type.
#[derive(Debug, PartialEq)]
pub struct Variable {
    pub name: String,
    pub vtype: Type,
}

/// What reading a variable from `input` gives.
pub open spec fn variable_outcome(input: Seq<u8>) -> ParseOutcome {
    chain_outcome(<String as Deserialize>::outcome(input), |o: nat| type_outcome(input.skip(o as int)))
}

/// Whether `v` is the variable at the start of `input`.
pub open spec fn is_variable(input: Seq<u8>, v: Variable) -> bool {
    &&& v.name@ == text_at(input)
    &&& is_type(input.skip(offset_of(<String as Deserialize>::outcome(input)) as int), v.vtype)
}

impl Variable {
    /// Reads a variable: its name, then its type.
    pub fn read(input: &mut ByteReader) -> (out: Result<Variable, AssetError>)
        requires
            old(input).wf(),
            !(variable_outcome(old(input).rest()) is BadTag),
        ensures
            final(input).wf(),
            final(input).data@ == old(input).data@,
            match out {
                Ok(v) => final(input).pos >= old(input).pos && variable_outcome(old(input).rest())
                    == ParseOutcome::Value((final(input).pos - old(input).pos) as nat) && is_variable(old(input).rest(), v),
                Err(e) => outcome_error(variable_outcome(old(input).rest()), e),
            },
    {
        let ghost b0 = *input;
        let name = String::deserialize(input)?;
        proof {
            lemma_rest_after(b0, *input, (input.pos - b0.pos) as nat);
        }
        let ghost b1 = *input;
        let vtype = Type::read(input)?;
        proof {
            lemma_rest_after(b1, *input, (input.pos - b1.pos) as nat);
        }
        Ok(Variable { name, vtype })
    }
}

/// What reading `k` variables one after the other from `s` gives.
pub open spec fn variables_outcome(s: Seq<u8>, k: nat) -> ParseOutcome
    decreases k,
{
    if k == 0 {
        ParseOutcome::Value(0)
    } else {
        match variables_outcome(s, (k - 1) as nat) {
            ParseOutcome::Value(off) => if off <= s.len() {
                after(off, variable_outcome(s.skip(off as int)))
            } else {
                ParseOutcome::Eof
            },
            other => other,
        }
    }
}

/// Whether the first `k` of `vars` are the variables one after the other at the start of `s`.
pub open spec fn variables_are(s: Seq<u8>, vars: Seq<Variable>, k: nat) -> bool
    decreases k,
{
    if k == 0 {
        true
    } else {
        variables_are(s, vars, (k - 1) as nat) && match variables_outcome(s, (k - 1) as nat) {
            ParseOutcome::Value(off) => off <= s.len() && is_variable(s.skip(off as int), vars[k - 1]),
            _ => false,
        }
    }
}

/// What reading a `u32` count and then that many variables from `input` gives.
pub open spec fn variable_list_outcome(input: Seq<u8>) -> ParseOutcome {
    if input.len() < 4 {
        ParseOutcome::Eof
    } else {
        after(4, variables_outcome(input.skip(4), le_value(input, 4)))
    }
}

/// Whether `vars` is the list of variables at the start of `input`.
pub open spec fn is_variable_list(input: Seq<u8>, vars: Seq<Variable>) -> bool {
    input.len() >= 4 && vars.len() == le_value(input, 4) && variables_are(input.skip(4), vars, vars.len())
}

proof fn lemma_variables_stuck(s: Seq<u8>, j: nat, k: nat)
    requires
        j <= k,
        !(variables_outcome(s, j) is Value),
    ensures
        variables_outcome(s, k) == variables_outcome(s, j),
    decreases k,
{
    if j < k {
        lemma_variables_stuck(s, j, (k - 1) as nat);
    }
}

proof fn lemma_variables_are_prefix(s: Seq<u8>, vars: Seq<Variable>, more: Seq<Variable>, k: nat)
    requires
        k <= vars.len(),
        k <= more.len(),
        forall|j: int| 0 <= j < k ==> vars[j] == more[j],
        variables_are(s, vars, k),
    ensures
        variables_are(s, more, k),
    decreases k,
{
    if k > 0 {
        lemma_variables_are_prefix(s, vars, more, (k - 1) as nat);
    }
}

/// Reads a `u32` count, then that many variables.
fn read_variables(input: &mut ByteReader) -> (out: Result<Vec<Variable>, AssetError>)
    requires
        old(input).wf(),
        !(variable_list_outcome(old(input).rest()) is BadTag),
    ensures
        final(input).wf(),
        final(input).data@ == old(input).data@,
        match out {
            Ok(vars) => final(input).pos >= old(input).pos && variable_list_outcome(old(input).rest())
                == ParseOutcome::Value((final(input).pos - old(input).pos) as nat) && is_variable_list(
                old(input).rest(),
                vars@,
            ),
            Err(e) => outcome_error(variable_list_outcome(old(input).rest()), e),
        },
{
    let ghost r0 = input.rest();
    let ghost b0 = *input;
    let len = u32::deserialize(input)?;
    let ghost t = r0.skip(4);
    proof {
        lemma_rest_after(b0, *input, 4);
    }
    let mut vars: Vec<Variable> = Vec::new();
    let mut i: u32 = 0;
    let ghost mut off: nat = 0;
    while i < len
        invariant
            input.wf(),
            b0 == *old(input),
            b0.wf(),
            input.data@ == b0.data@,
            r0 == b0.rest(),
            r0.len() >= 4,
            t == r0.skip(4),
            len == le_value(r0, 4),
            !(variable_list_outcome(r0) is BadTag),
            i <= len,
            vars@.len() == i,
            variables_outcome(t, i as nat) == ParseOutcome::Value(off),
            off <= t.len(),
            input.rest() == t.skip(off as int),
            input.pos == b0.pos + 4 + off,
            variables_are(t, vars@, i as nat),
        decreases len - i,
    {
        proof {
            if variable_outcome(t.skip(off as int)) is BadTag {
                lemma_variables_stuck(t, (i + 1) as nat, len as nat);
            }
        }
        let ghost before = *input;
        let v = match Variable::read(input) {
            Ok(v) => v,
            Err(e) => {
                proof {
                    lemma_variables_stuck(t, (i + 1) as nat, len as nat);
                }
                return Err(e);
            },
        };
        proof {
            let l = (input.pos - before.pos) as nat;
            lemma_rest_after(before, *input, l);
            lemma_skip_skip(t, off, l);
            off = off + l;
        }
        let ghost prev = vars@;
        vars.push(v);
        proof {
            lemma_variables_are_prefix(t, prev, vars@, i as nat);
        }
        i = i + 1;
    }
    proof {
        lemma_rest_after(b0, *input, 4 + off);
    }
    Ok(vars)
}

/// A node asset: its metadata, its parameters and its properties.
#[derive(Debug, PartialEq)]
pub struct Node {
    pub meta: AssetMeta,
    pub parameters: Vec<Variable>,
    pub properties: Vec<Variable>,
}

/// The outcomes of reading the parts of a node from `input`, one after the other.
pub open spec fn node_outcomes(input: Seq<u8>) -> (ParseOutcome, ParseOutcome, ParseOutcome) {
    let r1 = meta_outcome(input);
    let r2 = chain_outcome(r1, |o: nat| variable_list_outcome(input.skip(o as int)));
    let r3 = chain_outcome(r2, |o: nat| variable_list_outcome(input.skip(o as int)));
    (r1, r2, r3)
}

/// What reading a node from `input` gives.
pub open spec fn node_outcome(input: Seq<u8>) -> ParseOutcome {
    node_outcomes(input).2
}

/// Whether `n` is the node at the start of `input`.
pub open spec fn is_node(input: Seq<u8>, n: Node) -> bool {
    let (r1, r2, r3) = node_outcomes(input);
    &&& r3 is Value
    &&& is_meta(input, n.meta)
    &&& is_variable_list(input.skip(offset_of(r1) as int), n.parameters@)
    &&& is_variable_list(input.skip(offset_of(r2) as int), n.properties@)
}

impl Node {
    /// Reads a node: its metadata, then its parameters and its properties, each list a `u32`
    /// count and the variables.
    pub fn read(input: &mut ByteReader) -> (out: Result<Node, AssetError>)
        requires
            old(input).wf(),
            !(node_outcome(old(input).rest()) is BadTag),
        ensures
            final(input).wf(),
            final(input).data@ == old(input).data@,
            match out {
                Ok(n) => final(input).pos >= old(input).pos && node_outcome(old(input).rest()) == ParseOutcome::Value(
                    (final(input).pos - old(input).pos) as nat,
                ) && is_node(old(input).rest(), n),
                Err(e) => outcome_error(node_outcome(old(input).rest()), e),
            },
    {
        let ghost r0 = input.rest();
        let ghost b0 = *input;
        let meta = AssetMeta::read(input)?;
        proof {
            lemma_rest_after(b0, *input, offset_of(node_outcomes(r0).0));
        }
        let parameters = read_variables(input)?;
        proof {
            lemma_rest_after(b0, *input, offset_of(node_outcomes(r0).1));
        }
        let properties = read_variables(input)?;
        proof {
            lemma_rest_after(b0, *input, offset_of(node_outcomes(r0).2));
        }
        Ok(Node { meta, parameters, properties })
    }
}

/// Reads a node from the asset server's answer to a request to load it: a status byte, 0 for
/// success, then the node.
pub fn load_node(response: &[u8]) -> (out: Result<Node, AssetError>)
    requires
        response@.len() > 0 ==> response@[0] == 0,
        response@.len() > 0 ==> !(node_outcome(response@.skip(1)) is BadTag),
    ensures
        response@.len() == 0 ==> (out matches Err(e) && is_eof_error(e)),
        response@.len() > 0 ==> match out {
            Ok(n) => is_node(response@.skip(1), n),
            Err(e) => outcome_error(node_outcome(response@.skip(1)), e),
        },
{
    let mut input = ByteReader::new(response);
    let status = input.read_exact(1)?;
    proof {
        assert(input.rest() =~= response@.skip(1));
    }
    Ok(Node::read(&mut input)?)
}

} // verus!

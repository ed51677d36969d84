//! Which methods of a node definition run at each step of the node's update and render
//! cycle, from the methods carrying the node annotations.
use vstd::prelude::*;
use vstd::string::StringExecFns;
use crate::script_labels::SkyliteProcError;

verus! {

/// What is asked at a step of the cycle: a method of the node, or a constant answer.
#[derive(Debug, PartialEq)]
pub enum Hook<T> {
    Method(String),
    Constant(T),
}

/// The methods a node's generated code calls: before and after the update of its sub-nodes,
/// to render it, to ask whether it is visible and to ask its z-order.
#[derive(Debug)]
pub struct NodeHooks {
    pub pre_update: Option<String>,
    pub post_update: Option<String>,
    pub render: Option<String>,
    pub is_visible: Hook<bool>,
    pub z_order: Hook<i32>,
}

/// The message for a node that has both an update and a post-update method.
pub open spec fn same_meaning_message() -> Seq<char> {
    "Annotations skylite_proc::update and skylite_proc::post_update have the same meaning, only one must be given."@
}

/// Whether `out` is the plan for the annotated methods given: an error where both an update
/// and a post-update method are given (they mean the same); otherwise the update method, or
/// else the post-update one, runs after the sub-nodes; a node is visible by its visibility
/// method, or else exactly when it has a render method; its z-order is that of its z-order
/// method, or else 1.
pub open spec fn node_hooks_result(
    pre_update: Option<String>,
    update: Option<String>,
    post_update: Option<String>,
    render: Option<String>,
    is_visible: Option<String>,
    z_order: Option<String>,
    out: Result<NodeHooks, SkyliteProcError>,
) -> bool {
    if update is Some && post_update is Some {
        out matches Err(SkyliteProcError::DataError(m)) && m@ == same_meaning_message()
    } else {
        out matches Ok(h) && {
            &&& h.pre_update == pre_update
            &&& h.post_update == (if update is Some { update } else { post_update })
            &&& h.render == render
            &&& h.is_visible == (match is_visible {
                Some(m) => Hook::Method(m),
                None => Hook::Constant(render is Some),
            })
            &&& h.z_order == (match z_order {
                Some(m) => Hook::<i32>::Method(m),
                None => Hook::Constant(1i32),
            })
        }
    }
}

/// Decides which methods the generated code of a node calls, from the names of the methods
/// carrying each annotation.
pub fn node_hooks(
    pre_update: Option<String>,
    update: Option<String>,
    post_update: Option<String>,
    render: Option<String>,
    is_visible: Option<String>,
    z_order: Option<String>,
) -> (out: Result<NodeHooks, SkyliteProcError>)
    ensures
        node_hooks_result(pre_update, update, post_update, render, is_visible, z_order, out),
{
    if update.is_some() && post_update.is_some() {
        proof {
            reveal_strlit(
                "Annotations skylite_proc::update and skylite_proc::post_update have the same meaning, only one must be given.",
            );
        }
        return Err(
            SkyliteProcError::DataError(
                String::from_str(
                    "Annotations skylite_proc::update and skylite_proc::post_update have the same meaning, only one must be given.",
                ),
            ),
        );
    }
    let post = match update {
        Some(m) => Some(m),
        None => post_update,
    };
    let has_render = render.is_some();
    let visible = match is_visible {
        Some(m) => Hook::Method(m),
        None => Hook::Constant(has_render),
    };
    let z = match z_order {
        Some(m) => Hook::Method(m),
        None => Hook::Constant(1i32),
    };
    Ok(NodeHooks { pre_update, post_update: post, render, is_visible: visible, z_order: z })
}

} // verus!

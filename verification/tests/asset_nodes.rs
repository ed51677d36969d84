use lib::asset_nodes::{load_node, Node, Variable};
use lib::assets::{AssetError, AssetMeta, AssetType, Type};
use lib::base_serde::Serialize;

fn push_str(out: &mut Vec<u8>, s: &str) {
    s.to_owned().serialize(out).unwrap();
}

/// The answer of the asset server to a request for `node1` of the test project.
fn node_answer() -> Vec<u8> {
    let mut out = vec![0u8];
    5u32.serialize(&mut out).unwrap();
    push_str(&mut out, "node1");
    out.push(1);
    1u32.serialize(&mut out).unwrap();
    b"/p/nodes/node1.rkt".to_vec().serialize(&mut out).unwrap();
    2u32.serialize(&mut out).unwrap();
    push_str(&mut out, "param1");
    out.push(0);
    push_str(&mut out, "param2");
    out.push(11);
    2u32.serialize(&mut out).unwrap();
    push_str(&mut out, "prop1");
    out.push(8);
    push_str(&mut out, "prop2");
    out.push(10);
    out
}

#[test]
fn node_from_answer() {
    let node = load_node(&node_answer()).unwrap();
    assert_eq!(
        node,
        Node {
            meta: AssetMeta {
                id: 5,
                name: "node1".to_owned(),
                asset_type: AssetType::Node,
                tracked_paths: vec![b"/p/nodes/node1.rkt".to_vec()],
            },
            parameters: vec![
                Variable {
                    name: "param1".to_owned(),
                    vtype: Type::U8
                },
                Variable {
                    name: "param2".to_owned(),
                    vtype: Type::String
                },
            ],
            properties: vec![
                Variable {
                    name: "prop1".to_owned(),
                    vtype: Type::F32
                },
                Variable {
                    name: "prop2".to_owned(),
                    vtype: Type::Bool
                },
            ],
        }
    );
}

#[test]
fn truncated_node_is_an_io_error() {
    let answer = node_answer();
    assert!(matches!(
        load_node(&answer[..answer.len() - 1]),
        Err(AssetError::IOError(_))
    ));
    assert!(matches!(load_node(&[]), Err(AssetError::IOError(_))));
}

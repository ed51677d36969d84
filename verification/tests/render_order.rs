use lib::mock::{Call, MockTarget};
use lib::render_order::{render_order, WalkedNode};

fn match_call(call: &Call, expected: &str) -> bool {
    if let Call::Log { msg } = call {
        msg.as_str() == expected
    } else {
        false
    }
}

/// The nodes of the test project's root node, a basic node 1 with two sub-nodes and a list of
/// two more: (name, z-order, z-order node). Basic nodes have no render method, so they are not
/// visible and keep the default z-order 1.
const NODES: [(&str, i32, bool); 5] = [
    ("root", 1, false),
    ("sub1", 1, false),
    ("sub2", -1, true),
    ("list_item_1", 1, false),
    ("list_item_2", 2, true),
];

fn render(target: &mut MockTarget) {
    target.push_tag("root");
    target.log("pre_render");
    let walk: Vec<WalkedNode> = (1..NODES.len())
        .map(|id| WalkedNode { id, z_order: NODES[id].1, visible: NODES[id].2 })
        .collect();
    for (id, _) in render_order(&walk, (0, NODES[0].1)) {
        let (name, z_order, renders) = NODES[id];
        if renders {
            target.push_tag(name);
            target.log(&format!("z-order-node::render@{}", z_order));
            target.pop_tag();
        }
    }
    target.log("post_render");
    target.pop_tag();
}

#[test]
fn test_render_cycle() {
    let mut target = MockTarget::new();
    render(&mut target);
    let calls = target.get_calls_by_tag("root");
    assert_eq!(calls.len(), 4);
    assert!(match_call(&calls[0], "pre_render"));
    assert!(match_call(&calls[1], "z-order-node::render@-1"));
    assert!(match_call(&calls[2], "z-order-node::render@2"));
    assert!(match_call(&calls[3], "post_render"));
}

#[test]
fn nodes_render_by_z_order_later_ones_first_on_ties() {
    let walk = [
        WalkedNode { id: 1, z_order: 0, visible: true },
        WalkedNode { id: 2, z_order: -1, visible: true },
        WalkedNode { id: 3, z_order: 0, visible: true },
        WalkedNode { id: 4, z_order: 2, visible: true },
        WalkedNode { id: 5, z_order: -5, visible: false },
    ];
    assert_eq!(render_order(&walk, (0, 0)), vec![(2, -1), (0, 0), (3, 0), (1, 0), (4, 2)]);
    // The root is rendered even without sub-nodes.
    assert_eq!(render_order(&[], (9, 7)), vec![(9, 7)]);
}

use lib::node_hooks::{node_hooks, Hook};
use lib::script_labels::SkyliteProcError;

fn name(s: &str) -> Option<String> {
    Some(s.to_owned())
}

#[test]
fn update_and_post_update_mean_the_same() {
    match node_hooks(None, name("u"), name("p"), None, None, None) {
        Err(SkyliteProcError::DataError(m)) => assert_eq!(
            m,
            "Annotations skylite_proc::update and skylite_proc::post_update have the same meaning, only one must be given."
        ),
        _ => panic!("expected an error"),
    }
    let hooks = node_hooks(name("pre"), name("u"), None, None, None, None).unwrap();
    assert_eq!(hooks.pre_update, name("pre"));
    assert_eq!(hooks.post_update, name("u"));
    let hooks = node_hooks(None, None, name("p"), None, None, None).unwrap();
    assert_eq!(hooks.post_update, name("p"));
}

#[test]
fn visibility_and_z_order_have_defaults() {
    let hooks = node_hooks(None, None, None, name("render"), None, None).unwrap();
    assert_eq!(hooks.is_visible, Hook::Constant(true));
    assert_eq!(hooks.z_order, Hook::Constant(1));
    let hooks = node_hooks(None, None, None, None, None, name("z")).unwrap();
    assert_eq!(hooks.is_visible, Hook::Constant(false));
    assert_eq!(hooks.z_order, Hook::Method("z".to_owned()));
    let hooks = node_hooks(None, None, None, None, name("vis"), None).unwrap();
    assert_eq!(hooks.is_visible, Hook::Method("vis".to_owned()));
}

use lib::ecs::{check_distinct, Component, Entity};

#[derive(Debug, PartialEq)]
enum TestComponent {
    Component1(usize),
    Component2(usize),
}

impl Component for TestComponent {
    fn get_id(&self) -> usize {
        match self {
            TestComponent::Component1(_) => 1,
            TestComponent::Component2(_) => 2,
        }
    }
}

fn get_test_entities() -> Vec<Entity<TestComponent>> {
    let mut entities = vec![Entity::new(), Entity::new()];
    entities[0].add_component(TestComponent::Component1(5)).unwrap();
    entities[0].add_component(TestComponent::Component2(10)).unwrap();
    entities[1].add_component(TestComponent::Component1(20)).unwrap();
    entities
}

#[test]
fn test_components() {
    let entities = get_test_entities();
    assert_eq!(entities[0].get_component(1), Some(&TestComponent::Component1(5)));
    assert_eq!(entities[0].get_component(2), Some(&TestComponent::Component2(10)));
    assert_eq!(entities[1].get_component(1), Some(&TestComponent::Component1(20)));
    assert!(entities[1].get_component(2).is_none());
}

#[test]
fn components_can_be_changed_and_removed() {
    let mut entities = get_test_entities();
    if let Some(c) = entities[0].get_component_mut(2) {
        *c = TestComponent::Component2(11);
    }
    assert_eq!(entities[0].get_component(2), Some(&TestComponent::Component2(11)));
    assert!(entities[1].get_component_mut(2).is_none());

    entities[0].remove_component(1);
    assert!(entities[0].get_component(1).is_none());
    assert_eq!(entities[0].get_component(2), Some(&TestComponent::Component2(11)));
    // Removing a type the entity does not hold changes nothing.
    entities[1].remove_component(2);
    assert_eq!(entities[1].get_component(1), Some(&TestComponent::Component1(20)));
}

#[test]
fn a_second_component_of_a_type_is_refused() {
    let mut entities = get_test_entities();
    assert_eq!(
        entities[1].add_component(TestComponent::Component1(7)),
        Err(TestComponent::Component1(7))
    );
    assert_eq!(entities[1].get_component(1), Some(&TestComponent::Component1(20)));
}

#[test]
fn distinct_addresses() {
    assert!(check_distinct(&[]));
    assert!(check_distinct(&[1, 2, 3]));
    assert!(!check_distinct(&[1, 2, 1]));
    assert!(!check_distinct(&[4, 4]));
}

#[test]
fn components_are_added_under_the_given_type_number() {
    let mut entity: Entity<TestComponent> = Entity::new();
    assert_eq!(entity.add_component_with_id(7, TestComponent::Component1(1)), Ok(()));
    assert_eq!(
        entity.add_component_with_id(7, TestComponent::Component2(2)),
        Err(TestComponent::Component2(2))
    );
    assert_eq!(entity.get_component(7), Some(&TestComponent::Component1(1)));
    assert!(entity.get_component(1).is_none());
}

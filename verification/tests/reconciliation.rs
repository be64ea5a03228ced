//! Reconciliation behaviour observed through the runtime: identity
//! preservation, teardown on key removal, FIFO duplicate-key matching.

use ratatui_kit::element::{AnyElement, AnyProps, FragmentProps, StateTextProps};
use ratatui_kit::key::ElementKey;
use ratatui_kit::runtime::TreeRuntime;
use ratatui_kit::value::Value;

fn state_leaf(site: u64, init: i64) -> AnyElement {
    AnyElement::new(
        ElementKey::new(site),
        AnyProps::StateText(StateTextProps { init: Value::Int(init) }),
        vec![],
    )
}

fn state_leaf_keyed(key: ElementKey, init: i64) -> AnyElement {
    AnyElement::new(key, AnyProps::StateText(StateTextProps { init: Value::Int(init) }), vec![])
}

fn hook_int(rt: &TreeRuntime, idx: usize) -> i64 {
    match &rt.root_components().items[idx].hooks[0].value {
        Value::Int(v) => *v,
        _ => panic!("state cell does not hold an integer"),
    }
}

#[test]
fn identity_preserved_when_keys_unchanged() {
    let mut rt = TreeRuntime::new();
    rt.update(&vec![state_leaf(1, 10), state_leaf(2, 20)]);
    let id0 = rt.root_components().items[0].id;
    let id1 = rt.root_components().items[1].id;
    assert_eq!(hook_int(&rt, 0), 10);
    assert_eq!(hook_int(&rt, 1), 20);

    // Write into the second instance's state cell, then update with the
    // same keys but different props: the state must survive bit for bit.
    assert!(rt.write_state(&vec![1], 0, Value::Int(99)));
    rt.update(&vec![state_leaf(1, 777), state_leaf(2, 777)]);
    assert_eq!(rt.root_components().items[0].id, id0);
    assert_eq!(rt.root_components().items[1].id, id1);
    assert_eq!(hook_int(&rt, 0), 10);
    assert_eq!(hook_int(&rt, 1), 99);
    assert_eq!(rt.teardown_log().len(), 0);
}

#[test]
fn teardown_fires_exactly_once_on_key_removal() {
    let mut rt = TreeRuntime::new();
    rt.update(&vec![state_leaf(1, 1), state_leaf(2, 2)]);
    let removed_id = rt.root_components().items[1].id;
    assert!(rt.teardown_log().is_empty());

    rt.update(&vec![state_leaf(1, 1)]);
    let occurrences = rt.teardown_log().iter().filter(|&&id| id == removed_id).count();
    assert_eq!(occurrences, 1);
    assert_eq!(rt.root_components().items.len(), 1);
    assert!(rt.root_components().items.iter().all(|inst| inst.id != removed_id));

    // Further updates never log it again.
    rt.update(&vec![state_leaf(1, 1)]);
    let occurrences = rt.teardown_log().iter().filter(|&&id| id == removed_id).count();
    assert_eq!(occurrences, 1);
}

#[test]
fn duplicate_keys_match_fifo() {
    let key = ElementKey::new(7);
    let mut rt = TreeRuntime::new();
    rt.update(&vec![state_leaf_keyed(key, 10), state_leaf_keyed(key, 20)]);
    let first_id = rt.root_components().items[0].id;
    let second_id = rt.root_components().items[1].id;
    assert_eq!(hook_int(&rt, 0), 10);
    assert_eq!(hook_int(&rt, 1), 20);

    // Same two elements again: X goes to a, Y goes to b, in declaration
    // order, carrying their state.
    rt.update(&vec![state_leaf_keyed(key, 0), state_leaf_keyed(key, 0)]);
    assert_eq!(rt.root_components().items[0].id, first_id);
    assert_eq!(rt.root_components().items[1].id, second_id);
    assert_eq!(hook_int(&rt, 0), 10);
    assert_eq!(hook_int(&rt, 1), 20);
}

#[test]
fn type_change_forces_recreation() {
    let key = ElementKey::new(3);
    let mut rt = TreeRuntime::new();
    rt.update(&vec![state_leaf_keyed(key, 5)]);
    let old_id = rt.root_components().items[0].id;

    // Same key, different component type: the old instance is torn down
    // and a brand-new one created.
    rt.update(&vec![AnyElement::new(key, AnyProps::Fragment(FragmentProps {}), vec![])]);
    let new_id = rt.root_components().items[0].id;
    assert_ne!(old_id, new_id);
    assert_eq!(rt.teardown_log().iter().filter(|&&id| id == old_id).count(), 1);
}

#[test]
fn nested_children_reconcile() {
    let mut rt = TreeRuntime::new();
    let child_a = state_leaf(10, 1);
    let child_b = state_leaf(11, 2);
    let parent = AnyElement::new(
        ElementKey::new(1),
        AnyProps::Fragment(FragmentProps {}),
        vec![child_a, child_b],
    );
    rt.update(&vec![parent]);
    let parent_inst = &rt.root_components().items[0];
    assert_eq!(parent_inst.children.items.len(), 2);
    let nested_id = parent_inst.children.items[1].id;

    // Drop the second grandchild: its teardown is logged.
    let parent2 = AnyElement::new(
        ElementKey::new(1),
        AnyProps::Fragment(FragmentProps {}),
        vec![state_leaf(10, 1)],
    );
    rt.update(&vec![parent2]);
    assert_eq!(rt.teardown_log().iter().filter(|&&id| id == nested_id).count(), 1);
    assert_eq!(rt.root_components().items[0].children.items.len(), 1);
}

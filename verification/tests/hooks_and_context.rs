//! The hooks-rule invariant and context shadowing, driven through the
//! public hook cursor and context stack.

use ratatui_kit::context::{Context, ContextStack, CtxValue, SystemContext};
use ratatui_kit::hooks::{poll_hook_boxes, HookBox, HookError, Hooks};
use ratatui_kit::value::Value;

#[test]
fn hooks_register_in_order() {
    let mut h = Hooks::new(Vec::new(), true);
    assert_eq!(h.use_hook(7, Value::Int(1)), Ok(0));
    assert_eq!(h.use_hook(8, Value::Bool(true)), Ok(1));
    let boxes = h.into_boxes();
    assert_eq!(boxes.len(), 2);
    assert_eq!(boxes[0].tag, 7);
    assert_eq!(boxes[1].tag, 8);

    // The same registrations on a later update find the same boxes.
    let mut h2 = Hooks::new(boxes, false);
    assert_eq!(h2.use_hook(7, Value::Int(99)), Ok(0));
    assert_eq!(h2.use_hook(8, Value::Bool(false)), Ok(1));
    let boxes = h2.into_boxes();
    assert!(boxes[0].value.same_as(&Value::Int(1)));
    assert!(boxes[1].value.same_as(&Value::Bool(true)));
}

#[test]
fn hook_order_violation_is_reported() {
    let mut h = Hooks::new(Vec::new(), true);
    assert_eq!(h.use_hook(7, Value::Int(1)), Ok(0));
    assert_eq!(h.use_hook(8, Value::Int(2)), Ok(1));
    let boxes = h.into_boxes();

    // A later update that swaps the registration order is reported at
    // the first offending position, not silently tolerated.
    let mut h2 = Hooks::new(boxes, false);
    assert_eq!(
        h2.use_hook(8, Value::Int(0)),
        Err(HookError::TypeMismatch { index: 0, expected: 8, found: 7 })
    );
}

#[test]
fn hook_count_overflow_is_reported() {
    let mut h = Hooks::new(Vec::new(), true);
    assert_eq!(h.use_hook(7, Value::Int(1)), Ok(0));
    let boxes = h.into_boxes();

    let mut h2 = Hooks::new(boxes, false);
    assert_eq!(h2.use_hook(7, Value::Int(1)), Ok(0));
    assert_eq!(h2.use_hook(9, Value::Int(2)), Err(HookError::Missing { index: 1 }));
}

#[test]
fn hook_count_shortfall_is_reported() {
    let mut h = Hooks::new(Vec::new(), true);
    assert_eq!(h.use_hook(7, Value::Int(1)), Ok(0));
    assert_eq!(h.use_hook(8, Value::Int(2)), Ok(1));
    let (boxes, closed) = h.finish();
    assert_eq!(closed, Ok(()));

    // A later update that registers only one of the two hooks is a
    // violation too, reported when the sequence is closed.
    let mut h2 = Hooks::new(boxes, false);
    assert_eq!(h2.use_hook(7, Value::Int(0)), Ok(0));
    let (_, closed) = h2.finish();
    assert_eq!(closed, Err(HookError::Shortfall { registered: 1, stored: 2 }));
}

#[test]
fn hook_writes_surface_once_through_poll() {
    let mut h = Hooks::new(Vec::new(), true);
    let idx = h.use_hook(7, Value::Int(1)).unwrap();
    h.set_value(idx, Value::Int(2));
    let mut boxes = h.into_boxes();
    assert!(poll_hook_boxes(&mut boxes));
    assert!(!poll_hook_boxes(&mut boxes));
    assert!(boxes[0].value.same_as(&Value::Int(2)));
}

#[test]
fn context_shadowing_inner_frame_wins() {
    let mut stack = ContextStack::empty();
    stack.push_frame(Context::owned(42, Value::Int(1)));
    assert!(stack.get_context(42).unwrap().same_as(&Value::Int(1)));

    // An inner frame of the same type shadows the outer one for the
    // subtree's duration.
    stack.push_frame(Context::owned(42, Value::Int(2)));
    assert!(stack.get_context(42).unwrap().same_as(&Value::Int(2)));

    // After the subtree returns, the outer value is visible again.
    stack.pop_frame();
    assert!(stack.get_context(42).unwrap().same_as(&Value::Int(1)));
}

#[test]
fn unrelated_frames_coexist() {
    let mut stack = ContextStack::empty();
    stack.push_frame(Context::owned(1, Value::Int(10)));
    stack.push_frame(Context::owned(2, Value::Bool(true)));
    assert!(stack.get_context(1).unwrap().same_as(&Value::Int(10)));
    assert!(stack.get_context(2).unwrap().same_as(&Value::Bool(true)));
    assert!(stack.get_context(3).is_none());
}

#[test]
fn read_only_frames_reject_writes() {
    let mut stack = ContextStack::empty();
    stack.push_frame(Context::form_mut(5, Value::Int(1)));
    stack.push_frame(Context::form_ref(5, Value::Int(2)));
    // Lookup sees the inner read-only frame; a write skips it and lands
    // in the outer writable one.
    assert!(stack.get_context(5).unwrap().same_as(&Value::Int(2)));
    assert!(stack.set_context(5, Value::Int(7)));
    stack.pop_frame();
    assert!(stack.get_context(5).unwrap().same_as(&Value::Int(7)));
}

#[test]
fn downcasts_respect_tags_and_mutability() {
    let frame = Context::owned(9, Value::Int(3));
    assert!(frame.downcast_ref(9).unwrap().same_as(&Value::Int(3)));
    assert!(frame.downcast_ref(8).is_none());

    let mut read_only = Context::form_ref(9, Value::Int(3));
    assert!(!read_only.downcast_mut(9, Value::Int(4)));

    let mut writable = Context::form_mut(9, Value::Int(3));
    assert!(writable.downcast_mut(9, Value::Int(4)));
    assert!(writable.downcast_ref(9).unwrap().same_as(&Value::Int(4)));

    let borrowed = read_only.borrow();
    assert!(matches!(borrowed, Context::Ref(CtxValue { tag: 9, .. })));
}

#[test]
fn exit_request_travels_through_the_root_frame() {
    let mut stack = ContextStack::root();
    assert!(!stack.exit_requested());
    assert!(stack.request_exit());
    assert!(stack.exit_requested());

    let mut sys = SystemContext::new();
    assert!(!sys.should_exit());
    sys.exit();
    assert!(sys.should_exit());
}

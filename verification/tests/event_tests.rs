use acme_native::event::{
    Dispatch, EventPhase, EventResult, FocusManager, HitTestPath, PointerId,
};
use acme_native::tree::{NodeId, RetainedTree, ViewNode};

fn ids() -> (NodeId, NodeId, NodeId) {
    let mut t = RetainedTree::new();
    t.reconcile_roots(&[
        ViewNode::new("a", "x"),
        ViewNode::new("b", "x"),
        ViewNode::new("c", "x"),
    ])
    .unwrap();
    (t.roots()[0], t.roots()[1], t.roots()[2])
}

#[test]
fn focus_wraps_skips_and_cleans_capture() {
    let (a, b, c) = ids();
    let mut f = FocusManager::new();
    f.set_order(&[(a, true), (b, false), (c, true)]);
    assert_eq!(f.focus_next(false), Some(a));
    assert_eq!(f.focus_next(false), Some(c));
    f.capture_pointer(PointerId(1), c);
    f.remove_node(c);
    assert_eq!(f.focused(), None);
    assert_eq!(f.pointer_capture(PointerId(1)), None);
}

#[test]
fn focus_next_wraps_forward_and_backward() {
    let (a, b, c) = ids();
    let mut f = FocusManager::new();
    f.set_order(&[(a, true), (b, true), (c, true)]);
    assert_eq!(f.focus_next(true), Some(c));
    assert_eq!(f.focus_next(false), Some(a));
    assert_eq!(f.focus_next(true), Some(c));
    assert_eq!(f.focus_next(true), Some(b));
    assert_eq!(f.focus_next(false), Some(c));
}

#[test]
fn focus_next_with_no_eligible_node_clears_focus() {
    let (a, b, _) = ids();
    let mut f = FocusManager::new();
    f.set_order(&[(a, false), (b, false)]);
    assert_eq!(f.focus_next(false), None);
    assert_eq!(f.focused(), None);
}

#[test]
fn request_focus_only_for_eligible_nodes() {
    let (a, b, _) = ids();
    let mut f = FocusManager::new();
    f.set_order(&[(a, true), (b, false)]);
    assert!(!f.request_focus(b));
    assert_eq!(f.focused(), None);
    assert!(f.request_focus(a));
    assert_eq!(f.focused(), Some(a));
    f.set_order(&[(a, false), (b, true)]);
    assert_eq!(f.focused(), None);
    assert!(f.request_focus(b));
    f.clear_focus();
    assert_eq!(f.focused(), None);
}

#[test]
fn captures_are_per_pointer() {
    let (a, b, _) = ids();
    let mut f = FocusManager::new();
    f.capture_pointer(PointerId(1), a);
    f.capture_pointer(PointerId(2), b);
    f.capture_pointer(PointerId(3), a);
    assert_eq!(f.pointer_capture(PointerId(2)), Some(b));
    f.remove_node(a);
    assert_eq!(f.pointer_capture(PointerId(1)), None);
    assert_eq!(f.pointer_capture(PointerId(3)), None);
    assert_eq!(f.pointer_capture(PointerId(2)), Some(b));
    f.release_pointer(PointerId(2));
    assert_eq!(f.pointer_capture(PointerId(2)), None);
}

fn run(path: Vec<NodeId>, stop_at: Option<NodeId>) -> (Vec<(NodeId, EventPhase)>, EventResult) {
    let mut d = Dispatch::new(HitTestPath(path));
    let mut calls = vec![];
    while let Some((id, phase)) = d.next_call() {
        calls.push((id, phase));
        d.record(EventResult {
            stop_propagation: Some(id) == stop_at,
            prevent_default: phase == EventPhase::Target,
        });
    }
    (calls, d.result())
}

#[test]
fn event_order_and_stop() {
    let (a, b, c) = ids();
    let (calls, result) = run(vec![a, b, c], Some(c));
    assert_eq!(
        calls,
        vec![(a, EventPhase::Capture), (b, EventPhase::Capture), (c, EventPhase::Target)]
    );
    assert!(result.stop_propagation);
    assert!(result.prevent_default);
}

#[test]
fn full_dispatch_captures_then_bubbles() {
    let (a, b, c) = ids();
    let (calls, result) = run(vec![a, b, c], None);
    assert_eq!(
        calls,
        vec![
            (a, EventPhase::Capture),
            (b, EventPhase::Capture),
            (c, EventPhase::Target),
            (b, EventPhase::Bubble),
            (a, EventPhase::Bubble),
        ]
    );
    assert!(!result.stop_propagation);
    let (calls, result) = run(vec![], None);
    assert!(calls.is_empty());
    assert_eq!(result, EventResult::default());
}

#[test]
fn default_focus_manager_has_no_focus() {
    let f = acme_native::event::FocusManager::default();
    assert_eq!(f.focused(), None);
    assert_eq!(f.pointer_capture(acme_native::event::PointerId(1)), None);
}

#[test]
fn focus_forward_then_back_returns_to_the_same_node() {
    let (a, b, c) = ids();
    let mut f = FocusManager::new();
    f.set_order(&[(a, true), (b, false), (c, true)]);
    assert!(f.request_focus(c));
    assert_eq!(f.focus_next(false), Some(a));
    assert_eq!(f.focus_next(true), Some(c));
    assert_eq!(f.focus_next(true), Some(a));
    assert_eq!(f.focus_next(false), Some(c));
}

use acme_native::tree::{DirtyFlags, NodeId, RetainedTree, TreeError, ViewNode, WidgetKey};

#[test]
fn keyed_reorder_preserves_ids_and_removes_atomically() {
    let mut t = RetainedTree::new();
    t.reconcile_roots(&[
        ViewNode::new("a", "x").child(ViewNode::new("c", "x")),
        ViewNode::new("b", "x"),
    ])
    .unwrap();
    let a = t.roots()[0];
    let c = t.get(a).unwrap().children[0];
    let b = t.roots()[1];
    let r = t.reconcile_roots(&[ViewNode::new("b", "x")]).unwrap();
    assert_eq!(t.roots(), &[b]);
    assert!(r.removed.contains(&a) && r.removed.contains(&c));
    assert!(!t.contains(c));
}

#[test]
fn duplicate_keys_are_rejected() {
    let mut t = RetainedTree::new();
    assert!(matches!(
        t.reconcile_roots(&[ViewNode::new("x", "a"), ViewNode::new("x", "b")]),
        Err(TreeError::DuplicateSiblingKey(_))
    ));
}

#[test]
fn nested_duplicate_failure_does_not_mutate_tree() {
    let mut t = RetainedTree::new();
    t.reconcile_roots(&[ViewNode::new("root", "old")]).unwrap();
    let root = t.roots()[0];
    let result = t.reconcile_roots(&[ViewNode::new("new", "new")
        .child(ViewNode::new("same", "x"))
        .child(ViewNode::new("same", "x"))]);
    assert!(matches!(result, Err(TreeError::DuplicateSiblingKey(_))));
    assert_eq!(t.roots(), &[root]);
    assert_eq!(t.get(root).unwrap().kind, "old");
}

#[test]
fn layout_dirty_propagates_but_paint_does_not() {
    let mut t = RetainedTree::new();
    t.reconcile_roots(&[ViewNode::new("p", "x").child(ViewNode::new("c", "x"))])
        .unwrap();
    let p = t.roots()[0];
    let c = t.get(p).unwrap().children[0];
    t.clear_dirty(p);
    t.clear_dirty(c);
    t.mark_dirty(c, DirtyFlags::PAINT());
    assert!(t.get(c).unwrap().dirty.contains(DirtyFlags::PAINT()));
    assert!(t.get(p).unwrap().dirty.is_empty());
    t.mark_dirty(c, DirtyFlags::LAYOUT());
    assert!(t.get(p).unwrap().dirty.contains(DirtyFlags::LAYOUT()));
}

#[test]
fn first_ids_start_at_one_in_preorder() {
    let mut t = RetainedTree::new();
    let r = t
        .reconcile_roots(&[
            ViewNode::new("a", "x").child(ViewNode::new("a1", "x")),
            ViewNode::new("b", "x"),
        ])
        .unwrap();
    assert_eq!(r.mounted, vec![NodeId(1), NodeId(2), NodeId(3)]);
    assert!(r.reused.is_empty());
    assert!(r.removed.is_empty());
    assert_eq!(t.roots(), &[NodeId(1), NodeId(3)]);
    assert_eq!(t.get(NodeId(2)).unwrap().parent, Some(NodeId(1)));
    assert_eq!(t.get(NodeId(1)).unwrap().parent, None);
}

#[test]
fn reconciling_same_views_twice_keeps_every_id() {
    let views = [
        ViewNode::new("a", "x").child(ViewNode::new("a1", "y")),
        ViewNode::new("b", "x"),
    ];
    let mut t = RetainedTree::new();
    t.reconcile_roots(&views).unwrap();
    let before = t.roots().to_vec();
    let r = t.reconcile_roots(&views).unwrap();
    assert_eq!(t.roots(), before.as_slice());
    assert!(r.mounted.is_empty());
    assert!(r.removed.is_empty());
    assert_eq!(r.reused.len(), 3);
}

#[test]
fn new_nodes_start_fully_dirty_and_kind_change_marks_style() {
    let mut t = RetainedTree::new();
    t.reconcile_roots(&[ViewNode::new("a", "x")]).unwrap();
    let a = t.roots()[0];
    assert_eq!(t.get(a).unwrap().dirty, DirtyFlags(31));
    t.clear_dirty(a);
    t.reconcile_roots(&[ViewNode::new("a", "y")]).unwrap();
    assert_eq!(t.roots(), &[a]);
    assert_eq!(t.get(a).unwrap().dirty, DirtyFlags(15));
    assert_eq!(t.get(a).unwrap().kind, "y");
    t.clear_dirty(a);
    t.reconcile_roots(&[ViewNode::new("a", "y")]).unwrap();
    assert!(t.get(a).unwrap().dirty.is_empty());
}

#[test]
fn removed_lists_children_before_parent() {
    let mut t = RetainedTree::new();
    t.reconcile_roots(&[ViewNode::new("a", "x").child(ViewNode::new("c", "x"))])
        .unwrap();
    let r = t.reconcile_roots(&[]).unwrap();
    assert_eq!(r.removed, vec![NodeId(2), NodeId(1)]);
    assert!(t.roots().is_empty());
    assert!(!t.contains(NodeId(1)));
}

#[test]
fn mark_and_clear_unknown_nodes_report_false() {
    let mut t = RetainedTree::new();
    assert!(!t.mark_dirty(NodeId(9), DirtyFlags::PAINT()));
    assert!(!t.clear_dirty(NodeId(9)));
    assert!(t.get(NodeId(9)).is_none());
}

#[test]
fn children_flag_propagates_to_all_ancestors() {
    let mut t = RetainedTree::new();
    t.reconcile_roots(&[ViewNode::new("a", "x")
        .child(ViewNode::new("b", "x").child(ViewNode::new("c", "x")))])
        .unwrap();
    for id in 1..=3 {
        t.clear_dirty(NodeId(id));
    }
    assert!(t.mark_dirty(NodeId(3), DirtyFlags::CHILDREN()));
    assert_eq!(t.get(NodeId(1)).unwrap().dirty, DirtyFlags(16));
    assert_eq!(t.get(NodeId(2)).unwrap().dirty, DirtyFlags(16));
    assert_eq!(t.get(NodeId(3)).unwrap().dirty, DirtyFlags(16));
}

#[test]
fn dirty_flag_operations() {
    let mut f = DirtyFlags::NONE();
    assert!(f.is_empty());
    f.insert(DirtyFlags::STYLE());
    assert!(f.contains(DirtyFlags::STYLE()));
    assert!(!f.contains(DirtyFlags::SEMANTICS()));
    let g = f.union(DirtyFlags::SEMANTICS());
    assert_eq!(g, DirtyFlags(9));
}

#[test]
fn widget_key_round_trips() {
    let k = WidgetKey::new("hello");
    assert_eq!(k.as_str(), "hello");
    assert!(k.same_as(&WidgetKey::new("hello")));
    assert!(!k.same_as(&WidgetKey::new("world")));
    assert_eq!(NodeId::new(5).get(), 5);
}

#[test]
fn removing_a_node_removes_its_whole_subtree() {
    let mut t = RetainedTree::new();
    t.reconcile_roots(&[
        ViewNode::new("a", "x").child(ViewNode::new("b", "x").child(ViewNode::new("c", "x"))),
        ViewNode::new("d", "x"),
    ])
    .unwrap();
    let a = t.roots()[0];
    let b = t.get(a).unwrap().children[0];
    let c = t.get(b).unwrap().children[0];
    let d = t.roots()[1];
    let r = t.reconcile_roots(&[ViewNode::new("d", "x")]).unwrap();
    assert!(r.removed.contains(&a) && r.removed.contains(&b) && r.removed.contains(&c));
    assert!(!t.contains(a) && !t.contains(b) && !t.contains(c));
    assert_eq!(t.roots(), &[d]);
}

#[test]
fn surviving_child_keeps_its_parent() {
    let mut t = RetainedTree::new();
    t.reconcile_roots(&[ViewNode::new("p", "x").child(ViewNode::new("c", "x"))]).unwrap();
    let p = t.roots()[0];
    let c = t.get(p).unwrap().children[0];
    t.reconcile_roots(&[ViewNode::new("p", "y")
        .child(ViewNode::new("e", "x"))
        .child(ViewNode::new("c", "x"))])
        .unwrap();
    assert_eq!(t.roots(), &[p]);
    assert_eq!(t.get(c).unwrap().parent, Some(p));
    assert_eq!(t.get(p).unwrap().children[1], c);
}

#[test]
fn default_tree_is_empty() {
    let t = RetainedTree::default();
    assert!(t.roots().is_empty());
    assert!(!t.contains(NodeId::new(1)));
}

#[test]
fn mounted_and_reused_follow_preorder_without_repeats() {
    let mut t = RetainedTree::new();
    t.reconcile_roots(&[ViewNode::new("a", "x").child(ViewNode::new("a1", "x")), ViewNode::new("b", "x")])
        .unwrap();
    let r = t
        .reconcile_roots(&[
            ViewNode::new("c", "x").child(ViewNode::new("c1", "x")),
            ViewNode::new("a", "x").child(ViewNode::new("a2", "x")).child(ViewNode::new("a1", "x")),
        ])
        .unwrap();
    // Fresh ids continue from 4, in pre-order: c, c1, then a2 under a.
    assert_eq!(r.mounted, vec![NodeId(4), NodeId(5), NodeId(6)]);
    assert_eq!(r.reused, vec![NodeId(1), NodeId(2)]);
    assert_eq!(r.removed, vec![NodeId(3)]);
    assert_eq!(t.roots(), &[NodeId(4), NodeId(1)]);
}

use dag::node::{Node, NodeGraph, Pointer};

#[test]
fn node_new_has_no_children() {
    let node = Node::new(17);
    assert_eq!(node.val, 17);
    assert!(node.left.is_none());
    assert!(node.right.is_none());
    assert_eq!(node, Node { val: 17, left: Pointer(None), right: Pointer(None) });
}

#[test]
fn pointer_new_stores_in_successive_slots() {
    let mut graph = NodeGraph::new();
    assert_eq!(graph.len(), 0);
    let a = Pointer::new(&mut graph, Node::new(10));
    let b = Pointer::new(&mut graph, Node::new(20));
    assert_eq!(a, Pointer(Some(0)));
    assert_eq!(b, Pointer(Some(1)));
    assert_eq!(graph.len(), 2);
    assert_eq!(a.as_ref(&graph).val, 10);
    assert_eq!(b.as_ref(&graph).val, 20);
}

#[test]
fn pointer_is_none_tells_empty_from_set() {
    let mut graph = NodeGraph::new();
    let a = Pointer::new(&mut graph, Node::new(1));
    assert!(!a.is_none());
    assert!(Pointer(None).is_none());
}

#[test]
fn pointer_as_mut_ref_writes_the_named_node_only() {
    let mut graph = NodeGraph::new();
    let a = Pointer::new(&mut graph, Node::new(1));
    let b = Pointer::new(&mut graph, Node::new(2));
    a.as_mut_ref(&mut graph).left = b;
    a.as_mut_ref(&mut graph).right = a;
    assert_eq!(*a.as_ref(&graph), Node { val: 1, left: b, right: a });
    assert_eq!(*b.as_ref(&graph), Node::new(2));
}

#[test]
fn pointer_is_clone_of_is_identity_not_likeness() {
    let mut graph = NodeGraph::new();
    let a = Pointer::new(&mut graph, Node::new(5));
    let b = Pointer::new(&mut graph, Node::new(5));
    let a_again = a;
    assert!(a.is_clone_of(&a_again));
    assert!(a.is_clone_of(&a.clone()));
    assert!(!a.is_clone_of(&b));
    assert_eq!(a.as_ref(&graph), b.as_ref(&graph));
}

use doubly_linked_list::Node;

#[test]
fn new_node_holds_value_and_no_links() {
    let node = Node::new(42u32);
    assert_eq!(node.value, 42);
    assert!(node.next.is_none());
    assert!(node.prev.is_none());
}

#[test]
fn new_node_copies_the_value() {
    let value = (3u8, 'x');
    let node = Node::new(value);
    assert_eq!(node.value, value);
    assert_eq!(value, (3, 'x'));
}

#[test]
fn node_links_are_plain_fields() {
    let mut node = Node::new(-1i64);
    node.next = Some(4);
    node.prev = Some(2);
    assert_eq!(node.next, Some(4));
    assert_eq!(node.prev, Some(2));
    assert_eq!(node.value, -1);
}

use domdiff::Attribute;
use domdiff::Node;

#[test]
fn create_node() {
    let node = Node::new("test".to_string());

    assert_eq!(node.tag, "test".to_string());
}

#[test]
fn attrmap_insert_overwrite() {
    let mut node = Node::new("div".to_string());
    node.attributes.insert("class".to_string(), Attribute::String("a".to_string()));
    node.attributes.insert("class".to_string(), Attribute::String("b".to_string()));

    assert_eq!(node.attributes.len(), 1);
    match node.attributes.get(&"class".to_string()) {
        Some(Attribute::String(v)) => assert_eq!(v, "b"),
        _ => panic!("class attribute missing"),
    }
}

#[test]
fn attrmap_remove_absent_is_noop() {
    let mut node = Node::new("div".to_string());
    node.attributes.insert("id".to_string(), Attribute::Bool(true));
    node.attributes.remove(&"missing".to_string());

    assert_eq!(node.attributes.len(), 1);
}

#[test]
fn node_equality_ignores_attribute_order() {
    let mut a = Node::new("div".to_string());
    a.attributes.insert("x".to_string(), Attribute::Number(1.5f64.to_bits()));
    a.attributes.insert("y".to_string(), Attribute::Bool(false));

    let mut b = Node::new("div".to_string());
    b.attributes.insert("y".to_string(), Attribute::Bool(false));
    b.attributes.insert("x".to_string(), Attribute::Number(1.5f64.to_bits()));

    assert_eq!(a, b);
}

#[test]
fn node_equality_is_deep() {
    let mut a = Node::new("div".to_string());
    a.children.push(Node::new("span".to_string()));
    let mut b = Node::new("div".to_string());
    b.children.push(Node::new("p".to_string()));

    assert_ne!(a, b);
    assert_eq!(a.clone(), a);
}

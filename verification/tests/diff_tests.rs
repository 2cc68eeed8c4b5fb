use domdiff::diff;
use domdiff::Attribute;
use domdiff::Node;
use domdiff::Patch;

#[test]
fn diff_same() {
    let src = Node::new("test".to_string());
    let tar = src.clone();
    let patches = diff(src, tar);

    assert_eq!(patches.len(), 0);
}

#[test]
fn diff_simple_tag() {
    let src = Node::new("test".to_string());
    let tar = Node::new("text".to_string());
    let patches = diff(src, tar.clone());

    assert_eq!(patches.len(), 1);
    assert_eq!(patches[0], Patch::ReplaceNode(vec![], tar.clone()));
}

#[test]
fn diff_simple_attributes() {
    let mut src = Node::new("test".to_string());
    src.attributes.insert("type".to_string(), Attribute::String("test".to_string()));
    src.attributes.insert("only_src".to_string(), Attribute::Bool(true));

    let mut tar = Node::new("test".to_string());
    tar.attributes.insert("type".to_string(), Attribute::String("text".to_string()));
    tar.attributes.insert("only_tar".to_string(), Attribute::Bool(true));

    let patches = diff(src, tar);

    assert_eq!(patches.len(), 3);
    assert!(patches.contains(&Patch::SetAttribute(
        vec![],
        "type".to_string(),
        Attribute::String("text".to_string())
    )));
    assert!(patches.contains(&Patch::RemoveAttribute(vec![], "only_src".to_string())));
    assert!(patches.contains(&Patch::SetAttribute(
        vec![],
        "only_tar".to_string(),
        Attribute::Bool(true)
    )));
}

#[test]
fn diff_nested_tag() {
    let mut src = Node::new("test0".to_string());
    src.children.push(Node::new("test1".to_string()));
    src.children.push(Node::new("test2".to_string()));
    src.children.push(Node::new("test3".to_string()));

    let mut tar = Node::new("test0".to_string());
    tar.children.push(Node::new("test1".to_string()));
    tar.children.push(Node::new("test3".to_string()));

    let patches = diff(src.clone(), tar.clone());

    assert_eq!(patches.len(), 2);
    assert!(patches.contains(&Patch::RemoveNode(vec![2])));
    assert!(patches.contains(&Patch::ReplaceNode(vec![1], tar.children[1].clone())));
}

#[test]
fn diff_nested_attribute() {
    let mut src = Node::new("test".to_string());
    src.children.push(Node::new("test".to_string()));
    src.children.push(Node::new("test".to_string()));
    src.children.push(Node::new("test".to_string()));
    src.children[2].attributes.insert("type".to_string(), Attribute::String("test".to_string()));
    src.children[2].attributes.insert("only_src".to_string(), Attribute::Bool(true));

    let mut tar = Node::new("test".to_string());
    tar.children.push(Node::new("test".to_string()));
    tar.children.push(Node::new("test".to_string()));
    tar.children.push(Node::new("test".to_string()));
    tar.children[2].attributes.insert("type".to_string(), Attribute::String("text".to_string()));
    tar.children[2].attributes.insert("only_tar".to_string(), Attribute::Bool(true));

    let patches = diff(src.clone(), tar.clone());

    assert_eq!(patches.len(), 3);
    assert!(patches.contains(&Patch::SetAttribute(
        vec![2],
        "type".to_string(),
        Attribute::String("text".to_string())
    )));
    assert!(patches.contains(&Patch::RemoveAttribute(vec![2], "only_src".to_string())));
    assert!(patches.contains(&Patch::SetAttribute(
        vec![2],
        "only_tar".to_string(),
        Attribute::Bool(true)
    )));
}

#[test]
fn diff_number_attribute_change() {
    let mut src = Node::new("gauge".to_string());
    src.attributes.insert("value".to_string(), Attribute::Number(1.25f64.to_bits()));

    let mut tar = Node::new("gauge".to_string());
    tar.attributes.insert("value".to_string(), Attribute::Number(2.5f64.to_bits()));

    let patches = diff(src, tar);

    assert_eq!(patches.len(), 1);
    assert_eq!(
        patches[0],
        Patch::SetAttribute(vec![], "value".to_string(), Attribute::Number(2.5f64.to_bits()))
    );
}

#[test]
fn diff_extra_children_append() {
    let src = Node::new("list".to_string());
    let mut tar = Node::new("list".to_string());
    tar.children.push(Node::new("item0".to_string()));
    tar.children.push(Node::new("item1".to_string()));

    let patches = diff(src, tar.clone());

    assert_eq!(patches.len(), 2);
    assert_eq!(patches[0], Patch::AppendNode(vec![0], tar.children[0].clone()));
    assert_eq!(patches[1], Patch::AppendNode(vec![1], tar.children[1].clone()));
}

#[test]
fn diff_tag_mismatch_stops_recursion() {
    let mut src = Node::new("a".to_string());
    let mut deep_src = Node::new("b".to_string());
    deep_src.children.push(Node::new("c".to_string()));
    src.children.push(deep_src);

    let mut tar = Node::new("a".to_string());
    let mut deep_tar = Node::new("x".to_string());
    deep_tar.children.push(Node::new("y".to_string()));
    deep_tar.attributes.insert("k".to_string(), Attribute::Bool(true));
    tar.children.push(deep_tar);

    let patches = diff(src, tar.clone());

    assert_eq!(patches.len(), 1);
    assert_eq!(patches[0], Patch::ReplaceNode(vec![0], tar.children[0].clone()));
}

use domdiff::apply;
use domdiff::diff;
use domdiff::ApplyError;
use domdiff::Attribute;
use domdiff::Node;
use domdiff::Patch;

fn test_apply(src: Node, tar: Node) {
    let patches = diff(src.clone(), tar.clone());
    let update = apply(patches, src.clone()).unwrap();
    assert_eq!(tar.clone(), update);
}

#[test]
fn patch_empty() {
    let src = Node::new("test".to_string());
    let tar = src.clone();
    test_apply(src, tar);
}

#[test]
fn patch_simple() {
    let src = Node::new("test".to_string());
    let tar = Node::new("text".to_string());
    test_apply(src, tar);
}

#[test]
fn patch_nested() {
    let mut src = Node::new("test".to_string());
    src.children.push(Node::new("test".to_string()));
    src.children.push(Node::new("test".to_string()));
    src.children.push(Node::new("test".to_string()));
    src.children[2].attributes.insert("type".to_string(), Attribute::String("test".to_string()));
    src.children[2].attributes.insert("only_src".to_string(), Attribute::Bool(true));

    let mut tar = Node::new("test".to_string());
    tar.children.push(Node::new("test".to_string()));
    tar.children.push(Node::new("test".to_string()));
    tar.children.push(Node::new("test".to_string()));
    tar.children[2].attributes.insert("type".to_string(), Attribute::String("text".to_string()));
    tar.children[2].attributes.insert("only_tar".to_string(), Attribute::Bool(true));

    test_apply(src, tar);
}

#[test]
fn patch_multiple_removals_same_parent() {
    let mut src = Node::new("list".to_string());
    src.children.push(Node::new("item".to_string()));
    src.children.push(Node::new("item".to_string()));
    src.children.push(Node::new("item".to_string()));
    src.children.push(Node::new("item".to_string()));

    let mut tar = Node::new("list".to_string());
    tar.children.push(Node::new("item".to_string()));

    test_apply(src, tar);
}

#[test]
fn patch_nested_removals() {
    let mut src = Node::new("root".to_string());
    let mut left = Node::new("left".to_string());
    left.children.push(Node::new("a".to_string()));
    left.children.push(Node::new("b".to_string()));
    left.children.push(Node::new("c".to_string()));
    src.children.push(left);
    src.children.push(Node::new("right".to_string()));

    let mut tar = Node::new("root".to_string());
    let mut left2 = Node::new("left".to_string());
    left2.children.push(Node::new("a".to_string()));
    tar.children.push(left2);

    test_apply(src, tar);
}

#[test]
fn apply_remove_root_is_error() {
    let tree = Node::new("any".to_string());
    let result = apply(vec![Patch::RemoveNode(vec![])], tree);

    assert_eq!(result.unwrap_err(), ApplyError::RootRemoval);
}

#[test]
fn apply_append_targets_node_at_path() {
    let mut tree = Node::new("root".to_string());
    let mut first = Node::new("first".to_string());
    first.children.push(Node::new("old".to_string()));
    tree.children.push(first);
    tree.children.push(Node::new("second".to_string()));

    let new_child = Node::new("fresh".to_string());
    let result = apply(vec![Patch::AppendNode(vec![0], new_child.clone())], tree.clone()).unwrap();

    assert_eq!(result.children[0].children.len(), 2);
    assert_eq!(result.children[0].children[1], new_child);
    assert_eq!(result.children[1], tree.children[1]);
    assert_eq!(result.tag, tree.tag);
}

#[test]
fn apply_missing_parent_error() {
    let tree = Node::new("leaf".to_string());
    let result = apply(vec![Patch::RemoveNode(vec![5, 0])], tree);

    assert_eq!(result.unwrap_err(), ApplyError::MissingParent);
}

#[test]
fn apply_missing_child_error() {
    let mut tree = Node::new("root".to_string());
    tree.children.push(Node::new("only".to_string()));
    let result = apply(vec![Patch::RemoveNode(vec![3])], tree);

    assert_eq!(result.unwrap_err(), ApplyError::MissingChild);
}

#[test]
fn apply_missing_node_error() {
    let tree = Node::new("root".to_string());
    let result = apply(
        vec![Patch::SetAttribute(vec![7], "k".to_string(), Attribute::Bool(true))],
        tree,
    );

    assert_eq!(result.unwrap_err(), ApplyError::MissingNode);
}

#[test]
fn apply_replace_root() {
    let src = Node::new("old".to_string());
    let tar = Node::new("new".to_string());
    let result = apply(vec![Patch::ReplaceNode(vec![], tar.clone())], src).unwrap();

    assert_eq!(result, tar);
}

#[test]
fn apply_stops_at_first_error() {
    let src = Node::new("root".to_string());
    let result = apply(
        vec![
            Patch::RemoveNode(vec![9]),
            Patch::SetAttribute(vec![], "k".to_string(), Attribute::Bool(true)),
        ],
        src,
    );

    assert_eq!(result.unwrap_err(), ApplyError::MissingChild);
}

#[test]
fn apply_remove_attribute_absent_is_noop() {
    let mut src = Node::new("root".to_string());
    src.attributes.insert("keep".to_string(), Attribute::Bool(true));
    let result = apply(
        vec![Patch::RemoveAttribute(vec![], "absent".to_string())],
        src.clone(),
    )
    .unwrap();

    assert_eq!(result, src);
}

#[test]
fn append_script_from_diff_does_not_resolve() {
    let src = Node::new("list".to_string());
    let mut tar = Node::new("list".to_string());
    tar.children.push(Node::new("item".to_string()));

    let patches = diff(src.clone(), tar);
    let result = apply(patches, src);

    assert_eq!(result.unwrap_err(), ApplyError::MissingNode);
}

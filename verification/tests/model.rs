use lighthouse_protocol::Value;
use miracle::model::{Directory, DirectoryTree, Node, Resource};

fn names(path: &[&str]) -> Vec<String> {
    path.iter().map(|s| s.to_string()).collect()
}

fn resource_value(node: Option<&Node>) -> Option<Value> {
    node.and_then(|n| n.as_resource()).map(|r| r.value().clone())
}

fn listed<'a>(tree: &'a DirectoryTree, name: &str) -> Option<&'a Option<DirectoryTree>> {
    tree.entries.iter().find(|(n, _)| n == name).map(|(_, t)| t)
}

#[test]
fn new_resource_holds_nil() {
    let r = Resource::new();
    assert!(r.value().is_nil());
}

#[test]
fn resource_from_value_holds_it() {
    let r = Resource::from(Value::from(42));
    assert_eq!(r.value(), &Value::from(42));
}

#[test]
fn insert_then_get_and_remove() {
    let mut d = Directory::new();
    assert!(d.get("a").is_none());
    d.insert("a".to_string(), Node::Resource(Resource::from(Value::from(1))));
    assert_eq!(resource_value(d.get("a")), Some(Value::from(1)));
    d.remove("a");
    assert!(d.get("a").is_none());
}

#[test]
fn insert_replaces_child_of_same_name() {
    let mut d = Directory::new();
    d.insert("a".to_string(), Node::Resource(Resource::from(Value::from(1))));
    d.insert("a".to_string(), Node::Resource(Resource::from(Value::from(2))));
    assert_eq!(resource_value(d.get("a")), Some(Value::from(2)));
    assert_eq!(d.list_tree().entries.len(), 1);
}

#[test]
fn remove_of_absent_name_changes_nothing() {
    let mut d = Directory::new();
    d.insert("a".to_string(), Node::Directory(Directory::new()));
    d.remove("b");
    assert!(d.get("a").is_some());
    assert_eq!(d.list_tree().entries.len(), 1);
}

#[test]
fn get_mut_changes_child_in_place() {
    let mut d = Directory::new();
    d.insert("a".to_string(), Node::Resource(Resource::new()));
    *d.get_mut("a").unwrap() = Node::Resource(Resource::from(Value::from("x")));
    assert_eq!(resource_value(d.get("a")), Some(Value::from("x")));
    assert!(d.get_mut("b").is_none());
}

fn sample() -> Directory {
    let mut inner = Directory::new();
    inner.insert("leaf".to_string(), Node::Resource(Resource::from(Value::from(7))));
    inner.insert("sub".to_string(), Node::Directory(Directory::new()));
    let mut root = Directory::new();
    root.insert("dir".to_string(), Node::Directory(inner));
    root.insert("top".to_string(), Node::Resource(Resource::new()));
    root
}

#[test]
fn descendant_follows_the_path() {
    let root = sample();
    assert_eq!(resource_value(root.descendant(&names(&["dir", "leaf"]))), Some(Value::from(7)));
    assert!(root.descendant(&names(&["dir"])).unwrap().as_directory().is_some());
    assert!(root.descendant(&names(&["dir", "missing"])).is_none());
    assert!(root.descendant(&names(&["top", "below"])).is_none());
    assert!(root.descendant(&names(&["nowhere", "leaf"])).is_none());
}

#[test]
fn descendant_directory_of_empty_path_is_self() {
    let root = sample();
    let d = root.descendant_directory(&[]).unwrap();
    assert_eq!(d.list_tree().entries.len(), 2);
    assert!(root.descendant_directory(&names(&["dir", "sub"])).is_some());
    assert!(root.descendant_directory(&names(&["dir", "leaf"])).is_none());
    assert!(root.descendant_directory(&names(&["x"])).is_none());
}

#[test]
fn descendant_mut_changes_nested_node() {
    let mut root = sample();
    *root.descendant_mut(&names(&["dir", "leaf"])).unwrap() = Node::Resource(Resource::from(Value::from(8)));
    assert_eq!(resource_value(root.descendant(&names(&["dir", "leaf"]))), Some(Value::from(8)));
    assert_eq!(resource_value(root.descendant(&names(&["top"]))), Some(Value::Nil));
    assert!(root.descendant_mut(&names(&["top", "x"])).is_none());
}

#[test]
fn descendant_directory_mut_inserts_below() {
    let mut root = sample();
    root.descendant_directory_mut(&names(&["dir", "sub"]))
        .unwrap()
        .insert("new".to_string(), Node::Resource(Resource::from(Value::from(true))));
    assert_eq!(resource_value(root.descendant(&names(&["dir", "sub", "new"]))), Some(Value::from(true)));
    root.descendant_directory_mut(&[]).unwrap().remove("top");
    assert!(root.get("top").is_none());
    assert!(root.descendant_directory_mut(&names(&["top"])).is_none());
}

#[test]
fn node_views() {
    let mut node = Node::Directory(Directory::new());
    assert!(node.as_resource().is_none());
    node.as_directory_mut().unwrap().insert("c".to_string(), Node::Resource(Resource::new()));
    assert!(node.as_directory().unwrap().get("c").is_some());
    let mut res = Node::Resource(Resource::new());
    assert!(res.as_directory().is_none());
    assert!(res.as_directory_mut().is_none());
    assert!(res.as_resource().unwrap().value().is_nil());
}

#[test]
fn list_tree_shows_the_shape() {
    let root = sample();
    let tree = root.list_tree();
    assert_eq!(tree.entries.len(), 2);
    assert!(matches!(listed(&tree, "top"), Some(None)));
    let dir = listed(&tree, "dir").unwrap().as_ref().unwrap();
    assert_eq!(dir.entries.len(), 2);
    assert!(matches!(listed(dir, "leaf"), Some(None)));
    let sub = listed(dir, "sub").unwrap().as_ref().unwrap();
    assert!(sub.entries.is_empty());
    assert!(listed(&tree, "leaf").is_none());
}

#[test]
fn resource_from_integers_and_strings() {
    assert_eq!(Resource::from(5u8).value(), &Value::from(5u8));
    assert_eq!(Resource::from(500u16).value(), &Value::from(500));
    assert_eq!(Resource::from(70000u32).value(), &Value::from(70000));
    assert_eq!(Resource::from(u64::MAX).value(), &Value::from(u64::MAX));
    assert_eq!(Resource::from(9usize).value(), &Value::from(9));
    assert_eq!(Resource::from(-5i8).value(), &Value::from(-5));
    assert_eq!(Resource::from(-500i16).value(), &Value::from(-500));
    assert_eq!(Resource::from(-70000i32).value(), &Value::from(-70000));
    assert_eq!(Resource::from(i64::MIN).value(), &Value::from(i64::MIN));
    assert_eq!(Resource::from(-9isize).value(), &Value::from(-9));
    assert_eq!(Resource::from("text".to_string()).value(), &Value::from("text"));
    assert_eq!(Resource::from("slice").value(), &Value::from("slice"));
    assert!(!Resource::from(0u8).value().is_nil());
}

#[test]
fn clones_are_independent_copies() {
    let root = sample();
    let mut copy = root.clone();
    assert_eq!(resource_value(copy.descendant(&names(&["dir", "leaf"]))), Some(Value::from(7)));
    copy.remove("dir");
    assert!(copy.get("dir").is_none());
    assert!(root.get("dir").is_some());
    let node = Node::Directory(sample());
    let node_copy = node.clone();
    assert_eq!(node_copy.as_directory().unwrap().list_tree().entries.len(), 2);
    let r = Resource::from(Value::from("v"));
    assert_eq!(r.clone().value(), &Value::from("v"));
}

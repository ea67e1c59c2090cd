use lighthouse_protocol::Value;
use miracle::model::{Directory, Node, Resource};
use miracle::state::{State, StateError};

fn names(path: &[&str]) -> Vec<String> {
    path.iter().map(|s| s.to_string()).collect()
}

#[test]
fn fresh_state_has_nothing() {
    let s = State::new();
    assert_eq!(s.path_exists(&names(&["a"])).unwrap(), false);
    assert!(matches!(s.get(&names(&["a"])), Err(StateError::NotFound)));
    assert!(matches!(s.list_tree(&names(&["a"])), Err(StateError::NotFound)));
}

#[test]
fn get_gives_back_what_insert_wrote() {
    let mut s = State::new();
    s.insert_resource(&names(&["a"]), Resource::from(Value::from(5))).unwrap();
    assert_eq!(s.get(&names(&["a"])).unwrap(), Value::from(5));
    s.insert_resource(&names(&["a"]), Resource::from(Value::from("six"))).unwrap();
    assert_eq!(s.get(&names(&["a"])).unwrap(), Value::from("six"));
    assert!(s.path_exists(&names(&["a"])).unwrap());
}

#[test]
fn insert_needs_a_parent_directory() {
    let mut s = State::new();
    match s.insert_resource(&names(&["x", "y", "z"]), Resource::new()) {
        Err(StateError::ParentMissing(p)) => assert_eq!(p, names(&["x", "y"])),
        other => panic!("unexpected {:?}", other),
    }
    s.insert_resource(&names(&["r"]), Resource::new()).unwrap();
    match s.insert_directory(&names(&["r", "d"]), Directory::new()) {
        Err(StateError::ParentIsResource(p)) => assert_eq!(p, names(&["r"])),
        other => panic!("unexpected {:?}", other),
    }
    match s.remove(&names(&["r", "d"])) {
        Err(StateError::ParentIsResource(p)) => assert_eq!(p, names(&["r"])),
        other => panic!("unexpected {:?}", other),
    }
    assert!(!s.path_exists(&names(&["x"])).unwrap());
}

#[test]
fn insert_keeps_other_paths() {
    let mut s = State::new();
    s.insert_directory(&names(&["d"]), Directory::new()).unwrap();
    s.insert_resource(&names(&["d", "a"]), Resource::from(Value::from(1))).unwrap();
    s.insert_resource(&names(&["d", "b"]), Resource::from(Value::from(2))).unwrap();
    s.insert_resource(&names(&["top"]), Resource::from(Value::from(3))).unwrap();
    assert_eq!(s.get(&names(&["d", "a"])).unwrap(), Value::from(1));
    assert_eq!(s.get(&names(&["d", "b"])).unwrap(), Value::from(2));
}

#[test]
fn insert_directory_overrides_what_was_there() {
    let mut s = State::new();
    s.insert_directory(&names(&["d"]), Directory::new()).unwrap();
    s.insert_resource(&names(&["d", "a"]), Resource::new()).unwrap();
    s.insert_directory(&names(&["d"]), Directory::new()).unwrap();
    assert!(!s.path_exists(&names(&["d", "a"])).unwrap());
    assert!(s.list_tree(&names(&["d"])).unwrap().entries.is_empty());
}

#[test]
fn nothing_is_left_after_remove() {
    let mut s = State::new();
    s.insert_directory(&names(&["d"]), Directory::new()).unwrap();
    s.insert_resource(&names(&["d", "a"]), Resource::new()).unwrap();
    s.remove(&names(&["d"])).unwrap();
    assert!(!s.path_exists(&names(&["d"])).unwrap());
    assert!(!s.path_exists(&names(&["d", "a"])).unwrap());
    assert!(matches!(s.get(&names(&["d", "a"])), Err(StateError::NotFound)));
}

#[test]
fn remove_undoes_insert() {
    let mut s = State::new();
    s.insert_resource(&names(&["keep"]), Resource::new()).unwrap();
    s.insert_resource(&names(&["tmp"]), Resource::new()).unwrap();
    s.remove(&names(&["tmp"])).unwrap();
    assert!(!s.path_exists(&names(&["tmp"])).unwrap());
    assert!(s.path_exists(&names(&["keep"])).unwrap());
}

#[test]
fn remove_of_absent_child_succeeds() {
    let mut s = State::new();
    assert!(s.remove(&names(&["nothing"])).is_ok());
}

#[test]
fn new_directory_lists_empty_and_takes_children() {
    let mut s = State::new();
    s.insert_directory(&names(&["d"]), Directory::new()).unwrap();
    assert!(s.list_tree(&names(&["d"])).unwrap().entries.is_empty());
    assert!(s.insert_resource(&names(&["d", "x"]), Resource::new()).is_ok());
    let t = s.list_tree(&names(&["d"])).unwrap();
    assert_eq!(t.entries.len(), 1);
    assert_eq!(t.entries[0].0, "x");
    assert!(t.entries[0].1.is_none());
}

#[test]
fn get_and_list_refuse_the_wrong_kind() {
    let mut s = State::new();
    s.insert_directory(&names(&["d"]), Directory::new()).unwrap();
    s.insert_resource(&names(&["r"]), Resource::new()).unwrap();
    assert!(matches!(s.get(&names(&["d"])), Err(StateError::NotAResource)));
    assert!(matches!(s.list_tree(&names(&["r"])), Err(StateError::NotADirectory)));
    assert!(s.get(&names(&["r"])).unwrap().is_nil());
    let _ = Node::Directory(Directory::new());
}

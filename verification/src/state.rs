use vstd::prelude::*;

use lighthouse_protocol::Value;

use crate::model::{
    entry_of, kind_of, lemma_removed_below_parent, lemma_removed_child, lemma_replaced_at_child,
    lemma_replaced_below_parent, path_view, removed_at, replaced_at, Directory, DirectoryTree,
    Node, Resource,
};

verus! {

/// Why an operation on the tree failed.
#[derive(Debug)]
pub enum StateError {
    /// The path without its last name leads nowhere; it holds that path.
    ParentMissing(Vec<String>),
    /// The path without its last name leads to a resource; it holds that path.
    ParentIsResource(Vec<String>),
    /// The path leads nowhere.
    NotFound,
    /// The path leads to a directory where a resource was asked for.
    NotAResource,
    /// The path leads to a resource where a directory was asked for.
    NotADirectory,
}

/// The path without its last name.
pub open spec fn parent_path(p: Seq<Seq<char>>) -> Seq<Seq<char>> {
    p.drop_last()
}

/// The path without its last name leads to a directory of `tree` (the
/// empty path leads to `tree` itself).
pub open spec fn has_parent(tree: Directory, p: Seq<Seq<char>>) -> bool {
    parent_path(p).len() == 0 || tree.lookup(parent_path(p)) matches Some(Node::Directory(_))
}

/// `e` is the error that an operation on the non-empty path `p` reports when
/// `p` without its last name does not lead to a directory of `tree`.
pub open spec fn is_parent_error(tree: Directory, p: Seq<Seq<char>>, e: StateError) -> bool {
    match tree.lookup(parent_path(p)) {
        None => e matches StateError::ParentMissing(v) && path_view(v@) == parent_path(p),
        Some(_) => e matches StateError::ParentIsResource(v) && path_view(v@) == parent_path(p),
    }
}

/// A copy of the path.
pub(crate) fn path_to_vec(path: &[String]) -> (v: Vec<String>)
    ensures
        v@ == path@,
{
    let mut v: Vec<String> = Vec::new();
    let mut i: usize = 0;
    while i < path.len()
        invariant
            i <= path@.len(),
            v@ == path@.subrange(0, i as int),
        decreases path@.len() - i,
    {
        v.push(path[i].clone());
        i = i + 1;
        assert(v@ =~= path@.subrange(0, i as int));
    }
    assert(v@ =~= path@);
    v
}

proof fn lemma_parent_view(path: Seq<String>)
    requires
        path.len() > 0,
    ensures
        path_view(path.subrange(0, path.len() - 1)) == parent_path(path_view(path)),
        parent_path(path_view(path)).push(path[path.len() - 1]@) == path_view(path),
        path_view(path).len() == path.len(),
{
    assert(path_view(path.subrange(0, path.len() - 1)) =~= parent_path(path_view(path)));
    assert(parent_path(path_view(path)).push(path[path.len() - 1]@) =~= path_view(path));
}

/// The tree of directories and resources that all clients share.
pub struct State {
    tree: Directory,
}

impl View for State {
    type V = Directory;

    closed spec fn view(&self) -> Directory {
        self.tree
    }
}

impl State {
    /// A state whose tree is an empty directory.
    pub fn new() -> (s: Self)
        ensures
            s@@ == Map::<Seq<char>, Node>::empty(),
    {
        State { tree: Directory::new() }
    }

    /// The directory that holds the last name of the non-empty `path`, with
    /// that name.
    fn split_lookup<'a, 'b>(tree: &'a mut Directory, path: &'b [String]) -> (r: Result<
        (&'a mut Directory, &'b String),
        StateError,
    >)
        requires
            path@.len() > 0,
        ensures
            r is Ok <==> has_parent(*old(tree), path_view(path@)),
            r is Ok ==> *r->Ok_0.1 == path@.last(),
            r is Ok && parent_path(path_view(path@)).len() == 0 ==> *r->Ok_0.0 == *old(tree)
                && *final(tree) == *final(r->Ok_0.0),
            r is Ok && parent_path(path_view(path@)).len() > 0 ==> old(tree).lookup(
                parent_path(path_view(path@)),
            ) == Some(Node::Directory(*r->Ok_0.0)) && replaced_at(
                *old(tree),
                *final(tree),
                parent_path(path_view(path@)),
                Node::Directory(*final(r->Ok_0.0)),
            ),
            r matches Err(e) ==> *final(tree) == *old(tree) && is_parent_error(
                *old(tree),
                path_view(path@),
                e,
            ),
    {
        proof {
            lemma_parent_view(path@);
        }
        let parent = &path[0..path.len() - 1];
        let name = &path[path.len() - 1];
        if parent.len() == 0 {
            return Ok((tree, name));
        }
        match tree.descendant(parent) {
            None => {
                return Err(StateError::ParentMissing(path_to_vec(parent)));
            },
            Some(Node::Resource(_)) => {
                return Err(StateError::ParentIsResource(path_to_vec(parent)));
            },
            Some(Node::Directory(_)) => {},
        }
        match tree.descendant_directory_mut(parent) {
            Some(dir) => Ok((dir, name)),
            None => Err(StateError::ParentMissing(path_to_vec(parent))),
        }
    }
}

impl State {
    /// Whether the non-empty `path` leads to a node.
    pub fn path_exists(&self, path: &[String]) -> (r: Result<bool, StateError>)
        requires
            path@.len() > 0,
        ensures
            r == Ok::<bool, StateError>(self@.lookup(path_view(path@)) is Some),
    {
        Ok(self.tree.descendant(path).is_some())
    }

    /// Puts `node` at the non-empty `path`, in place of what was there.
    fn insert_node(&mut self, path: &[String], node: Node) -> (r: Result<(), StateError>)
        requires
            path@.len() > 0,
        ensures
            r is Ok <==> has_parent(old(self)@, path_view(path@)),
            r is Ok ==> replaced_at(old(self)@, final(self)@, path_view(path@), node),
            r matches Err(e) ==> *final(self) == *old(self) && is_parent_error(
                old(self)@,
                path_view(path@),
                e,
            ),
    {
        proof {
            lemma_parent_view(path@);
        }
        let ghost before = self.tree;
        let ghost p = path_view(path@);
        match Self::split_lookup(&mut self.tree, path) {
            Ok((parent, name)) => {
                let ghost parent_before = *parent;
                parent.insert(name.clone(), node);
                let ghost parent_after = *parent;
                proof {
                    if parent_path(p).len() > 0 {
                        lemma_replaced_below_parent(
                            before,
                            self.tree,
                            parent_path(p),
                            parent_before,
                            parent_after,
                            name@,
                            node,
                        );
                    } else {
                        assert(p =~= seq![name@]);
                        lemma_replaced_at_child(before, self.tree, p, node);
                    }
                }
                Ok(())
            },
            Err(e) => Err(e),
        }
    }

    /// Puts `resource` at the non-empty `path`, in place of what was there.
    pub fn insert_resource(&mut self, path: &[String], resource: Resource) -> (r: Result<(), StateError>)
        requires
            path@.len() > 0,
        ensures
            r is Ok <==> has_parent(old(self)@, path_view(path@)),
            r is Ok ==> replaced_at(old(self)@, final(self)@, path_view(path@), Node::Resource(resource)),
            r matches Err(e) ==> *final(self) == *old(self) && is_parent_error(
                old(self)@,
                path_view(path@),
                e,
            ),
    {
        self.insert_node(path, Node::Resource(resource))
    }

    /// Puts `directory` at the non-empty `path`, in place of what was there.
    pub fn insert_directory(&mut self, path: &[String], directory: Directory) -> (r: Result<(), StateError>)
        requires
            path@.len() > 0,
        ensures
            r is Ok <==> has_parent(old(self)@, path_view(path@)),
            r is Ok ==> replaced_at(old(self)@, final(self)@, path_view(path@), Node::Directory(directory)),
            r matches Err(e) ==> *final(self) == *old(self) && is_parent_error(
                old(self)@,
                path_view(path@),
                e,
            ),
    {
        self.insert_node(path, Node::Directory(directory))
    }

    /// Removes what the non-empty `path` leads to, if anything.
    pub fn remove(&mut self, path: &[String]) -> (r: Result<(), StateError>)
        requires
            path@.len() > 0,
        ensures
            r is Ok <==> has_parent(old(self)@, path_view(path@)),
            r is Ok ==> removed_at(old(self)@, final(self)@, path_view(path@)),
            r matches Err(e) ==> *final(self) == *old(self) && is_parent_error(
                old(self)@,
                path_view(path@),
                e,
            ),
    {
        proof {
            lemma_parent_view(path@);
        }
        let ghost before = self.tree;
        let ghost p = path_view(path@);
        match Self::split_lookup(&mut self.tree, path) {
            Ok((parent, name)) => {
                let ghost parent_before = *parent;
                parent.remove(name.as_str());
                let ghost parent_after = *parent;
                proof {
                    if parent_path(p).len() > 0 {
                        lemma_removed_below_parent(
                            before,
                            self.tree,
                            parent_path(p),
                            parent_before,
                            parent_after,
                            name@,
                        );
                    } else {
                        assert(p =~= seq![name@]);
                        lemma_removed_child(before, self.tree, name@);
                    }
                }
                Ok(())
            },
            Err(e) => Err(e),
        }
    }

    /// The value of the resource that the non-empty `path` leads to.
    pub fn get(&self, path: &[String]) -> (r: Result<Value, StateError>)
        requires
            path@.len() > 0,
        ensures
            match self@.lookup(path_view(path@)) {
                None => r matches Err(StateError::NotFound),
                Some(Node::Directory(_)) => r matches Err(StateError::NotAResource),
                Some(Node::Resource(res)) => r == Ok::<Value, StateError>(res@),
            },
    {
        match self.tree.descendant(path) {
            None => Err(StateError::NotFound),
            Some(node) => match node.as_resource() {
                None => Err(StateError::NotAResource),
                Some(res) => Ok(res.value().clone()),
            },
        }
    }

    /// The listing of the directory that the non-empty `path` leads to.
    pub fn list_tree(&self, path: &[String]) -> (r: Result<DirectoryTree, StateError>)
        requires
            path@.len() > 0,
        ensures
            match self@.lookup(path_view(path@)) {
                None => r matches Err(StateError::NotFound),
                Some(Node::Resource(_)) => r matches Err(StateError::NotADirectory),
                Some(Node::Directory(d)) => r matches Ok(t) && t.lists(d),
            },
    {
        match self.tree.descendant(path) {
            None => Err(StateError::NotFound),
            Some(node) => match node.as_directory() {
                None => Err(StateError::NotADirectory),
                Some(dir) => Ok(dir.list_tree()),
            },
        }
    }
}

/// A read gives back what a write wrote: once `insert_resource` has put `r`
/// at `path`, `path` leads to a resource holding `r`'s value.
pub proof fn lemma_get_after_insert(before: Directory, after: Directory, path: Seq<Seq<char>>, r: Resource)
    requires
        path.len() > 0,
        replaced_at(before, after, path, Node::Resource(r)),
    ensures
        after.lookup(path) matches Some(Node::Resource(res)) && res@ == r@,
{
    assert(path.is_prefix_of(path));
    assert(path.skip(path.len() as int).len() == 0);
    assert(entry_of(after.lookup(path)) == entry_of(Node::Resource(r).lookup(path.skip(path.len() as int))));
}

/// An insertion changes nothing outside the path it inserts at.
pub proof fn lemma_insert_keeps_others(
    before: Directory,
    after: Directory,
    path: Seq<Seq<char>>,
    node: Node,
    other: Seq<Seq<char>>,
)
    requires
        replaced_at(before, after, path, node),
        other.len() > 0,
        !path.is_prefix_of(other),
    ensures
        entry_of(after.lookup(other)) == entry_of(before.lookup(other)),
{
    assert(entry_of(after.lookup(other)) == entry_of(before.lookup(other)));
}

/// After an insertion the path exists, whatever node was inserted.
pub proof fn lemma_exists_after_insert(before: Directory, after: Directory, path: Seq<Seq<char>>, node: Node)
    requires
        path.len() > 0,
        replaced_at(before, after, path, node),
    ensures
        after.lookup(path) is Some,
{
    assert(path.is_prefix_of(path));
    assert(path.skip(path.len() as int).len() == 0);
    assert(entry_of(after.lookup(path)) == entry_of(node.lookup(path.skip(path.len() as int))));
}

/// After a removal neither the path nor anything below it exists.
pub proof fn lemma_gone_after_remove(before: Directory, after: Directory, path: Seq<Seq<char>>, below: Seq<Seq<char>>)
    requires
        path.len() > 0,
        removed_at(before, after, path),
    ensures
        after.lookup(path + below) is None,
{
    let q = path + below;
    assert(path =~= q.subrange(0, path.len() as int));
    assert(entry_of(after.lookup(q)) is None);
}

/// A removal undoes an insertion at the same path: inserting and then
/// removing leaves the tree as removing alone would.
pub proof fn lemma_remove_undoes_insert(
    before: Directory,
    middle: Directory,
    after: Directory,
    path: Seq<Seq<char>>,
    node: Node,
)
    requires
        replaced_at(before, middle, path, node),
        removed_at(middle, after, path),
    ensures
        removed_at(before, after, path),
{
    assert forall|q: Seq<Seq<char>>| q.len() > 0 implies #[trigger] entry_of(after.lookup(q)) == (if path.is_prefix_of(q) {
            None
        } else {
            entry_of(before.lookup(q))
        }) by {
        assert(entry_of(after.lookup(q)) == (if path.is_prefix_of(q) { None } else { entry_of(middle.lookup(q)) }));
        assert(entry_of(middle.lookup(q)) == (if path.is_prefix_of(q) {
            entry_of(node.lookup(q.skip(path.len() as int)))
        } else {
            entry_of(before.lookup(q))
        }));
    }
}

/// Once a directory has been put at `path`, names can be put below it.
pub proof fn lemma_parent_after_insert_directory(
    before: Directory,
    after: Directory,
    path: Seq<Seq<char>>,
    d: Directory,
    name: Seq<char>,
)
    requires
        path.len() > 0,
        replaced_at(before, after, path, Node::Directory(d)),
    ensures
        has_parent(after, path.push(name)),
{
    assert(path.is_prefix_of(path));
    assert(path.skip(path.len() as int).len() == 0);
    assert(entry_of(after.lookup(path)) == entry_of(Node::Directory(d).lookup(path.skip(path.len() as int))));
    assert(parent_path(path.push(name)) =~= path);
}

/// A directory put at `path` with no children is listed as empty.
pub proof fn lemma_new_directory_lists_empty(
    before: Directory,
    after: Directory,
    path: Seq<Seq<char>>,
    d: Directory,
    listed: Directory,
    t: DirectoryTree,
)
    requires
        path.len() > 0,
        d@ == Map::<Seq<char>, Node>::empty(),
        replaced_at(before, after, path, Node::Directory(d)),
        after.lookup(path) == Some(Node::Directory(listed)),
        t.lists(listed),
    ensures
        t.entries@.len() == 0,
{
    if t.entries@.len() > 0 {
        let name = t.entries@[0].0@;
        assert(crate::model::listed_at(t.entries@, name, 0));
        let q = path.push(name);
        assert(path =~= q.subrange(0, path.len() as int));
        assert(q.skip(path.len() as int) =~= seq![name]);
        assert(entry_of(after.lookup(q)) == entry_of(Node::Directory(d).lookup(seq![name])));
        assert(seq![name].drop_first().len() == 0);
        crate::model::lemma_lookup_concat(after, path, seq![name]);
        assert(path + seq![name] =~= q);
        assert(t.shape(seq![name]) == kind_of(listed.entry(seq![name])));
        assert(t.child(name) is Some);
        assert(seq![name][0] == name);
        if let Some(Some(t2)) = t.child(name) {
            assert(t2.shape(seq![name].drop_first()) is Some);
        }
        assert(t.shape(seq![name]) is Some);
        assert(!d@.contains_key(name));
        assert(d.lookup(seq![name]) is None);
        assert(Node::Directory(listed).lookup(seq![name]) == listed.lookup(seq![name]));
        assert(listed.entry(seq![name]) is None);
    }
}

} // verus!

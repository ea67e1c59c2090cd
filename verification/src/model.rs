use vstd::prelude::*;

use lighthouse_protocol::Value;

use crate::value::{
    nil_value, value_from_i16, value_from_i32, value_from_i64, value_from_i8, value_from_isize,
    value_from_str, value_from_string, value_from_u16, value_from_u32, value_from_u64, value_from_u8,
    value_from_usize, value_is_nil, value_of_i16, value_of_i32, value_of_i64, value_of_i8,
    value_of_isize, value_of_str, value_of_string, value_of_u16, value_of_u32, value_of_u64,
    value_of_u8, value_of_usize,
};

verus! {

/// A leaf of the tree: a single value.
#[derive(Debug)]
pub struct Resource {
    value: Value,
}

/// An inner node of the tree: named children, each name at most once.
#[derive(Debug)]
pub struct Directory {
    names: Vec<String>,
    nodes: Vec<Node>,
}

/// A node of the tree.
#[derive(Debug)]
pub enum Node {
    Resource(Resource),
    Directory(Directory),
}

/// What a path of the tree leads to, with the resource's value but without a
/// directory's contents.
pub enum Entry {
    Resource(Value),
    Directory,
}

/// The names of a path, as character sequences.
pub open spec fn path_view(path: Seq<String>) -> Seq<Seq<char>> {
    path.map_values(|s: String| s@)
}

impl View for Resource {
    type V = Value;

    closed spec fn view(&self) -> Value {
        self.value
    }
}

impl Resource {
    /// A resource that holds `Value::Nil`.
    pub fn new() -> (r: Self)
        ensures
            value_is_nil(r@),
    {
        Resource { value: nil_value() }
    }

    /// The value the resource holds.
    pub fn value(&self) -> (v: &Value)
        ensures
            *v == self@,
    {
        &self.value
    }
}

impl From<Value> for Resource {
    /// The resource that holds `value`.
    fn from(value: Value) -> (r: Self) {
        Resource { value }
    }
}

impl vstd::std_specs::convert::FromSpecImpl<Value> for Resource {
    open spec fn obeys_from_spec() -> bool {
        true
    }

    open spec fn from_spec(v: Value) -> Self {
        Resource::holding(v)
    }
}

impl From<u8> for Resource {
    /// The resource that holds the integer value of `value`.
    fn from(value: u8) -> (r: Self) {
        Resource { value: value_from_u8(value) }
    }
}

impl vstd::std_specs::convert::FromSpecImpl<u8> for Resource {
    open spec fn obeys_from_spec() -> bool {
        true
    }

    open spec fn from_spec(v: u8) -> Self {
        Resource::holding(value_of_u8(v))
    }
}

impl From<u16> for Resource {
    /// The resource that holds the integer value of `value`.
    fn from(value: u16) -> (r: Self) {
        Resource { value: value_from_u16(value) }
    }
}

impl vstd::std_specs::convert::FromSpecImpl<u16> for Resource {
    open spec fn obeys_from_spec() -> bool {
        true
    }

    open spec fn from_spec(v: u16) -> Self {
        Resource::holding(value_of_u16(v))
    }
}

impl From<u32> for Resource {
    /// The resource that holds the integer value of `value`.
    fn from(value: u32) -> (r: Self) {
        Resource { value: value_from_u32(value) }
    }
}

impl vstd::std_specs::convert::FromSpecImpl<u32> for Resource {
    open spec fn obeys_from_spec() -> bool {
        true
    }

    open spec fn from_spec(v: u32) -> Self {
        Resource::holding(value_of_u32(v))
    }
}

impl From<u64> for Resource {
    /// The resource that holds the integer value of `value`.
    fn from(value: u64) -> (r: Self) {
        Resource { value: value_from_u64(value) }
    }
}

impl vstd::std_specs::convert::FromSpecImpl<u64> for Resource {
    open spec fn obeys_from_spec() -> bool {
        true
    }

    open spec fn from_spec(v: u64) -> Self {
        Resource::holding(value_of_u64(v))
    }
}

impl From<usize> for Resource {
    /// The resource that holds the integer value of `value`.
    fn from(value: usize) -> (r: Self) {
        Resource { value: value_from_usize(value) }
    }
}

impl vstd::std_specs::convert::FromSpecImpl<usize> for Resource {
    open spec fn obeys_from_spec() -> bool {
        true
    }

    open spec fn from_spec(v: usize) -> Self {
        Resource::holding(value_of_usize(v))
    }
}

impl From<i8> for Resource {
    /// The resource that holds the integer value of `value`.
    fn from(value: i8) -> (r: Self) {
        Resource { value: value_from_i8(value) }
    }
}

impl vstd::std_specs::convert::FromSpecImpl<i8> for Resource {
    open spec fn obeys_from_spec() -> bool {
        true
    }

    open spec fn from_spec(v: i8) -> Self {
        Resource::holding(value_of_i8(v))
    }
}

impl From<i16> for Resource {
    /// The resource that holds the integer value of `value`.
    fn from(value: i16) -> (r: Self) {
        Resource { value: value_from_i16(value) }
    }
}

impl vstd::std_specs::convert::FromSpecImpl<i16> for Resource {
    open spec fn obeys_from_spec() -> bool {
        true
    }

    open spec fn from_spec(v: i16) -> Self {
        Resource::holding(value_of_i16(v))
    }
}

impl From<i32> for Resource {
    /// The resource that holds the integer value of `value`.
    fn from(value: i32) -> (r: Self) {
        Resource { value: value_from_i32(value) }
    }
}

impl vstd::std_specs::convert::FromSpecImpl<i32> for Resource {
    open spec fn obeys_from_spec() -> bool {
        true
    }

    open spec fn from_spec(v: i32) -> Self {
        Resource::holding(value_of_i32(v))
    }
}

impl From<i64> for Resource {
    /// The resource that holds the integer value of `value`.
    fn from(value: i64) -> (r: Self) {
        Resource { value: value_from_i64(value) }
    }
}

impl vstd::std_specs::convert::FromSpecImpl<i64> for Resource {
    open spec fn obeys_from_spec() -> bool {
        true
    }

    open spec fn from_spec(v: i64) -> Self {
        Resource::holding(value_of_i64(v))
    }
}

impl From<isize> for Resource {
    /// The resource that holds the integer value of `value`.
    fn from(value: isize) -> (r: Self) {
        Resource { value: value_from_isize(value) }
    }
}

impl vstd::std_specs::convert::FromSpecImpl<isize> for Resource {
    open spec fn obeys_from_spec() -> bool {
        true
    }

    open spec fn from_spec(v: isize) -> Self {
        Resource::holding(value_of_isize(v))
    }
}

impl From<String> for Resource {
    /// The resource that holds the string value of `value`.
    fn from(value: String) -> (r: Self) {
        Resource { value: value_from_string(value) }
    }
}

impl vstd::std_specs::convert::FromSpecImpl<String> for Resource {
    open spec fn obeys_from_spec() -> bool {
        true
    }

    open spec fn from_spec(v: String) -> Self {
        Resource::holding(value_of_string(v@))
    }
}

impl<'a> From<&'a str> for Resource {
    /// The resource that holds the string value of `value`.
    fn from(value: &'a str) -> (r: Self) {
        Resource { value: value_from_str(value) }
    }
}

impl<'a> vstd::std_specs::convert::FromSpecImpl<&'a str> for Resource {
    open spec fn obeys_from_spec() -> bool {
        true
    }

    open spec fn from_spec(v: &'a str) -> Self {
        Resource::holding(value_of_str(v@))
    }
}

impl Resource {
    /// The resource that holds `v`.
    pub closed spec fn holding(v: Value) -> Resource {
        Resource { value: v }
    }

    /// The resource that holds `v` holds `v`.
    pub proof fn lemma_holding(v: Value)
        ensures
            Resource::holding(v)@ == v,
    {
    }
}

/// No name occurs twice in `s`.
pub open spec fn distinct_names(s: Seq<(String, Node)>) -> bool {
    forall|i: int, j: int|
        0 <= i < j < s.len() ==> #[trigger] s[i].0@ != #[trigger] s[j].0@
}

/// Position `i` of `s` holds the name `name`.
pub open spec fn name_at(s: Seq<(String, Node)>, name: Seq<char>, i: int) -> bool {
    0 <= i < s.len() && s[i].0@ == name
}

/// The children `s`, by name.
pub open spec fn children_map(s: Seq<(String, Node)>) -> Map<Seq<char>, Node> {
    Map::new(
        |name: Seq<char>| exists|i: int| name_at(s, name, i),
        |name: Seq<char>| s[choose|i: int| name_at(s, name, i)].1,
    )
}

proof fn lemma_children_map_at(s: Seq<(String, Node)>, i: int)
    requires
        distinct_names(s),
        0 <= i < s.len(),
    ensures
        children_map(s).contains_key(s[i].0@),
        children_map(s)[s[i].0@] == s[i].1,
{
    assert(name_at(s, s[i].0@, i));
    let j = choose|j: int| name_at(s, s[i].0@, j);
    assert(name_at(s, s[i].0@, j));
    if j < i {
        assert(s[j].0@ != s[i].0@);
    } else if j > i {
        assert(s[i].0@ != s[j].0@);
    }
}

proof fn lemma_children_map_update(s: Seq<(String, Node)>, i: int, e: (String, Node))
    requires
        distinct_names(s),
        0 <= i < s.len(),
        s[i].0@ == e.0@,
    ensures
        distinct_names(s.update(i, e)),
        children_map(s.update(i, e)) == children_map(s).insert(e.0@, e.1),
{
    let t = s.update(i, e);
    assert forall|a: int, b: int| 0 <= a < b < t.len() implies #[trigger] t[a].0@ != #[trigger] t[b].0@ by {
        assert(s[a].0@ != s[b].0@);
    }
    assert(name_at(t, e.0@, i));
    assert forall|name: Seq<char>| #![auto] children_map(t).contains_key(name) == children_map(s).insert(e.0@, e.1).contains_key(name) by {
        if children_map(s).contains_key(name) {
            let j = choose|j: int| name_at(s, name, j);
            assert(name_at(t, name, j));
        }
        if children_map(t).contains_key(name) {
            let j = choose|j: int| name_at(t, name, j);
            assert(name_at(s, name, j));
        }
    }
    assert forall|name: Seq<char>| #![auto] children_map(t).contains_key(name) implies children_map(t)[name] == children_map(s).insert(e.0@, e.1)[name] by {
        let j = choose|j: int| name_at(t, name, j);
        lemma_children_map_at(t, j);
        if j != i {
            lemma_children_map_at(s, j);
        }
    }
    assert(children_map(t) =~= children_map(s).insert(e.0@, e.1));
}

proof fn lemma_children_map_push(s: Seq<(String, Node)>, e: (String, Node))
    requires
        distinct_names(s),
        !children_map(s).contains_key(e.0@),
    ensures
        distinct_names(s.push(e)),
        children_map(s.push(e)) == children_map(s).insert(e.0@, e.1),
{
    let t = s.push(e);
    assert forall|a: int, b: int| 0 <= a < b < t.len() implies #[trigger] t[a].0@ != #[trigger] t[b].0@ by {
        if b == s.len() {
            assert(!name_at(s, e.0@, a));
        } else {
            assert(s[a].0@ != s[b].0@);
        }
    }
    assert forall|name: Seq<char>| #![auto] children_map(t).contains_key(name) == children_map(s).insert(e.0@, e.1).contains_key(name) by {
        if children_map(s).contains_key(name) {
            let j = choose|j: int| name_at(s, name, j);
            assert(t[j] == s[j]);
            assert(name_at(t, name, j));
        }
        if name == e.0@ {
            assert(t[s.len() as int] == e);
            assert(name_at(t, name, s.len() as int));
        }
        if children_map(t).contains_key(name) {
            let j = choose|j: int| name_at(t, name, j);
            if j < s.len() {
                assert(t[j] == s[j]);
                assert(name_at(s, name, j));
            } else {
                assert(t[j] == e);
            }
        }
    }
    assert forall|name: Seq<char>| #![auto] children_map(t).contains_key(name) implies children_map(t)[name] == children_map(s).insert(e.0@, e.1)[name] by {
        let j = choose|j: int| name_at(t, name, j);
        lemma_children_map_at(t, j);
        if j < s.len() {
            lemma_children_map_at(s, j);
        }
    }
    assert(children_map(t) =~= children_map(s).insert(e.0@, e.1));
}

proof fn lemma_children_map_remove(s: Seq<(String, Node)>, i: int)
    requires
        distinct_names(s),
        0 <= i < s.len(),
    ensures
        distinct_names(s.remove(i)),
        children_map(s.remove(i)) == children_map(s).remove(s[i].0@),
{
    let t = s.remove(i);
    assert forall|a: int, b: int| 0 <= a < b < t.len() implies #[trigger] t[a].0@ != #[trigger] t[b].0@ by {
        let a2 = if a < i { a } else { a + 1 };
        let b2 = if b < i { b } else { b + 1 };
        assert(t[a] == s[a2]);
        assert(t[b] == s[b2]);
        assert(s[a2].0@ != s[b2].0@);
    }
    assert forall|name: Seq<char>| #![auto] children_map(t).contains_key(name) == children_map(s).remove(s[i].0@).contains_key(name) by {
        if children_map(s).contains_key(name) && name != s[i].0@ {
            let j = choose|j: int| name_at(s, name, j);
            assert(j != i);
            if j < i {
                assert(name_at(t, name, j));
            } else {
                assert(name_at(t, name, j - 1));
            }
        }
        if children_map(t).contains_key(name) {
            let j = choose|j: int| name_at(t, name, j);
            let j2 = if j < i { j } else { j + 1 };
            assert(t[j] == s[j2]);
            assert(name_at(s, name, j2));
            assert(s[i].0@ != s[j2].0@ || s[j2].0@ != s[i].0@);
        }
    }
    assert forall|name: Seq<char>| #![auto] children_map(t).contains_key(name) implies children_map(t)[name] == children_map(s).remove(s[i].0@)[name] by {
        let j = choose|j: int| name_at(t, name, j);
        let j2 = if j < i { j } else { j + 1 };
        assert(t[j] == s[j2]);
        lemma_children_map_at(t, j);
        lemma_children_map_at(s, j2);
    }
    assert(children_map(t) =~= children_map(s).remove(s[i].0@));
}

/// The position in `names` of the name `key`, if it occurs.
fn find_name(names: &Vec<String>, key: &String) -> (r: Option<usize>)
    ensures
        match r {
            Some(i) => i < names@.len() && names@[i as int]@ == key@,
            None => forall|i: int| 0 <= i < names@.len() ==> names@[i]@ != key@,
        },
{
    let mut i: usize = 0;
    while i < names.len()
        invariant
            i <= names@.len(),
            forall|j: int| 0 <= j < i ==> names@[j]@ != key@,
        decreases names@.len() - i,
    {
        if names[i] == *key {
            return Some(i);
        }
        i = i + 1;
    }
    None
}

/// Pairs each name with the node at the same position.
pub open spec fn zip_children(names: Seq<String>, nodes: Seq<Node>) -> Seq<(String, Node)> {
    Seq::new(nodes.len(), |i: int| (names[i], nodes[i]))
}

/// Replacing the node at position `i` replaces the child of that name.
pub broadcast proof fn lemma_zip_update(names: Seq<String>, nodes: Seq<Node>, i: int, n: Node)
    requires
        names.len() == nodes.len(),
        0 <= i < names.len(),
        forall|a: int, b: int| 0 <= a < b < names.len() ==> #[trigger] names[a]@ != #[trigger] names[b]@,
    ensures
        #[trigger] children_map(zip_children(names, nodes.update(i, n))) == children_map(
            zip_children(names, nodes),
        ).insert(names[i]@, n),
{
    let s = zip_children(names, nodes);
    assert forall|a: int, b: int| 0 <= a < b < s.len() implies #[trigger] s[a].0@ != #[trigger] s[b].0@ by {
        assert(names[a]@ != names[b]@);
    }
    assert(zip_children(names, nodes.update(i, n)) =~= s.update(i, (names[i], n)));
    lemma_children_map_update(s, i, (names[i], n));
}

impl Directory {
    /// The children in order, each with its name.
    pub closed spec fn entries(self) -> Seq<(String, Node)> {
        zip_children(self.names@, self.nodes@)
    }

    /// Each child has a name, and no name occurs twice.
    #[verifier::type_invariant]
    closed spec fn names_distinct(self) -> bool {
        &&& self.names@.len() == self.nodes@.len()
        &&& forall|i: int, j: int|
            0 <= i < j < self.names@.len() ==> #[trigger] self.names@[i]@ != #[trigger] self.names@[j]@
    }

    proof fn lemma_entries_distinct(self)
        requires
            self.names_distinct(),
        ensures
            distinct_names(self.entries()),
            self.entries().len() == self.names@.len(),
            forall|i: int| 0 <= i < self.names@.len() ==> #[trigger] self.entries()[i] == (self.names@[i], self.nodes@[i]),
    {
        assert forall|i: int, j: int| 0 <= i < j < self.entries().len() implies #[trigger] self.entries()[i].0@ != #[trigger] self.entries()[j].0@ by {
            assert(self.names@[i]@ != self.names@[j]@);
        }
    }
}

impl View for Directory {
    type V = Map<Seq<char>, Node>;

    /// The children, by name.
    closed spec fn view(&self) -> Map<Seq<char>, Node> {
        children_map(self.entries())
    }
}

impl Directory {
    /// An empty directory.
    pub fn new() -> (d: Self)
        ensures
            d@ == Map::<Seq<char>, Node>::empty(),
    {
        let d = Directory { names: Vec::new(), nodes: Vec::new() };
        assert(d@ =~= Map::<Seq<char>, Node>::empty());
        d
    }

    /// The child named `name`, if there is one.
    pub fn get(&self, name: &str) -> (r: Option<&Node>)
        ensures
            match r {
                Some(n) => self@.contains_key(name@) && *n == self@[name@],
                None => !self@.contains_key(name@),
            },
    {
        proof {
            use_type_invariant(self);
        }
        let key = name.to_owned();
        proof {
            self.lemma_entries_distinct();
        }
        match find_name(&self.names, &key) {
            Some(i) => {
                proof {
                    lemma_children_map_at(self.entries(), i as int);
                }
                Some(&self.nodes[i])
            },
            None => {
                assert(!children_map(self.entries()).contains_key(name@)) by {
                    if children_map(self.entries()).contains_key(name@) {
                        let j = choose|j: int| name_at(self.entries(), name@, j);
                        assert(self.names@[j]@ == name@);
                    }
                }
                None
            },
        }
    }

    /// The child named `name`, if there is one, to be changed in place.
    pub fn get_mut(&mut self, name: &str) -> (r: Option<&mut Node>)
        ensures
            old(self)@.contains_key(name@) ==> r.is_some() && *r.unwrap() == old(self)@[name@]
                && final(self)@ == old(self)@.insert(name@, *final(r.unwrap())),
            !old(self)@.contains_key(name@) ==> r.is_none() && final(self)@ == old(self)@,
    {
        proof {
            use_type_invariant(&*self);
        }
        let key = name.to_owned();
        proof {
            self.lemma_entries_distinct();
        }
        match find_name(&self.names, &key) {
            Some(i) => {
                proof {
                    lemma_children_map_at(self.entries(), i as int);
                }
                broadcast use lemma_zip_update;
                Some(&mut self.nodes[i])
            },
            None => {
                assert(!children_map(self.entries()).contains_key(name@)) by {
                    if children_map(self.entries()).contains_key(name@) {
                        let j = choose|j: int| name_at(self.entries(), name@, j);
                        assert(self.names@[j]@ == name@);
                    }
                }
                None
            },
        }
    }
}

impl Directory {
    /// Puts `node` under `name`, in place of any child of that name.
    pub fn insert(&mut self, name: String, node: Node)
        ensures
            final(self)@ == old(self)@.insert(name@, node),
    {
        proof {
            use_type_invariant(&*self);
            self.lemma_entries_distinct();
        }
        let ghost s = self.entries();
        let mut taken = Directory::new();
        std::mem::swap(&mut taken, self);
        let Directory { mut names, mut nodes } = taken;
        match find_name(&names, &name) {
            Some(i) => {
                proof {
                    lemma_children_map_update(s, i as int, (names@[i as int], node));
                }
                nodes.set(i, node);
                assert(zip_children(names@, nodes@) =~= s.update(i as int, (names@[i as int], node)));
            },
            None => {
                proof {
                    assert(!children_map(s).contains_key(name@)) by {
                        if children_map(s).contains_key(name@) {
                            let j = choose|j: int| name_at(s, name@, j);
                            assert(names@[j]@ == name@);
                        }
                    }
                    lemma_children_map_push(s, (name, node));
                }
                names.push(name);
                nodes.push(node);
                assert(zip_children(names@, nodes@) =~= s.push((name, node)));
            },
        }
        proof {
            let t = zip_children(names@, nodes@);
            assert forall|a: int, b: int| 0 <= a < b < names@.len() implies #[trigger] names@[a]@ != #[trigger] names@[b]@ by {
                assert(t[a].0@ != t[b].0@);
            }
        }
        *self = Directory { names, nodes };
    }

    /// Removes the child named `name`, if there is one.
    pub fn remove(&mut self, name: &str)
        ensures
            final(self)@ == old(self)@.remove(name@),
    {
        proof {
            use_type_invariant(&*self);
            self.lemma_entries_distinct();
        }
        let ghost s = self.entries();
        let key = name.to_owned();
        let mut taken = Directory::new();
        std::mem::swap(&mut taken, self);
        let Directory { mut names, mut nodes } = taken;
        match find_name(&names, &key) {
            Some(i) => {
                proof {
                    lemma_children_map_remove(s, i as int);
                }
                names.remove(i);
                nodes.remove(i);
                assert(zip_children(names@, nodes@) =~= s.remove(i as int));
            },
            None => {
                assert(children_map(s).remove(name@) =~= children_map(s)) by {
                    if children_map(s).contains_key(name@) {
                        let j = choose|j: int| name_at(s, name@, j);
                        assert(names@[j]@ == name@);
                    }
                }
                assert(zip_children(names@, nodes@) =~= s);
            },
        }
        proof {
            let t = zip_children(names@, nodes@);
            assert forall|a: int, b: int| 0 <= a < b < names@.len() implies #[trigger] names@[a]@ != #[trigger] names@[b]@ by {
                assert(t[a].0@ != t[b].0@);
            }
        }
        *self = Directory { names, nodes };
    }
}

/// What `n` says of the node it holds, if any.
pub open spec fn entry_of(n: Option<Node>) -> Option<Entry> {
    match n {
        Some(Node::Resource(r)) => Some(Entry::Resource(r@)),
        Some(Node::Directory(_)) => Some(Entry::Directory),
        None => None,
    }
}

impl Directory {
    /// The node that the non-empty `path` leads to below this directory.
    pub open spec fn lookup(self, path: Seq<Seq<char>>) -> Option<Node>
        decreases path.len(), 0int,
    {
        if path.len() == 0 {
            None
        } else if self@.contains_key(path[0]) {
            self@[path[0]].lookup(path.drop_first())
        } else {
            None
        }
    }

    /// What `path` leads to below this directory; the empty path leads to the
    /// directory itself.
    pub open spec fn entry(self, path: Seq<Seq<char>>) -> Option<Entry> {
        if path.len() == 0 {
            Some(Entry::Directory)
        } else {
            entry_of(self.lookup(path))
        }
    }
}

impl Node {
    /// The node that `path` leads to below this node; the empty path leads to
    /// the node itself.
    pub open spec fn lookup(self, path: Seq<Seq<char>>) -> Option<Node>
        decreases path.len(), 1int,
    {
        if path.len() == 0 {
            Some(self)
        } else {
            match self {
                Node::Directory(d) => d.lookup(path),
                Node::Resource(_) => None,
            }
        }
    }

    /// What `path` leads to below this node.
    pub open spec fn entry(self, path: Seq<Seq<char>>) -> Option<Entry> {
        entry_of(self.lookup(path))
    }

    /// The resource this node is, if it is one.
    pub fn as_resource(&self) -> (r: Option<&Resource>)
        ensures
            match self {
                Node::Resource(res) => r == Some(res),
                Node::Directory(_) => r.is_none(),
            },
    {
        if let Node::Resource(res) = self {
            Some(res)
        } else {
            None
        }
    }

    /// The directory this node is, if it is one.
    pub fn as_directory(&self) -> (r: Option<&Directory>)
        ensures
            match self {
                Node::Directory(dir) => r == Some(dir),
                Node::Resource(_) => r.is_none(),
            },
    {
        if let Node::Directory(dir) = self {
            Some(dir)
        } else {
            None
        }
    }

    /// The directory this node is, if it is one, to be changed in place.
    pub fn as_directory_mut(&mut self) -> (r: Option<&mut Directory>)
        ensures
            match *old(self) {
                Node::Directory(dir) => r.is_some() && *r.unwrap() == dir && *final(self)
                    == Node::Directory(*final(r.unwrap())),
                Node::Resource(_) => r.is_none() && *final(self) == *old(self),
            },
    {
        if let Node::Directory(dir) = self {
            Some(dir)
        } else {
            None
        }
    }
}

/// The path without its first name, as a view.
proof fn lemma_path_rest(path: Seq<String>)
    requires
        path.len() > 0,
    ensures
        path_view(path.subrange(1, path.len() as int)) == path_view(path).drop_first(),
        path_view(path).len() == path.len(),
        path_view(path)[0] == path[0]@,
{
    assert(path_view(path.subrange(1, path.len() as int)) =~= path_view(path).drop_first());
}

impl Directory {
    /// The node that the non-empty `path` leads to.
    pub fn descendant(&self, path: &[String]) -> (r: Option<&Node>)
        requires
            path@.len() > 0,
        ensures
            match r {
                Some(n) => self.lookup(path_view(path@)) == Some(*n),
                None => self.lookup(path_view(path@)).is_none(),
            },
        decreases path@.len(),
    {
        proof {
            lemma_path_rest(path@);
        }
        let first = &path[0];
        let is_leaf = path.len() == 1;
        match self.get(first.as_str()) {
            None => None,
            Some(child) => {
                if is_leaf {
                    Some(child)
                } else {
                    match child {
                        Node::Resource(_) => None,
                        Node::Directory(child_dir) => child_dir.descendant(&path[1..path.len()]),
                    }
                }
            },
        }
    }

    /// The directory that `path` leads to; the empty path leads to this one.
    pub fn descendant_directory(&self, path: &[String]) -> (r: Option<&Directory>)
        ensures
            path@.len() == 0 ==> r == Some(self),
            path@.len() > 0 ==> match self.lookup(path_view(path@)) {
                Some(Node::Directory(d)) => r == Some(&d),
                _ => r.is_none(),
            },
    {
        if path.len() == 0 {
            Some(self)
        } else {
            match self.descendant(path) {
                Some(node) => node.as_directory(),
                None => None,
            }
        }
    }
}

/// `after` is `before` with the node at the non-empty `path` replaced by
/// `node`: below `path` it holds what `node` holds, elsewhere what `before`
/// held.
pub open spec fn replaced_at(before: Directory, after: Directory, path: Seq<Seq<char>>, node: Node) -> bool {
    forall|q: Seq<Seq<char>>|
        q.len() > 0 ==> #[trigger] entry_of(after.lookup(q)) == (if path.is_prefix_of(q) {
            entry_of(node.lookup(q.skip(path.len() as int)))
        } else {
            entry_of(before.lookup(q))
        })
}

/// How a prefix test on paths splits at the first name.
proof fn lemma_prefix_step(p: Seq<Seq<char>>)
    requires
        p.len() > 0,
    ensures
        forall|q: Seq<Seq<char>>|
            #![trigger p.is_prefix_of(q)]
            q.len() > 0 ==> (p.is_prefix_of(q) <==> (q[0] == p[0] && p.drop_first().is_prefix_of(
                q.drop_first(),
            ))),
        forall|q: Seq<Seq<char>>|
            #![trigger q.skip(p.len() as int)]
            q.len() > 0 && p.is_prefix_of(q) ==> q.skip(p.len() as int) == q.drop_first().skip(
                p.len() - 1,
            ),
{
    assert forall|q: Seq<Seq<char>>| #![trigger p.is_prefix_of(q)]
        q.len() > 0 implies (p.is_prefix_of(q) <==> (q[0] == p[0] && p.drop_first().is_prefix_of(
            q.drop_first(),
        ))) by {
        if p.is_prefix_of(q) {
            assert(q[0] == q.subrange(0, p.len() as int)[0]);
            assert(p.drop_first() =~= q.drop_first().subrange(0, p.len() - 1));
        }
        if q[0] == p[0] && p.drop_first().is_prefix_of(q.drop_first()) {
            assert forall|k: int| 0 <= k < p.len() implies p[k] == q.subrange(0, p.len() as int)[k] by {
                if k > 0 {
                    assert(p[k] == p.drop_first()[k - 1]);
                    assert(p.drop_first()[k - 1] == q.drop_first().subrange(0, p.len() - 1)[k - 1]);
                }
            }
            assert(p =~= q.subrange(0, p.len() as int));
        }
    }
    assert forall|q: Seq<Seq<char>>| #![trigger q.skip(p.len() as int)]
        q.len() > 0 && p.is_prefix_of(q) implies q.skip(p.len() as int) == q.drop_first().skip(
            p.len() - 1,
        ) by {
        assert(q.skip(p.len() as int) =~= q.drop_first().skip(p.len() - 1));
    }
}

/// Replacing a child of the directory replaces what the child's name leads to.
pub broadcast proof fn lemma_replaced_at_child(before: Directory, after: Directory, path: Seq<Seq<char>>, node: Node)
    requires
        path.len() == 1,
        after@ == before@.insert(path[0], node),
    ensures
        #[trigger] replaced_at(before, after, path, node),
{
    lemma_prefix_step(path);
    assert forall|q: Seq<Seq<char>>| q.len() > 0 implies #[trigger] entry_of(after.lookup(q)) == (if path.is_prefix_of(q) {
            entry_of(node.lookup(q.skip(path.len() as int)))
        } else {
            entry_of(before.lookup(q))
        }) by {
        assert(path.drop_first().is_prefix_of(q.drop_first()));
        assert(q.skip(1) == q.drop_first());
    }
}

/// Replacing a node deeper in a child directory replaces it in this
/// directory too.
pub broadcast proof fn lemma_replaced_at_below(before: Directory, after: Directory, path: Seq<Seq<char>>, node: Node)
    requires
        path.len() > 1,
        before@.contains_key(path[0]),
        before@[path[0]] is Directory,
        after@ == before@.insert(path[0], Node::Directory(after@[path[0]]->Directory_0)),
        after@[path[0]] is Directory,
        replaced_at(before@[path[0]]->Directory_0, after@[path[0]]->Directory_0, path.drop_first(), node),
    ensures
        #[trigger] replaced_at(before, after, path, node),
{
    lemma_prefix_step(path);
    let db = before@[path[0]]->Directory_0;
    let da = after@[path[0]]->Directory_0;
    assert forall|q: Seq<Seq<char>>| q.len() > 0 implies #[trigger] entry_of(after.lookup(q)) == (if path.is_prefix_of(q) {
            entry_of(node.lookup(q.skip(path.len() as int)))
        } else {
            entry_of(before.lookup(q))
        }) by {
        if q[0] == path[0] {
            let r = q.drop_first();
            if r.len() > 0 {
                assert(entry_of(da.lookup(r)) == (if path.drop_first().is_prefix_of(r) {
                    entry_of(node.lookup(r.skip(path.drop_first().len() as int)))
                } else {
                    entry_of(db.lookup(r))
                }));
            } else {
                assert(!path.drop_first().is_prefix_of(r));
            }
        }
    }
}

impl Directory {
    /// The node that the non-empty `path` leads to, to be changed in place.
    pub fn descendant_mut(&mut self, path: &[String]) -> (r: Option<&mut Node>)
        requires
            path@.len() > 0,
        ensures
            match old(self).lookup(path_view(path@)) {
                Some(n) => r.is_some() && *r.unwrap() == n && replaced_at(
                    *old(self),
                    *final(self),
                    path_view(path@),
                    *final(r.unwrap()),
                ),
                None => r.is_none() && *final(self) == *old(self),
            },
        decreases path@.len(),
    {
        broadcast use {lemma_replaced_at_child, lemma_replaced_at_below};

        proof {
            lemma_path_rest(path@);
        }
        if self.descendant(path).is_none() {
            return None;
        }
        let first = &path[0];
        let is_leaf = path.len() == 1;
        match self.get_mut(first.as_str()) {
            None => None,
            Some(child) => {
                if is_leaf {
                    Some(child)
                } else {
                    match child.as_directory_mut() {
                        None => None,
                        Some(child_dir) => child_dir.descendant_mut(&path[1..path.len()]),
                    }
                }
            },
        }
    }
}

impl Directory {
    /// The directory that `path` leads to, to be changed in place; the empty
    /// path leads to this one.
    pub fn descendant_directory_mut(&mut self, path: &[String]) -> (r: Option<&mut Directory>)
        ensures
            path@.len() == 0 ==> r.is_some() && *r.unwrap() == *old(self) && *final(self) == *final(r.unwrap()),
            path@.len() > 0 ==> match old(self).lookup(path_view(path@)) {
                Some(Node::Directory(d)) => r.is_some() && *r.unwrap() == d && replaced_at(
                    *old(self),
                    *final(self),
                    path_view(path@),
                    Node::Directory(*final(r.unwrap())),
                ),
                _ => r.is_none() && *final(self) == *old(self),
            },
    {
        if path.len() == 0 {
            return Some(self);
        }
        if self.descendant_directory(path).is_none() {
            return None;
        }
        match self.descendant_mut(path) {
            Some(node) => node.as_directory_mut(),
            None => None,
        }
    }
}

/// The names under a directory, each with the listing of the directory it
/// names, or `None` where it names a resource.
#[derive(Debug)]
pub struct DirectoryTree {
    pub entries: Vec<(String, Option<DirectoryTree>)>,
}

/// What kind of node a path leads to.
pub enum Kind {
    Resource,
    Directory,
}

/// The kind of what `e` describes.
pub open spec fn kind_of(e: Option<Entry>) -> Option<Kind> {
    match e {
        Some(Entry::Resource(_)) => Some(Kind::Resource),
        Some(Entry::Directory) => Some(Kind::Directory),
        None => None,
    }
}

/// Position `i` of `s` lists the name `name`.
pub open spec fn listed_at(s: Seq<(String, Option<DirectoryTree>)>, name: Seq<char>, i: int) -> bool {
    0 <= i < s.len() && s[i].0@ == name
}

impl DirectoryTree {
    /// No name is listed twice.
    pub open spec fn names_distinct(self) -> bool {
        forall|i: int, j: int|
            0 <= i < j < self.entries@.len() ==> #[trigger] self.entries@[i].0@
                != #[trigger] self.entries@[j].0@
    }

    /// What the listing holds under `name`: `None` where the name is absent,
    /// `Some(None)` for a resource, `Some(Some(t))` for a directory listed by `t`.
    pub open spec fn child(self, name: Seq<char>) -> Option<Option<DirectoryTree>> {
        if exists|i: int| listed_at(self.entries@, name, i) {
            Some(self.entries@[choose|i: int| listed_at(self.entries@, name, i)].1)
        } else {
            None
        }
    }

    /// The kind of what `path` leads to in the listing; the empty path leads
    /// to the listed directory.
    pub open spec fn shape(self, path: Seq<Seq<char>>) -> Option<Kind>
        decreases path.len(),
    {
        if path.len() == 0 {
            Some(Kind::Directory)
        } else {
            match self.child(path[0]) {
                None => None,
                Some(None) => if path.len() == 1 {
                    Some(Kind::Resource)
                } else {
                    None
                },
                Some(Some(t)) => t.shape(path.drop_first()),
            }
        }
    }

    /// The listing of the directory that `path` leads to in this listing; the
    /// empty path leads to this listing.
    pub open spec fn subtree(self, path: Seq<Seq<char>>) -> Option<DirectoryTree>
        decreases path.len(),
    {
        if path.len() == 0 {
            Some(self)
        } else {
            match self.child(path[0]) {
                Some(Some(t)) => t.subtree(path.drop_first()),
                _ => None,
            }
        }
    }

    /// The listing shows exactly the kinds of what every path leads to in
    /// `d`, and lists no name twice at any depth.
    pub open spec fn lists(self, d: Directory) -> bool {
        &&& forall|q: Seq<Seq<char>>|
            #[trigger] self.subtree(q) is Some ==> self.subtree(q).unwrap().names_distinct()
        &&& forall|q: Seq<Seq<char>>| #[trigger] self.shape(q) == kind_of(d.entry(q))
    }
}

/// `listing` is what a directory listing holds for the node `n`.
pub open spec fn lists_node(listing: Option<DirectoryTree>, n: Node) -> bool {
    match n {
        Node::Resource(_) => listing.is_none(),
        Node::Directory(d) => listing matches Some(t) && t.lists(d),
    }
}

impl Directory {
    proof fn lemma_listing(self, t: DirectoryTree)
        requires
            self.names_distinct(),
            t.entries@.len() == self.names@.len(),
            forall|j: int|
                0 <= j < self.names@.len() ==> (#[trigger] t.entries@[j]).0@ == self.names@[j]@
                    && lists_node(t.entries@[j].1, self.nodes@[j]),
        ensures
            t.lists(self),
    {
        self.lemma_entries_distinct();
        let s = self.entries();
        assert forall|i: int, j: int| 0 <= i < j < t.entries@.len() implies #[trigger] t.entries@[i].0@
            != #[trigger] t.entries@[j].0@ by {
            assert(self.names@[i]@ != self.names@[j]@);
        }
        assert forall|q: Seq<Seq<char>>|
            #[trigger] t.subtree(q) is Some implies t.subtree(q).unwrap().names_distinct() by {
            if q.len() > 0 {
                if let Some(Some(td)) = t.child(q[0]) {
                    let j = choose|i: int| listed_at(t.entries@, q[0], i);
                    assert(listed_at(t.entries@, q[0], j));
                    if let Node::Directory(d) = self.nodes@[j] {
                        assert(td.lists(d));
                        assert(td.subtree(q.drop_first()) is Some ==> td.subtree(q.drop_first()).unwrap().names_distinct());
                    }
                }
            }
        }
        assert forall|q: Seq<Seq<char>>| #[trigger] t.shape(q) == kind_of(self.entry(q)) by {
            if q.len() > 0 {
                let name = q[0];
                let rest = q.drop_first();
                if exists|i: int| listed_at(t.entries@, name, i) {
                    let j = choose|i: int| listed_at(t.entries@, name, i);
                    assert(name_at(s, name, j));
                    lemma_children_map_at(s, j);
                    assert(self@[name] == self.nodes@[j]);
                    match self.nodes@[j] {
                        Node::Resource(_) => {},
                        Node::Directory(d) => {
                            let td = t.entries@[j].1->0;
                            assert(td.shape(rest) == kind_of(d.entry(rest)));
                        },
                    }
                } else {
                    if self@.contains_key(name) {
                        let j = choose|i: int| name_at(s, name, i);
                        assert(listed_at(t.entries@, name, j));
                    }
                }
            }
        }
    }

    /// The listing of this directory and, recursively, of all directories
    /// below it.
    pub fn list_tree(&self) -> (t: DirectoryTree)
        ensures
            t.lists(*self),
        decreases self,
    {
        proof {
            use_type_invariant(self);
        }
        let mut entries: Vec<(String, Option<DirectoryTree>)> = Vec::new();
        let mut i: usize = 0;
        while i < self.nodes.len()
            invariant
                self.names_distinct(),
                i <= self.nodes@.len(),
                entries@.len() == i,
                forall|j: int|
                    0 <= j < i ==> (#[trigger] entries@[j]).0@ == self.names@[j]@ && lists_node(
                        entries@[j].1,
                        self.nodes@[j],
                    ),
            decreases self.nodes@.len() - i,
        {
            let sub = match &self.nodes[i] {
                Node::Resource(_) => None,
                Node::Directory(d) => Some(d.list_tree()),
            };
            entries.push((self.names[i].clone(), sub));
            i = i + 1;
        }
        let t = DirectoryTree { entries };
        proof {
            self.lemma_listing(t);
        }
        t
    }
}

/// `after` is `before` without what the non-empty `path` led to: below
/// `path` nothing is left, elsewhere `after` holds what `before` held.
pub open spec fn removed_at(before: Directory, after: Directory, path: Seq<Seq<char>>) -> bool {
    forall|q: Seq<Seq<char>>|
        q.len() > 0 ==> #[trigger] entry_of(after.lookup(q)) == (if path.is_prefix_of(q) {
            None
        } else {
            entry_of(before.lookup(q))
        })
}

/// Looking up a path in two steps: first its beginning `p`, then the rest
/// `r` below the node that `p` leads to.
pub proof fn lemma_lookup_concat(d: Directory, p: Seq<Seq<char>>, r: Seq<Seq<char>>)
    requires
        p.len() > 0,
        d.lookup(p) is Some,
    ensures
        d.lookup(p + r) == d.lookup(p).unwrap().lookup(r),
    decreases p.len(),
{
    assert((p + r)[0] == p[0]);
    assert((p + r).drop_first() =~= p.drop_first() + r);
    if p.len() > 1 {
        let c = d@[p[0]]->Directory_0;
        lemma_lookup_concat(c, p.drop_first(), r);
    }
}

/// Putting `node` under `name` in the directory that the non-empty `parent`
/// leads to replaces what `parent` followed by `name` leads to.
pub proof fn lemma_replaced_below_parent(
    before: Directory,
    after: Directory,
    parent: Seq<Seq<char>>,
    dir_before: Directory,
    dir_after: Directory,
    name: Seq<char>,
    node: Node,
)
    requires
        parent.len() > 0,
        before.lookup(parent) == Some(Node::Directory(dir_before)),
        replaced_at(before, after, parent, Node::Directory(dir_after)),
        dir_after@ == dir_before@.insert(name, node),
    ensures
        replaced_at(before, after, parent.push(name), node),
{
    let path = parent.push(name);
    assert forall|q: Seq<Seq<char>>| q.len() > 0 implies #[trigger] entry_of(after.lookup(q)) == (if path.is_prefix_of(q) {
            entry_of(node.lookup(q.skip(path.len() as int)))
        } else {
            entry_of(before.lookup(q))
        }) by {
        assert(entry_of(after.lookup(q)) == (if parent.is_prefix_of(q) {
            entry_of(Node::Directory(dir_after).lookup(q.skip(parent.len() as int)))
        } else {
            entry_of(before.lookup(q))
        }));
        if parent.is_prefix_of(q) {
            let r = q.skip(parent.len() as int);
            assert(q =~= parent + r);
            lemma_lookup_concat(before, parent, r);
            if r.len() > 0 {
                assert(r.drop_first() =~= q.skip(path.len() as int));
                if r[0] == name {
                    assert(path =~= q.subrange(0, path.len() as int));
                } else {
                    assert(q[parent.len() as int] == r[0]);
                    if path.is_prefix_of(q) {
                        assert(path[parent.len() as int] == q.subrange(0, path.len() as int)[parent.len() as int]);
                    }
                }
            } else {
                assert(!path.is_prefix_of(q));
            }
        } else {
            if path.is_prefix_of(q) {
                assert(parent =~= q.subrange(0, parent.len() as int));
            }
        }
    }
}

/// Removing `name` from the directory that the non-empty `parent` leads to
/// removes what `parent` followed by `name` leads to.
pub proof fn lemma_removed_below_parent(
    before: Directory,
    after: Directory,
    parent: Seq<Seq<char>>,
    dir_before: Directory,
    dir_after: Directory,
    name: Seq<char>,
)
    requires
        parent.len() > 0,
        before.lookup(parent) == Some(Node::Directory(dir_before)),
        replaced_at(before, after, parent, Node::Directory(dir_after)),
        dir_after@ == dir_before@.remove(name),
    ensures
        removed_at(before, after, parent.push(name)),
{
    let path = parent.push(name);
    assert forall|q: Seq<Seq<char>>| q.len() > 0 implies #[trigger] entry_of(after.lookup(q)) == (if path.is_prefix_of(q) {
            None
        } else {
            entry_of(before.lookup(q))
        }) by {
        assert(entry_of(after.lookup(q)) == (if parent.is_prefix_of(q) {
            entry_of(Node::Directory(dir_after).lookup(q.skip(parent.len() as int)))
        } else {
            entry_of(before.lookup(q))
        }));
        if parent.is_prefix_of(q) {
            let r = q.skip(parent.len() as int);
            assert(q =~= parent + r);
            lemma_lookup_concat(before, parent, r);
            if r.len() > 0 {
                if r[0] == name {
                    assert(path =~= q.subrange(0, path.len() as int));
                } else {
                    assert(q[parent.len() as int] == r[0]);
                    if path.is_prefix_of(q) {
                        assert(path[parent.len() as int] == q.subrange(0, path.len() as int)[parent.len() as int]);
                    }
                }
            } else {
                assert(!path.is_prefix_of(q));
            }
        } else {
            if path.is_prefix_of(q) {
                assert(parent =~= q.subrange(0, parent.len() as int));
            }
        }
    }
}

/// Removing `name` from the root directory removes what `[name]` leads to.
pub proof fn lemma_removed_child(before: Directory, after: Directory, name: Seq<char>)
    requires
        after@ == before@.remove(name),
    ensures
        removed_at(before, after, seq![name]),
{
    let path = seq![name];
    assert forall|q: Seq<Seq<char>>| q.len() > 0 implies #[trigger] entry_of(after.lookup(q)) == (if path.is_prefix_of(q) {
            None
        } else {
            entry_of(before.lookup(q))
        }) by {
        if q[0] == name {
            assert(path =~= q.subrange(0, 1));
        } else {
            if path.is_prefix_of(q) {
                assert(path[0] == q.subrange(0, 1)[0]);
            }
        }
    }
}

/// Only the value of a resource counts for what it puts in the tree.
pub proof fn lemma_replaced_resource_value(
    before: Directory,
    after: Directory,
    path: Seq<Seq<char>>,
    r1: Resource,
    r2: Resource,
)
    requires
        r1@ == r2@,
        replaced_at(before, after, path, Node::Resource(r1)),
    ensures
        replaced_at(before, after, path, Node::Resource(r2)),
{
    assert forall|q: Seq<Seq<char>>| q.len() > 0 implies #[trigger] entry_of(after.lookup(q)) == (if path.is_prefix_of(q) {
            entry_of(Node::Resource(r2).lookup(q.skip(path.len() as int)))
        } else {
            entry_of(before.lookup(q))
        }) by {
        assert(entry_of(after.lookup(q)) == (if path.is_prefix_of(q) {
            entry_of(Node::Resource(r1).lookup(q.skip(path.len() as int)))
        } else {
            entry_of(before.lookup(q))
        }));
    }
}

/// A listing names exactly the children of the directory it lists, and
/// marks a name as a directory exactly where the child is one.
pub proof fn lemma_listing_names(t: DirectoryTree, d: Directory, name: Seq<char>)
    requires
        t.lists(d),
    ensures
        t.child(name) is Some <==> d@.contains_key(name),
        d@.contains_key(name) ==> (t.child(name) == Some::<Option<DirectoryTree>>(None) <==> d@[name] is Resource),
{
    let q = seq![name];
    assert(q[0] == name);
    assert(q.drop_first().len() == 0);
    assert(t.shape(q) == kind_of(d.entry(q)));
    if let Some(Some(t2)) = t.child(name) {
        assert(t2.shape(q.drop_first()) == Some(Kind::Directory));
    }
}

impl Clone for Resource {
    /// A resource that holds a copy of this one's value.
    fn clone(&self) -> (r: Self)
        ensures
            r@ == self@,
    {
        Resource { value: self.value.clone() }
    }
}

/// A copy of `node` that holds the same below every path.
fn copy_node(node: &Node) -> (r: Node)
    ensures
        forall|q: Seq<Seq<char>>| #[trigger] r.entry(q) == node.entry(q),
    decreases node, 1int,
{
    match node {
        Node::Resource(res) => Node::Resource(res.clone()),
        Node::Directory(dir) => {
            let copy = copy_directory(dir);
            assert forall|q: Seq<Seq<char>>| #[trigger] Node::Directory(copy).entry(q) == node.entry(q) by {
                if q.len() > 0 {
                    assert(copy.entry(q) == dir.entry(q));
                }
            }
            Node::Directory(copy)
        },
    }
}

/// A copy of `dir` that holds the same below every path.
fn copy_directory(dir: &Directory) -> (r: Directory)
    ensures
        forall|q: Seq<Seq<char>>| #[trigger] r.entry(q) == dir.entry(q),
    decreases dir, 0int,
{
    proof {
        use_type_invariant(dir);
        dir.lemma_entries_distinct();
    }
    let mut names: Vec<String> = Vec::new();
    let mut nodes: Vec<Node> = Vec::new();
    let mut i: usize = 0;
    while i < dir.nodes.len()
        invariant
            dir.names_distinct(),
            i <= dir.nodes@.len(),
            names@ == dir.names@.subrange(0, i as int),
            nodes@.len() == i,
            forall|j: int, q: Seq<Seq<char>>|
                0 <= j < i ==> #[trigger] nodes@[j].entry(q) == dir.nodes@[j].entry(q),
        decreases dir.nodes@.len() - i,
    {
        names.push(dir.names[i].clone());
        nodes.push(copy_node(&dir.nodes[i]));
        i = i + 1;
        assert(names@ =~= dir.names@.subrange(0, i as int));
    }
    assert(names@ =~= dir.names@);
    let copy = Directory { names, nodes };
    proof {
        copy.lemma_entries_distinct();
        let s = dir.entries();
        let t = copy.entries();
        assert forall|q: Seq<Seq<char>>| #[trigger] copy.entry(q) == dir.entry(q) by {
            if q.len() > 0 {
                let name = q[0];
                if children_map(s).contains_key(name) {
                    let j = choose|j: int| name_at(s, name, j);
                    assert(name_at(t, name, j));
                    lemma_children_map_at(s, j);
                    lemma_children_map_at(t, j);
                    assert(copy.nodes@[j].entry(q.drop_first()) == dir.nodes@[j].entry(q.drop_first()));
                } else if children_map(t).contains_key(name) {
                    let j = choose|j: int| name_at(t, name, j);
                    assert(name_at(s, name, j));
                }
            }
        }
    }
    copy
}

impl Clone for Node {
    /// A copy of this node that holds the same below every path.
    fn clone(&self) -> (r: Self)
        ensures
            forall|q: Seq<Seq<char>>| #[trigger] r.entry(q) == self.entry(q),
    {
        copy_node(self)
    }
}

impl Clone for Directory {
    /// A copy of this directory that holds the same below every path.
    fn clone(&self) -> (r: Self)
        ensures
            forall|q: Seq<Seq<char>>| #[trigger] r.entry(q) == self.entry(q),
    {
        copy_directory(self)
    }
}

} // verus!

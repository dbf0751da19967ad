//! The namespace tree in memory, and the insertion of paths into it.

use crate::path::split_path;
use crate::tree::{
    build, lemma_bind_well_formed, lemma_build_well_formed, lemma_first_named,
    lemma_first_named_is, Tree,
};
use vstd::prelude::*;
use vstd::slice::slice_subrange;

verus! {

/// One named child of a node.
struct Child {
    name: String,
    node: Node,
}

/// A node of the namespace tree.
pub struct Node {
    children: Vec<Child>,
    leaf_var: Option<String>,
}

impl View for Node {
    type V = Tree;

    closed spec fn view(&self) -> Tree {
        self.model()
    }
}

impl Node {
    /// The tree that this node stands for.
    spec fn model(self) -> Tree
        decreases self,
    {
        Tree {
            bound_key: match self.leaf_var {
                Some(key) => Some(key@),
                None => None,
            },
            children: Seq::new(
                self.children@.len(),
                |i: int|
                    if 0 <= i < self.children@.len() {
                        (self.children@[i].name@, self.children@[i].node.model())
                    } else {
                        (Seq::empty(), Tree::empty())
                    },
            ),
        }
    }

    /// What the view holds, entry by entry.
    proof fn lemma_view(self)
        ensures
            self@.bound_key is Some <==> self.leaf_var is Some,
            self.leaf_var is Some ==> self@.bound_key == Some(self.leaf_var->0@),
            self@.children.len() == self.children@.len(),
            forall|i: int|
                0 <= i < self.children@.len() ==> #[trigger] self@.children[i] == (
                    self.children@[i].name@,
                    self.children@[i].node@,
                ),
    {
    }

    /// No node of the tree has two children of the same name.
    pub open spec fn well_formed(&self) -> bool {
        self@.well_formed()
    }

    /// A node without binding and without children.
    pub fn new() -> (node: Node)
        ensures
            node@ == Tree::empty(),
            node.well_formed(),
    {
        let node = Node { children: Vec::new(), leaf_var: None };
        assert(node@.children =~= Seq::empty());
        node
    }

    /// The number of children.
    pub fn child_count(&self) -> (count: usize)
        ensures
            count == self@.children.len(),
    {
        proof {
            self.lemma_view();
        }
        self.children.len()
    }

    /// The raw name of the child at `index`, counted in the order of first
    /// mention.
    pub fn child_name(&self, index: usize) -> (name: &str)
        requires
            index < self@.children.len(),
        ensures
            name@ == self@.children[index as int].0,
    {
        proof {
            self.lemma_view();
        }
        self.children[index].name.as_str()
    }

    /// The child at `index`, counted in the order of first mention.
    pub fn child_node(&self, index: usize) -> (child: &Node)
        requires
            index < self@.children.len(),
        ensures
            child@ == self@.children[index as int].1,
    {
        proof {
            self.lemma_view();
        }
        &self.children[index].node
    }

    /// The source key bound to this node, if any.
    pub fn leaf_var(&self) -> (key: Option<&str>)
        ensures
            match key {
                Some(text) => self@.bound_key == Some(text@),
                None => self@.bound_key is None,
            },
    {
        proof {
            self.lemma_view();
        }
        match &self.leaf_var {
            Some(text) => Some(text.as_str()),
            None => None,
        }
    }

    /// Whether this node is emitted as a text field: it is bound and has no
    /// children.
    pub fn is_leaf(&self) -> (leaf: bool)
        ensures
            leaf == self@.is_leaf(),
    {
        proof {
            self.lemma_view();
        }
        self.leaf_var.is_some() && self.children.len() == 0
    }

    /// Where the child named `name` stands among the children; the number of
    /// children if there is none.
    fn position(&self, name: &str) -> (at: usize)
        ensures
            at == self@.position(name@),
            at <= self.children@.len(),
    {
        let owned = name.to_owned();
        let mut i: usize = 0;
        proof {
            self.lemma_view();
        }
        while i < self.children.len()
            invariant
                owned@ == name@,
                i <= self.children.len(),
                self@.children.len() == self.children@.len(),
                forall|j: int| 0 <= j < i ==> (#[trigger] self@.children[j]).0 != name@,
            decreases self.children.len() - i,
        {
            proof {
                self.lemma_view();
            }
            if self.children[i].name == owned {
                proof {
                    lemma_first_named_is(self@.children, name@, i as int);
                }
                return i;
            }
            i += 1;
        }
        proof {
            lemma_first_named_is(self@.children, name@, i as int);
        }
        i
    }

    /// The child named `name`, if there is one.
    pub fn child(&self, name: &str) -> (found: Option<&Node>)
        ensures
            match found {
                Some(child) => self@.has_child(name@) && child@ == self@.child(name@),
                None => !self@.has_child(name@),
            },
    {
        let at = self.position(name);
        proof {
            self.lemma_view();
        }
        if at < self.children.len() {
            Some(&self.children[at].node)
        } else {
            None
        }
    }

    /// The index of the child named `name`, which is added behind the others,
    /// empty, if the node has none of that name.
    fn slot(&mut self, name: &str) -> (at: usize)
        ensures
            at == old(self)@.position(name@),
            at < final(self).children@.len(),
            final(self).children@[at as int].name@ == name@,
            final(self).children@[at as int].node@ == old(self)@.child(name@),
            final(self)@ == old(self)@.with_child(name@, old(self)@.child(name@)),
    {
        let at = self.position(name);
        let ghost before = *self;
        proof {
            before.lemma_view();
            lemma_first_named(before@.children, name@);
        }
        if at == self.children.len() {
            self.children.push(Child { name: name.to_owned(), node: Node::new() });
            proof {
                self.lemma_view();
                assert(self@.children =~= before@.children.push((name@, Tree::empty())));
            }
        } else {
            assert(before@.children.update(at as int, (name@, before@.children[at as int].1))
                =~= before@.children);
        }
        at
    }
}

impl Default for Node {
    /// A node without binding and without children.
    fn default() -> (node: Node)
        ensures
            node@ == Tree::empty(),
    {
        Node::new()
    }
}

/// Enters one path into the tree below `node`: walks from `node` along `parts`,
/// creating the children that are missing, and binds the node reached to
/// `full_var`. Without parts nothing changes.
pub fn insert_path(node: &mut Node, parts: &[&str], full_var: &str)
    ensures
        final(node)@ == old(node)@.insert(parts.deep_view(), full_var@),
        old(node).well_formed() ==> final(node).well_formed(),
    decreases parts@.len(),
{
    if parts.len() == 0 {
        return ;
    }
    proof {
        if node.well_formed() {
            lemma_bind_well_formed(node@, parts.deep_view(), full_var@);
        }
    }
    let ghost before = *node;
    let ghost segments = parts.deep_view();
    let ghost key = full_var@;
    let at = node.slot(parts[0]);
    let ghost mid = *node;
    let ghost sub = before@.child(segments[0]);
    if parts.len() == 1 {
        node.children[at].node.leaf_var = Some(full_var.to_owned());
        proof {
            let old_child = mid.children@[at as int].node;
            let new_child = node.children@[at as int].node;
            mid.lemma_view();
            node.lemma_view();
            old_child.lemma_view();
            new_child.lemma_view();
            assert(new_child@ == sub.bind(segments.skip(1), key));
            assert(node@.children =~= mid@.children.update(
                at as int,
                (segments[0], new_child@),
            ));
            assert(node@.children =~= before@.with_child(segments[0], new_child@).children);
        }
    } else {
        let rest = slice_subrange(parts, 1, parts.len());
        insert_path(&mut node.children[at].node, rest, full_var);
        proof {
            let new_child = node.children@[at as int].node;
            mid.lemma_view();
            node.lemma_view();
            assert(rest.deep_view() =~= segments.skip(1));
            assert(node@.children =~= mid@.children.update(
                at as int,
                (segments[0], new_child@),
            ));
            assert(node@.children =~= before@.with_child(segments[0], new_child@).children);
        }
    }
}

/// The segments as borrowed texts, in the same order.
fn borrow_all(segments: &Vec<String>) -> (parts: Vec<&str>)
    ensures
        parts.deep_view() == segments.deep_view(),
{
    let mut parts: Vec<&str> = Vec::new();
    let mut i: usize = 0;
    while i < segments.len()
        invariant
            i <= segments.len(),
            parts@.len() == i,
            forall|j: int| 0 <= j < i ==> (#[trigger] parts@[j])@ == segments@[j]@,
        decreases segments.len() - i,
    {
        parts.push(segments[i].as_str());
        i += 1;
    }
    parts
}

/// Builds the namespace tree of a list of dotted paths, entering them in the
/// order of the list. An empty path is ignored.
pub fn build_tree(vars: &[&str]) -> (root: Node)
    ensures
        root@ == build(vars.deep_view()),
        root.well_formed(),
{
    let mut root = Node::new();
    let mut i: usize = 0;
    while i < vars.len()
        invariant
            i <= vars.len(),
            root@ == build(vars.deep_view().take(i as int)),
        decreases vars.len() - i,
    {
        let var_name = vars[i];
        let segments = split_path(var_name);
        let parts = borrow_all(&segments);
        let slice = parts.as_slice();
        proof {
            let all = vars.deep_view();
            assert(all.take(i + 1).drop_last() == all.take(i as int));
        }
        insert_path(&mut root, slice, var_name);
        i += 1;
    }
    proof {
        assert(vars.deep_view().take(i as int) == vars.deep_view());
        lemma_build_well_formed(vars.deep_view());
    }
    root
}

} // verus!

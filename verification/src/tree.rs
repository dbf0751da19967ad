//! The namespace tree as a mathematical value: one node per path segment,
//! children kept in the order in which their names were first mentioned.

use crate::path::{lemma_segments_injective, lemma_segments_of_path, path_segments};
use vstd::prelude::*;

verus! {

/// The mathematical namespace tree. A node may carry the source key that ends
/// exactly there, and has named children in a fixed order.
pub struct Tree {
    pub bound_key: Option<Seq<char>>,
    pub children: Seq<(Seq<char>, Tree)>,
}

/// The index of the first entry named `name`, or the number of entries if no
/// entry has that name.
pub open spec fn first_named<T>(entries: Seq<(Seq<char>, T)>, name: Seq<char>) -> int
    decreases entries.len(),
{
    if entries.len() == 0 {
        0
    } else if entries[0].0 == name {
        0
    } else {
        1 + first_named(entries.skip(1), name)
    }
}

/// No two entries have the same name.
pub open spec fn names_distinct(entries: Seq<(Seq<char>, Tree)>) -> bool {
    forall|i: int, j: int|
        0 <= i < j < entries.len() ==> (#[trigger] entries[i]).0 != (#[trigger] entries[j]).0
}

/// The names with `name` mentioned: as they are if `name` is among them, with
/// `name` behind them if it is not.
pub open spec fn mention(names: Seq<Seq<char>>, name: Seq<char>) -> Seq<Seq<char>> {
    if names.contains(name) {
        names
    } else {
        names.push(name)
    }
}

/// `path` continues `prefix` by at least one segment.
pub open spec fn continues(path: Seq<Seq<char>>, prefix: Seq<Seq<char>>) -> bool {
    prefix.len() < path.len() && path.take(prefix.len() as int) == prefix
}

impl Tree {
    /// The tree with no binding and no children.
    pub open spec fn empty() -> Tree {
        Tree { bound_key: None, children: Seq::empty() }
    }

    /// Where the child named `name` stands among the children; the number of
    /// children if there is none.
    pub open spec fn position(self, name: Seq<char>) -> int {
        first_named(self.children, name)
    }

    /// Whether a child is named `name`.
    pub open spec fn has_child(self, name: Seq<char>) -> bool {
        self.position(name) < self.children.len()
    }

    /// The child named `name`, or the empty tree if there is none.
    pub open spec fn child(self, name: Seq<char>) -> Tree {
        if self.has_child(name) {
            self.children[self.position(name)].1
        } else {
            Tree::empty()
        }
    }

    /// The tree with `sub` as its child named `name`: in the place of the child
    /// of that name if there is one, behind all others if not.
    pub open spec fn with_child(self, name: Seq<char>, sub: Tree) -> Tree {
        Tree {
            bound_key: self.bound_key,
            children: if self.has_child(name) {
                self.children.update(self.position(name), (name, sub))
            } else {
                self.children.push((name, sub))
            },
        }
    }

    /// The tree in which the node reached by `parts` is bound to `key`. Nodes
    /// that are missing on the way are created; an earlier binding of that node
    /// is overwritten.
    pub open spec fn bind(self, parts: Seq<Seq<char>>, key: Seq<char>) -> Tree
        decreases parts.len(),
    {
        if parts.len() == 0 {
            Tree { bound_key: Some(key), children: self.children }
        } else {
            self.with_child(parts[0], self.child(parts[0]).bind(parts.skip(1), key))
        }
    }

    /// The tree after one path was entered: a path without segments changes
    /// nothing, any other binds the node it reaches.
    pub open spec fn insert(self, parts: Seq<Seq<char>>, key: Seq<char>) -> Tree {
        if parts.len() == 0 {
            self
        } else {
            self.bind(parts, key)
        }
    }

    /// The node reached from here by following `path` name by name.
    pub open spec fn node_at(self, path: Seq<Seq<char>>) -> Option<Tree>
        decreases path.len(),
    {
        if path.len() == 0 {
            Some(self)
        } else if self.has_child(path[0]) {
            self.child(path[0]).node_at(path.skip(1))
        } else {
            None
        }
    }

    /// The source key bound to the node at `path`, if that node exists and is
    /// bound.
    pub open spec fn bound_at(self, path: Seq<Seq<char>>) -> Option<Seq<char>> {
        match self.node_at(path) {
            Some(node) => node.bound_key,
            None => None,
        }
    }

    /// The names of the children, in their order.
    pub open spec fn child_names(self) -> Seq<Seq<char>> {
        Seq::new(self.children.len(), |i: int| self.children[i].0)
    }

    /// The names of the children of the node at `path`, in their order; none
    /// where there is no such node.
    pub open spec fn names_at(self, path: Seq<Seq<char>>) -> Seq<Seq<char>> {
        match self.node_at(path) {
            Some(node) => node.child_names(),
            None => Seq::empty(),
        }
    }

    /// A leaf is bound to a source key and has no children. Every other node is
    /// a namespace, whether bound or not.
    pub open spec fn is_leaf(self) -> bool {
        self.bound_key is Some && self.children.len() == 0
    }

    /// In every node of the tree, no two children have the same name.
    pub open spec fn well_formed(self) -> bool
        decreases self,
    {
        &&& names_distinct(self.children)
        &&& forall|i: int|
            0 <= i < self.children.len() ==> (#[trigger] self.children[i]).1.well_formed()
    }
}

/// `first_named` is the least index that holds the name.
pub proof fn lemma_first_named<T>(entries: Seq<(Seq<char>, T)>, name: Seq<char>)
    ensures
        0 <= first_named(entries, name) <= entries.len(),
        first_named(entries, name) < entries.len() ==> entries[first_named(entries, name)].0
            == name,
        forall|j: int| 0 <= j < first_named(entries, name) ==> (#[trigger] entries[j]).0 != name,
    decreases entries.len(),
{
    if entries.len() > 0 && entries[0].0 != name {
        let rest = entries.skip(1);
        lemma_first_named(rest, name);
        assert forall|j: int| 0 <= j < first_named(entries, name) implies (#[trigger] entries[j]).0
            != name by {
            if j > 0 {
                assert(entries[j] == rest[j - 1]);
            }
        }
    }
}

/// An index before which the name does not occur, and which holds the name or
/// is the end, is `first_named`.
pub proof fn lemma_first_named_is<T>(entries: Seq<(Seq<char>, T)>, name: Seq<char>, at: int)
    requires
        0 <= at <= entries.len(),
        at < entries.len() ==> entries[at].0 == name,
        forall|j: int| 0 <= j < at ==> (#[trigger] entries[j]).0 != name,
    ensures
        first_named(entries, name) == at,
{
    lemma_first_named(entries, name);
}

/// What `with_child` does to the children: the child named `name` is `sub`
/// and stands where a child of that name stood before; every other name leads
/// where it led before; names stay distinct.
pub proof fn lemma_with_child(t: Tree, name: Seq<char>, sub: Tree, other: Seq<char>)
    ensures
        t.with_child(name, sub).has_child(name),
        t.with_child(name, sub).position(name) == t.position(name),
        t.with_child(name, sub).child(name) == sub,
        other != name ==> t.with_child(name, sub).has_child(other) == t.has_child(other),
        other != name ==> t.with_child(name, sub).child(other) == t.child(other),
        other != name && t.has_child(other) ==> t.with_child(name, sub).position(other)
            == t.position(other),
        names_distinct(t.children) ==> names_distinct(t.with_child(name, sub).children),
{
    let u = t.with_child(name, sub);
    let at = t.position(name);
    lemma_first_named(t.children, name);
    lemma_first_named(t.children, other);
    lemma_first_named_is(u.children, name, at);
    if other != name {
        let there = t.position(other);
        if there < t.children.len() {
            lemma_first_named_is(u.children, other, there);
        } else {
            lemma_first_named_is(u.children, other, u.children.len() as int);
        }
    }
}

/// After a path was bound, the node it reaches exists and carries the key:
/// the last binding of a node is the one that stands.
pub proof fn lemma_bind_binds(t: Tree, parts: Seq<Seq<char>>, key: Seq<char>)
    ensures
        t.bind(parts, key).bound_at(parts) == Some(key),
    decreases parts.len(),
{
    if parts.len() > 0 {
        let sub = t.child(parts[0]).bind(parts.skip(1), key);
        lemma_bind_binds(t.child(parts[0]), parts.skip(1), key);
        lemma_with_child(t, parts[0], sub, parts[0]);
    }
}

/// Below the empty tree no node is bound.
pub proof fn lemma_empty_unbound(path: Seq<Seq<char>>)
    ensures
        Tree::empty().bound_at(path) == None::<Seq<char>>,
{
}

/// Binding one path leaves the binding of every other path as it was.
pub proof fn lemma_bind_keeps_others(
    t: Tree,
    parts: Seq<Seq<char>>,
    key: Seq<char>,
    other: Seq<Seq<char>>,
)
    requires
        other != parts,
    ensures
        t.bind(parts, key).bound_at(other) == t.bound_at(other),
    decreases parts.len(),
{
    let u = t.bind(parts, key);
    if parts.len() == 0 {
        assert(other.len() > 0) by {
            if other.len() == 0 {
                assert(other =~= parts);
            }
        }
    } else if other.len() > 0 {
        let below = t.child(parts[0]);
        let sub = below.bind(parts.skip(1), key);
        lemma_with_child(t, parts[0], sub, other[0]);
        if other[0] == parts[0] {
            assert(other.skip(1) != parts.skip(1)) by {
                if other.skip(1) == parts.skip(1) {
                    assert(other =~= seq![other[0]] + other.skip(1));
                    assert(parts =~= seq![parts[0]] + parts.skip(1));
                }
            }
            lemma_bind_keeps_others(below, parts.skip(1), key, other.skip(1));
            if !t.has_child(parts[0]) {
                lemma_empty_unbound(other.skip(1));
            }
        }
    }
}

/// Binding a path keeps the names distinct in every node.
pub proof fn lemma_bind_well_formed(t: Tree, parts: Seq<Seq<char>>, key: Seq<char>)
    requires
        t.well_formed(),
    ensures
        t.bind(parts, key).well_formed(),
    decreases parts.len(),
{
    if parts.len() > 0 {
        let below = t.child(parts[0]);
        let sub = below.bind(parts.skip(1), key);
        let u = t.with_child(parts[0], sub);
        lemma_first_named(t.children, parts[0]);
        lemma_bind_well_formed(below, parts.skip(1), key);
        lemma_with_child(t, parts[0], sub, parts[0]);
    }
}

/// After a path was bound, every node on its way exists and has the child
/// that the path takes next.
pub proof fn lemma_bind_creates(t: Tree, parts: Seq<Seq<char>>, key: Seq<char>, depth: int)
    requires
        0 <= depth < parts.len(),
    ensures
        t.bind(parts, key).node_at(parts.take(depth)) matches Some(node) && node.has_child(
            parts[depth],
        ),
    decreases parts.len(),
{
    let below = t.child(parts[0]);
    let sub = below.bind(parts.skip(1), key);
    lemma_with_child(t, parts[0], sub, parts[0]);
    if depth > 0 {
        lemma_bind_creates(below, parts.skip(1), key, depth - 1);
        assert(parts.take(depth).skip(1) =~= parts.skip(1).take(depth - 1));
    }
}

/// Binding a path removes nothing: a node that had a child of some name still
/// exists and still has a child of that name.
pub proof fn lemma_bind_keeps_children(
    t: Tree,
    parts: Seq<Seq<char>>,
    key: Seq<char>,
    path: Seq<Seq<char>>,
    name: Seq<char>,
)
    requires
        t.node_at(path) matches Some(node) && node.has_child(name),
    ensures
        t.bind(parts, key).node_at(path) matches Some(node) && node.has_child(name),
    decreases parts.len(),
{
    if parts.len() > 0 {
        let below = t.child(parts[0]);
        let sub = below.bind(parts.skip(1), key);
        if path.len() == 0 {
            lemma_with_child(t, parts[0], sub, name);
        } else {
            lemma_with_child(t, parts[0], sub, path[0]);
            if path[0] == parts[0] {
                lemma_bind_keeps_children(below, parts.skip(1), key, path.skip(1), name);
            }
        }
    }
}

/// A node has a child of a name exactly if the name is among the names of its
/// children.
pub proof fn lemma_child_names(t: Tree, name: Seq<char>)
    ensures
        t.has_child(name) <==> t.child_names().contains(name),
{
    lemma_first_named(t.children, name);
    if t.has_child(name) {
        assert(t.child_names()[t.position(name)] == name);
    }
}

/// Binding a path mentions one name in every node on its way, the name that
/// the path takes next, and leaves the names of the children of every other
/// node as they were.
pub proof fn lemma_bind_mentions(
    t: Tree,
    parts: Seq<Seq<char>>,
    key: Seq<char>,
    prefix: Seq<Seq<char>>,
)
    ensures
        t.bind(parts, key).names_at(prefix) == if continues(parts, prefix) {
            mention(t.names_at(prefix), parts[prefix.len() as int])
        } else {
            t.names_at(prefix)
        },
    decreases parts.len(),
{
    if parts.len() > 0 {
        let below = t.child(parts[0]);
        let sub = below.bind(parts.skip(1), key);
        if prefix.len() == 0 {
            assert(parts.take(0) =~= prefix);
            lemma_child_names(t, parts[0]);
            lemma_first_named(t.children, parts[0]);
        } else {
            lemma_with_child(t, parts[0], sub, prefix[0]);
            if prefix[0] == parts[0] {
                lemma_bind_mentions(below, parts.skip(1), key, prefix.skip(1));
                if !t.has_child(parts[0]) {
                    lemma_empty_names(prefix.skip(1));
                }
                if continues(parts, prefix) {
                    assert(parts.skip(1).take(prefix.len() - 1) =~= parts.take(
                        prefix.len() as int,
                    ).skip(1));
                }
                if continues(parts.skip(1), prefix.skip(1)) {
                    assert(parts.take(prefix.len() as int) =~= seq![parts[0]] + parts.skip(1).take(
                        prefix.len() - 1,
                    ));
                    assert(prefix =~= seq![prefix[0]] + prefix.skip(1));
                }
            }
        }
    }
}

/// Below the empty tree no node has children.
pub proof fn lemma_empty_names(path: Seq<Seq<char>>)
    ensures
        Tree::empty().names_at(path) == Seq::<Seq<char>>::empty(),
{
}

/// The tree of a list of dotted paths: the paths are entered one after
/// another, in the order of the list, each bound to the path as it was given.
pub open spec fn build(paths: Seq<Seq<char>>) -> Tree
    decreases paths.len(),
{
    if paths.len() == 0 {
        Tree::empty()
    } else {
        build(paths.drop_last()).insert(path_segments(paths.last()), paths.last())
    }
}

/// In the tree of any list of paths, no node has two children of one name.
pub proof fn lemma_build_well_formed(paths: Seq<Seq<char>>)
    ensures
        build(paths).well_formed(),
    decreases paths.len(),
{
    if paths.len() > 0 {
        lemma_build_well_formed(paths.drop_last());
        lemma_bind_well_formed(
            build(paths.drop_last()),
            path_segments(paths.last()),
            paths.last(),
        );
    }
}

/// Every path of the list that is not empty is bound, as it was given, to the
/// node that its segments reach.
pub proof fn lemma_build_binds_input(paths: Seq<Seq<char>>, i: int)
    requires
        0 <= i < paths.len(),
        paths[i].len() > 0,
    ensures
        build(paths).bound_at(path_segments(paths[i])) == Some(paths[i]),
    decreases paths.len(),
{
    let earlier = paths.drop_last();
    let last = paths.last();
    let wanted = path_segments(paths[i]);
    lemma_segments_of_path(last);
    lemma_segments_of_path(paths[i]);
    if i == paths.len() - 1 {
        lemma_bind_binds(build(earlier), wanted, last);
    } else {
        lemma_build_binds_input(earlier, i);
        if last.len() > 0 {
            if path_segments(last) == wanted {
                lemma_segments_injective(last, paths[i]);
                lemma_bind_binds(build(earlier), wanted, last);
            } else {
                lemma_bind_keeps_others(build(earlier), path_segments(last), last, wanted);
            }
        }
    }
}

/// A node of the tree is bound only to a path of the list whose segments
/// reach it.
pub proof fn lemma_build_binds_only_input(paths: Seq<Seq<char>>, path: Seq<Seq<char>>)
    requires
        build(paths).bound_at(path) is Some,
    ensures
        exists|i: int|
            0 <= i < paths.len() && #[trigger] path_segments(paths[i]) == path && Some(paths[i])
                == build(paths).bound_at(path),
    decreases paths.len(),
{
    if paths.len() == 0 {
        lemma_empty_unbound(path);
    } else {
        let earlier = paths.drop_last();
        let last = paths.last();
        lemma_segments_of_path(last);
        if last.len() > 0 && path_segments(last) == path {
            lemma_bind_binds(build(earlier), path, last);
        } else {
            if last.len() > 0 {
                lemma_bind_keeps_others(build(earlier), path_segments(last), last, path);
            }
            lemma_build_binds_only_input(earlier, path);
            let i = choose|i: int|
                0 <= i < earlier.len() && #[trigger] path_segments(earlier[i]) == path && Some(
                    earlier[i],
                ) == build(earlier).bound_at(path);
            assert(path_segments(paths[i]) == path);
        }
    }
}

/// Every node on the way of a path of the list exists in the tree and has
/// the child that the path takes next, whatever was entered afterwards.
pub proof fn lemma_build_covers(paths: Seq<Seq<char>>, i: int, depth: int)
    requires
        0 <= i < paths.len(),
        0 <= depth < path_segments(paths[i]).len(),
    ensures
        build(paths).node_at(path_segments(paths[i]).take(depth)) matches Some(node)
            && node.has_child(path_segments(paths[i])[depth]),
    decreases paths.len(),
{
    let earlier = paths.drop_last();
    let last = paths.last();
    let segments = path_segments(paths[i]);
    if i == paths.len() - 1 {
        lemma_bind_creates(build(earlier), segments, last, depth);
    } else {
        lemma_build_covers(earlier, i, depth);
        if path_segments(last).len() > 0 {
            lemma_bind_keeps_children(
                build(earlier),
                path_segments(last),
                last,
                segments.take(depth),
                segments[depth],
            );
        }
    }
}

/// The namespace wins over the leaf. Where the segments of one path of the
/// list continue those of another, the node of the shorter path has children
/// and so is no leaf, in whatever order the two were given and whether or not
/// the shorter path is bound there.
pub proof fn lemma_extended_path_is_namespace(paths: Seq<Seq<char>>, short: int, long: int)
    requires
        0 <= short < paths.len(),
        0 <= long < paths.len(),
        path_segments(paths[short]).len() < path_segments(paths[long]).len(),
        path_segments(paths[long]).take(path_segments(paths[short]).len() as int)
            == path_segments(paths[short]),
    ensures
        build(paths).node_at(path_segments(paths[short])) matches Some(node) && !node.is_leaf(),
{
    let depth = path_segments(paths[short]).len() as int;
    lemma_build_covers(paths, long, depth);
    let node = build(paths).node_at(path_segments(paths[short]))->0;
    lemma_first_named(node.children, path_segments(paths[long])[depth]);
}

/// The names that the paths of the list take next after `prefix`, each once,
/// in the order in which the list first mentions them.
pub open spec fn first_mentions(paths: Seq<Seq<char>>, prefix: Seq<Seq<char>>) -> Seq<Seq<char>>
    decreases paths.len(),
{
    if paths.len() == 0 {
        Seq::empty()
    } else {
        let before = first_mentions(paths.drop_last(), prefix);
        let segments = path_segments(paths.last());
        if continues(segments, prefix) {
            mention(before, segments[prefix.len() as int])
        } else {
            before
        }
    }
}

/// The order of the children is the order of first mention. In the tree of a
/// list of paths, the children of the node at any place are named by what the
/// paths take next from there, each name once, in the order in which the list
/// first mentions it.
pub proof fn lemma_build_order(paths: Seq<Seq<char>>, prefix: Seq<Seq<char>>)
    ensures
        build(paths).names_at(prefix) == first_mentions(paths, prefix),
    decreases paths.len(),
{
    if paths.len() == 0 {
        lemma_empty_names(prefix);
    } else {
        let earlier = paths.drop_last();
        let segments = path_segments(paths.last());
        lemma_build_order(earlier, prefix);
        if segments.len() > 0 {
            lemma_bind_mentions(build(earlier), segments, paths.last(), prefix);
        }
    }
}

} // verus!

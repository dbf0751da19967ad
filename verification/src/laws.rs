//! What holds of the whole: from a list of dotted paths to the schema and to
//! the configuration object.

use crate::naming::field_identifier;
use crate::object::{first_absent, lookups, lookups_upto, member_value, object_of, ValueView};
use crate::path::{lemma_segments_of_path, path_segments};
use crate::schema::{env_vars_struct, Schema};
use crate::tree::{
    build, lemma_build_binds_input, lemma_build_binds_only_input, lemma_build_well_formed,
    lemma_first_named, lemma_first_named_is, Tree,
};
use vstd::prelude::*;

verus! {

/// The field names that lead where the raw segments lead.
pub open spec fn field_path(segments: Seq<Seq<char>>) -> Seq<Seq<char>> {
    Seq::new(segments.len(), |i: int| field_identifier(segments[i]))
}

/// Below `t` the node at `segments` exists, and at every node on the way the
/// child that is taken is the first whose field identifier is that of the
/// segment: no sibling before it is normalized to the same identifier.
pub open spec fn resolves(t: Tree, segments: Seq<Seq<char>>) -> bool
    decreases segments.len(),
{
    segments.len() == 0 || {
        &&& t.has_child(segments[0])
        &&& forall|j: int|
            0 <= j < t.position(segments[0]) ==> field_identifier((#[trigger] t.children[j]).0)
                != field_identifier(segments[0])
        &&& resolves(t.child(segments[0]), segments.skip(1))
    }
}

/// In the object of `t`, the field named by the identifier of `segment` is the
/// value of the child named `segment`, where no earlier sibling has the same
/// identifier.
pub proof fn lemma_object_field(t: Tree, source: Map<Seq<char>, Seq<char>>, segment: Seq<char>)
    requires
        t.has_child(segment),
        forall|j: int|
            0 <= j < t.position(segment) ==> field_identifier((#[trigger] t.children[j]).0)
                != field_identifier(segment),
    ensures
        object_of(t, source).field(field_identifier(segment)) == Some(
            member_value(t.child(segment), source),
        ),
{
    let members = object_of(t, source)->Record_0;
    let at = t.position(segment);
    lemma_first_named(t.children, segment);
    lemma_first_named_is(members, field_identifier(segment), at);
}

/// Following the field names of a path through the object of `t` reaches the
/// text that the source holds under the key of the leaf at that path.
pub proof fn lemma_object_at(t: Tree, source: Map<Seq<char>, Seq<char>>, segments: Seq<Seq<char>>)
    requires
        segments.len() > 0,
        resolves(t, segments),
        t.node_at(segments) is Some,
        t.node_at(segments)->0.is_leaf(),
    ensures
        object_of(t, source).at(field_path(segments)) == Some(
            ValueView::Text(source[t.bound_at(segments)->0]),
        ),
    decreases segments.len(),
{
    let below = t.child(segments[0]);
    let rest = segments.skip(1);
    lemma_object_field(t, source, segments[0]);
    assert(field_path(segments).skip(1) =~= field_path(rest));
    if rest.len() == 0 {
        assert(member_value(below, source).at(field_path(rest)) == Some(
            member_value(below, source),
        ));
    } else {
        lemma_first_named(below.children, rest[0]);
        lemma_object_at(below, source, rest);
    }
}

/// Round trip. Take any path of the list that is not empty, whose node is a
/// leaf of the tree, and on whose way no two siblings share a field identifier.
/// If the source holds that path under itself, then the field of the object
/// that the path's field names lead to is the text of the path.
pub proof fn lemma_round_trip(paths: Seq<Seq<char>>, i: int, source: Map<Seq<char>, Seq<char>>)
    requires
        0 <= i < paths.len(),
        paths[i].len() > 0,
        source.dom().contains(paths[i]),
        source[paths[i]] == paths[i],
        build(paths).node_at(path_segments(paths[i])) matches Some(node) && node.children.len()
            == 0,
        resolves(build(paths), path_segments(paths[i])),
    ensures
        object_of(build(paths), source).at(field_path(path_segments(paths[i]))) == Some(
            ValueView::Text(paths[i]),
        ),
{
    lemma_segments_of_path(paths[i]);
    lemma_build_binds_input(paths, i);
    lemma_object_at(build(paths), source, path_segments(paths[i]));
}

/// What `first_absent` is: nothing exactly where the source holds every key;
/// otherwise a key of the list that the source does not hold, before which
/// every key is held.
pub proof fn lemma_first_absent(keys: Seq<Seq<char>>, source: Map<Seq<char>, Seq<char>>)
    ensures
        first_absent(keys, source) is None <==> forall|i: int|
            0 <= i < keys.len() ==> source.dom().contains(#[trigger] keys[i]),
        first_absent(keys, source) matches Some(key) ==> exists|at: int|
            0 <= at < keys.len() && #[trigger] keys[at] == key && !source.dom().contains(key)
                && forall|i: int| 0 <= i < at ==> source.dom().contains(#[trigger] keys[i]),
    decreases keys.len(),
{
    if keys.len() > 0 {
        let shorter = keys.drop_last();
        lemma_first_absent(shorter, source);
        match first_absent(shorter, source) {
            Some(key) => {
                let at = choose|at: int|
                    0 <= at < shorter.len() && #[trigger] shorter[at] == key
                        && !source.dom().contains(key) && forall|i: int|
                        0 <= i < at ==> source.dom().contains(#[trigger] shorter[i]);
                assert forall|i: int| 0 <= i < at implies source.dom().contains(
                    #[trigger] keys[i],
                ) by {
                    assert(keys[i] == shorter[i]);
                }
            },
            None => {
                assert forall|i: int| 0 <= i < keys.len() - 1 implies source.dom().contains(
                    #[trigger] keys[i],
                ) by {
                    assert(keys[i] == shorter[i]);
                }
            },
        }
    }
}

/// Every key that is looked up for a well-formed tree is bound to a node of
/// that tree.
pub proof fn lemma_lookup_is_bound(t: Tree, upto: int, at: int)
    requires
        t.well_formed(),
        0 <= upto <= t.children.len(),
        0 <= at < lookups_upto(t, upto).len(),
    ensures
        exists|path: Seq<Seq<char>>| #[trigger]
            t.bound_at(path) == Some(lookups_upto(t, upto)[at]),
    decreases t, upto,
{
    let before = lookups_upto(t, upto - 1);
    if at < before.len() {
        lemma_lookup_is_bound(t, upto - 1, at);
    } else {
        let (name, child) = t.children[upto - 1];
        lemma_first_named_is(t.children, name, upto - 1);
        if child.is_leaf() {
            let path = seq![name];
            assert(t.node_at(path) == child.node_at(path.skip(1)));
            assert(t.bound_at(path) == Some(lookups_upto(t, upto)[at]));
        } else {
            let inner = at - before.len();
            lemma_lookup_is_bound(child, child.children.len() as int, inner);
            let tail = choose|path: Seq<Seq<char>>| #[trigger]
                child.bound_at(path) == Some(
                    lookups_upto(child, child.children.len() as int)[inner],
                );
            let path = seq![name] + tail;
            assert(path.skip(1) =~= tail);
            assert(t.bound_at(path) == Some(lookups_upto(t, upto)[at]));
        }
    }
}

/// Every key that is looked up for the tree of a list of paths is a path of
/// the list.
pub proof fn lemma_lookups_are_inputs(paths: Seq<Seq<char>>, at: int)
    requires
        0 <= at < lookups(build(paths)).len(),
    ensures
        paths.contains(lookups(build(paths))[at]),
{
    let t = build(paths);
    lemma_build_well_formed(paths);
    lemma_lookup_is_bound(t, t.children.len() as int, at);
    let path = choose|path: Seq<Seq<char>>| #[trigger]
        t.bound_at(path) == Some(lookups(t)[at]);
    lemma_build_binds_only_input(paths, path);
}

/// Where the source holds every path of the list, no lookup fails: the
/// construction of the object succeeds.
pub proof fn lemma_construction_succeeds(paths: Seq<Seq<char>>, source: Map<Seq<char>, Seq<char>>)
    requires
        forall|i: int| 0 <= i < paths.len() ==> source.dom().contains(#[trigger] paths[i]),
    ensures
        first_absent(lookups(build(paths)), source) is None,
{
    let keys = lookups(build(paths));
    assert forall|at: int| 0 <= at < keys.len() implies source.dom().contains(
        #[trigger] keys[at],
    ) by {
        lemma_lookups_are_inputs(paths, at);
    }
    lemma_first_absent(keys, source);
}

/// Two derivations from the same list of paths give the same schema: the same
/// records, under the same names, with the same fields in the same order.
pub proof fn lemma_same_paths_same_schema(vars: &[&str], first: Schema, second: Schema)
    requires
        call_ensures(env_vars_struct, (vars,), first),
        call_ensures(env_vars_struct, (vars,), second),
    ensures
        first@ == second@,
{
}

} // verus!

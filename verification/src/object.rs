//! The configuration object: a record for every namespace, a text for every
//! leaf, each text taken from the source under the leaf's own dotted path.

use crate::naming::{field_identifier, to_snake_case};
use crate::node::Node;
use crate::source::Source;
use crate::tree::{first_named, lemma_first_named_is, Tree};
use vstd::prelude::*;
use vstd::string::*;

verus! {

/// A value of the configuration object, as a mathematical value.
pub enum ValueView {
    Text(Seq<char>),
    Record(Seq<(Seq<char>, ValueView)>),
}

impl ValueView {
    /// The field named `name` of a record: the first of that name. A text has
    /// no fields.
    pub open spec fn field(self, name: Seq<char>) -> Option<ValueView> {
        match self {
            ValueView::Text(_) => None,
            ValueView::Record(members) => {
                let at = first_named(members, name);
                if at < members.len() {
                    Some(members[at].1)
                } else {
                    None
                }
            },
        }
    }

    /// The value reached from here by following field names one by one.
    pub open spec fn at(self, names: Seq<Seq<char>>) -> Option<ValueView>
        decreases names.len(),
    {
        if names.len() == 0 {
            Some(self)
        } else {
            match self.field(names[0]) {
                Some(inner) => inner.at(names.skip(1)),
                None => None,
            }
        }
    }
}

/// A named member of a record.
#[derive(Debug, PartialEq, Eq)]
pub struct Member {
    pub name: String,
    pub value: Value,
}

/// A value of the configuration object: the text of a leaf, or the record of a
/// namespace with one member per child.
#[derive(Debug, PartialEq, Eq)]
pub enum Value {
    Text(String),
    Record(Vec<Member>),
}

impl Value {
    /// The mathematical value that this value stands for.
    pub open spec fn model(self) -> ValueView
        decreases self,
    {
        match self {
            Value::Text(text) => ValueView::Text(text@),
            Value::Record(members) => ValueView::Record(
                Seq::new(
                    members@.len(),
                    |i: int|
                        if 0 <= i < members@.len() {
                            (members@[i].name@, members@[i].value.model())
                        } else {
                            (Seq::empty(), ValueView::Text(Seq::empty()))
                        },
                ),
            ),
        }
    }
}

impl View for Value {
    type V = ValueView;

    open spec fn view(&self) -> ValueView {
        self.model()
    }
}

/// The members as pairs of a name and a value.
pub open spec fn members_view(members: Seq<Member>) -> Seq<(Seq<char>, ValueView)> {
    Seq::new(members.len(), |i: int| (members[i].name@, members[i].value@))
}

/// The view of a record is the view of its members, one by one.
pub proof fn lemma_record_view(members: Vec<Member>)
    ensures
        Value::Record(members)@ == ValueView::Record(members_view(members@)),
{
    assert(Value::Record(members)@->Record_0 =~= members_view(members@));
}

impl Value {
    /// The text of a leaf; nothing for a record.
    pub fn as_text(&self) -> (text: Option<&str>)
        ensures
            match text {
                Some(t) => self@ == ValueView::Text(t@),
                None => self@ is Record,
            },
    {
        match self {
            Value::Text(t) => Some(t.as_str()),
            Value::Record(_) => None,
        }
    }

    /// The field named `name` of a record, the first of that name; nothing for
    /// a text or where no field has that name.
    pub fn get(&self, name: &str) -> (found: Option<&Value>)
        ensures
            match found {
                Some(value) => self@.field(name@) == Some(value@),
                None => self@.field(name@) is None,
            },
    {
        match self {
            Value::Text(_) => None,
            Value::Record(members) => {
                let owned = name.to_owned();
                let mut i: usize = 0;
                proof {
                    lemma_record_view(*members);
                }
                while i < members.len()
                    invariant
                        i <= members.len(),
                        owned@ == name@,
                        self@ == ValueView::Record(members_view(members@)),
                        forall|j: int|
                            0 <= j < i ==> (#[trigger] members_view(members@)[j]).0 != name@,
                    decreases members.len() - i,
                {
                    if members[i].name == owned {
                        proof {
                            lemma_first_named_is(members_view(members@), name@, i as int);
                        }
                        return Some(&members[i].value);
                    }
                    i += 1;
                }
                proof {
                    lemma_first_named_is(members_view(members@), name@, i as int);
                }
                None
            },
        }
    }
}

/// The source keys of the leaves among the first `upto` children of `t` and
/// below them, in the order in which the construction of the object looks them
/// up: child by child, and within a namespace all of its keys before the next
/// child.
pub open spec fn lookups_upto(t: Tree, upto: int) -> Seq<Seq<char>>
    decreases t, upto,
{
    if upto <= 0 || upto > t.children.len() {
        Seq::empty()
    } else {
        let before = lookups_upto(t, upto - 1);
        let child = t.children[upto - 1].1;
        if child.is_leaf() {
            before.push(child.bound_key->0)
        } else {
            before + lookups_upto(child, child.children.len() as int)
        }
    }
}

/// All source keys that the construction of the object for `t` looks up, in
/// the order of the lookups.
pub open spec fn lookups(t: Tree) -> Seq<Seq<char>> {
    lookups_upto(t, t.children.len() as int)
}

/// The first of the keys that the source does not hold, if there is one.
pub open spec fn first_absent(keys: Seq<Seq<char>>, source: Map<Seq<char>, Seq<char>>) -> Option<
    Seq<char>,
>
    decreases keys.len(),
{
    if keys.len() == 0 {
        None
    } else {
        match first_absent(keys.drop_last(), source) {
            Some(key) => Some(key),
            None => if source.dom().contains(keys.last()) {
                None
            } else {
                Some(keys.last())
            },
        }
    }
}

/// The value of the field for `child`: the text that the source holds under
/// the key of a leaf, the record of a namespace.
pub open spec fn member_value(child: Tree, source: Map<Seq<char>, Seq<char>>) -> ValueView
    decreases child, 1int,
{
    if child.is_leaf() {
        ValueView::Text(source[child.bound_key->0])
    } else {
        object_of(child, source)
    }
}

/// The record for the namespace `t`: one member per child, in the children's
/// order, named by the child's field identifier.
pub open spec fn object_of(t: Tree, source: Map<Seq<char>, Seq<char>>) -> ValueView
    decreases t, 0int,
{
    ValueView::Record(
        Seq::new(
            t.children.len(),
            |i: int|
                if 0 <= i < t.children.len() {
                    (field_identifier(t.children[i].0), member_value(t.children[i].1, source))
                } else {
                    (Seq::empty(), ValueView::Text(Seq::empty()))
                },
        ),
    )
}

/// The first absent key of two lists of keys, one after the other, is the
/// first absent key of the first list, or else that of the second.
pub proof fn lemma_first_absent_concat(
    first: Seq<Seq<char>>,
    second: Seq<Seq<char>>,
    source: Map<Seq<char>, Seq<char>>,
)
    ensures
        first_absent(first + second, source) == match first_absent(first, source) {
            Some(key) => Some(key),
            None => first_absent(second, source),
        },
    decreases second.len(),
{
    if second.len() == 0 {
        assert(first + second =~= first);
    } else {
        assert((first + second).drop_last() =~= first + second.drop_last());
        lemma_first_absent_concat(first, second.drop_last(), source);
    }
}

/// The lookups for more children begin with the lookups for fewer.
pub proof fn lemma_lookups_grow(t: Tree, fewer: int, more: int)
    requires
        0 <= fewer <= more <= t.children.len(),
    ensures
        lookups_upto(t, fewer).is_prefix_of(lookups_upto(t, more)),
    decreases more - fewer,
{
    if fewer < more {
        lemma_lookups_grow(t, fewer, more - 1);
    }
}

/// A key that is absent among the first keys is absent among all of them.
pub proof fn lemma_first_absent_prefix(
    first: Seq<Seq<char>>,
    all: Seq<Seq<char>>,
    source: Map<Seq<char>, Seq<char>>,
)
    requires
        first.is_prefix_of(all),
        first_absent(first, source) is Some,
    ensures
        first_absent(all, source) == first_absent(first, source),
{
    let rest = all.skip(first.len() as int);
    assert(all =~= first + rest);
    lemma_first_absent_concat(first, rest, source);
}

/// The failure of a construction: a leaf whose source key the source does not
/// hold.
#[derive(Debug, PartialEq, Eq)]
pub struct MissingValue {
    pub key: String,
}

impl MissingValue {
    /// What the message says before the key.
    pub open spec fn message_head() -> Seq<char> {
        "Environment variable "@
    }

    /// What the message says after the key.
    pub open spec fn message_tail() -> Seq<char> {
        " not found"@
    }

    /// The message of the failure, which names the key as it was given.
    pub fn message(&self) -> (text: String)
        ensures
            text@ == Self::message_head() + self.key@ + Self::message_tail(),
    {
        let mut text = "Environment variable ".to_owned();
        text.append(self.key.as_str());
        text.append(" not found");
        text
    }
}

/// Constructs the configuration object for the namespace `node`: looks up the
/// key of every leaf in the source, in the order of [`lookups`], and fails
/// at the first key that the source does not hold. There is no partial object.
pub fn instantiate(node: &Node, source: &Source) -> (result: Result<Value, MissingValue>)
    ensures
        match result {
            Ok(value) => first_absent(lookups(node@), source@) is None && value@ == object_of(
                node@,
                source@,
            ),
            Err(missing) => first_absent(lookups(node@), source@) == Some(missing.key@),
        },
    decreases node@,
{
    let mut members: Vec<Member> = Vec::new();
    let count = node.child_count();
    let mut i: usize = 0;
    while i < count
        invariant
            i <= count,
            count == node@.children.len(),
            members@.len() == i,
            first_absent(lookups_upto(node@, i as int), source@) is None,
            forall|j: int|
                0 <= j < i ==> #[trigger] members_view(members@)[j] == (
                    field_identifier(node@.children[j].0),
                    member_value(node@.children[j].1, source@),
                ),
        decreases count - i,
    {
        let segment = node.child_name(i);
        let child = node.child_node(i);
        let ghost before = lookups_upto(node@, i as int);
        let ghost after = lookups_upto(node@, i + 1);
        proof {
            lemma_lookups_grow(node@, i + 1, count as int);
        }
        let value = match child.leaf_var() {
            Some(var_name) if child.child_count() == 0 => {
                assert(after.drop_last() == before);
                match source.get(var_name) {
                    Some(text) => Value::Text(text.to_owned()),
                    None => {
                        proof {
                            lemma_first_absent_prefix(after, lookups(node@), source@);
                        }
                        return Err(MissingValue { key: var_name.to_owned() });
                    },
                }
            },
            _ => {
                proof {
                    lemma_first_absent_concat(before, lookups(child@), source@);
                }
                match instantiate(child, source) {
                    Ok(value) => value,
                    Err(missing) => {
                        proof {
                            lemma_first_absent_prefix(after, lookups(node@), source@);
                        }
                        return Err(missing);
                    },
                }
            },
        };
        let ghost earlier = members_view(members@);
        members.push(Member { name: to_snake_case(segment), value });
        assert forall|j: int| 0 <= j < i + 1 implies #[trigger] members_view(members@)[j] == (
            field_identifier(node@.children[j].0),
            member_value(node@.children[j].1, source@),
        ) by {
            if j < i {
                assert(members_view(members@)[j] == earlier[j]);
            }
        }
        i += 1;
    }
    proof {
        lemma_record_view(members);
        assert(members_view(members@) =~= object_of(node@, source@)->Record_0);
    }
    Ok(Value::Record(members))
}

/// The source keys that the construction of the object for `node` looks up,
/// in the order of the lookups.
pub fn lookup_keys(node: &Node) -> (keys: Vec<String>)
    ensures
        keys.deep_view() == lookups(node@),
    decreases node@,
{
    let mut keys: Vec<String> = Vec::new();
    let count = node.child_count();
    let mut i: usize = 0;
    while i < count
        invariant
            i <= count,
            count == node@.children.len(),
            keys.deep_view() == lookups_upto(node@, i as int),
        decreases count - i,
    {
        let child = node.child_node(i);
        match child.leaf_var() {
            Some(var_name) if child.child_count() == 0 => {
                keys.push(var_name.to_owned());
            },
            _ => {
                let mut below = lookup_keys(child);
                keys.append(&mut below);
            },
        }
        i += 1;
    }
    keys
}

} // verus!

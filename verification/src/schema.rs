//! The schema derived from a namespace tree: one record declaration for every
//! namespace, with its fields and the actions that initialize them.

use crate::naming::{child_struct_name, child_type_name, field_identifier, to_snake_case};
use crate::node::{build_tree, Node};
use crate::tree::{build, Tree};
use vstd::prelude::*;

verus! {

/// The name of the record that stands for the whole configuration.
pub const ROOT_STRUCT_NAME: &'static str = "Vars";

/// The type of a field: text for a leaf, the record of the child otherwise.
#[derive(Debug, PartialEq, Eq)]
pub enum FieldType {
    Text,
    Record(String),
}

/// A field of a record declaration.
#[derive(Debug, PartialEq, Eq)]
pub struct FieldDecl {
    pub name: String,
    pub ty: FieldType,
}

/// A field type as a mathematical value.
pub enum FieldTypeView {
    Text,
    Record(Seq<char>),
}

/// A field declaration as a mathematical value.
pub struct FieldDeclView {
    pub name: Seq<char>,
    pub ty: FieldTypeView,
}

impl View for FieldType {
    type V = FieldTypeView;

    open spec fn view(&self) -> FieldTypeView {
        match self {
            FieldType::Text => FieldTypeView::Text,
            FieldType::Record(name) => FieldTypeView::Record(name@),
        }
    }
}

impl View for FieldDecl {
    type V = FieldDeclView;

    open spec fn view(&self) -> FieldDeclView {
        FieldDeclView { name: self.name@, ty: self.ty@ }
    }
}

/// The type of the field for `child`, which hangs under the record named
/// `parent` by the raw name `segment`.
pub open spec fn field_type_of(
    child: Tree,
    parent: Seq<char>,
    segment: Seq<char>,
) -> FieldTypeView {
    if child.is_leaf() {
        FieldTypeView::Text
    } else {
        FieldTypeView::Record(child_type_name(parent, segment))
    }
}

/// The fields of the record for `t`, one per child, in the children's order.
pub open spec fn struct_fields(t: Tree, parent: Seq<char>) -> Seq<FieldDeclView> {
    Seq::new(
        t.children.len(),
        |i: int|
            FieldDeclView {
                name: field_identifier(t.children[i].0),
                ty: field_type_of(t.children[i].1, parent, t.children[i].0),
            },
    )
}

/// The fields of the record for `node`, whose type is named `parent_struct`.
pub fn generate_struct_fields(node: &Node, parent_struct: &str) -> (fields: Vec<FieldDecl>)
    ensures
        fields@.map_values(|f: FieldDecl| f@) == struct_fields(node@, parent_struct@),
{
    let mut fields: Vec<FieldDecl> = Vec::new();
    let count = node.child_count();
    let mut i: usize = 0;
    while i < count
        invariant
            i <= count,
            count == node@.children.len(),
            fields@.len() == i,
            forall|j: int|
                0 <= j < i ==> (#[trigger] fields@[j])@ == struct_fields(node@, parent_struct@)[j],
        decreases count - i,
    {
        let segment = node.child_name(i);
        let child = node.child_node(i);
        let name = to_snake_case(segment);
        let ty = if child.is_leaf() {
            FieldType::Text
        } else {
            FieldType::Record(child_struct_name(parent_struct, segment))
        };
        fields.push(FieldDecl { name, ty });
        i += 1;
    }
    fields
}

/// What initializes a field: a lookup of a source key for a leaf, the
/// construction of the child's record otherwise.
#[derive(Debug, PartialEq, Eq)]
pub enum InitAction {
    Lookup(String),
    Construct(String),
}

/// The initializer of one field.
#[derive(Debug, PartialEq, Eq)]
pub struct FieldInit {
    pub name: String,
    pub action: InitAction,
}

/// An initializing action as a mathematical value.
pub enum InitActionView {
    Lookup(Seq<char>),
    Construct(Seq<char>),
}

/// A field initializer as a mathematical value.
pub struct FieldInitView {
    pub name: Seq<char>,
    pub action: InitActionView,
}

impl View for InitAction {
    type V = InitActionView;

    open spec fn view(&self) -> InitActionView {
        match self {
            InitAction::Lookup(key) => InitActionView::Lookup(key@),
            InitAction::Construct(name) => InitActionView::Construct(name@),
        }
    }
}

impl View for FieldInit {
    type V = FieldInitView;

    open spec fn view(&self) -> FieldInitView {
        FieldInitView { name: self.name@, action: self.action@ }
    }
}

/// The action that initializes the field for `child`: a leaf looks up the key
/// it is bound to, the full dotted path as it was given; a namespace constructs
/// its record, and a key bound to it is not used.
pub open spec fn init_action_of(
    child: Tree,
    parent: Seq<char>,
    segment: Seq<char>,
) -> InitActionView {
    if child.is_leaf() {
        InitActionView::Lookup(child.bound_key->0)
    } else {
        InitActionView::Construct(child_type_name(parent, segment))
    }
}

/// The initializers of the record for `t`, one per child, in the children's
/// order.
pub open spec fn field_inits(t: Tree, parent: Seq<char>) -> Seq<FieldInitView> {
    Seq::new(
        t.children.len(),
        |i: int|
            FieldInitView {
                name: field_identifier(t.children[i].0),
                action: init_action_of(t.children[i].1, parent, t.children[i].0),
            },
    )
}

/// The initializers of the record for `node`, whose type is named
/// `parent_struct`.
pub fn generate_field_inits(node: &Node, parent_struct: &str) -> (inits: Vec<FieldInit>)
    ensures
        inits@.map_values(|f: FieldInit| f@) == field_inits(node@, parent_struct@),
{
    let mut inits: Vec<FieldInit> = Vec::new();
    let count = node.child_count();
    let mut i: usize = 0;
    while i < count
        invariant
            i <= count,
            count == node@.children.len(),
            inits@.len() == i,
            forall|j: int|
                0 <= j < i ==> (#[trigger] inits@[j])@ == field_inits(node@, parent_struct@)[j],
        decreases count - i,
    {
        let segment = node.child_name(i);
        let child = node.child_node(i);
        let name = to_snake_case(segment);
        let action = match child.leaf_var() {
            Some(var_name) if child.child_count() == 0 => InitAction::Lookup(var_name.to_owned()),
            _ => InitAction::Construct(child_struct_name(parent_struct, segment)),
        };
        inits.push(FieldInit { name, action });
        i += 1;
    }
    inits
}

/// The declaration of one record: its type name, its fields and their
/// initializers, field by field in the same order.
#[derive(Debug, PartialEq, Eq)]
pub struct RecordSchema {
    pub name: String,
    pub fields: Vec<FieldDecl>,
    pub inits: Vec<FieldInit>,
}

/// A record declaration as a mathematical value.
pub struct RecordSchemaView {
    pub name: Seq<char>,
    pub fields: Seq<FieldDeclView>,
    pub inits: Seq<FieldInitView>,
}

impl View for RecordSchema {
    type V = RecordSchemaView;

    open spec fn view(&self) -> RecordSchemaView {
        RecordSchemaView {
            name: self.name@,
            fields: self.fields@.map_values(|f: FieldDecl| f@),
            inits: self.inits@.map_values(|f: FieldInit| f@),
        }
    }
}

/// The record for the namespace `t` under the type name `name`.
pub open spec fn record_for(t: Tree, name: Seq<char>) -> RecordSchemaView {
    RecordSchemaView { name, fields: struct_fields(t, name), inits: field_inits(t, name) }
}

/// The records for the namespaces among the first `upto` children of `t` and
/// below them. The children are taken in their order; for each namespace the
/// records below it come first, then its own.
pub open spec fn structs_upto(t: Tree, name: Seq<char>, upto: int) -> Seq<RecordSchemaView>
    decreases t, upto,
{
    if upto <= 0 || upto > t.children.len() {
        Seq::empty()
    } else {
        let before = structs_upto(t, name, upto - 1);
        let (segment, child) = t.children[upto - 1];
        if child.is_leaf() {
            before
        } else {
            let child_name = child_type_name(name, segment);
            before + structs_upto(child, child_name, child.children.len() as int).push(
                record_for(child, child_name),
            )
        }
    }
}

/// The records for all namespaces below `t`, whose own record is named `name`.
pub open spec fn structs(t: Tree, name: Seq<char>) -> Seq<RecordSchemaView> {
    structs_upto(t, name, t.children.len() as int)
}

/// The record declarations for every namespace below `node`, whose own record
/// is named `struct_name`.
pub fn generate_structs(node: &Node, struct_name: &str) -> (output: Vec<RecordSchema>)
    ensures
        output@.map_values(|r: RecordSchema| r@) == structs(node@, struct_name@),
    decreases node@,
{
    let mut output: Vec<RecordSchema> = Vec::new();
    let count = node.child_count();
    let mut i: usize = 0;
    while i < count
        invariant
            i <= count,
            count == node@.children.len(),
            output@.map_values(|r: RecordSchema| r@) == structs_upto(
                node@,
                struct_name@,
                i as int,
            ),
        decreases count - i,
    {
        let field_name = node.child_name(i);
        let child_node = node.child_node(i);
        if !child_node.is_leaf() {
            let child_struct_name = child_struct_name(struct_name, field_name);
            let mut child_structs = generate_structs(child_node, child_struct_name.as_str());
            output.append(&mut child_structs);
            let fields = generate_struct_fields(child_node, child_struct_name.as_str());
            let inits = generate_field_inits(child_node, child_struct_name.as_str());
            let record = RecordSchema { name: child_struct_name, fields, inits };
            output.push(record);
        }
        i += 1;
    }
    output
}

/// The declaration of the top-level record, under its fixed name.
pub open spec fn root_struct(t: Tree) -> RecordSchemaView {
    record_for(t, ROOT_STRUCT_NAME@)
}

/// The declaration of the record that stands for the whole configuration.
pub fn generate_root_struct(node: &Node) -> (root: RecordSchema)
    ensures
        root@ == root_struct(node@),
{
    let fields = generate_struct_fields(node, ROOT_STRUCT_NAME);
    let inits = generate_field_inits(node, ROOT_STRUCT_NAME);
    RecordSchema { name: ROOT_STRUCT_NAME.to_owned(), fields, inits }
}

/// The whole schema of a configuration: the records of all namespaces, each
/// after the records below it, and the top-level record.
#[derive(Debug, PartialEq, Eq)]
pub struct Schema {
    pub structs: Vec<RecordSchema>,
    pub root: RecordSchema,
}

/// A schema as a mathematical value.
pub struct SchemaView {
    pub structs: Seq<RecordSchemaView>,
    pub root: RecordSchemaView,
}

impl View for Schema {
    type V = SchemaView;

    open spec fn view(&self) -> SchemaView {
        SchemaView { structs: self.structs@.map_values(|r: RecordSchema| r@), root: self.root@ }
    }
}

/// The schema of a namespace tree.
pub open spec fn schema_of_tree(t: Tree) -> SchemaView {
    SchemaView { structs: structs(t, ROOT_STRUCT_NAME@), root: root_struct(t) }
}

/// The schema of a list of dotted paths. It depends on the list alone: the
/// same paths in the same order give the same records, with the same names,
/// and the same fields in the same order.
pub open spec fn schema_of(paths: Seq<Seq<char>>) -> SchemaView {
    schema_of_tree(build(paths))
}

/// Derives the schema of a configuration from its dotted paths: builds the
/// namespace tree of the paths and declares a record for the whole and for
/// every namespace in it.
pub fn env_vars_struct(vars: &[&str]) -> (schema: Schema)
    ensures
        schema@ == schema_of(vars.deep_view()),
{
    let root = build_tree(vars);
    let structs = generate_structs(&root, ROOT_STRUCT_NAME);
    let root_struct = generate_root_struct(&root);
    Schema { structs, root: root_struct }
}

} // verus!

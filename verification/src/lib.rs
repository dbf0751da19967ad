//! Nested configuration records from a flat list of dotted names.
//!
//! A name such as `DATABASE.HOST` stands for the field `host` of the record
//! `database` of the configuration. The list of names is turned into a
//! namespace tree, the tree into a schema of record declarations, and, with a
//! source of values at hand, into the configuration object itself.
//!
//! The order of the list is the order of everything derived from it: the
//! fields of a record stand in the order in which the list first mentions
//! them, and the records of the namespaces follow that order too, each behind
//! the records of the namespaces below it. A name that is both given on its own
//! and continued by another (`A` beside `A.B`) is a namespace, and its own
//! value is not part of the configuration.

pub mod laws;
pub mod naming;
pub mod node;
pub mod object;
pub mod path;
pub mod schema;
pub mod source;
pub mod text;
pub mod tree;

pub use naming::{to_pascal_case, to_snake_case};
pub use node::{build_tree, insert_path, Node};
pub use object::{instantiate, lookup_keys, Member, MissingValue, Value};
pub use path::split_path;
pub use schema::{
    env_vars_struct, generate_field_inits, generate_root_struct, generate_struct_fields,
    generate_structs, FieldDecl, FieldInit, FieldType, InitAction, RecordSchema, Schema,
    ROOT_STRUCT_NAME,
};
pub use source::Source;

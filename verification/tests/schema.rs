use env_vars_struct::{
    build_tree, env_vars_struct, generate_field_inits, generate_root_struct,
    generate_struct_fields, generate_structs, FieldDecl, FieldInit, FieldType, InitAction,
    RecordSchema, ROOT_STRUCT_NAME,
};

fn text(name: &str) -> FieldDecl {
    FieldDecl { name: name.to_string(), ty: FieldType::Text }
}

fn record(name: &str, ty: &str) -> FieldDecl {
    FieldDecl { name: name.to_string(), ty: FieldType::Record(ty.to_string()) }
}

fn lookup(name: &str, key: &str) -> FieldInit {
    FieldInit { name: name.to_string(), action: InitAction::Lookup(key.to_string()) }
}

fn construct(name: &str, ty: &str) -> FieldInit {
    FieldInit { name: name.to_string(), action: InitAction::Construct(ty.to_string()) }
}

fn names(records: &[RecordSchema]) -> Vec<String> {
    records.iter().map(|r| r.name.clone()).collect()
}

#[test]
fn root_name_is_fixed() {
    assert_eq!(ROOT_STRUCT_NAME, "Vars");
    assert_eq!(env_vars_struct(&[]).root.name, "Vars");
    assert_eq!(env_vars_struct(&["A.B"]).root.name, "Vars");
}

#[test]
fn empty_list_gives_an_empty_root() {
    let schema = env_vars_struct(&[]);
    assert!(schema.structs.is_empty());
    assert!(schema.root.fields.is_empty());
    assert!(schema.root.inits.is_empty());
}

#[test]
fn single_leaf_is_a_text_field_of_the_root() {
    let schema = env_vars_struct(&["HAT"]);
    assert!(schema.structs.is_empty());
    assert_eq!(schema.root.fields, vec![text("hat")]);
    assert_eq!(schema.root.inits, vec![lookup("hat", "HAT")]);
}

#[test]
fn nested_names_give_nested_records() {
    let schema = env_vars_struct(&[
        "DATABASE.HOST",
        "DATABASE.PORT",
        "API.KEY",
        "API.SECRET",
        "CACHE.REDIS.URL",
        "HAT",
    ]);
    assert_eq!(
        schema.root,
        RecordSchema {
            name: "Vars".to_string(),
            fields: vec![
                record("database", "VarsDatabase"),
                record("api", "VarsApi"),
                record("cache", "VarsCache"),
                text("hat"),
            ],
            inits: vec![
                construct("database", "VarsDatabase"),
                construct("api", "VarsApi"),
                construct("cache", "VarsCache"),
                lookup("hat", "HAT"),
            ],
        }
    );
    assert_eq!(
        schema.structs,
        vec![
            RecordSchema {
                name: "VarsDatabase".to_string(),
                fields: vec![text("host"), text("port")],
                inits: vec![lookup("host", "DATABASE.HOST"), lookup("port", "DATABASE.PORT")],
            },
            RecordSchema {
                name: "VarsApi".to_string(),
                fields: vec![text("key"), text("secret")],
                inits: vec![lookup("key", "API.KEY"), lookup("secret", "API.SECRET")],
            },
            RecordSchema {
                name: "VarsCacheRedis".to_string(),
                fields: vec![text("url")],
                inits: vec![lookup("url", "CACHE.REDIS.URL")],
            },
            RecordSchema {
                name: "VarsCache".to_string(),
                fields: vec![record("redis", "VarsCacheRedis")],
                inits: vec![construct("redis", "VarsCacheRedis")],
            },
        ]
    );
}

#[test]
fn namespace_wins_over_leaf() {
    let schema = env_vars_struct(&["A", "A.B"]);
    assert_eq!(schema.root.fields, vec![record("a", "VarsA")]);
    assert_eq!(schema.root.inits, vec![construct("a", "VarsA")]);
    assert_eq!(
        schema.structs,
        vec![RecordSchema {
            name: "VarsA".to_string(),
            fields: vec![text("b")],
            inits: vec![lookup("b", "A.B")],
        }]
    );
    // The binding of the bare name occurs nowhere in the schema.
    let all_inits: Vec<&FieldInit> = schema
        .structs
        .iter()
        .flat_map(|r| r.inits.iter())
        .chain(schema.root.inits.iter())
        .collect();
    assert!(all_inits.iter().all(|init| init.action != InitAction::Lookup("A".to_string())));
}

#[test]
fn namespace_wins_over_leaf_in_either_order() {
    assert_eq!(env_vars_struct(&["A.B", "A"]), env_vars_struct(&["A", "A.B"]));
}

#[test]
fn case_and_separator_are_normalized() {
    let schema = env_vars_struct(&["CACHE.REDIS-URL"]);
    assert_eq!(schema.root.fields, vec![record("cache", "VarsCache")]);
    assert_eq!(
        schema.structs,
        vec![RecordSchema {
            name: "VarsCache".to_string(),
            fields: vec![text("redis_url")],
            inits: vec![lookup("redis_url", "CACHE.REDIS-URL")],
        }]
    );
}

#[test]
fn nested_type_is_named_by_the_fragment() {
    let schema = env_vars_struct(&["CACHE.REDIS_URL.PRIMARY"]);
    assert_eq!(names(&schema.structs), vec!["VarsCacheRedisUrl", "VarsCache"]);
    assert_eq!(schema.structs[1].fields, vec![record("redis_url", "VarsCacheRedisUrl")]);
    assert_eq!(schema.structs[0].fields, vec![text("primary")]);
    assert_eq!(schema.structs[0].inits, vec![lookup("primary", "CACHE.REDIS_URL.PRIMARY")]);
}

#[test]
fn fields_come_in_the_order_of_first_mention() {
    let schema = env_vars_struct(&["B.X", "A.Y"]);
    assert_eq!(schema.root.fields, vec![record("b", "VarsB"), record("a", "VarsA")]);
    assert_eq!(names(&schema.structs), vec!["VarsB", "VarsA"]);
    for _ in 0..20 {
        assert_eq!(env_vars_struct(&["B.X", "A.Y"]), schema);
    }
}

#[test]
fn order_of_first_mention_holds_below_the_root() {
    let schema = env_vars_struct(&["N.Z", "M", "N.A", "N.Z", "N.K.Q"]);
    assert_eq!(schema.root.fields, vec![record("n", "VarsN"), text("m")]);
    assert_eq!(names(&schema.structs), vec!["VarsNK", "VarsN"]);
    assert_eq!(schema.structs[1].fields, vec![text("z"), text("a"), record("k", "VarsNK")]);
}

#[test]
fn same_list_gives_same_schema() {
    let list = ["DATABASE.HOST", "API.KEY", "DATABASE.PORT", "HAT", "CACHE.REDIS.URL", "API"];
    let first = env_vars_struct(&list);
    let second = env_vars_struct(&list);
    assert_eq!(first, second);
    assert_eq!(names(&first.structs), names(&second.structs));
}

#[test]
fn duplicate_paths_give_one_field() {
    let schema = env_vars_struct(&["A.B", "HAT", "A.B"]);
    assert_eq!(schema.root.fields, vec![record("a", "VarsA"), text("hat")]);
    assert_eq!(schema.structs.len(), 1);
    assert_eq!(schema.structs[0].inits, vec![lookup("b", "A.B")]);
}

#[test]
fn empty_paths_are_ignored() {
    assert_eq!(env_vars_struct(&["", "HAT", ""]), env_vars_struct(&["HAT"]));
}

#[test]
fn colliding_identifiers_are_kept_side_by_side() {
    let schema = env_vars_struct(&["a-b", "A_B"]);
    assert_eq!(schema.root.fields, vec![text("a_b"), text("a_b")]);
    assert_eq!(schema.root.inits, vec![lookup("a_b", "a-b"), lookup("a_b", "A_B")]);
}

#[test]
fn generators_work_on_any_node() {
    let root = build_tree(&["X.Y.Z", "X.W"]);
    let x = root.child("X").unwrap();
    assert_eq!(generate_struct_fields(x, "Outer"), vec![record("y", "OuterY"), text("w")]);
    assert_eq!(
        generate_field_inits(x, "Outer"),
        vec![construct("y", "OuterY"), lookup("w", "X.W")]
    );
    let below = generate_structs(x, "Outer");
    assert_eq!(
        below,
        vec![RecordSchema {
            name: "OuterY".to_string(),
            fields: vec![text("z")],
            inits: vec![lookup("z", "X.Y.Z")],
        }]
    );
    let top = generate_root_struct(x);
    assert_eq!(top.name, "Vars");
    assert_eq!(top.fields, vec![record("y", "VarsY"), text("w")]);
    assert_eq!(names(&generate_structs(&root, "Vars")), vec!["VarsXY", "VarsX"]);
}

#[test]
fn unbound_node_without_children_is_a_namespace() {
    let mut root = env_vars_struct::Node::new();
    env_vars_struct::insert_path(&mut root, &["A"], "A");
    // A node that nothing was bound to and that has no children is no leaf.
    let empty = env_vars_struct::Node::new();
    assert!(generate_struct_fields(&empty, "Vars").is_empty());
    assert!(generate_structs(&empty, "Vars").is_empty());
    assert_eq!(generate_struct_fields(&root, "Vars"), vec![text("a")]);
}

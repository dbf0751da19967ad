use env_vars_struct::{
    build_tree, instantiate, lookup_keys, Member, MissingValue, Source, Value,
};

fn source_of(pairs: &[(&str, &str)]) -> Source {
    let mut source = Source::new();
    for (key, value) in pairs {
        source.set(key, value);
    }
    source
}

fn identity_source(paths: &[&str]) -> Source {
    let mut source = Source::new();
    for path in paths {
        source.set(path, path);
    }
    source
}

fn follow<'a>(value: &'a Value, names: &[&str]) -> Option<&'a Value> {
    let mut current = value;
    for name in names {
        current = current.get(name)?;
    }
    Some(current)
}

#[test]
fn source_holds_what_was_set() {
    let mut source = Source::new();
    assert_eq!(source.get("A"), None);
    source.set("A", "1");
    source.set("B", "2");
    assert_eq!(source.get("A"), Some("1"));
    assert_eq!(source.get("B"), Some("2"));
    assert_eq!(source.get("C"), None);
    assert_eq!(source.get("a"), None);
    source.set("A", "3");
    assert_eq!(source.get("A"), Some("3"));
    assert_eq!(source.get("B"), Some("2"));
    source.set("", "empty");
    assert_eq!(source.get(""), Some("empty"));
}

#[test]
fn object_mirrors_the_dotted_names() {
    let root = build_tree(&[
        "DATABASE.HOST",
        "DATABASE.PORT",
        "API.KEY",
        "API.SECRET",
        "CACHE.REDIS.URL",
        "HAT",
    ]);
    let source = source_of(&[
        ("DATABASE.HOST", "host"),
        ("DATABASE.PORT", "5432"),
        ("API.KEY", "magic key"),
        ("API.SECRET", "magic secret"),
        ("CACHE.REDIS.URL", "redis://someplace"),
        ("HAT", "fedora"),
        ("UNUSED", "x"),
    ]);
    let vars = instantiate(&root, &source).unwrap();
    assert_eq!(follow(&vars, &["database", "host"]).unwrap().as_text(), Some("host"));
    assert_eq!(follow(&vars, &["database", "port"]).unwrap().as_text(), Some("5432"));
    assert_eq!(follow(&vars, &["api", "key"]).unwrap().as_text(), Some("magic key"));
    assert_eq!(follow(&vars, &["api", "secret"]).unwrap().as_text(), Some("magic secret"));
    assert_eq!(
        follow(&vars, &["cache", "redis", "url"]).unwrap().as_text(),
        Some("redis://someplace")
    );
    assert_eq!(follow(&vars, &["hat"]).unwrap().as_text(), Some("fedora"));
    assert!(vars.get("unused").is_none());
    assert!(vars.get("DATABASE").is_none());
    assert_eq!(vars.as_text(), None);
}

#[test]
fn object_has_members_in_field_order() {
    let root = build_tree(&["B.X", "A"]);
    let source = source_of(&[("A", "1"), ("B.X", "2")]);
    let vars = instantiate(&root, &source).unwrap();
    assert_eq!(
        vars,
        Value::Record(vec![
            Member {
                name: "b".to_string(),
                value: Value::Record(vec![Member {
                    name: "x".to_string(),
                    value: Value::Text("2".to_string()),
                }]),
            },
            Member { name: "a".to_string(), value: Value::Text("1".to_string()) },
        ])
    );
}

#[test]
fn round_trip_with_identity_source() {
    let paths = [
        "DATABASE.HOST",
        "DATABASE.PORT",
        "API.KEY",
        "CACHE.REDIS-URL",
        "Cache.Redis.Url",
        "HAT",
        "A..B",
    ];
    let root = build_tree(&paths);
    let vars = instantiate(&root, &identity_source(&paths)).unwrap();
    assert_eq!(follow(&vars, &["database", "host"]).unwrap().as_text(), Some("DATABASE.HOST"));
    assert_eq!(follow(&vars, &["database", "port"]).unwrap().as_text(), Some("DATABASE.PORT"));
    assert_eq!(follow(&vars, &["api", "key"]).unwrap().as_text(), Some("API.KEY"));
    assert_eq!(
        follow(&vars, &["cache", "redis_url"]).unwrap().as_text(),
        Some("CACHE.REDIS-URL")
    );
    assert_eq!(follow(&vars, &["hat"]).unwrap().as_text(), Some("HAT"));
    assert_eq!(follow(&vars, &["a", "", "b"]).unwrap().as_text(), Some("A..B"));
}

#[test]
fn round_trip_fails_where_identifiers_collide() {
    // "CACHE" and "Cache" are different children with the same field name:
    // following the name reaches the one mentioned first.
    let paths = ["CACHE.URL", "Cache.Url"];
    let root = build_tree(&paths);
    let vars = instantiate(&root, &identity_source(&paths)).unwrap();
    assert_eq!(follow(&vars, &["cache", "url"]).unwrap().as_text(), Some("CACHE.URL"));
}

#[test]
fn namespace_binding_is_not_looked_up() {
    let root = build_tree(&["A", "A.B"]);
    assert_eq!(lookup_keys(&root), vec!["A.B"]);
    // The source need not hold the bare name.
    let vars = instantiate(&root, &source_of(&[("A.B", "value")])).unwrap();
    assert_eq!(follow(&vars, &["a", "b"]).unwrap().as_text(), Some("value"));
    assert_eq!(vars.get("a").unwrap().as_text(), None);
}

#[test]
fn missing_value_is_fatal() {
    let root = build_tree(&["HAT"]);
    let source = Source::new();
    let failure = instantiate(&root, &source).unwrap_err();
    assert_eq!(failure, MissingValue { key: "HAT".to_string() });
    assert_eq!(failure.message(), "Environment variable HAT not found");
}

#[test]
fn missing_value_names_the_key_as_given() {
    let root = build_tree(&["CACHE.REDIS-URL"]);
    let source = source_of(&[("cache.redis_url", "x"), ("REDIS-URL", "y"), ("CACHE", "z")]);
    let failure = instantiate(&root, &source).unwrap_err();
    assert_eq!(failure.key, "CACHE.REDIS-URL");
    assert_eq!(failure.message(), "Environment variable CACHE.REDIS-URL not found");
}

#[test]
fn first_missing_value_in_lookup_order_is_reported() {
    let root = build_tree(&["B.X", "A", "B.Y", "C"]);
    assert_eq!(lookup_keys(&root), vec!["B.X", "B.Y", "A", "C"]);
    let failure = instantiate(&root, &source_of(&[("B.X", "1"), ("C", "4")])).unwrap_err();
    assert_eq!(failure.key, "B.Y");
    let failure = instantiate(&root, &source_of(&[("B.X", "1"), ("B.Y", "2")])).unwrap_err();
    assert_eq!(failure.key, "A");
    let failure = instantiate(&root, &source_of(&[("A", "3"), ("C", "4")])).unwrap_err();
    assert_eq!(failure.key, "B.X");
    assert!(instantiate(&root, &source_of(&[("B.X", "1"), ("B.Y", "2"), ("A", "3"), ("C", "4")]))
        .is_ok());
}

#[test]
fn empty_tree_gives_an_empty_record() {
    let root = build_tree(&[]);
    assert!(lookup_keys(&root).is_empty());
    assert_eq!(instantiate(&root, &Source::new()), Ok(Value::Record(vec![])));
}

#[test]
fn lookup_keys_are_the_leaves_in_field_order() {
    let root = build_tree(&[
        "DATABASE.HOST",
        "API.KEY",
        "DATABASE.PORT",
        "HAT",
        "CACHE.REDIS.URL",
        "API",
    ]);
    assert_eq!(
        lookup_keys(&root),
        vec!["DATABASE.HOST", "DATABASE.PORT", "API.KEY", "HAT", "CACHE.REDIS.URL"]
    );
}

#[test]
fn get_returns_the_first_field_of_a_name() {
    let value = Value::Record(vec![
        Member { name: "a".to_string(), value: Value::Text("first".to_string()) },
        Member { name: "a".to_string(), value: Value::Text("second".to_string()) },
    ]);
    assert_eq!(value.get("a").unwrap().as_text(), Some("first"));
    assert!(value.get("b").is_none());
    assert!(Value::Text("a".to_string()).get("a").is_none());
}

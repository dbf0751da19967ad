use env_vars_struct::split_path;

#[test]
fn empty_path_has_no_segments() {
    assert_eq!(split_path(""), Vec::<String>::new());
}

#[test]
fn path_without_dot_is_one_segment() {
    assert_eq!(split_path("HAT"), vec!["HAT"]);
}

#[test]
fn path_is_split_at_every_dot() {
    assert_eq!(split_path("DATABASE.HOST"), vec!["DATABASE", "HOST"]);
    assert_eq!(split_path("CACHE.REDIS.URL"), vec!["CACHE", "REDIS", "URL"]);
}

#[test]
fn segments_may_be_empty() {
    assert_eq!(split_path("A..B"), vec!["A", "", "B"]);
    assert_eq!(split_path("."), vec!["", ""]);
    assert_eq!(split_path("A."), vec!["A", ""]);
    assert_eq!(split_path(".A"), vec!["", "A"]);
}

#[test]
fn segments_keep_their_characters() {
    assert_eq!(split_path("Cache.Redis-URL"), vec!["Cache", "Redis-URL"]);
    assert_eq!(split_path("a b.c_d"), vec!["a b", "c_d"]);
}

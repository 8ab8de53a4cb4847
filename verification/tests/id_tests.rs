use stash::id::{filename, index_string, parse_id_arg, parse_id_internal, parse_index, str_eq};
use stash::id::{IdError, StashId};

#[test]
fn parse_arg_with_index() {
    let (name, idx) = parse_id_arg("foo:3").unwrap();
    assert_eq!(name, "foo");
    assert_eq!(idx, Some(3));
}

#[test]
fn parse_arg_without_index() {
    let (name, idx) = parse_id_arg("foo").unwrap();
    assert_eq!(name, "foo");
    assert_eq!(idx, None);
}

#[test]
fn parse_arg_bad_index() {
    assert_eq!(parse_id_arg("foo:bar"), Err(IdError::InvalidIndex));
}

#[test]
fn parse_arg_empty_index() {
    assert_eq!(parse_id_arg("foo:"), Err(IdError::InvalidIndex));
}

#[test]
fn parse_arg_splits_on_last_separator() {
    let (name, idx) = parse_id_arg("a:b:2").unwrap();
    assert_eq!(name, "a:b");
    assert_eq!(idx, Some(2));
}

#[test]
fn parse_arg_empty_name() {
    let (name, idx) = parse_id_arg(":5").unwrap();
    assert_eq!(name, "");
    assert_eq!(idx, Some(5));
}

#[test]
fn parse_index_exact_values() {
    assert_eq!(parse_index("0"), Ok(0));
    assert_eq!(parse_index("42"), Ok(42));
    assert_eq!(parse_index("007"), Ok(7));
    assert_eq!(parse_index("4294967295"), Ok(4294967295));
}

#[test]
fn parse_index_rejects_overflow() {
    assert_eq!(parse_index("4294967296"), Err(IdError::InvalidIndex));
    assert_eq!(parse_index("99999999999999"), Err(IdError::InvalidIndex));
}

#[test]
fn parse_index_rejects_non_digits() {
    assert_eq!(parse_index(""), Err(IdError::InvalidIndex));
    assert_eq!(parse_index("+3"), Err(IdError::InvalidIndex));
    assert_eq!(parse_index("-3"), Err(IdError::InvalidIndex));
    assert_eq!(parse_index("1a"), Err(IdError::InvalidIndex));
}

#[test]
fn parse_internal_ok() {
    assert_eq!(parse_id_internal("x_2"), Ok((String::from("x"), 2)));
}

#[test]
fn parse_internal_missing_separator() {
    assert_eq!(parse_id_internal("x"), Err(IdError::MissingIndex));
}

#[test]
fn parse_internal_bad_index() {
    assert_eq!(parse_id_internal("x_y"), Err(IdError::InvalidIndex));
}

#[test]
fn parse_internal_name_with_separator() {
    assert_eq!(parse_id_internal("a_1_2"), Ok((String::from("a_1"), 2)));
}

#[test]
fn filename_exact_values() {
    assert_eq!(filename("a", 0), "a_0");
    assert_eq!(filename("", 7), "_7");
    assert_eq!(filename("a_1", 2), "a_1_2");
}

#[test]
fn index_string_exact_values() {
    assert_eq!(index_string(0), "0");
    assert_eq!(index_string(10), "10");
    assert_eq!(index_string(305), "305");
    assert_eq!(index_string(4294967295), "4294967295");
}

#[test]
fn filename_parse_round_trip() {
    let f = filename("weird:name", 12);
    assert_eq!(parse_id_internal(&f), Ok((String::from("weird:name"), 12)));
    let g = filename("under_scored", 3);
    assert_eq!(parse_id_internal(&g), Ok((String::from("under_scored"), 3)));
}

#[test]
fn stash_id_parse() {
    let id = StashId::parse("foo:3").unwrap();
    assert_eq!(id.name, "foo");
    assert_eq!(id.index, Some(3));
    let id = StashId::parse("foo").unwrap();
    assert_eq!(id.name, "foo");
    assert_eq!(id.index, None);
    assert!(StashId::parse("foo:bar").is_err());
}

#[test]
fn str_eq_compares_contents() {
    assert!(str_eq("abc", "abc"));
    assert!(!str_eq("abc", "abd"));
    assert!(!str_eq("abc", "ab"));
    assert!(str_eq("", ""));
}

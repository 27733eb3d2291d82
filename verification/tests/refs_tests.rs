use rgit::refs::{head_ref, parse_ref, ref_path, set_head, update_ref, validate_hash, RefError, RefValue};

const HASH: &str = "0123456789abcdef0123456789ABCDEF01234567";

#[test]
fn validate_hash_accepts_forty_hex_digits() {
    assert!(validate_hash(HASH).is_ok());
    assert!(validate_hash("e69de29bb2d1d6434b8b29ae775ad8c2e48c5391").is_ok());
}

#[test]
fn validate_hash_refuses_others() {
    assert_eq!(validate_hash(""), Err(RefError::InvalidHash));
    assert_eq!(validate_hash(&HASH[..39]), Err(RefError::InvalidHash));
    assert_eq!(validate_hash(&format!("{}0", HASH)), Err(RefError::InvalidHash));
    assert_eq!(
        validate_hash("g123456789abcdef0123456789abcdef01234567"),
        Err(RefError::InvalidHash)
    );
}

#[test]
fn ref_path_under_repo_dir() {
    assert_eq!(ref_path("HEAD"), ".rgit/HEAD");
    assert_eq!(ref_path("refs/heads/master"), ".rgit/refs/heads/master");
    assert_eq!(ref_path("/abs/ref"), "/abs/ref");
}

#[test]
fn parse_ref_symbolic_and_direct() {
    match parse_ref("ref: refs/heads/master\n") {
        RefValue::Symbolic(t) => assert_eq!(t, "refs/heads/master"),
        RefValue::Direct(_) => panic!("expected a symbolic ref"),
    }
    match parse_ref("  e69de29bb2d1d6434b8b29ae775ad8c2e48c5391 \n") {
        RefValue::Direct(v) => assert_eq!(v, "e69de29bb2d1d6434b8b29ae775ad8c2e48c5391"),
        RefValue::Symbolic(_) => panic!("expected a direct ref"),
    }
    match parse_ref("ref:nospace") {
        RefValue::Direct(v) => assert_eq!(v, "ref:nospace"),
        RefValue::Symbolic(_) => panic!("expected a direct ref"),
    }
}

#[test]
fn head_ref_names_branch_or_none() {
    assert_eq!(head_ref("ref: refs/heads/master\n"), Some("refs/heads/master".to_string()));
    assert_eq!(head_ref("\tref: refs/heads/dev  \r\n"), Some("refs/heads/dev".to_string()));
    assert_eq!(head_ref(&format!("{}\n", HASH)), None);
    assert_eq!(head_ref(""), None);
}

#[test]
fn update_ref_writes_hash_line() {
    let u = update_ref("refs/heads/master", HASH).unwrap();
    assert_eq!(u.path, ".rgit/refs/heads/master");
    assert_eq!(u.content, format!("{}\n", HASH));
}

#[test]
fn update_ref_refuses_bad_hash() {
    assert_eq!(update_ref("refs/heads/master", "abc").err(), Some(RefError::InvalidHash));
}

#[test]
fn set_head_symbolic() {
    assert_eq!(set_head("refs/heads/master").unwrap(), "ref: refs/heads/master\n");
    assert_eq!(set_head("refs/whatever").unwrap(), "ref: refs/whatever\n");
}

#[test]
fn set_head_detached() {
    assert_eq!(set_head(HASH).unwrap(), format!("{}\n", HASH));
    assert_eq!(set_head("master"), Err(RefError::InvalidHash));
}

#[test]
fn set_head_then_head_ref_reads_back() {
    let content = set_head("refs/heads/topic").unwrap();
    assert_eq!(head_ref(&content), Some("refs/heads/topic".to_string()));
    let detached = set_head(HASH).unwrap();
    assert_eq!(head_ref(&detached), None);
}

#[test]
fn update_ref_then_parse_ref_reads_back() {
    let u = update_ref("refs/heads/master", HASH).unwrap();
    match parse_ref(&u.content) {
        RefValue::Direct(v) => assert_eq!(v, HASH),
        RefValue::Symbolic(_) => panic!("expected a direct ref"),
    }
}

use rgit::object::{commit_content, commit_tree, parse_commit, read_commit};
use rgit::storage::{hash_object, read_object, store_generic_object, ObjectError};

const TEXT: &str = "tree 4b825dc642cb6eb9a060e54bf8d69288fbee4904\n\
parent 1111111111111111111111111111111111111111\n\
parent 2222222222222222222222222222222222222222\n\
author Alice Example <alice@example.com> 1700000000 +0800\n\
committer Bob <bob@example.com> 1700000001 +0000\n\
\n\
First line\nsecond line\n";

#[test]
fn parse_commit_reads_all_fields() {
    let c = parse_commit("abc", TEXT).unwrap();
    assert_eq!(c.hash, "abc");
    assert_eq!(c.tree, "4b825dc642cb6eb9a060e54bf8d69288fbee4904");
    assert_eq!(
        c.parents,
        vec![
            "1111111111111111111111111111111111111111".to_string(),
            "2222222222222222222222222222222222222222".to_string()
        ]
    );
    assert_eq!(c.author, "Alice Example <alice@example.com>");
    assert_eq!(c.author_time, 1700000000);
    assert_eq!(c.committer, "Bob <bob@example.com>");
    assert_eq!(c.committer_time, 1700000001);
    assert_eq!(c.message, "First line\nsecond line\n");
}

#[test]
fn parse_commit_message_after_first_blank_line() {
    let c = parse_commit("h", "tree t\n\nsubject\n\nbody\n").unwrap();
    assert_eq!(c.message, "subject\n\nbody\n");
    assert!(c.parents.is_empty());
    assert_eq!((c.author.as_str(), c.author_time), ("", 0));
    assert_eq!((c.committer.as_str(), c.committer_time), ("", 0));
}

#[test]
fn parse_commit_ignores_unknown_and_strips_cr() {
    let c = parse_commit("h", "gpgsig whatever\ntree t1\r\nauthor A <a> -5 +0000\r\n\nm").unwrap();
    assert_eq!(c.tree, "t1");
    assert_eq!(c.author, "A <a>");
    assert_eq!(c.author_time, -5);
    assert_eq!(c.message, "m");
}

#[test]
fn parse_commit_later_line_wins() {
    let c = parse_commit("h", "tree a\ntree b\n\n").unwrap();
    assert_eq!(c.tree, "b");
    assert_eq!(c.message, "");
}

#[test]
fn parse_commit_without_blank_line() {
    assert_eq!(
        parse_commit("h", "tree t\nauthor A <a> 1 +0000\n").err(),
        Some(ObjectError::CommitWithoutMessage)
    );
}

#[test]
fn parse_commit_bad_identity() {
    assert_eq!(
        parse_commit("h", "tree t\nauthor nobody\n\nm").err(),
        Some(ObjectError::BadIdentity)
    );
    assert_eq!(
        parse_commit("h", "tree t\ncommitter one two three\n\nm").err(),
        Some(ObjectError::BadTimestamp)
    );
    assert_eq!(
        parse_commit("h", "tree t\ncommitter a b\n\nm").err(),
        Some(ObjectError::BadIdentity)
    );
}

#[test]
fn parse_commit_bad_timestamp() {
    assert_eq!(
        parse_commit("h", "tree t\nauthor A <a> soon +0800\n\nm").err(),
        Some(ObjectError::BadTimestamp)
    );
}

#[test]
fn parse_commit_without_tree() {
    assert_eq!(
        parse_commit("h", "parent p\n\nm").err(),
        Some(ObjectError::CommitWithoutTree)
    );
    assert_eq!(parse_commit("h", "tree \n\nm").err(), Some(ObjectError::CommitWithoutTree));
}

#[test]
fn read_commit_from_stored_object() {
    let o = store_generic_object("commit", TEXT.as_bytes());
    let c = read_commit(&o.hash, &o.data).unwrap();
    assert_eq!(c.hash, o.hash);
    assert_eq!(c.parents.len(), 2);
    assert_eq!(c.message, "First line\nsecond line\n");
}

#[test]
fn read_commit_wrong_type() {
    let o = hash_object(TEXT.as_bytes());
    assert_eq!(read_commit(&o.hash, &o.data).err(), Some(ObjectError::WrongType));
}

#[test]
fn read_commit_not_utf8() {
    let o = store_generic_object("commit", b"tree \xff\n\nm");
    assert_eq!(read_commit(&o.hash, &o.data).err(), Some(ObjectError::ContentNotUtf8));
}

#[test]
fn read_commit_not_zlib() {
    assert_eq!(read_commit("h", b"garbage").err(), Some(ObjectError::Decompress));
}

#[test]
fn commit_content_layout() {
    let text = commit_content(
        "4b825dc642cb6eb9a060e54bf8d69288fbee4904",
        &["1111111111111111111111111111111111111111".to_string()],
        "Alice <alice@example.com>",
        "Initial commit",
        1700000000,
    );
    assert_eq!(
        text,
        "tree 4b825dc642cb6eb9a060e54bf8d69288fbee4904\n\
parent 1111111111111111111111111111111111111111\n\
author Alice <alice@example.com> 1700000000 +0800\n\
committer Alice <alice@example.com> 1700000000 +0800\n\
\n\
Initial commit"
    );
}

#[test]
fn commit_content_parses_back() {
    let parents = vec!["p1".to_string(), "p2".to_string()];
    let text = commit_content("t", &parents, "A B <ab@x>", "line\n\nmore", 42);
    let c = parse_commit("h", &text).unwrap();
    assert_eq!(c.tree, "t");
    assert_eq!(c.parents, parents);
    assert_eq!((c.author.as_str(), c.author_time), ("A B <ab@x>", 42));
    assert_eq!((c.committer.as_str(), c.committer_time), ("A B <ab@x>", 42));
    assert_eq!(c.message, "line\n\nmore");
}

#[test]
fn commit_tree_reads_back() {
    let o = commit_tree("4b825dc642cb6eb9a060e54bf8d69288fbee4904", &[], "Alice <a@x>", "hello");
    assert_eq!(o.hash.len(), 40);
    let (kind, _) = read_object(&o.data).unwrap();
    assert_eq!(kind, "commit");
    let c = read_commit(&o.hash, &o.data).unwrap();
    assert_eq!(c.tree, "4b825dc642cb6eb9a060e54bf8d69288fbee4904");
    assert!(c.parents.is_empty());
    assert_eq!(c.author, "Alice <a@x>");
    assert_eq!(c.committer, "Alice <a@x>");
    assert_eq!(c.author_time, c.committer_time);
    assert!(c.author_time > 1_600_000_000);
    assert_eq!(c.message, "hello");
}

use rgit::codec::hex_to_bytes;
use rgit::commands::{
    datetime_in_range, file_sha1_differs, timestamp_in_range, format_commit, format_timestamp, is_leap, log,
    needs_rehash, render_status, status, unix_to_datetime, HeadFile, WorkFile,
};
use rgit::index::{Index, IndexEntry};
use rgit::object::CommitObject;

fn dt(secs: u64) -> (String, String) {
    unix_to_datetime(secs)
}

#[test]
fn leap_years() {
    assert!(is_leap(2000));
    assert!(is_leap(2024));
    assert!(!is_leap(1900));
    assert!(!is_leap(2100));
    assert!(!is_leap(2023));
    assert!(is_leap(0));
}

#[test]
fn epoch_start() {
    assert_eq!(dt(0), ("1970-01-01".to_string(), "00:00:00 +0000".to_string()));
    assert_eq!(dt(86399), ("1970-01-01".to_string(), "23:59:59 +0000".to_string()));
}

#[test]
fn dates_across_leap_rules() {
    assert_eq!(dt(951782400).0, "2000-02-29");
    assert_eq!(dt(1709251199), ("2024-02-29".to_string(), "23:59:59 +0000".to_string()));
    assert_eq!(dt(4102444800).0, "2100-01-01");
    assert_eq!(dt(4107542400).0, "2100-03-01");
    assert_eq!(dt(978264000), ("2000-12-31".to_string(), "12:00:00 +0000".to_string()));
}

#[test]
fn dates_past_four_digit_years() {
    assert_eq!(dt(253402300799), ("9999-12-31".to_string(), "23:59:59 +0000".to_string()));
    assert_eq!(dt(253402300800).0, "10000-01-01");
}

#[test]
fn timestamp_text() {
    assert_eq!(format_timestamp(1700000000), "2023-11-14 22:13:20 +0000");
    assert_eq!(format_timestamp(0), "1970-01-01 00:00:00 +0000");
}

#[test]
fn timestamps_before_1970() {
    assert_eq!(format_timestamp(-1), "1969-12-31 23:59:59 +0000");
    assert_eq!(format_timestamp(-86400), "1969-12-31 00:00:00 +0000");
    assert_eq!(format_timestamp(-86401), "1969-12-30 23:59:59 +0000");
    assert_eq!(format_timestamp(-2208988800), "1900-01-01 00:00:00 +0000");
    assert_eq!(format_timestamp(-2203891200), "1900-03-01 00:00:00 +0000");
    assert_eq!(format_timestamp(-946771200), "1940-01-01 00:00:00 +0000");
    assert_eq!(format_timestamp(-62167219200), "0000-01-01 00:00:00 +0000");
    assert_eq!(format_timestamp(-62162035201), "0000-02-29 23:59:59 +0000");
}

#[test]
fn timestamp_range_limit() {
    assert!(timestamp_in_range(0));
    assert!(timestamp_in_range(-1));
    assert!(timestamp_in_range(-62167219200));
    assert!(!timestamp_in_range(-62167219201));
    assert!(!timestamp_in_range(i64::MIN));
    assert!(timestamp_in_range(135536014634284799));
    assert!(!timestamp_in_range(135536014634284800));
    assert!(!timestamp_in_range(i64::MAX));
}

#[test]
fn history_entry_before_1970() {
    let c = commit("old", &[], -1, "m");
    assert!(format_commit(&c).contains("Date:   1969-12-31 23:59:59 +0000\n"));
}

#[test]
fn datetime_range_limit() {
    assert!(datetime_in_range(0));
    assert!(datetime_in_range(135536014634284799));
    assert!(!datetime_in_range(135536014634284800));
    assert!(!datetime_in_range(u64::MAX));
    assert!(!datetime_in_range(-1i64 as u64));
}

fn commit(hash: &str, parents: &[&str], time: i64, message: &str) -> CommitObject {
    CommitObject {
        hash: hash.to_string(),
        tree: "t".to_string(),
        parents: parents.iter().map(|p| p.to_string()).collect(),
        author: "Alice <alice@example.com>".to_string(),
        author_time: time,
        committer: "Alice <alice@example.com>".to_string(),
        committer_time: time,
        message: message.to_string(),
    }
}

#[test]
fn history_entry_layout() {
    let c = commit("abc123", &[], 1700000000, "Initial commit\n\nDetails\r\nhere");
    assert_eq!(
        format_commit(&c),
        "commit abc123\n\
Author: Alice <alice@example.com>\n\
Date:   2023-11-14 22:13:20 +0000\n\
\n    Initial commit\n    \n    Details\n    here\n\n"
    );
}

#[test]
fn history_entry_empty_message() {
    let c = commit("h", &[], 0, "");
    assert_eq!(
        format_commit(&c),
        "commit h\nAuthor: Alice <alice@example.com>\nDate:   1970-01-01 00:00:00 +0000\n\n\n"
    );
}

#[test]
fn log_follows_first_parent() {
    let c = commit("child", &["first", "second"], 0, "m");
    let step = log(&c);
    assert_eq!(step.next, Some("first".to_string()));
    assert!(step.text.starts_with("commit child\n"));
    let root = commit("root", &[], 0, "m");
    assert_eq!(log(&root).next, None);
}

fn sha(fill: u8) -> [u8; 20] {
    [fill; 20]
}

fn hex(fill: u8) -> String {
    rgit::codec::hex_encode(&sha(fill))
}

fn index_of(entries: &[(&str, u64, u8)]) -> Index {
    let mut idx = Index::new();
    for (p, m, f) in entries {
        idx.insert(IndexEntry { mtime: *m, mode: 100644, sha1: sha(*f), path: p.to_string() });
    }
    idx
}

fn head_of(files: &[(&str, u8)]) -> Vec<HeadFile> {
    files.iter().map(|(p, f)| HeadFile { path: p.to_string(), hash: hex(*f) }).collect()
}

fn work_of(files: &[(&str, u64)]) -> Vec<WorkFile> {
    files.iter().map(|(p, m)| WorkFile { path: p.to_string(), mtime: *m }).collect()
}

#[test]
fn status_three_comparisons() {
    let idx = index_of(&[("a", 10, 1), ("b", 20, 2), ("c", 30, 3)]);
    let head = head_of(&[("a", 1), ("b", 9), ("d", 4)]);
    let work = work_of(&[("a", 10), ("b", 21), ("e", 5)]);
    let rehash = needs_rehash(&idx, &work);
    assert_eq!(rehash, vec![false, true, false]);
    let r = status(&idx, &head, &work, &vec![false, true, false]);
    assert_eq!(r.staged_new, vec!["c"]);
    assert_eq!(r.staged_modified, vec!["b"]);
    assert_eq!(r.staged_deleted, vec!["d"]);
    assert_eq!(r.unstaged_modified, vec!["b"]);
    assert_eq!(r.unstaged_deleted, vec!["c"]);
    assert_eq!(r.untracked, vec!["e"]);
    assert_eq!(
        render_status(&r),
        "Changes to be committed:\n\
\tnew file:   c\n\
\tmodified:   b\n\
\tdeleted:    d\n\
\n\
Changes not staged for commit:\n\
\tmodified:   b\n\
\tdeleted:    c\n\
\n\
Untracked files:\n\
\te\n\
\n"
    );
}

#[test]
fn status_same_mtime_is_not_rehashed() {
    let idx = index_of(&[("a", 10, 1)]);
    let work = work_of(&[("a", 10)]);
    let r = status(&idx, &head_of(&[("a", 1)]), &work, &vec![true]);
    assert!(r.unstaged_modified.is_empty());
}

#[test]
fn status_changed_mtime_same_content() {
    let idx = index_of(&[("a", 10, 1)]);
    let work = work_of(&[("a", 11)]);
    let r = status(&idx, &head_of(&[("a", 1)]), &work, &vec![false]);
    assert!(r.unstaged_modified.is_empty());
}

#[test]
fn status_clean_tree() {
    let idx = index_of(&[("a", 10, 1), ("dir/b", 11, 2)]);
    let head = head_of(&[("a", 1), ("dir/b", 2)]);
    let work = work_of(&[("a", 10), ("dir/b", 11)]);
    let differs = needs_rehash(&idx, &work);
    let r = status(&idx, &head, &work, &differs);
    assert_eq!(render_status(&r), "nothing to commit, working tree clean\n");
}

#[test]
fn status_fresh_repository() {
    let idx = Index::new();
    let r = status(&idx, &Vec::new(), &work_of(&[("new.txt", 1)]), &Vec::new());
    assert_eq!(render_status(&r), "Untracked files:\n\tnew.txt\n\n");
}

#[test]
fn file_hash_comparison() {
    let mut known = [0u8; 20];
    known.copy_from_slice(&hex_to_bytes("ce013625030ba8dba906f756967f9e9ca394464a").unwrap());
    assert!(!file_sha1_differs(Some(b"hello\n".as_slice()), &known));
    assert!(file_sha1_differs(Some(b"hello".as_slice()), &known));
    assert!(file_sha1_differs(None, &known));
}

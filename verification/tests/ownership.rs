use fraken_x::errors::FormatError;
use fraken_x::userid::{get_usernames_from_passwd, OwnershipTable};

#[test]
fn passwd_records_parse_by_uid() {
    let source = "root:x:0:0:root:/root:/bin/bash\ndaemon:x:1:1:daemon:/usr/sbin:/usr/sbin/nologin\n";
    let table = get_usernames_from_passwd(source).unwrap();
    assert_eq!(table.lookup(0).map(|s| s.as_str()), Some("root"));
    assert_eq!(table.lookup(1).map(|s| s.as_str()), Some("daemon"));
    assert_eq!(table.lookup(2), None);
}

#[test]
fn short_records_are_tolerated_and_skipped() {
    let source = "just-a-note\nroot:x:0:0::/root:/bin/sh\nbroken:line\n";
    let table = get_usernames_from_passwd(source).unwrap();
    assert_eq!(table.lookup(0).map(|s| s.as_str()), Some("root"));
    assert!(!table.is_empty());
}

#[test]
fn duplicate_uid_takes_the_last_record() {
    let source = "first:x:7:7:::\nsecond:x:7:7:::\n";
    let table = get_usernames_from_passwd(source).unwrap();
    assert_eq!(table.lookup(7).map(|s| s.as_str()), Some("second"));
}

#[test]
fn bad_uid_fails_the_whole_load() {
    let source = "root:x:0:0:::\nbad:x:notanumber:0:::\n";
    let result = get_usernames_from_passwd(source);
    match result {
        Err(FormatError::BadOwnerId { line }) => {
            assert_eq!(line, "bad:x:notanumber:0:::");
        },
        _ => panic!("expected the load to fail on the bad id"),
    }
}

#[test]
fn empty_source_gives_an_empty_table() {
    let table = get_usernames_from_passwd("").unwrap();
    assert!(table.is_empty());
    assert_eq!(table.lookup(0), None);
}

#[test]
fn crlf_records_parse_like_lf_records() {
    let source = "root:x:0:0:::\r\nuser:x:1000:1000:::\r\n";
    let table = get_usernames_from_passwd(source).unwrap();
    assert_eq!(table.lookup(1000).map(|s| s.as_str()), Some("user"));
}

#[test]
fn fresh_table_is_empty_until_inserted() {
    let mut table = OwnershipTable::new();
    assert!(table.is_empty());
    table.insert(42, "owner".to_string());
    assert!(!table.is_empty());
    assert_eq!(table.lookup(42).map(|s| s.as_str()), Some("owner"));
}

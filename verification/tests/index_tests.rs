use docstore::codec::{bytes_to_string, string_bytes};
use docstore::index::{contains_name, dedup_names, read_members, remove_name, write_members};

fn names(components: &[&str]) -> Vec<String> {
    components.iter().map(|component| component.to_string()).collect()
}

#[test]
fn members_are_stored_as_count_then_names() {
    let bytes = write_members(&names(&["ab", "c"]));
    assert_eq!(
        bytes,
        vec![
            2, 0, 0, 0, 0, 0, 0, 0, // two names
            2, 0, 0, 0, 0, 0, 0, 0, b'a', b'b', // "ab"
            1, 0, 0, 0, 0, 0, 0, 0, b'c', // "c"
        ]
    );
}

#[test]
fn no_members_are_stored_as_zero() {
    assert_eq!(write_members(&Vec::new()), vec![0, 0, 0, 0, 0, 0, 0, 0]);
    assert_eq!(read_members(&[0, 0, 0, 0, 0, 0, 0, 0]), Some(Vec::new()));
}

#[test]
fn members_round_trip() {
    let members = names(&["apple", "banana", "blueberry", "na\u{ef}ve"]);
    assert_eq!(read_members(&write_members(&members)), Some(members));
}

#[test]
fn members_read_back_once_each() {
    let bytes = write_members(&names(&["a", "b", "a", "c", "b"]));
    assert_eq!(read_members(&bytes), Some(names(&["a", "b", "c"])));
}

#[test]
fn members_ignore_what_follows_them() {
    let mut bytes = write_members(&names(&["a"]));
    bytes.extend_from_slice(&[9, 9, 9]);
    assert_eq!(read_members(&bytes), Some(names(&["a"])));
}

#[test]
fn members_that_end_early_cannot_be_read() {
    assert_eq!(read_members(&[]), None);
    assert_eq!(read_members(&[1, 0, 0]), None);
    assert_eq!(read_members(&[1, 0, 0, 0, 0, 0, 0, 0]), None);
    assert_eq!(
        read_members(&[1, 0, 0, 0, 0, 0, 0, 0, 2, 0, 0, 0, 0, 0, 0, 0, b'a']),
        None
    );
}

#[test]
fn members_that_are_not_utf8_cannot_be_read() {
    assert_eq!(
        read_members(&[1, 0, 0, 0, 0, 0, 0, 0, 1, 0, 0, 0, 0, 0, 0, 0, 0xff]),
        None
    );
}

#[test]
fn the_presence_mark_is_no_membership_value() {
    assert_eq!(read_members(&[1]), None);
}

#[test]
fn contains_name_finds_names() {
    let members = names(&["apple", "banana"]);
    assert!(contains_name(&members, &"banana".to_string()));
    assert!(!contains_name(&members, &"cherry".to_string()));
    assert!(!contains_name(&Vec::new(), &"apple".to_string()));
}

#[test]
fn dedup_keeps_first_occurrences_in_order() {
    assert_eq!(
        dedup_names(&names(&["b", "a", "b", "c", "a"])),
        names(&["b", "a", "c"])
    );
    assert_eq!(dedup_names(&Vec::new()), Vec::<String>::new());
}

#[test]
fn remove_name_takes_every_occurrence() {
    assert_eq!(
        remove_name(&names(&["a", "b", "a", "c"]), &"a".to_string()),
        names(&["b", "c"])
    );
    assert_eq!(
        remove_name(&names(&["a", "b"]), &"z".to_string()),
        names(&["a", "b"])
    );
}

#[test]
fn string_bytes_are_utf8() {
    assert_eq!(string_bytes(&"a\u{e9}".to_string()), vec![b'a', 0xc3, 0xa9]);
    assert_eq!(string_bytes(&String::new()), Vec::<u8>::new());
}

#[test]
fn bytes_to_string_accepts_utf8_only() {
    assert_eq!(
        bytes_to_string(vec![b'a', 0xc3, 0xa9]),
        Some("a\u{e9}".to_string())
    );
    assert_eq!(bytes_to_string(vec![0xc3]), None);
    assert_eq!(bytes_to_string(Vec::new()), Some(String::new()));
}

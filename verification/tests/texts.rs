use lattice_core::bytes::{bytes_eq, bytes_lt, starts_with, to_array16, to_array32, to_vec};
use lattice_core::table::{ByteTable, Table};
use lattice_core::text::{
    decimal, parse_number, split_at_slash, str_eq, strip_prefix, uuid_string,
};
use lattice_core::vector_clock::VectorClock;

#[test]
fn numbers_are_written_and_read() {
    assert_eq!(decimal(0), "0");
    assert_eq!(decimal(1_234_567), "1234567");
    assert_eq!(decimal(u64::MAX), "18446744073709551615");
    for n in [0, 7, 10, 99, 100, u64::MAX] {
        assert_eq!(parse_number(&decimal(n)), Some(n));
    }
    assert_eq!(parse_number("18446744073709551616"), None);
    assert_eq!(parse_number(""), None);
    assert_eq!(parse_number("12a"), None);
    assert_eq!(parse_number("-1"), None);
    assert_eq!(parse_number("007"), Some(7));
    assert_eq!(parse_number("+7"), Some(7));
    assert_eq!(parse_number("+"), None);
}

#[test]
fn texts_are_taken_apart() {
    assert_eq!(strip_prefix("/nodes/ab", "/nodes/"), Some("ab"));
    assert_eq!(strip_prefix("/nodes", "/nodes/"), None);
    assert_eq!(split_at_slash("ab/status"), Some(("ab", "status")));
    assert_eq!(split_at_slash("ab/x/y"), Some(("ab", "x/y")));
    assert_eq!(split_at_slash("ab"), None);
    assert!(str_eq("ab", "ab"));
    assert!(!str_eq("ab", "ac"));
}

#[test]
fn an_identifier_has_five_groups() {
    let mut id = [0u8; 16];
    for i in 0..16 {
        id[i] = i as u8 * 17;
    }
    assert_eq!(uuid_string(&id), "00112233-4455-6677-8899-aabbccddeeff");
    assert_eq!(uuid_string(&id), uuid::Uuid::from_bytes(id).to_string());
}

#[test]
fn byte_strings_are_compared() {
    assert!(bytes_eq(b"ab", b"ab"));
    assert!(!bytes_eq(b"ab", b"abc"));
    assert!(bytes_lt(b"ab", b"abc"));
    assert!(bytes_lt(b"ab", b"b"));
    assert!(!bytes_lt(b"ab", b"ab"));
    assert!(!bytes_lt(b"b", b"ab"));
    assert!(starts_with(b"abc", b"ab"));
    assert!(starts_with(b"abc", b""));
    assert!(!starts_with(b"a", b"ab"));
    assert_eq!(to_vec(b"ab"), vec![97, 98]);
    assert_eq!(to_array16(&[3u8; 16]), [3u8; 16]);
    assert_eq!(to_array32(&[4u8; 32]), [4u8; 32]);
}

#[test]
fn a_table_keeps_its_keys_in_order() {
    let mut table = ByteTable::new();
    table.insert(b"b", vec![2]);
    table.insert(b"a", vec![1]);
    table.insert(b"c", vec![3]);
    table.insert(b"b", vec![9]);
    assert_eq!(table.len(), 3);
    assert_eq!(table.key_at(0), b"a");
    assert_eq!(table.key_at(1), b"b");
    assert_eq!(table.value_at(1), &vec![9]);
    assert_eq!(table.get(b"c"), Some(&vec![3]));
    assert_eq!(table.get(b"d"), None);
    assert_eq!(table.range(b"b", b"z"), (1, 3));
    assert_eq!(table.lower_bound(b"bb"), 2);
    assert!(table.remove(b"a"));
    assert!(!table.remove(b"a"));
    assert!(!table.contains(b"a"));

    let mut more = ByteTable::new();
    more.insert(b"b", vec![7]);
    more.insert(b"x", vec![8]);
    table.absorb(&more);
    assert_eq!(table.get(b"b"), Some(&vec![7]));
    assert_eq!(table.get(b"x"), Some(&vec![8]));
    assert_eq!(table.len(), 3);
}

#[test]
fn a_value_is_taken_out_of_a_table() {
    let mut table: Table<u64> = Table::new();
    table.insert(b"a", 1);
    assert_eq!(table.find(b"a"), Some(0));
    assert_eq!(table.take(b"a"), Some(1));
    assert_eq!(table.take(b"a"), None);
    assert_eq!(table.len(), 0);
}

#[test]
fn a_vector_clock_counts_by_node() {
    let mut clock = VectorClock::new();
    assert_eq!(clock.get(&[1u8; 32]), 0);
    clock.increment([1u8; 32]);
    clock.increment([1u8; 32]);
    clock.set([2u8; 32], 40);
    clock.increment([2u8; 32]);
    assert_eq!(clock.get(&[1u8; 32]), 2);
    assert_eq!(clock.get(&[2u8; 32]), 41);
    assert_eq!(clock.get(&[3u8; 32]), 0);
    assert_eq!(VectorClock::default().get(&[1u8; 32]), 0);
}

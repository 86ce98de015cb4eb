use rfx_voiced::bytes::{append_samples, samples_of};
use rfx_voiced::clock::{elapsed_between, Clock};
use rfx_voiced::names::Names;
use rfx_voiced::patches::joined;
use rfx_voiced::router::{ClientId, Router, SessionId};
use rfx_voiced::table::Table;
use rfx_voiced::tally::count_each;
use rfx_voiced::text::{chars_of, decimal, parse_number, split_at_each, string_of};

#[test]
fn a_table_holds_what_was_put_in_last() {
    let mut t: Table<u32, u8> = Table::new();
    t.insert(1, 10);
    t.insert(2, 20);
    t.insert(1, 11);
    assert_eq!(t.get(&1), Some(&11));
    assert_eq!(t.len(), 2);
    assert_eq!(t.remove(&1), Some(11));
    assert!(!t.contains_key(&1));
    t.retain(|k, _| *k != 2);
    assert_eq!(t.len(), 0);
}

#[test]
fn names_are_told_apart_by_their_text() {
    let mut n: Names<u32> = Names::new();
    n.insert("a".to_string(), 1);
    n.insert("b".to_string(), 2);
    n.insert("a".to_string(), 3);
    assert_eq!(n.get("a"), Some(3));
    assert_eq!(n.get("c"), None);
    n.retain(|v| *v == 2);
    assert_eq!(n.get("a"), None);
    assert_eq!(n.get("b"), Some(2));
}

#[test]
fn patches_that_share_a_talkgroup_are_one_channel() {
    let patches = vec![vec![1, 2], vec![5, 6], vec![2, 3]];
    assert_eq!(joined(&patches, 1), vec![1, 2, 3]);
    let mut from_the_far_side = joined(&patches, 3);
    from_the_far_side.sort();
    assert_eq!(from_the_far_side, vec![1, 2, 3]);
    assert_eq!(joined(&patches, 9), vec![9]);
}

#[test]
fn numbers_are_read_and_written() {
    assert_eq!(string_of(&decimal(0)), "0");
    assert_eq!(string_of(&decimal(1700000000)), "1700000000");
    assert_eq!(parse_number(&chars_of("+12"), 100), Some(12));
    assert_eq!(parse_number(&chars_of("101"), 100), None);
    assert_eq!(parse_number(&chars_of(""), 100), None);
    assert_eq!(parse_number(&chars_of("1x"), 100), None);
    assert_eq!(
        parse_number(&chars_of("18446744073709551616"), u64::MAX),
        None
    );
}

#[test]
fn a_text_is_split_at_each_mark() {
    let parts: Vec<String> = split_at_each(&chars_of("a--b"), '-').iter().map(|p| string_of(p)).collect();
    assert_eq!(parts, vec!["a", "", "b"]);
}

#[test]
fn samples_are_written_low_byte_first() {
    let mut out = Vec::new();
    append_samples(&mut out, &[1, -2]);
    assert_eq!(out, vec![1, 0, 0xfe, 0xff]);
    assert_eq!(samples_of(&out), vec![1, -2]);
}

#[test]
fn each_is_counted() {
    let counts = count_each(&vec![4, 7, 4]);
    assert_eq!(counts.get(&4), Some(&2));
    assert_eq!(counts.get(&7), Some(&1));
    assert_eq!(counts.get(&5), None);
}

#[test]
fn an_earlier_reading_does_not_turn_the_clock_back() {
    let mut clock = Clock::start();
    assert_eq!(clock.read(500), 500);
    assert_eq!(clock.read(200), 500);
    assert_eq!(clock.read(501), 501);
}

#[test]
fn the_clock_does_not_go_back() {
    let mut clock = Clock::start();
    let first = clock.now();
    assert!(clock.now() >= first);
    let mut r = Router::default();
    let read = r.now();
    r.open(1001, false);
    assert!(r.now() >= read);
    assert_eq!(elapsed_between(5, 3), 0);
    assert_eq!(elapsed_between(3, 5), 2);
}

#[test]
fn the_summary_counts_routes_keys_and_identities() {
    let mut r = Router::default();
    assert_eq!(r.summary(), "0 routes (0 keyed), 0 identities bound");
    r.bind(SessionId::new(1, 7), "[5] Talker");
    r.open(1001, false);
    r.open(1002, false);
    r.key(1001, ClientId::new(1, 5)).unwrap();
    assert_eq!(r.summary(), "2 routes (1 keyed), 1 identities bound");
}

#[test]
fn a_client_is_written_as_server_and_player() {
    assert_eq!(ClientId::new(3, 12).text(), "s3/p12");
}

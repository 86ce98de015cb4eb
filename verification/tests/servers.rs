use rfx_voiced::servers::{
    constant_time_eq, key_from, mint_key, sha256_hex, to_hex, yes, KeyIndex, NoRandomness, Server,
    Store,
};

#[test]
fn keys_are_unique_and_long_enough_to_matter() {
    let mut store = Store::default();
    let a = store.enroll("A", "127.0.0.1", 30120).unwrap();
    let b = store.enroll("B", "127.0.0.1", 30121).unwrap();

    assert_eq!(a.id, 1);
    assert_eq!(b.id, 2, "ids are assigned, never chosen by the server");
    assert_ne!(a.key, b.key);
    assert_eq!(a.key.len(), 64, "256 bits, hex");
    assert!(a.key_hash.is_none(), "a locally enrolled server holds the key itself");
}

#[test]
fn a_key_resolves_to_exactly_one_server() {
    let mut store = Store::default();
    let a = store.enroll("A", "h", 1).unwrap();
    let b = store.enroll("B", "h", 2).unwrap();

    let idx = KeyIndex::build(&store.enabled());
    assert_eq!(idx.resolve(&a.key), Some(a.id));
    assert_eq!(idx.resolve(&b.key), Some(b.id));
    assert_eq!(idx.resolve("not a key"), None);
    assert_eq!(idx.resolve(""), None);
}

#[test]
fn a_revoked_key_stops_working() {
    let mut store = Store::default();
    let a = store.enroll("A", "h", 1).unwrap();
    assert!(store.revoke(a.id));
    assert_eq!(KeyIndex::build(&store.enabled()).resolve(&a.key), None);
}

#[test]
fn rotating_invalidates_the_old_key() {
    let mut store = Store::default();
    let a = store.enroll("A", "h", 1).unwrap();
    let rotated = store.rotate(a.id).unwrap().expect("server exists");

    assert_eq!(rotated.id, a.id, "same server");
    assert_ne!(rotated.key, a.key);

    let idx = KeyIndex::build(&store.enabled());
    assert_eq!(idx.resolve(&a.key), None, "the leaked key is dead");
    assert_eq!(idx.resolve(&rotated.key), Some(a.id));
}

#[test]
fn a_disabled_server_cannot_authenticate() {
    let mut store = Store::default();
    let a = store.enroll("A", "h", 1).unwrap();
    store.servers[0].enabled = false;
    assert_eq!(KeyIndex::build(&store.enabled()).resolve(&a.key), None);
}

/// The digest of a text everybody knows the digest of.
#[test]
fn the_hash_is_sha256_in_lower_case_hex() {
    assert_eq!(
        sha256_hex("abc"),
        "ba7816bf8f01cfea414140de5dae2223b00361a396177a9cb410ff61f20015ad"
    );
    assert_eq!(
        sha256_hex(""),
        "e3b0c44298fc1c149afbf4c8996fb92427ae41e4649b934ca495991b7852b855"
    );
}

#[test]
fn hex_is_two_digits_a_byte() {
    assert_eq!(to_hex(&vec![0x00, 0x0f, 0xa5, 0xff]), "000fa5ff");
}

#[test]
fn minted_keys_differ() {
    let a = mint_key().unwrap();
    let b = mint_key().unwrap();
    assert_ne!(a, b);
    assert!(a.chars().all(|c| c.is_ascii_digit() || ('a'..='f').contains(&c)));
}

#[test]
fn no_randomness_is_no_key() {
    assert!(key_from(Err(ring::error::Unspecified)).is_err());
    assert_eq!(key_from(Ok(vec![0xab; 32])).ok(), Some("ab".repeat(32)));
    assert!(!NoRandomness.text().is_empty());
}

/// A server the platform handed over holds a hash and no key. Its case does
/// not matter.
#[test]
fn a_hash_is_as_good_as_the_key_it_is_of() {
    let listed = Server {
        id: 9,
        name: "far".to_string(),
        host: "h".to_string(),
        port: 1,
        key: String::new(),
        key_hash: Some(sha256_hex("secret").to_uppercase()),
        enabled: yes(),
    };
    let idx = KeyIndex::build(&vec![listed]);
    assert_eq!(idx.resolve("secret"), Some(9));
    assert_eq!(idx.resolve("Secret"), None);
}

#[test]
fn revoking_or_rotating_nobody_changes_nothing() {
    let mut store = Store::default();
    let a = store.enroll("A", "h", 1).unwrap();
    assert!(!store.revoke(7));
    assert!(store.rotate(7).unwrap().is_none());
    assert!(store.rotate_with(7, "k".to_string()).is_none());
    assert_eq!(store.servers.len(), 1);
    assert_eq!(store.servers[0].key, a.key);
    assert_eq!(store.next_id(), 2);
}

#[test]
fn ids_are_not_used_again_while_a_higher_one_stands() {
    let mut store = Store::default();
    store.enroll_with("A", "h", 1, "a".to_string());
    let b = store.enroll_with("B", "h", 2, "b".to_string());
    assert!(store.revoke(1));
    assert_eq!(store.enroll_with("C", "h", 3, "c".to_string()).id, b.id + 1);
}

#[test]
fn equal_means_the_same_bytes() {
    assert!(constant_time_eq(b"abc", b"abc"));
    assert!(!constant_time_eq(b"abc", b"abd"));
    assert!(!constant_time_eq(b"abc", b"ab"));
    assert!(constant_time_eq(b"", b""));
}

/// A server that the platform knew by a hash is found by its new key alone.
#[test]
fn rotating_kills_a_hash_too() {
    let mut store = Store::default();
    let a = store.enroll("A", "h", 1).unwrap();
    store.servers[0].key_hash = Some(sha256_hex(&a.key));
    assert_eq!(KeyIndex::build(&store.enabled()).resolve(&a.key), Some(a.id));

    let rotated = store.rotate(a.id).unwrap().expect("server exists");
    assert!(rotated.key_hash.is_none());
    let idx = KeyIndex::build(&store.enabled());
    assert_eq!(idx.resolve(&a.key), None);
    assert_eq!(idx.resolve(&rotated.key), Some(a.id));

    store.servers[0].enabled = false;
    assert_eq!(KeyIndex::build(&store.enabled()).resolve(&rotated.key), None);
}

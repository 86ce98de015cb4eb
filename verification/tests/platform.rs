use rfx_voiced::cli::{cli, listing_line, split_address, CliError, Done, DEFAULT_PORT};
use rfx_voiced::platform::{
    convert, heartbeat_rows, local_servers, resolve, LastGood, PlatformServer, ServerList, Source,
};
use rfx_voiced::router::{ClientId, Router, SessionId};
use rfx_voiced::servers::{sha256_hex, KeyIndex, Server, Store};
use rfx_voiced::supervisor::Supervisor;

fn listed(id: u32, host: &str) -> ServerList {
    ServerList {
        servers: vec![PlatformServer {
            id,
            name: "far".to_string(),
            host: host.to_string(),
            port: 30120,
            key_hash: sha256_hex("k"),
        }],
        patches: vec![vec![1, 2]],
    }
}

#[test]
fn the_platform_hands_over_hashes() {
    let servers = convert(&listed(4, "h"));
    assert_eq!(servers.len(), 1);
    assert_eq!(servers[0].key, "", "the node never holds the key");
    assert!(servers[0].enabled);
    assert_eq!(KeyIndex::build(&servers).resolve("k"), Some(4));
}

#[test]
fn the_live_list_wins_over_the_last_good_one_and_that_over_the_store() {
    let mut store = Store::default();
    store.enroll("on", "h", 1).unwrap();
    store.enroll("off", "h", 2).unwrap();
    store.servers[1].enabled = false;

    let kept = |saved: bool| Some(LastGood { list: listed(6, "b"), saved });
    let live = resolve(&Some(listed(5, "a")), &kept(true), &Some(listed(7, "c")), &store);
    assert_eq!((live.servers[0].id, live.source), (5, Source::Platform));
    assert_eq!(live.patches, vec![vec![1, 2]]);

    // What was written down is read back, edits and all; what could not be
    // written, or cannot be read, is remembered.
    let read = resolve(&None, &kept(true), &Some(listed(7, "c")), &store);
    assert_eq!((read.servers[0].id, read.source), (7, Source::Cache));
    let unwritten = resolve(&None, &kept(false), &Some(listed(7, "c")), &store);
    assert_eq!((unwritten.servers[0].id, unwritten.source), (6, Source::Cache));
    let unreadable = resolve(&None, &kept(true), &None, &store);
    assert_eq!((unreadable.servers[0].id, unreadable.source), (6, Source::Cache));
    assert_eq!(unreadable.patches, vec![vec![1, 2]]);

    let cached = resolve(&None, &None, &Some(listed(7, "c")), &store);
    assert_eq!((cached.servers[0].id, cached.source), (7, Source::Cache));

    let local = resolve(&None, &None, &None, &store);
    assert_eq!(local.servers.len(), 1);
    assert_eq!((local.servers[0].id, local.source), (1, Source::Store));
    assert!(local.patches.is_empty());
}

#[test]
fn a_source_has_a_name() {
    assert_eq!(Source::Platform.text(), "platform");
    assert_eq!(Source::Cache.text(), "cache");
    assert_eq!(Source::Store.text(), "servers.json");
}

/// A poll that fails, with nothing written down, detaches nobody.
#[test]
fn a_failed_poll_keeps_the_last_good_list() {
    let store = Store::default();
    let mut s = Supervisor::default();
    s.reconcile(&resolve(&Some(listed(1, "a")), &None, &None, &store).servers);
    let written = Some(LastGood { list: listed(1, "a"), saved: true });
    let unwritten = Some(LastGood { list: listed(1, "a"), saved: false });
    for (last, cached) in [
        (&written, Some(listed(1, "a"))),
        (&written, None),
        (&unwritten, Some(listed(9, "z"))),
    ] {
        let pass = s.reconcile(&resolve(&None, last, &cached, &store).servers);
        assert!(pass.attach.is_empty() && pass.detach.is_empty());
    }
}

#[test]
fn a_server_is_shown_on_one_line() {
    let mut s = Server {
        id: 7,
        name: "Alpha".to_string(),
        host: "10.0.0.1".to_string(),
        port: 30120,
        key: "0123456789abcdef".to_string(),
        key_hash: None,
        enabled: true,
    };
    assert_eq!(
        listing_line(&s),
        format!("{:>3}  {:<24} {}:{:<6} {}  key {}...{}", 7, "Alpha", "10.0.0.1", 30120,
            "enabled ", "01234567", "cdef")
    );
    s.id = 12345;
    s.enabled = false;
    s.name = "a name that is longer than its column".to_string();
    s.key = String::new();
    assert_eq!(
        listing_line(&s),
        "12345  a name that is longer than its column 10.0.0.1:30120  DISABLED  key ..."
    );
    s.key = "abc".to_string();
    assert!(listing_line(&s).ends_with("key abc...abc"));

    // A key is cut by bytes, and never through a character.
    s.key = "\u{e9}\u{e9}\u{e9}\u{e9}\u{e9}\u{e9}".to_string();
    let (head, tail) = (&s.key[..8], &s.key[s.key.len() - 4..]);
    assert_eq!((head.chars().count(), tail.chars().count()), (4, 2));
    assert!(listing_line(&s).ends_with(&format!("key {head}...{tail}")));
    s.key = "a\u{e9}\u{e9}\u{e9}\u{e9}\u{e9}a".to_string();
    assert!(listing_line(&s).ends_with("key a\u{e9}\u{e9}\u{e9}...\u{e9}a"));
}

#[test]
fn a_local_store_is_used_as_it_is() {
    let mut store = Store::default();
    store.enroll("A", "h", 1).unwrap();
    let b = store.enroll("B", "h", 2).unwrap();
    store.servers[0].enabled = false;
    let servers = local_servers(&store);
    assert_eq!(servers.len(), 1);
    assert_eq!(servers[0].key, b.key);
}

#[test]
fn a_heartbeat_reports_every_attached_server() {
    let mut r = Router::default();
    r.bind(SessionId::new(1, 7), "[5] Talker");
    r.open(1001, false);
    r.set_member(1001, ClientId::new(1, 5), true, 100);
    r.key(1001, ClientId::new(1, 5)).unwrap();
    let rows = heartbeat_rows(&r.stats(), &vec![1, 2]);
    assert_eq!(rows, vec![(1, 1, 1, 1), (2, 0, 0, 0)]);
}

#[test]
fn taps_follow_the_list() {
    let mut s = Supervisor::default();
    let first = s.reconcile(&convert(&listed(1, "a")));
    assert_eq!(first.attach.len(), 1);
    assert_eq!((first.attach[0].id, first.attach[0].address.host.as_str()), (1, "a"));
    assert!(first.detach.is_empty());
    assert_eq!(s.attached(), vec![1]);

    let again = s.reconcile(&convert(&listed(1, "a")));
    assert!(again.attach.is_empty() && again.detach.is_empty());

    let moved = s.reconcile(&convert(&listed(1, "b")));
    assert_eq!(moved.detach, vec![1]);
    assert_eq!(moved.attach.len(), 1);

    let gone = s.reconcile(&Vec::new());
    assert_eq!(gone.detach, vec![1]);
    assert!(s.attached().is_empty());
}

fn args(words: &[&str]) -> Vec<String> {
    words.iter().map(|w| w.to_string()).collect()
}

#[test]
fn servers_are_enrolled_rotated_and_revoked_from_the_command_line() {
    let mut store = Store::default();
    let key = match cli(&args(&["enroll", "Alpha", "10.0.0.1:40000"]), &mut store) {
        Ok(Done::Enrolled(s)) => {
            assert_eq!((s.id, s.name.as_str(), s.host.as_str(), s.port), (1, "Alpha", "10.0.0.1", 40000));
            s.key
        }
        _ => panic!("not enrolled"),
    };
    match cli(&args(&["rotate", "1"]), &mut store) {
        Ok(Done::Rotated(s)) => assert_ne!(s.key, key),
        _ => panic!("not rotated"),
    }
    assert!(matches!(cli(&args(&["revoke", "9"]), &mut store), Ok(Done::NoServer(9))));
    assert!(matches!(cli(&args(&["revoke", "1"]), &mut store), Ok(Done::Revoked(1))));
    assert!(store.servers.is_empty());
    assert!(matches!(
        cli(&args(&["rotate"]), &mut store),
        Err(CliError::RotateUsage)
    ));
    assert!(matches!(
        cli(&args(&["revoke", "x"]), &mut store),
        Err(CliError::RevokeUsage)
    ));
    assert!(matches!(cli(&args(&["list"]), &mut store), Ok(Done::List)));
    assert!(matches!(cli(&Vec::new(), &mut store), Ok(Done::Run)));
    assert!(matches!(cli(&args(&["--version"]), &mut store), Ok(Done::Version)));
    assert!(matches!(cli(&args(&["help"]), &mut store), Ok(Done::Help)));
    match cli(&args(&["enroll"]), &mut store) {
        Ok(Done::Enrolled(s)) => assert_eq!(
            (s.name.as_str(), s.host.as_str(), s.port),
            ("unnamed", "127.0.0.1", DEFAULT_PORT)
        ),
        _ => panic!("not enrolled"),
    }
}

#[test]
fn an_address_may_leave_out_its_port() {
    assert_eq!(split_address("host:99"), ("host".to_string(), 99));
    assert_eq!(split_address("host"), ("host".to_string(), DEFAULT_PORT));
    assert_eq!(split_address("::1:x"), ("::1".to_string(), DEFAULT_PORT));
}

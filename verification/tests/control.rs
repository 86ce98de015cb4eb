use rfx_voiced::control::{
    audio_reply, dispatch, dispatch_at, dispatch_console, dispatch_console_with, recall, too_large,
    triage, Answer, Node, Recall, Step,
};
use rfx_voiced::dsp::Mode;
use rfx_voiced::http::{read_head, Head};
use rfx_voiced::json::{parse, Item, Json, Reply};
use rfx_voiced::recorder::{Active, Recorder, Work};
use rfx_voiced::router::{ClientId, Listener, CONSOLE_SERVER};
use rfx_voiced::servers::{KeyIndex, NoRandomness, Store};
use rfx_voiced::stream::{KIND_AUDIO, KIND_CALL};

const FIELD: u32 = 1;

fn node() -> Node {
    Node::new(Active::new(None))
}

fn json(text: &str) -> Json {
    parse(text.as_bytes()).expect("well-formed")
}

/// Whether a call frame said the channel was keyed, in the order they arrived.
fn calls(n: &mut Node, client: ClientId) -> Vec<bool> {
    n.streams
        .take_outbox()
        .iter()
        .filter(|o| o.client == client && o.frame[0] == KIND_CALL)
        .map(|o| o.frame[1] == 1)
        .collect()
}

/// What a reply says under a name.
fn said<'a>(reply: &'a Reply, name: &str) -> Option<&'a Item> {
    reply.items.iter().find(|i| i.0 == name).map(|i| &i.1)
}

fn error(reply: &Reply) -> String {
    match said(reply, "error") {
        Some(Item::Words(w)) => w.clone(),
        _ => panic!("no error"),
    }
}

fn flag(reply: &Reply, name: &str) -> Option<bool> {
    match said(reply, name) {
        Some(Item::Flag(b)) => Some(*b),
        _ => None,
    }
}

fn count(reply: &Reply, name: &str) -> Option<u64> {
    match said(reply, name) {
        Some(Item::Count(n)) => Some(*n),
        _ => None,
    }
}

/// The preempted unit still sends its own unkey when its operator lets go, and
/// that must not end the transmission that took the channel off them.
#[test]
fn a_preempted_units_unkey_does_not_end_dispatch() {
    let mut n = node();
    let unit = ClientId::new(FIELD, 7);
    let console = ClientId::new(CONSOLE_SERVER, 1);

    n.router.open(1001, false);
    n.router.set_member(1001, unit, true, 100);
    n.router.set_member(1001, console, true, 100);
    n.router.key(1001, unit).unwrap();
    // Refused, then insisted on: preemption takes two presses.
    assert!(n.router.key(1001, console).is_err());
    n.router.key(1001, console).unwrap();
    n.streams.connect(console);
    n.streams.take_outbox();

    let (code, _) = dispatch(
        "unkey",
        &json(r#"{ "tg": 1001, "client": 7 }"#),
        FIELD,
        &mut n,
        0,
    );

    assert_eq!(code, 200);
    assert!(
        calls(&mut n, console).is_empty(),
        "the unit that was cut off ended dispatch's call by letting go"
    );
    assert_eq!(
        n.router.destination_of(console).map(|(t, _)| t),
        Some(1001),
        "dispatch is still transmitting"
    );
}

/// And the ordinary case still works, or every module would be left lit
/// forever.
#[test]
fn an_ordinary_unkey_still_ends_the_call() {
    let mut n = node();
    let unit = ClientId::new(FIELD, 7);
    let console = ClientId::new(CONSOLE_SERVER, 1);

    n.router.open(1001, false);
    n.router.set_member(1001, unit, true, 100);
    n.router.set_member(1001, console, true, 100);
    n.streams.connect(console);
    n.streams.take_outbox();

    let body = json(r#"{ "tg": 1001, "client": 7, "unit": "ENG 1" }"#);
    dispatch("key", &body, FIELD, &mut n, 0);
    dispatch("unkey", &body, FIELD, &mut n, 0);

    assert_eq!(calls(&mut n, console), vec![true, false]);
}

/// Instant recall walks the whole recording store. It is answered without
/// anything that routing needs, so somebody holding on to the node does not
/// hold it up.
#[test]
fn a_recall_query_does_not_wait_for_the_router() {
    let n = std::sync::Mutex::new(node());
    let held = n.lock().unwrap();

    let asked = recall("rec.index", &json(r#"{ "since": 0, "limit": 10 }"#));
    assert!(
        matches!(asked, Some(Recall::Index(0, 10))),
        "the recorder index needed the node"
    );
    drop(held);

    let mut free = n.lock().unwrap();
    let answered = dispatch_console("rec.index", &json(r#"{ "since": 0, "limit": 10 }"#), &mut free);
    assert!(matches!(answered, Answer::Recall(Recall::Index(0, 10))));
}

#[test]
fn a_recall_asks_for_two_hundred_calls_and_never_for_more_than_a_thousand() {
    assert!(matches!(recall("rec.index", &json("{}")), Some(Recall::Index(0, 200))));
    assert!(matches!(
        recall("rec.index", &json(r#"{ "since": 5, "limit": 9000 }"#)),
        Some(Recall::Index(5, 1000))
    ));
    assert!(matches!(
        recall("rec.audio", &json(r#"{ "id": "1-2-3" }"#)),
        Some(Recall::Audio(id)) if id == "1-2-3"
    ));
    assert!(recall("key", &json("{}")).is_none());
}

#[test]
fn audio_is_sent_as_base64() {
    let (code, reply) = audio_reply(Some(b"Man".to_vec()));
    assert_eq!(code, 200);
    assert_eq!(count(&reply, "rate"), Some(8000));
    assert!(matches!(said(&reply, "pcm"), Some(Item::Words(w)) if w == "TWFu"));
    let (code, reply) = audio_reply(None);
    assert_eq!((code, error(&reply).as_str()), (404, "no such recording"));
}

#[test]
fn routes_are_opened_and_closed() {
    let mut n = node();
    let body = json(r#"{ "tg": 1001, "encrypted": true }"#);
    let (code, reply) = dispatch("tg.open", &body, FIELD, &mut n, 0);
    assert_eq!((code, flag(&reply, "fresh")), (200, Some(true)));
    let (_, reply) = dispatch("tg.open", &body, FIELD, &mut n, 0);
    assert_eq!(flag(&reply, "fresh"), Some(false));
    assert!(n.router.route(1001).unwrap().encrypted);

    let air = json(r#"{ "tg": 2148713898, "am": true }"#);
    assert_eq!(dispatch("conv.open", &air, FIELD, &mut n, 0).0, 200);
    assert!(n.router.route(2148713898).unwrap().am);

    assert_eq!(dispatch("tg.close", &body, FIELD, &mut n, 0).0, 200);
    assert!(n.router.route(1001).is_none());
    for path in ["tg.open", "conv.open", "tg.close", "unkey"] {
        let (code, reply) = dispatch(path, &json("{}"), FIELD, &mut n, 0);
        assert_eq!((code, error(&reply).as_str()), (400, "tg required"));
    }
}

#[test]
fn members_are_put_on_routes_one_by_one_and_in_bulk() {
    let mut n = node();
    let one = json(r#"{ "tg": 1001, "client": 5, "listen": true, "quality": 250 }"#);
    assert_eq!(dispatch("tg.member", &one, FIELD, &mut n, 0).0, 200);
    assert_eq!(n.router.listeners_of(1001), vec![ClientId::new(FIELD, 5)]);

    let many = json(
        r#"{ "members": [
            { "tg": 1001, "client": 6, "listen": true },
            { "tg": 1001 },
            7,
            { "tg": 1002, "client": 6, "listen": false, "quality": 20 }
        ] }"#,
    );
    let (code, reply) = dispatch("tg.members", &many, FIELD, &mut n, 0);
    assert_eq!((code, count(&reply, "applied")), (200, Some(2)));
    assert_eq!(n.router.listeners_of(1001).len(), 2);
    assert!(n.router.listeners_of(1002).is_empty());

    let (code, reply) = dispatch("tg.members", &json("{}"), FIELD, &mut n, 0);
    assert_eq!((code, error(&reply).as_str()), (400, "members required"));
    let (code, reply) = dispatch("tg.member", &json(r#"{ "tg": 1 }"#), FIELD, &mut n, 0);
    assert_eq!((code, error(&reply).as_str()), (400, "tg, server and client required"));
}

/// The link is bounded, and full quieting when nothing is said of it.
#[test]
fn a_link_is_never_better_than_full_quieting() {
    let mut n = node();
    for (client, quality, want) in [(1u32, "250", 100u8), (2, "40", 40)] {
        let body = json(&format!(
            r#"{{ "tg": 1001, "client": {client}, "listen": true, "quality": {quality} }}"#
        ));
        dispatch("tg.member", &body, FIELD, &mut n, 0);
        let c = ClientId::new(FIELD, client);
        assert_eq!(n.router.source_sink(1001, c).quality, want);
    }
}

#[test]
fn the_second_press_on_a_talkgroup_is_a_conflict() {
    let mut n = node();
    let mine = json(r#"{ "tg": 1001, "client": 5 }"#);
    let theirs = json(r#"{ "tg": 1001, "client": 5 }"#);
    let (code, reply) = dispatch_at("key", &mine, 1, &mut n, 0, 0);
    assert_eq!(code, 409, "nobody opened the talkgroup");
    assert!(!error(&reply).is_empty());

    n.router.open(1001, false);
    let (code, reply) = dispatch_at("key", &mine, 1, &mut n, 0, 0);
    assert_eq!((code, flag(&reply, "bound")), (200, Some(false)));
    let (code, reply) = dispatch_at("key", &theirs, 2, &mut n, 0, 0);
    assert_eq!((code, error(&reply).as_str()), (409, "route already keyed"));
    let (code, _) = dispatch_at("key", &json("{}"), 2, &mut n, 0, 0);
    assert_eq!(code, 400);
}

#[test]
fn a_frequency_takes_a_second_radio() {
    for (am, word) in [(false, "doubled"), (true, "mixed")] {
        let mut n = node();
        n.router.open_conventional(0x8000_1234, am);
        let first = json(r#"{ "tg": 2147488308, "client": 1 }"#);
        let second = json(r#"{ "tg": 2147488308, "client": 2 }"#);
        assert_eq!(dispatch("key", &first, FIELD, &mut n, 0).0, 200);
        let (code, reply) = dispatch("key", &second, FIELD, &mut n, 0);
        assert_eq!((code, flag(&reply, word)), (200, Some(true)));
    }
}

/// A grant starts a recording, and the route going quiet ends it.
#[test]
fn a_call_is_recorded_while_its_route_is_keyed() {
    let mut n = Node::new(Active::new(Some(Recorder::new(30))));
    n.router.open(1001, false);
    let body = json(r#"{ "tg": 1001, "client": 7, "unit": 12 }"#);
    dispatch("key", &body, FIELD, &mut n, 1_700_000_000);
    assert!(matches!(&n.rec.take_work()[..],
        [Work::Create { tg: 1001, day, id }] if day == "d19675" && id == "1700000000-1001-1"));

    assert_eq!(n.rec.push(1001, &[0x0102, -1]), Some(vec![2, 1, 0xff, 0xff]));
    n.rec.pushed(1001, 8000, true);
    dispatch("unkey", &body, FIELD, &mut n, 1_700_000_001);
    match &n.rec.take_work()[..] {
        [Work::Keep { day, meta }] => {
            assert_eq!(day, "d19675");
            assert_eq!(meta.unit, "12");
            assert_eq!((meta.tg, meta.server, meta.player), (1001, FIELD, 7));
            assert_eq!((meta.samples, meta.rate, meta.started), (8000, 8000, 1_700_000_000));
        }
        _ => panic!("the call was not kept"),
    }
}

/// Each console is told once, on the route it holds itself.
#[test]
fn a_call_lights_the_far_side_of_a_patch() {
    let mut n = node();
    let unit = ClientId::new(FIELD, 7);
    let far = ClientId::new(CONSOLE_SERVER, 1);
    n.router.open(1001, false);
    n.router.open(4001, false);
    n.router.set_patches(vec![vec![1001, 4001]]);
    n.router.set_member(1001, unit, true, 100);
    n.router.set_member(4001, far, true, 100);
    n.streams.connect(far);
    n.streams.connect(unit);
    n.streams.take_outbox();

    dispatch("key", &json(r#"{ "tg": 1001, "client": 7, "unit": "E1" }"#), FIELD, &mut n, 0);
    let out = n.streams.take_outbox();
    assert_eq!(out.len(), 1, "players learn of calls from their own server");
    assert_eq!(out[0].client, far);
    assert_eq!(out[0].frame, vec![KIND_CALL, 1, 0, 0, 0x0f, 0xa1, b'E', b'1']);
}

#[test]
fn tokens_are_issued_and_dropped() {
    let mut n = node();
    let body = json(r#"{ "client": 3, "token": "abc" }"#);
    assert_eq!(dispatch("session.token", &body, FIELD, &mut n, 0).0, 200);
    assert_eq!(n.streams.client_for("abc"), Some(ClientId::new(FIELD, 3)));
    assert_eq!(dispatch("session.drop", &body, FIELD, &mut n, 0).0, 200);
    assert_eq!(n.streams.client_for("abc"), None);

    for bad in [r#"{ "client": 3, "token": "" }"#, r#"{ "client": 3 }"#, r#"{ "token": "x" }"#] {
        let (code, reply) = dispatch("session.token", &json(bad), FIELD, &mut n, 0);
        assert_eq!(
            (code, error(&reply).as_str()),
            (400, "server, client and non-empty token required")
        );
    }
    let (code, reply) = dispatch("session.drop", &json("{}"), FIELD, &mut n, 0);
    assert_eq!((code, error(&reply).as_str()), (400, "server and client required"));
}

#[test]
fn stats_say_which_server_asked() {
    let mut n = node();
    n.streams.connect(ClientId::new(FIELD, 3));
    let (code, reply) = dispatch("stats", &json("{}"), FIELD, &mut n, 0);
    assert_eq!(code, 200);
    assert_eq!(count(&reply, "server"), Some(1));
    assert_eq!(count(&reply, "streams"), Some(1));
    assert!(said(&reply, "summary").is_some());
    let (code, reply) = dispatch("resync", &json("{}"), FIELD, &mut n, 0);
    assert_eq!((code, error(&reply).as_str()), (404, "unknown endpoint resync"));
}

fn answered(n: &mut Node, path: &str, body: &str) -> (u16, Reply) {
    match dispatch_console(path, &json(body), n) {
        Answer::Reply(code, reply) => (code, reply),
        Answer::Recall(_) => panic!("a recall"),
    }
}

#[test]
fn a_console_attaches_resubscribes_and_detaches() {
    let mut n = node();
    let (code, reply) = answered(&mut n, "console.attach", r#"{ "talkgroups": [1001, "x", 1002] }"#);
    assert_eq!((code, count(&reply, "client")), (200, Some(1)));
    let desk = ClientId::new(CONSOLE_SERVER, 1);
    let token = match said(&reply, "token") {
        Some(Item::Words(w)) => w.clone(),
        _ => panic!("no token"),
    };
    assert_eq!(token.len(), 64);
    assert_eq!(n.streams.client_for(&token), Some(desk));
    assert_eq!(n.router.listeners_of(1001), vec![desk]);
    assert_eq!(n.router.listeners_of(1002), vec![desk]);

    n.router.key(1001, desk).unwrap();
    let (code, reply) =
        answered(&mut n, "console.update", r#"{ "client": 1, "talkgroups": [1002] }"#);
    assert_eq!((code, count(&reply, "talkgroups")), (200, Some(1)));
    assert!(n.router.listeners_of(1001).is_empty());
    assert!(n.router.destination_of(desk).is_some(), "a board change is not an unkey");

    assert_eq!(answered(&mut n, "console.detach", r#"{ "client": 1 }"#).0, 200);
    assert!(n.router.destination_of(desk).is_none());
    assert_eq!(n.streams.client_for(&token), None);

    for path in ["console.update", "console.detach"] {
        let (code, reply) = answered(&mut n, path, "{}");
        assert_eq!((code, error(&reply).as_str()), (400, "client required"));
    }
    let (code, reply) = answered(&mut n, "nothing", "{}");
    assert_eq!((code, error(&reply).as_str()), (404, "unknown message nothing"));
}

#[test]
fn a_console_without_a_token_is_not_attached_and_its_number_is_not_used_again() {
    let mut n = node();
    let (code, reply) = dispatch_console_with(
        "console.attach",
        &json(r#"{ "talkgroups": [1001] }"#),
        &mut n,
        Err(NoRandomness),
    );
    assert_eq!((code, error(&reply).as_str()), (500, "no randomness"));
    assert!(n.router.route(1001).is_none());
    let (_, reply) = answered(&mut n, "console.attach", "{}");
    assert_eq!(count(&reply, "client"), Some(2));
}

#[test]
fn patches_are_replaced_whole() {
    let mut n = node();
    let (code, reply) =
        answered(&mut n, "patches.set", r#"{ "groups": [[1, 2], [9], "x", [3, "y", 4]] }"#);
    assert_eq!((code, count(&reply, "groups")), (200, Some(2)));
    assert_eq!(n.router.joined(1), vec![1, 2]);
    assert_eq!(n.router.joined(4).len(), 2);
    assert_eq!(n.router.joined(9), vec![9]);
    let (code, reply) = answered(&mut n, "patches.set", "{}");
    assert_eq!((code, error(&reply).as_str()), (400, "groups required"));
}

fn head(text: &str) -> Head {
    read_head(text.as_bytes())
}

fn refused(step: Step) -> (u16, String) {
    match step {
        Step::Answer(code, reply) => (code, error(&reply)),
        _ => panic!("not refused"),
    }
}

#[test]
fn a_request_is_authenticated_before_anything_is_read_into_it() {
    let mut store = Store::default();
    let a = store.enroll("A", "h", 1).unwrap();
    let keys = KeyIndex::build(&store.enabled());

    let with_key = head(&format!("POST /control/key HTTP/1.1\r\nX-RFX-Key: {}\r\n\r\n", a.key));
    assert_eq!(with_key.path, "key");
    match triage(&with_key, br#"{"server":99}"#, None, &keys) {
        Step::Server(id, body) => {
            assert_eq!(id, a.id, "a server does not say which server it is");
            assert_eq!(body.u32_at("server"), Some(99));
        }
        _ => panic!("refused"),
    }

    let bare = head("POST /key HTTP/1.1\r\n\r\n");
    let in_body = format!(r#"{{"key":"{}"}}"#, a.key);
    assert!(matches!(triage(&bare, in_body.as_bytes(), None, &keys), Step::Server(id, _) if id == a.id));
    assert_eq!(
        refused(triage(&bare, b"", None, &keys)),
        (401, "unknown or missing server key".to_string())
    );
}

#[test]
fn the_console_plane_takes_the_node_key_and_no_other() {
    let keys = KeyIndex::build(&Vec::new());
    let good = head("POST /console.attach HTTP/1.1\r\nx-node-key: n0de\r\n\r\n");
    assert!(matches!(triage(&good, b"{}", Some("n0de"), &keys), Step::Console(_)));
    for set in [Some("other"), None] {
        assert_eq!(
            refused(triage(&good, b"{}", set, &keys)),
            (401, "bad node key".to_string())
        );
    }
    let recall_head = head("POST /rec.audio HTTP/1.1\r\nx-node-key: n0de\r\n\r\n");
    assert!(matches!(
        triage(&recall_head, br#"{"id":"7"}"#, Some("n0de"), &keys),
        Step::Recall(Recall::Audio(id)) if id == "7"
    ));
}

#[test]
fn a_head_without_end_is_refused() {
    let (code, reply) = too_large();
    assert_eq!((code, error(&reply).as_str()), (431, "headers too large"));
}

/// What is recorded is the cleanest rendering the source side heard.
#[test]
fn a_transmission_is_delivered_and_its_best_rendering_recorded() {
    let mut n = Node::new(Active::new(Some(Recorder::new(30))));
    let near = ClientId::new(FIELD, 1);
    n.streams.connect(near);
    n.streams.take_outbox();
    let lanes = vec![
        ((Mode::P25, 60u8, false), vec![1i16]),
        ((Mode::P25, 100u8, false), vec![2i16]),
        ((Mode::Fm, 100u8, true), vec![3i16]),
    ];
    let listeners =
        vec![Listener { client: near, quality: 100, mode: Mode::P25, bridged: false }];
    assert!(n.carry(1001, Mode::P25, &lanes, &listeners).is_none(), "no call is open");
    n.rec.begin(1001, FIELD, 1, "", 8000, 0);
    assert_eq!(n.carry(1001, Mode::P25, &lanes, &listeners), Some((1, vec![2, 0])));
    let out = n.streams.take_outbox();
    assert_eq!(out.len(), 2, "one rendering each time");
    assert_eq!(out[0].frame, vec![KIND_AUDIO, 0, 0, 0, 0x03, 0xe9, 2, 0]);
}

#[test]
fn a_server_that_goes_takes_only_its_own() {
    let mut n = node();
    let (mine, theirs) = (ClientId::new(1, 5), ClientId::new(2, 5));
    n.router.set_member(1001, mine, true, 100);
    n.router.set_member(1001, theirs, true, 100);
    n.streams.authorize("m".to_string(), mine);
    n.streams.authorize("t".to_string(), theirs);
    n.drop_server(1);
    assert_eq!(n.router.listeners_of(1001), vec![theirs]);
    assert_eq!(n.streams.client_for("m"), None);
    assert_eq!(n.streams.client_for("t"), Some(theirs));
}

/// A release that names nobody lets everybody go, of everything they took.
#[test]
fn a_release_that_names_nobody_frees_the_patch() {
    let mut n = node();
    let unit = ClientId::new(FIELD, 7);
    n.router.open(1001, false);
    n.router.open(1002, false);
    n.router.set_patches(vec![vec![1001, 1002]]);
    n.router.key(1001, unit).unwrap();
    assert_eq!(n.router.talkers_on(1002), vec![unit]);
    let (code, _) = dispatch("unkey", &json("{\"tg\":1001}"), FIELD, &mut n, 0);
    assert_eq!(code, 200);
    assert!(n.router.talkers_on(1001).is_empty());
    assert!(n.router.talkers_on(1002).is_empty());
}

use rfx_voiced::dsp::Mode;
use rfx_voiced::router::{
    player_id_from_username, ClientId, Keyed, Router, SessionId, CONV_BASE, PREEMPT_WINDOW,
};

const MILLISECOND: u64 = 1_000_000;
const SECOND: u64 = 1_000_000_000;

/// Who holds a route.
fn keyed_on(r: &Router, tg: u32) -> Option<ClientId> {
    r.route(tg).and_then(|x| x.keyed)
}


const A: u32 = 1; // server A
const B: u32 = 2; // server B

fn sess(server: u32, s: u32) -> SessionId {
    SessionId::new(server, s)
}
fn cli(server: u32, p: u32) -> ClientId {
    ClientId::new(server, p)
}
/// A patch is ONE channel. If somebody is talking on any member, nobody
/// else may key any other member - that is the entire point of joining
/// them, and it is what a dispatcher is relying on when they patch two
/// agencies together mid-incident.
#[test]
fn a_patch_is_busy_on_every_member() {
    let mut r = Router::default();
    let a = cli(1, 11);
    let b = cli(1, 22);

    for tg in [1001, 1002, 1003] {
        r.set_member(tg, a, true, 100);
        r.set_member(tg, b, true, 100);
    }
    r.set_patches(vec![vec![1001, 1002, 1003]]);

    assert!(matches!(r.key(1001, a), Ok(Keyed::Granted)));

    // Every member, including the one A actually pressed.
    for tg in [1001, 1002, 1003] {
        assert!(
            r.key(tg, b).is_err(),
            "tg {tg} was keyable while a patch mate was in use",
        );
    }

    // And it frees on release, or a patch would jam permanently.
    assert!(r.unkey_as(1001, a));
    assert!(
        r.key(1002, b).is_ok(),
        "the patch stayed busy after the holder released"
    );
}

/// The reverse of the same rule: tearing the patch down makes them
/// independent channels again.
#[test]
fn an_unpatched_channel_is_independent_again() {
    let mut r = Router::default();
    let a = cli(1, 11);
    let b = cli(1, 22);

    for tg in [1001, 1002] {
        r.set_member(tg, a, true, 100);
        r.set_member(tg, b, true, 100);
    }
    r.set_patches(vec![vec![1001, 1002]]);
    assert!(r.key(1001, a).is_ok());
    assert!(r.key(1002, b).is_err());

    // The patch goes away WHILE A still has the button down - which is
    // exactly when a dispatcher tears one down, as the incident ends. A
    // still holds both; the tear-down does not retroactively unkey anybody.
    r.set_patches(vec![]);
    assert!(
        r.key(1002, b).is_err(),
        "A still holds it, patch or no patch"
    );

    // A releases the route A actually pressed. The CURRENT group no longer
    // contains 1002, and 1002 must not stay keyed by a client who let go.
    assert!(r.unkey_as(1001, a));
    assert!(
        r.key(1002, b).is_ok(),
        "1002 was stranded keyed after the patch was torn down and A released"
    );
}

/// A dispatcher's FIRST press on a busy channel is refused like anybody
/// else's. Taking it on the first press means every accidental brush of
/// PTT cuts somebody off mid-word.
#[test]
fn dispatch_is_refused_before_it_may_insist() {
    let mut r = Router::default();
    let unit = cli(1, 11);
    let desk = cli(0, 1);
    r.set_member(1001, unit, true, 100);
    r.set_member(1001, desk, true, 100);

    let t0 = 1_000_000_000u64;
    assert!(matches!(r.key_at(1001, unit, t0), Ok(Keyed::Granted)));

    let refused = r.key_at(1001, desk, t0);
    assert!(
        refused.is_err(),
        "a console took the channel on its first press"
    );

    // The unit still holds it, which is the point.
    assert_eq!(keyed_on(&r, 1001), Some(unit));
}

/// A SECOND press inside the window is a deliberate act, and takes it.
#[test]
fn dispatch_takes_the_channel_when_it_insists() {
    let mut r = Router::default();
    let unit = cli(1, 11);
    let desk = cli(0, 1);
    r.set_member(1001, unit, true, 100);
    r.set_member(1001, desk, true, 100);

    let t0 = 1_000_000_000u64;
    assert!(r.key_at(1001, unit, t0).is_ok());
    assert!(r.key_at(1001, desk, t0).is_err());

    let again = r.key_at(1001, desk, t0 + 700 * MILLISECOND);
    assert!(matches!(again, Ok(Keyed::Preempted(p)) if p == unit));
    assert_eq!(keyed_on(&r, 1001), Some(desk));
}

/// A press long after the refusal is a new thought, not an override. It
/// must be refused again rather than cutting somebody off because of a
/// refusal the operator has already forgotten.
#[test]
fn insistence_expires() {
    let mut r = Router::default();
    let unit = cli(1, 11);
    let desk = cli(0, 1);
    r.set_member(1001, unit, true, 100);
    r.set_member(1001, desk, true, 100);

    let t0 = 1_000_000_000u64;
    assert!(r.key_at(1001, unit, t0).is_ok());
    assert!(r.key_at(1001, desk, t0).is_err());

    let late = r.key_at(
        1001,
        desk,
        t0 + PREEMPT_WINDOW + 1 * SECOND,
    );
    assert!(late.is_err(), "a stale refusal still preempted");
    assert_eq!(keyed_on(&r, 1001), Some(unit));
}

/// Neither direction of this is negotiable: a subscriber never takes a
/// channel from dispatch, however many times it presses.
#[test]
fn a_unit_never_preempts_dispatch() {
    let mut r = Router::default();
    let unit = cli(1, 11);
    let desk = cli(0, 1);
    r.set_member(1001, unit, true, 100);
    r.set_member(1001, desk, true, 100);

    let t0 = 1_000_000_000u64;
    assert!(r.key_at(1001, desk, t0).is_ok());
    for n in 0..4 {
        let t = t0 + 200 * n * MILLISECOND;
        assert!(r.key_at(1001, unit, t).is_err());
    }
    assert_eq!(keyed_on(&r, 1001), Some(desk));
}

/// Two dispatchers colliding is a coordination problem, and letting one
/// insist their way over the other would hide it.
#[test]
fn one_console_never_preempts_another() {
    let mut r = Router::default();
    let a = cli(0, 1);
    let b = cli(0, 2);
    r.set_member(1001, a, true, 100);
    r.set_member(1001, b, true, 100);

    let t0 = 1_000_000_000u64;
    assert!(r.key_at(1001, a, t0).is_ok());
    assert!(r.key_at(1001, b, t0).is_err());
    assert!(r
        .key_at(1001, b, t0 + 500 * MILLISECOND)
        .is_err());
    assert_eq!(keyed_on(&r, 1001), Some(a));
}

/// A console subscribing to a VHF channel nobody in the world is on must
/// still hear it as FM, although the route is created by the subscription.
#[test]
fn a_subscription_alone_classifies_the_band() {
    let mut r = Router::default();
    let console = cli(0, 1);

    // 154.2650 MHz - VHF fireground, and no FXServer has opened it.
    let vhf = CONV_BASE | 1_542_650;
    r.set_member(vhf, console, true, 100);
    assert_eq!(
        r.route(vhf).map(|x| x.mode()),
        Some(Mode::Fm)
    );

    // 123.0250 MHz - civil airband, which is still AM.
    let air = CONV_BASE | 1_230_250;
    r.set_member(air, console, true, 100);
    assert_eq!(
        r.route(air).map(|x| x.mode()),
        Some(Mode::Am)
    );

    // A talkgroup is below the base and stays trunked.
    r.set_member(1001, console, true, 100);
    assert_eq!(
        r.route(1001).map(|x| x.mode()),
        Some(Mode::P25)
    );
}

/// An FXServer opening a channel may refine the classification - it knows
/// the codeplug - but must never be contradicted by it.
#[test]
fn opening_a_channel_still_wins() {
    let mut r = Router::default();
    let air = CONV_BASE | 1_230_250;
    r.set_member(air, cli(0, 1), true, 100);
    r.open_conventional(air, false); // the codeplug says FM after all
    assert_eq!(
        r.route(air).map(|x| x.mode()),
        Some(Mode::Fm)
    );
}

/// A console re-subscribing must not release what it is transmitting.
#[test]
fn resubscribing_keeps_the_key() {
    let mut r = Router::default();
    let console = cli(0, 1);
    let other = cli(0, 2);

    r.set_member(1001, console, true, 100);
    r.set_member(1001, other, true, 100);
    assert!(r.key(1001, console).is_ok());

    // The board changes mid-transmission: same talkgroups, re-sent.
    r.forget_membership(console);
    r.set_member(1001, console, true, 100);

    let dest = r.destination_of(console);
    assert!(
        dest.is_some(),
        "the console lost its own grant on a re-subscribe"
    );
    assert_eq!(dest.unwrap().0, 1001);
}

/// Detaching, by contrast, really does have to let go.
#[test]
fn detaching_releases_the_key() {
    let mut r = Router::default();
    let console = cli(0, 1);
    r.set_member(1001, console, true, 100);
    assert!(r.key(1001, console).is_ok());

    r.forget_client(console);
    assert!(r.destination_of(console).is_none());
}

#[test]
fn parses_the_fivem_username_prefix() {
    assert_eq!(player_id_from_username("[12] Arthur Mitchell"), Some(12));
    assert_eq!(player_id_from_username("[999] radiotap"), Some(999));
    assert_eq!(player_id_from_username("no prefix"), None);
    assert_eq!(player_id_from_username("[x] bad"), None);
}

#[test]
fn a_route_takes_one_key_at_a_time() {
    let mut r = Router::default();
    r.open(1001, false);
    assert!(r.key(1001, cli(A, 5)).is_ok());
    assert!(r.key(1001, cli(A, 6)).is_err(), "digital must never double");
    assert!(r.key(1001, cli(A, 5)).is_ok(), "the holder may re-key");
    r.unkey(1001);
    assert!(r.key(1001, cli(A, 6)).is_ok());
}

#[test]
fn talkgroups_do_not_double_across_servers() {
    // The platform rule. Two FXServers each believe they granted TG 1001;
    // exactly one is right, and the loser's server turns this into a bonk.
    let mut r = Router::default();
    r.open(1001, false);
    assert!(r.key(1001, cli(A, 3)).is_ok());
    assert!(
        r.key(1001, cli(B, 3)).is_err(),
        "same player id on a different server is a different person, and              the talkgroup is already held"
    );
}

#[test]
fn identical_player_ids_on_different_servers_are_different_people() {
    let mut r = Router::default();
    r.bind(sess(A, 7), "[3] Alice");
    r.bind(sess(B, 7), "[3] Bob");

    assert_eq!(r.client_of(sess(A, 7)), Some(cli(A, 3)));
    assert_eq!(r.client_of(sess(B, 7)), Some(cli(B, 3)));

    r.open(1001, false);
    r.set_member(1001, cli(A, 3), true, 100);
    r.set_member(1001, cli(B, 3), true, 100);
    r.key(1001, cli(A, 3)).unwrap();

    let (_, _, listeners) = r.destination(sess(A, 7)).unwrap();
    assert_eq!(
        listeners
            .iter()
            .map(|l| (l.client, l.quality))
            .collect::<Vec<_>>(),
        vec![(cli(B, 3), 100)],
        "the speaker is excluded, their namesake on another server is not"
    );
}

#[test]
fn unkeyed_speech_reaches_no_talkgroup() {
    let mut r = Router::default();
    r.bind(sess(A, 3), "[5] Talker");
    r.open(1001, false);
    r.set_member(1001, cli(A, 5), true, 100);
    r.set_member(1001, cli(A, 9), true, 100);
    assert!(r.destination(sess(A, 3)).is_none(), "no grant, no route");

    r.key(1001, cli(A, 5)).unwrap();
    let (tg, _, listeners) = r.destination(sess(A, 3)).expect("keyed speech routes");
    assert_eq!(tg, 1001);
    assert_eq!(
        listeners
            .iter()
            .map(|l| (l.client, l.quality))
            .collect::<Vec<_>>(),
        vec![(cli(A, 9), 100)],
        "the speaker is not a listener"
    );
}

#[test]
fn listen_false_is_never_delivered() {
    let mut r = Router::default();
    r.bind(sess(A, 3), "[5] Talker");
    r.open(9001, true);
    r.set_member(9001, cli(A, 5), true, 100);
    r.set_member(9001, cli(A, 9), false, 100); // no key for the encrypted talkgroup
    r.key(9001, cli(A, 5)).unwrap();

    let (_, _, listeners) = r.destination(sess(A, 3)).unwrap();
    assert!(
        listeners.is_empty(),
        "an unentitled member is never sent audio"
    );
}

#[test]
fn a_dropped_player_releases_the_channel() {
    let mut r = Router::default();
    r.bind(sess(A, 3), "[5] Talker");
    r.open(1001, false);
    r.set_member(1001, cli(A, 5), true, 100);
    r.key(1001, cli(A, 5)).unwrap();

    r.unbind(sess(A, 3));
    assert!(r.key(1001, cli(A, 6)).is_ok(), "the channel is free again");
}

/// Dropping is not only about `keyed`. A second radio on an AM frequency
/// transmits from `also`, and a player whose Mumble session goes away
/// mid-transmission never sends an unkey - a conventional radio has no
/// grant to release. Leaving them there meant the frequency read as
/// permanently colliding, and the same player rejoining (FiveM reuses
/// player ids) transmitted every word of their proximity chat onto it.
#[test]
fn a_dropped_am_doubler_stops_transmitting() {
    let mut r = Router::default();
    let air = CONV_BASE | 1_230_250;
    r.open_conventional(air, true);

    let first = cli(A, 5);
    let doubler = cli(A, 7);
    r.bind(sess(A, 1), "[5] First");
    r.bind(sess(A, 2), "[7] Doubler");
    r.set_member(air, first, true, 100);
    r.set_member(air, doubler, true, 100);

    assert_eq!(r.key(air, first), Ok(Keyed::Granted));
    assert_eq!(r.key(air, doubler), Ok(Keyed::Mixed));
    assert!(r.am_collision(air));

    r.unbind(sess(A, 2));

    assert_eq!(
        r.destination_of(doubler),
        None,
        "a player who dropped was still transmitting on the frequency"
    );
    assert!(
        !r.am_collision(air),
        "the frequency read as colliding with only one radio on it"
    );
    assert_eq!(
        r.talkers_on(air),
        vec![first],
        "the first radio is untouched"
    );
}

/// The same rule when a whole tap goes away, scoped to that server.
#[test]
fn losing_a_server_takes_its_am_doublers_with_it() {
    let mut r = Router::default();
    let air = CONV_BASE | 1_230_250;
    r.open_conventional(air, true);

    let on_a = cli(A, 5);
    let on_b = cli(B, 5);
    r.set_member(air, on_a, true, 100);
    r.set_member(air, on_b, true, 100);
    r.key(air, on_a).unwrap();
    assert_eq!(r.key(air, on_b), Ok(Keyed::Mixed));

    r.drop_server(B);

    assert_eq!(r.talkers_on(air), vec![on_a]);
    assert_eq!(r.destination_of(on_b), None);
    assert!(
        r.destination_of(on_a).is_some(),
        "the other world keeps talking"
    );
}

#[test]
fn losing_one_server_leaves_the_others_alone() {
    let mut r = Router::default();
    r.bind(sess(A, 1), "[5] OnA");
    r.bind(sess(B, 1), "[5] OnB");
    r.open(1001, false);
    r.set_member(1001, cli(A, 5), true, 100);
    r.set_member(1001, cli(B, 5), true, 100);
    r.key(1001, cli(A, 5)).unwrap();

    r.drop_server(A);

    assert!(r.client_of(sess(A, 1)).is_none(), "server A is gone");
    assert_eq!(
        r.client_of(sess(B, 1)),
        Some(cli(B, 5)),
        "server B is untouched"
    );
    assert!(r.key(1001, cli(B, 5)).is_ok(), "and the talkgroup is free");
}

// -- Dispatch priority --------------------------------------------------

fn keyed_route(tg: u32) -> Router {
    let mut r = Router::default();
    r.open(tg, false);
    r
}

#[test]
fn dispatch_takes_a_channel_from_a_field_unit() {
    let mut r = keyed_route(1001);
    let unit = ClientId::new(1, 7);
    let console = ClientId::new(0, 1);

    assert_eq!(r.key(1001, unit), Ok(Keyed::Granted));

    // Dispatch preempts, but only when it INSISTS. The first press is
    // refused like anybody else's - see dispatch_is_refused_before_it_may_insist.
    assert!(
        r.key(1001, console).is_err(),
        "took the channel on the first press"
    );
    assert_eq!(
        r.key(1001, console),
        Ok(Keyed::Preempted(unit)),
        "dispatch preempts on the second press, and says who it cut off"
    );
    assert_eq!(r.destination_of(console).map(|(t, _)| t), Some(1001));
}

#[test]
fn a_field_unit_cannot_take_a_channel_from_dispatch() {
    let mut r = keyed_route(1001);
    let console = ClientId::new(0, 1);

    assert!(r.key(1001, console).is_ok());
    assert_eq!(
        r.key(1001, ClientId::new(1, 7)),
        Err("dispatch is transmitting")
    );
}

#[test]
fn two_consoles_do_not_preempt_each_other() {
    let mut r = keyed_route(1001);
    assert!(r.key(1001, ClientId::new(0, 1)).is_ok());
    assert_eq!(
        r.key(1001, ClientId::new(0, 2)),
        Err("route already keyed"),
        "two dispatchers colliding is a coordination problem, not a priority one"
    );
}

#[test]
fn a_preempted_unit_releasing_does_not_end_dispatch() {
    let mut r = keyed_route(1001);
    let unit = ClientId::new(1, 7);
    let console = ClientId::new(0, 1);

    r.key(1001, unit).unwrap();
    // Refused, then insisted on: preemption takes two presses now.
    let _ = r.key(1001, console);
    r.key(1001, console).unwrap();

    // The operator lets go of a button they no longer hold the channel with.
    assert!(!r.unkey_as(1001, unit));
    assert_eq!(
        r.destination_of(console).map(|(t, _)| t),
        Some(1001),
        "dispatch is still transmitting"
    );

    assert!(r.unkey_as(1001, console));
    assert_eq!(r.destination_of(console), None);
}

#[test]
fn keying_twice_is_a_reply_not_a_collision() {
    let mut r = keyed_route(1001);
    let unit = ClientId::new(1, 7);
    assert_eq!(r.key(1001, unit), Ok(Keyed::Granted));
    assert_eq!(r.key(1001, unit), Ok(Keyed::Granted));
}

// -- Conventional, and what a collision sounds like ---------------------

#[test]
fn fm_captures_so_the_second_radio_is_not_heard() {
    let mut r = Router::default();
    r.open_conventional(0x8000_1234, false);
    let (a, b) = (ClientId::new(1, 1), ClientId::new(1, 2));

    assert_eq!(r.key(0x8000_1234, a), Ok(Keyed::Granted));
    // Accepted - a conventional channel has nothing to refuse it with -
    // but routed nowhere, which is what capture means.
    assert_eq!(r.key(0x8000_1234, b), Ok(Keyed::Doubled));
    assert!(r.destination_of(b).is_none());
}

#[test]
fn am_does_not_capture_so_both_are_heard() {
    let mut r = Router::default();
    r.open_conventional(0x8000_1234, true);
    let (a, b) = (ClientId::new(1, 1), ClientId::new(1, 2));
    r.set_member(0x8000_1234, ClientId::new(1, 9), true, 100);

    assert_eq!(r.key(0x8000_1234, a), Ok(Keyed::Granted));
    assert_eq!(r.key(0x8000_1234, b), Ok(Keyed::Mixed));

    for who in [a, b] {
        let (tg, listeners) = r.destination_of(who).expect("both reach the frequency");
        assert_eq!(tg, 0x8000_1234);
        assert!(listeners.iter().any(|l| l.client == ClientId::new(1, 9)));
    }
    assert_eq!(r.talkers_on(0x8000_1234).len(), 2);
}

#[test]
fn one_am_radio_unkeying_leaves_the_other_up() {
    let mut r = Router::default();
    r.open_conventional(0x8000_1234, true);
    let (a, b) = (ClientId::new(1, 1), ClientId::new(1, 2));
    r.key(0x8000_1234, a).unwrap();
    r.key(0x8000_1234, b).unwrap();

    assert!(r.unkey_as(0x8000_1234, b));
    assert_eq!(r.talkers_on(0x8000_1234), vec![a]);
    assert!(r.destination_of(a).is_some());
    assert!(r.destination_of(b).is_none());
}

// -- Patches ------------------------------------------------------------

fn patched_pair() -> (Router, ClientId, ClientId) {
    let mut r = Router::default();
    r.open(1001, false);
    r.open(4001, false);
    r.set_patches(vec![vec![1001, 4001]]);

    let a = ClientId::new(1, 1);
    let b = ClientId::new(1, 2);
    r.set_member(1001, a, true, 100);
    r.set_member(4001, b, true, 100);
    (r, a, b)
}

#[test]
fn a_patch_delivers_across_talkgroups() {
    let (mut r, a, b) = patched_pair();
    r.key(1001, a).unwrap();

    let (tg, listeners) = r.destination_of(a).expect("keyed");
    assert_eq!(tg, 1001);
    assert!(
        listeners.iter().any(|l| l.client == b),
        "somebody on the patched talkgroup hears it"
    );
}

#[test]
fn a_patch_between_systems_renders_each_side_for_itself() {
    let mut r = Router::default();
    r.open(1001, false);
    r.open_conventional(0x8000_1234, false);
    r.set_patches(vec![vec![1001, 0x8000_1234]]);

    let talking = ClientId::new(1, 1);
    let on_p25 = ClientId::new(1, 2);
    let on_vhf = ClientId::new(1, 3);

    r.set_member(1001, talking, true, 90);
    r.set_member(1001, on_p25, true, 90);
    r.set_member(0x8000_1234, on_vhf, true, 90);

    r.key(1001, talking).unwrap();
    let (tg, listeners) = r.destination_of(talking).expect("keyed");
    let src = r.source_sink(tg, talking);

    assert_eq!(tg, 1001);
    assert_eq!(src.mode, Mode::P25, "they keyed a talkgroup");

    let p25 = listeners.iter().find(|l| l.client == on_p25).unwrap();
    let vhf = listeners.iter().find(|l| l.client == on_vhf).unwrap();

    assert_eq!(p25.mode, Mode::P25);
    assert!(!p25.bridged, "same route, one hop");

    // The whole point: the VHF side is rendered as VHF, and is marked as
    // having crossed a bridge so it gets the second hop too.
    assert_eq!(vhf.mode, Mode::Fm);
    assert!(vhf.bridged, "across a patch is two hops, not one");
}

#[test]
fn doubling_onto_a_patched_am_channel_is_still_a_collision() {
    let mut r = Router::default();
    r.open(1001, false);
    r.open_conventional(0x8000_5678, true);
    r.set_patches(vec![vec![1001, 0x8000_5678]]);

    let a = ClientId::new(1, 1);
    let b = ClientId::new(1, 2);
    r.set_member(1001, a, true, 90);
    r.set_member(0x8000_5678, b, true, 90);

    r.key(1001, a).unwrap();
    assert!(
        !r.am_collision(1001),
        "one talker is not a collision, patched or otherwise"
    );

    // Keying the AM side of the patch. The trunked side already holds the
    // group, so this is a second transmitter on the same airband channel -
    // which is exactly the case that checking only the keyed route missed.
    r.key(0x8000_5678, b).unwrap();
    assert!(r.am_collision(1001));
    assert!(r.am_collision(0x8000_5678));
}

#[test]
fn keying_one_side_of_a_patch_takes_the_other() {
    let (mut r, a, b) = patched_pair();
    r.key(1001, a).unwrap();
    assert_eq!(
        r.key(4001, b),
        Err("route already keyed"),
        "it is one channel now, so two people cannot both talk on it"
    );
}

/// A patch is one channel, so preempting it is one act. Re-running the
/// two-press protocol per member re-armed `pending` and refused - the first
/// press only ever armed the route that was pressed - so the unit dispatch
/// had just cut off went on holding every other member, and the two of them
/// were transmitting to the same listeners at once.
#[test]
fn preempting_a_patched_talkgroup_takes_every_member() {
    let (mut r, unit, _) = patched_pair();
    let console = cli(0, 1);
    r.set_member(1001, console, true, 100);

    r.key(1001, unit).unwrap();
    assert!(
        r.key(1001, console).is_err(),
        "the first press is refused, patch or no patch"
    );
    assert_eq!(r.key(1001, console), Ok(Keyed::Preempted(unit)));

    assert_eq!(
        keyed_on(&r, 4001),
        Some(console),
        "the far side of the patch was left keyed by the preempted unit"
    );
    assert_eq!(
        r.destination_of(unit),
        None,
        "the preempted unit was still transmitting on the other half"
    );
    assert_eq!(r.destination_of(console).map(|(t, _)| t), Some(1001));
}

/// And it takes them off an AM member too, where holding is being in
/// `also` rather than holding `keyed`.
#[test]
fn preempting_takes_the_unit_off_a_patched_am_member() {
    let mut r = Router::default();
    let air = CONV_BASE | 1_230_250;
    r.open(1001, false);
    r.open_conventional(air, true);

    let pilot = cli(A, 3);
    let unit = cli(A, 7);
    let console = cli(0, 1);
    r.set_member(air, pilot, true, 100);
    r.set_member(1001, unit, true, 100);
    r.set_member(1001, console, true, 100);

    // The pilot is already up on the frequency when the dispatcher patches
    // it to the talkgroup, which is when a patch usually gets made. The
    // unit then keys the trunked side and is mixed in on top of them - AM
    // does not capture.
    r.key(air, pilot).unwrap();
    r.set_patches(vec![vec![1001, air]]);
    r.key(1001, unit).unwrap();
    assert!(r.talkers_on(air).contains(&unit));

    assert!(r.key(1001, console).is_err());
    assert_eq!(r.key(1001, console), Ok(Keyed::Preempted(unit)));

    assert!(
        !r.talkers_on(air).contains(&unit),
        "the preempted unit was left mixed in on top of dispatch"
    );
    assert_eq!(r.destination_of(unit), None);
    assert!(
        r.talkers_on(air).contains(&pilot),
        "the pilot was never dispatch's to preempt"
    );
}

/// Everybody is told a call has ended only then. A release that released
/// nothing must not end somebody else's transmission.
#[test]
fn a_channel_is_not_clear_while_anybody_is_still_up() {
    let (mut r, unit, _) = patched_pair();
    let console = cli(0, 1);
    r.set_member(1001, console, true, 100);

    assert!(r.is_clear(1001), "nobody has keyed anything yet");

    r.key(1001, unit).unwrap();
    assert!(r.key(1001, console).is_err());
    r.key(1001, console).unwrap();

    // The preempted unit lets go of a button it no longer holds anything
    // with. Dispatch is mid-sentence and the channel is NOT clear.
    assert!(!r.unkey_as(1001, unit));
    assert!(!r.is_clear(1001));
    assert!(
        !r.is_clear(4001),
        "the far side of the patch is the channel"
    );

    assert!(r.unkey_as(1001, console));
    assert!(r.is_clear(1001));
}

/// AM keeps several talkers on one frequency, and one of them stopping is
/// not the end of the call.
#[test]
fn an_am_frequency_is_not_clear_until_the_last_radio_stops() {
    let mut r = Router::default();
    let air = CONV_BASE | 1_230_250;
    r.open_conventional(air, true);
    let (a, b) = (cli(A, 1), cli(A, 2));

    r.key(air, a).unwrap();
    assert_eq!(r.key(air, b), Ok(Keyed::Mixed));

    assert!(r.unkey_as(air, b));
    assert!(!r.is_clear(air), "the first radio is still transmitting");

    assert!(r.unkey_as(air, a));
    assert!(r.is_clear(air));
}

/// A route torn down mid-transmission - a codeplug reload - is clear, so
/// its call still gets closed rather than left open forever.
#[test]
fn a_route_that_went_away_counts_as_clear() {
    let mut r = Router::default();
    r.open(1001, false);
    r.key(1001, cli(A, 5)).unwrap();
    r.close(1001);
    assert!(r.is_clear(1001));
}

#[test]
fn releasing_a_patch_releases_every_member() {
    let (mut r, a, _) = patched_pair();
    r.key(1001, a).unwrap();
    assert!(r.unkey_as(1001, a));
    assert_eq!(r.destination_of(a), None);
}

#[test]
fn a_patch_is_transitive() {
    let mut r = Router::default();
    for tg in [1, 2, 3] {
        r.open(tg, false);
    }
    // Somebody patched 1 to 2, then 2 to 3. They meant all three.
    r.set_patches(vec![vec![1, 2], vec![2, 3]]);

    let speaker = ClientId::new(1, 1);
    let far = ClientId::new(1, 9);
    r.set_member(1, speaker, true, 100);
    r.set_member(3, far, true, 100);

    r.key(1, speaker).unwrap();
    let (_, listeners) = r.destination_of(speaker).expect("keyed");
    assert!(listeners.iter().any(|l| l.client == far));
}

#[test]
fn somebody_on_two_patched_talkgroups_hears_it_once() {
    let mut r = Router::default();
    r.open(1001, false);
    r.open(4001, false);
    r.set_patches(vec![vec![1001, 4001]]);

    let speaker = ClientId::new(1, 1);
    let both = ClientId::new(1, 2);
    r.set_member(1001, speaker, true, 100);
    r.set_member(1001, both, true, 60);
    r.set_member(4001, both, true, 90);

    r.key(1001, speaker).unwrap();
    let (_, listeners) = r.destination_of(speaker).expect("keyed");

    assert_eq!(listeners.iter().filter(|l| l.client == both).count(), 1);
    assert_eq!(
        listeners
            .iter()
            .find(|l| l.client == both)
            .map(|l| l.quality),
        Some(90),
        "the better link wins - they hear it once, as well as they can"
    );
}

// -- Whatever came before ---------------------------------------------------

const AIR: u32 = CONV_BASE | 1_234_500;

#[test]
fn nobody_is_listed_twice() {
    let mut r = Router::default();
    r.open_conventional(AIR, true);
    let (a, b) = (cli(A, 1), cli(A, 2));
    r.key(AIR, a).unwrap();
    assert_eq!(r.key(AIR, b), Ok(Keyed::Mixed));
    assert!(r.unkey_as(AIR, a));
    assert_eq!(r.talkers_on(AIR), vec![b]);
    assert_eq!(r.key(AIR, b), Ok(Keyed::Granted));
    assert_eq!(r.talkers_on(AIR), vec![b], "the holder is nobody else");
    assert!(r.unkey_as(AIR, b));
    assert!(r.talkers_on(AIR).is_empty());
}

#[test]
fn a_band_that_is_no_longer_am_mixes_nobody() {
    let mut r = Router::default();
    r.open_conventional(AIR, true);
    r.key(AIR, cli(A, 1)).unwrap();
    r.key(AIR, cli(A, 2)).unwrap();
    r.open_conventional(AIR, false);
    assert_eq!(r.talkers_on(AIR), vec![cli(A, 1)]);
}

/// What a press took is given back although the patch is gone by the time of
/// a reply.
#[test]
fn a_reply_forgets_nothing_that_the_press_took() {
    let mut r = Router::default();
    r.open(1001, false);
    r.open(1002, false);
    r.set_patches(vec![vec![1001, 1002]]);
    let a = cli(A, 1);
    r.key(1001, a).unwrap();
    r.set_patches(vec![]);
    assert_eq!(r.key(1001, a), Ok(Keyed::Granted));
    assert!(r.unkey_as(1001, a));
    assert!(r.talkers_on(1001).is_empty());
    assert!(r.talkers_on(1002).is_empty());
}

/// Other people's doings in between change nothing of what a release gives
/// back.
#[test]
fn a_release_gives_back_what_the_press_took_and_no_more() {
    let mut r = Router::default();
    for tg in [1001, 1002, 1003] {
        r.open(tg, false);
    }
    r.set_patches(vec![vec![1001, 1002]]);
    let (a, b) = (cli(A, 1), cli(B, 1));
    r.key(1001, a).unwrap();
    r.key(1003, b).unwrap();
    r.set_patches(vec![vec![1001, 1003]]);
    assert!(r.key(1002, b).is_err());
    assert!(r.unkey_as(1001, a));
    assert!(r.talkers_on(1001).is_empty());
    assert!(r.talkers_on(1002).is_empty());
    assert_eq!(r.talkers_on(1003), vec![b]);
}

/// With no press on record, the patches as they are say what is released.
#[test]
fn a_release_without_a_press_goes_by_the_patches() {
    let mut r = Router::default();
    r.open(1001, false);
    r.open(1002, false);
    let a = cli(A, 1);
    r.key(1002, a).unwrap();
    assert!(!r.unkey_as(1001, a));
    assert_eq!(r.talkers_on(1002), vec![a]);
    r.set_patches(vec![vec![1001, 1002]]);
    assert!(r.unkey_as(1001, a));
    assert!(r.talkers_on(1002).is_empty());
}

#[test]
fn a_transmission_is_where_the_last_press_was() {
    let mut r = Router::default();
    r.open(1001, false);
    r.open(1002, false);
    let a = cli(A, 1);
    let on = |r: &Router| r.destination_of(a).map(|d| d.0);
    r.key(1002, a).unwrap();
    r.key(1001, a).unwrap();
    assert_eq!(on(&r), Some(1001));
    r.key(1002, a).unwrap();
    assert_eq!(on(&r), Some(1002));
    assert!(r.unkey_as(1002, a));
    assert_eq!(on(&r), Some(1001), "the lowest still held");
}

#[test]
fn everybody_let_go_frees_what_they_took() {
    let mut r = Router::default();
    r.open(1001, false);
    r.open(1002, false);
    r.open(1003, false);
    r.set_patches(vec![vec![1001, 1002]]);
    let (a, b) = (cli(A, 1), cli(A, 2));
    r.key(1001, a).unwrap();
    r.key(1003, b).unwrap();
    r.unkey_everybody(1001);
    assert!(r.talkers_on(1001).is_empty());
    assert!(r.talkers_on(1002).is_empty());
    assert_eq!(r.talkers_on(1003), vec![b]);
    assert_eq!(r.destination_of(a), None);
}

/// What somebody holds by another press stays theirs.
#[test]
fn everybody_let_go_keeps_what_they_pressed_themselves() {
    let mut r = Router::default();
    r.open(1001, false);
    r.open(4001, false);
    r.set_patches(vec![vec![1001, 4001]]);
    let a = cli(A, 1);
    r.key(4001, a).unwrap();
    assert_eq!(r.talkers_on(1001), vec![a]);
    r.unkey_everybody(1001);
    assert!(r.talkers_on(1001).is_empty());
    assert_eq!(r.talkers_on(4001), vec![a]);
    assert_eq!(r.destination_of(a).map(|d| d.0), Some(4001));
    assert!(r.unkey_as(4001, a));
    assert!(r.talkers_on(4001).is_empty());
}

#[test]
fn going_off_the_air_is_of_one_client_and_of_every_route() {
    let mut r = Router::default();
    r.open(1001, false);
    r.open_conventional(AIR, true);
    let (a, b) = (cli(A, 1), cli(A, 2));
    r.set_member(AIR, a, true, 100);
    r.key(AIR, b).unwrap();
    r.key(AIR, a).unwrap();
    r.key(1001, a).unwrap();
    r.silence(a);
    assert!(r.talkers_on(1001).is_empty());
    assert_eq!(r.talkers_on(AIR), vec![b]);
    assert_eq!(r.listeners_of(AIR), vec![a], "it still listens");
}

#[test]
fn counts_that_can_be_told_are_told() {
    let mut r = Router::default();
    r.bind(sess(A, 7), "[5] Talker");
    r.open(1001, false);
    r.set_member(1001, cli(A, 5), true, 100);
    r.key(1001, cli(A, 5)).unwrap();
    let counts = r.try_stats().expect("few enough");
    assert_eq!(counts.get(&A), Some(&(1, 1, 1)));
    assert!(counts.get(&B).is_none());
}

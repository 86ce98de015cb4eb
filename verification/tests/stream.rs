use rfx_voiced::dsp::{Mode, RATE};
use rfx_voiced::router::{ClientId, Keyed, Listener, Router, CONSOLE_SERVER};
use rfx_voiced::stream::{
    call_frame, console_frame, console_gone, consoles_on, deliver, hello_frame, socket_client,
    token_in, ConsoleEvent, Outgoing, Streams, AUDIO_HEADER, KIND_AUDIO, KIND_CALL, KIND_DENY,
    KIND_HELLO, TX_AUDIO, TX_KEY, TX_UNKEY,
};

/// A conventional route id: `0x80000000 | round(MHz * 10000)`.
const CONV: u32 = 0x8000_0000 | 1_552_350;

/// A client with a socket, and whatever was queued for opening it taken off.
fn connected(client: ClientId) -> Streams {
    let mut s = Streams::default();
    s.connect(client);
    s.take_outbox();
    s
}

fn one_frame(build: impl FnOnce(&mut Streams, ClientId)) -> Vec<u8> {
    let client = ClientId::new(0, 1);
    let mut s = connected(client);
    build(&mut s, client);
    let mut out = s.take_outbox();
    assert_eq!(out.len(), 1, "a frame was sent");
    out.remove(0).frame
}

/// The talkgroup is a u32 on the wire. As a u16 every conventional route would
/// truncate to a number matching nothing.
#[test]
fn a_conventional_route_survives_the_wire() {
    let frame = one_frame(|s, c| s.send_pcm(c, CONV, &[1, -1]));

    assert_eq!(frame[0], KIND_AUDIO);
    assert_eq!(
        u32::from_be_bytes([frame[2], frame[3], frame[4], frame[5]]),
        CONV,
        "a conventional id must arrive whole, not truncated to 16 bits"
    );
}

#[test]
fn call_and_deny_carry_the_same_id_width() {
    for frame in [
        one_frame(|s, c| s.send_call(c, CONV, true, "unit")),
        one_frame(|s, c| s.send_deny(c, CONV, "busy")),
    ] {
        assert_eq!(
            u32::from_be_bytes([frame[2], frame[3], frame[4], frame[5]]),
            CONV,
        );
    }
}

/// A typed array view whose offset is not a multiple of its element size
/// throws outright, so an odd header would break every listener.
#[test]
fn the_audio_header_stays_even_and_matches_the_frame() {
    assert_eq!(AUDIO_HEADER % 2, 0, "PCM must start 2-byte aligned");

    let frame = one_frame(|s, c| s.send_pcm(c, 1001, &[7, 8, 9]));
    assert_eq!(frame.len(), AUDIO_HEADER + 3 * 2);

    // Little endian, matching every tool that will ever open this.
    assert_eq!(
        i16::from_le_bytes([frame[AUDIO_HEADER], frame[AUDIO_HEADER + 1]]),
        7,
    );
}

/// The hello states the sample rate as a u32.
#[test]
fn the_hello_states_the_rate_as_a_u32() {
    let mut hello = vec![KIND_HELLO];
    hello.extend_from_slice(&RATE.to_be_bytes());

    assert_eq!(hello.len(), 5);
    assert_eq!(
        u32::from_be_bytes([hello[1], hello[2], hello[3], hello[4]]),
        RATE,
    );
    assert_eq!(hello_frame(), hello);
}

#[test]
fn a_call_says_who_is_talking() {
    assert_eq!(
        call_frame(1001, true, "E1"),
        vec![KIND_CALL, 1, 0, 0, 0x03, 0xe9, b'E', b'1']
    );
    assert_eq!(call_frame(1001, false, "")[1], 0);
}

#[test]
fn a_socket_opens_with_a_hello() {
    let c = ClientId::new(1, 4);
    let mut s = Streams::default();
    s.connect(c);
    assert!(s.is_connected(c));
    assert_eq!(s.connected(), 1);
    let out = s.take_outbox();
    assert_eq!(out.len(), 1);
    assert_eq!(out[0].client, c);
    assert_eq!(out[0].frame, hello_frame());
    s.disconnect(c);
    assert_eq!(s.connected(), 0);
}

#[test]
fn nothing_is_queued_for_somebody_without_a_socket() {
    let mut s = Streams::default();
    s.send_call(ClientId::new(0, 1), 1001, true, "unit");
    assert!(s.take_outbox().is_empty());
}

#[test]
fn a_revoked_token_opens_no_socket() {
    let (a, b) = (ClientId::new(1, 1), ClientId::new(1, 2));
    let mut s = connected(a);
    s.authorize("ta".to_string(), a);
    s.authorize("tb".to_string(), b);
    assert_eq!(s.client_for("ta"), Some(a));

    s.revoke_player(a);
    assert_eq!(s.client_for("ta"), None);
    assert_eq!(s.client_for("tb"), Some(b));
    assert!(!s.is_connected(a));
}

#[test]
fn losing_a_server_takes_its_tokens_and_sockets() {
    let (a, b) = (ClientId::new(1, 1), ClientId::new(2, 1));
    let mut s = connected(a);
    s.connect(b);
    s.authorize("ta".to_string(), a);
    s.authorize("tb".to_string(), b);
    s.drop_server(1);
    assert_eq!(s.client_for("ta"), None);
    assert_eq!(s.client_for("tb"), Some(b));
    assert!(!s.is_connected(a));
    assert!(s.is_connected(b));
}

#[test]
fn a_token_is_read_out_of_a_query() {
    assert_eq!(token_in("a=b&token=xyz&c=d").as_deref(), Some("xyz"));
    assert_eq!(token_in("a=b").as_deref(), None);
    let c = ClientId::new(1, 1);
    let mut s = Streams::default();
    s.authorize("xyz".to_string(), c);
    assert_eq!(socket_client(&s, Some("token=xyz")), Some(c));
    assert_eq!(socket_client(&s, Some("token=abc")), None);
    assert_eq!(socket_client(&s, None), None);
}

#[test]
fn everybody_gets_the_rendering_their_link_calls_for() {
    let near = ClientId::new(1, 1);
    let far = ClientId::new(1, 2);
    let mut s = connected(near);
    s.connect(far);
    s.take_outbox();
    let listeners = vec![
        Listener { client: near, quality: 98, mode: Mode::P25, bridged: false },
        Listener { client: far, quality: 31, mode: Mode::P25, bridged: false },
    ];
    let lanes = vec![
        ((Mode::P25, 100u8, false), vec![1i16]),
        ((Mode::P25, 30u8, false), vec![2i16]),
    ];
    deliver(&mut s, 1001, &lanes, &listeners);
    let out = s.take_outbox();
    let of = |c: ClientId| -> Vec<i16> {
        out.iter()
            .filter(|o: &&Outgoing| o.client == c)
            .map(|o| i16::from_le_bytes([o.frame[6], o.frame[7]]))
            .collect()
    };
    assert_eq!(of(near), vec![1]);
    assert_eq!(of(far), vec![2]);
}

fn console_message(kind: u8, tg: u32) -> Vec<u8> {
    let mut f = vec![kind, 0];
    f.extend_from_slice(&tg.to_be_bytes());
    f
}

#[test]
fn a_console_is_refused_then_takes_the_channel_by_insisting() {
    let unit = ClientId::new(1, 7);
    let desk = ClientId::new(CONSOLE_SERVER, 1);
    let mut r = Router::default();
    r.open(1001, false);
    r.set_member(1001, unit, true, 100);
    r.set_member(1001, desk, true, 100);
    let mut s = connected(desk);
    s.connect(unit);
    s.take_outbox();
    assert!(r.key_at(1001, unit, 0).is_ok());
    assert_eq!(consoles_on(&r, 1001), vec![desk]);

    let press = console_message(TX_KEY, 1001);
    let first = console_frame(&mut r, &mut s, desk, &press, 10);
    assert!(matches!(
        first,
        ConsoleEvent::Press(1001, Err("busy - key again to take the channel"))
    ));
    let out = s.take_outbox();
    assert_eq!(out.len(), 1);
    assert_eq!(out[0].frame[0], KIND_DENY);

    let second = console_frame(&mut r, &mut s, desk, &press, 20);
    assert!(matches!(second, ConsoleEvent::Press(1001, Ok(Keyed::Preempted(was))) if was == unit));
    let out = s.take_outbox();
    // The unit is told why and that its call is over; the console is told
    // that it has the channel.
    let kinds: Vec<(ClientId, u8, u8)> =
        out.iter().map(|o| (o.client, o.frame[0], o.frame[1])).collect();
    assert_eq!(kinds[0], (unit, KIND_DENY, 0));
    assert_eq!(kinds[1], (unit, KIND_CALL, 0));
    assert!(kinds[2..].iter().all(|k| *k == (desk, KIND_CALL, 1)));
    assert_eq!(kinds.len(), 4);
}

#[test]
fn a_consoles_audio_goes_where_it_is_keyed() {
    let unit = ClientId::new(1, 7);
    let desk = ClientId::new(CONSOLE_SERVER, 1);
    let mut r = Router::default();
    r.set_member(1001, desk, true, 100);
    let mut s = connected(desk);

    let mut audio = console_message(TX_AUDIO, 4001);
    audio.extend_from_slice(&300i16.to_le_bytes());
    audio.extend_from_slice(&(-2i16).to_le_bytes());

    assert!(matches!(
        console_frame(&mut r, &mut s, desk, &audio, 0),
        ConsoleEvent::NotKeyed
    ));
    console_frame(&mut r, &mut s, desk, &console_message(TX_KEY, 1001), 0);
    assert!(matches!(
        console_frame(&mut r, &mut s, desk, &audio, 0),
        ConsoleEvent::NobodyListening(1001)
    ));
    r.set_member(1001, unit, true, 90);
    match console_frame(&mut r, &mut s, desk, &audio, 0) {
        ConsoleEvent::Audio(tg, src, listeners, pcm) => {
            assert_eq!(tg, 1001, "the route comes from the router, not the frame");
            assert_eq!(src.mode, Mode::P25);
            assert_eq!(listeners.len(), 1);
            assert_eq!(listeners[0].client, unit);
            assert_eq!(pcm, vec![300, -2]);
        }
        _ => panic!("no audio"),
    }
    assert!(matches!(
        console_frame(&mut r, &mut s, desk, &console_message(TX_UNKEY, 1001), 0),
        ConsoleEvent::Release(1001)
    ));
    assert!(r.is_clear(1001));
    assert!(matches!(
        console_frame(&mut r, &mut s, desk, &[TX_KEY, 0, 0], 0),
        ConsoleEvent::Ignored
    ));
}

#[test]
fn a_socket_that_drops_leaves_no_key_behind() {
    let desk = ClientId::new(CONSOLE_SERVER, 1);
    let mut r = Router::default();
    r.set_member(1001, desk, true, 100);
    let mut s = connected(desk);
    console_frame(&mut r, &mut s, desk, &console_message(TX_KEY, 1001), 0);
    assert!(!r.is_clear(1001));
    console_gone(&mut r, &mut s, desk);
    assert!(r.is_clear(1001));
    assert!(!s.is_connected(desk));
}

/// A refused console lets go of its button: the unit's call goes on.
#[test]
fn a_release_that_releases_nothing_tells_nobody() {
    let unit = ClientId::new(1, 7);
    let desk = ClientId::new(CONSOLE_SERVER, 1);
    let mut r = Router::default();
    r.open(1001, false);
    r.set_member(1001, desk, true, 100);
    let mut s = connected(desk);
    r.key_at(1001, unit, 0).unwrap();
    console_frame(&mut r, &mut s, desk, &console_message(TX_KEY, 1001), 10);
    s.take_outbox();

    let release = [17, 0, 0, 0, 3, 0xE9];
    assert!(matches!(
        console_frame(&mut r, &mut s, desk, &release, 20),
        ConsoleEvent::Release(1001)
    ));
    assert!(s.take_outbox().is_empty());
    assert_eq!(r.talkers_on(1001), vec![unit]);

    // Once the channel is clear, a release says so.
    assert!(r.unkey_as(1001, unit));
    console_frame(&mut r, &mut s, desk, &release, 30);
    let out = s.take_outbox();
    assert!(!out.is_empty());
    assert!(out.iter().all(|o| o.client == desk && (o.frame[0], o.frame[1]) == (KIND_CALL, 0)));
}

#[test]
fn a_lost_socket_frees_every_route_and_cuts_off_nobody_else() {
    let desk = ClientId::new(CONSOLE_SERVER, 1);
    let pilot = ClientId::new(1, 7);
    let air = 0x8000_0000 | 1_234_500;
    let mut r = Router::default();
    r.open(1001, false);
    r.open(1002, false);
    r.open_conventional(air, true);
    r.set_patches(vec![vec![1001, 1002]]);
    let mut s = connected(desk);
    r.key_at(air, pilot, 0).unwrap();
    r.key_at(air, desk, 0).unwrap();
    r.key_at(1001, desk, 0).unwrap();

    console_gone(&mut r, &mut s, desk);
    assert!(r.talkers_on(1001).is_empty());
    assert!(r.talkers_on(1002).is_empty());
    assert_eq!(r.talkers_on(air), vec![pilot]);
    assert!(!s.is_connected(desk));
}

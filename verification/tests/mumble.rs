use rfx_voiced::dsp::Mode;
use rfx_voiced::mumble::{
    best_recording, frame, handling, keepalive_frame, parse_voice, Handling, Header, HeaderError,
    Tap, MAX_FRAME, PING, SERVER_SYNC, SILENCE_MS, UDP_TUNNEL, USER_STATE,
};
use rfx_voiced::router::{ClientId, Router, SessionId};

const MILLISECOND: u64 = 1_000_000;

/// A header arriving in two pieces is one header. A six-byte header straddling
/// a record boundary is ordinary traffic on a busy server.
#[test]
fn a_header_split_across_reads_is_still_one_header() {
    let mut header = Header::default();

    assert_eq!(header.read_from(&[0, 5, 0]), Ok(None));
    assert_eq!(header.wants(), 3);
    assert_eq!(header.read_from(&[0, 0, 42]), Ok(Some((5, 42))));
}

/// And the half already taken survives the sweep tick cancelling the read: what
/// was taken is with the header, and nothing else happens to it in between.
#[test]
fn a_cancelled_header_read_keeps_what_it_already_took() {
    let mut header = Header::default();

    assert_eq!(header.read_from(&[0, 5, 0]), Ok(None));
    assert_eq!(header.wants(), 3, "the header did not complete early");
    assert_eq!(
        header.read_from(&[0, 0, 42]),
        Ok(Some((5, 42))),
        "the framing desynchronised - the first three bytes were lost"
    );
}

/// A length off a desynchronised or hostile stream is refused before anything
/// allocates for it.
#[test]
fn an_impossible_frame_length_is_refused_rather_than_allocated() {
    let mut header = Header::default();

    let err = header
        .read_from(&[0, 5, 0xff, 0xff, 0xff, 0xff])
        .expect_err("a 4 GiB frame was accepted");
    assert!(err.text().contains("oversized"), "{}", err.text());
}

#[test]
fn a_frame_at_the_limit_is_still_accepted() {
    let mut header = Header::default();

    let mut h = vec![0, 7];
    h.extend_from_slice(&(MAX_FRAME as u32).to_be_bytes());
    assert_eq!(header.read_from(&h), Ok(Some((7, MAX_FRAME))));
}

#[test]
fn a_connection_that_closed_is_an_error() {
    let mut header = Header::default();
    assert!(matches!(header.read_from(&[]), Err(HeaderError::Closed)));
}

#[test]
fn a_framed_message_reads_back() {
    let framed = frame(PING, &[9, 8, 7]);
    assert_eq!(framed, vec![0, 3, 0, 0, 0, 3, 9, 8, 7]);
    let mut header = Header::default();
    assert_eq!(header.read_from(&framed[..6]), Ok(Some((PING, 3))));
}

#[test]
fn messages_are_told_apart_by_kind() {
    assert_eq!(handling(UDP_TUNNEL), Handling::Voice);
    assert_eq!(handling(SERVER_SYNC), Handling::Synced);
    assert_eq!(handling(USER_STATE), Handling::User);
    assert_eq!(handling(PING), Handling::Nothing);
    assert_eq!(handling(99), Handling::Unknown);
}

#[test]
fn a_keepalive_is_an_empty_opus_packet() {
    // Opus, normal talking; the number; no payload, and the last of them.
    assert_eq!(keepalive_frame(7), vec![0x80, 7, 0xa0, 0x00]);
}

/// An Opus packet from a session: type and target, session, sequence, length,
/// payload.
fn voice(session: u8, payload: &[u8]) -> Vec<u8> {
    let mut v = vec![4 << 5, session, 1, payload.len() as u8];
    v.extend_from_slice(payload);
    v
}

#[test]
fn a_voice_packet_is_parsed() {
    let p = parse_voice(&voice(7, &[1, 2, 3])).unwrap();
    assert_eq!((p.codec, p.target, p.session), (4, 0, 7));
    assert_eq!((p.payload_start, p.payload_len), (4, 3));
    assert!(parse_voice(&[]).is_none());
}

fn talking() -> (Router, Tap) {
    let mut r = Router::default();
    r.bind(SessionId::new(1, 7), "[5] Talker");
    r.open(1001, false);
    r.set_member(1001, ClientId::new(1, 5), true, 100);
    r.set_member(1001, ClientId::new(1, 9), true, 80);
    (r, Tap::new(1))
}

#[test]
fn keyed_speech_is_rendered_and_other_speech_is_not() {
    let (mut r, mut tap) = talking();
    let heard = tap.hear(&voice(7, &[1, 2, 3]), &r, 0).unwrap();
    assert!(heard.starts);
    assert!(heard.dest.is_none());
    assert!(!heard.render);

    r.key(1001, ClientId::new(1, 5)).unwrap();
    let heard = tap.hear(&voice(7, &[1, 2, 3]), &r, 0).unwrap();
    assert!(!heard.starts, "the same talkspurt goes on");
    let (tg, src, listeners) = heard.dest.unwrap();
    assert_eq!((tg, src.mode), (1001, Mode::P25));
    assert_eq!(listeners[0].client, ClientId::new(1, 9));
    assert!(heard.render);
}

#[test]
fn a_talkspurt_ends_after_a_silence_and_only_once() {
    let (r, mut tap) = talking();
    tap.hear(&voice(7, &[1, 2, 3]), &r, 0);
    assert!(tap.sweep(10 * MILLISECOND).is_empty());
    let ended = tap.sweep((SILENCE_MS + 1) * MILLISECOND);
    assert_eq!(ended.len(), 1);
    assert_eq!(ended[0].session, 7);
    assert_eq!(ended[0].talk.packets, 1);
    assert!(tap.sweep((SILENCE_MS + 2) * MILLISECOND).is_empty());
}

#[test]
fn every_channel_is_listened_to_once() {
    let mut tap = Tap::new(1);
    assert_eq!(tap.channel_state(3), (true, false), "not synchronised yet");
    assert_eq!(tap.server_sync(Some(40)), vec![3]);
    assert_eq!(tap.channel_state(4), (true, true));
    assert_eq!(tap.channel_state(4), (false, false));
}

#[test]
fn users_are_bound_by_name_and_unbound_when_they_leave() {
    let mut r = Router::default();
    let mut tap = Tap::new(2);
    tap.user_state(Some(11), Some("[8] Somebody"), &mut r);
    assert_eq!(r.client_of(SessionId::new(2, 11)), Some(ClientId::new(2, 8)));
    tap.user_remove(11, &mut r);
    assert_eq!(r.client_of(SessionId::new(2, 11)), None);
}

#[test]
fn the_recording_is_the_best_rendering_of_the_keyed_system() {
    let lanes = vec![
        ((Mode::P25, 60u8, false), vec![1i16]),
        ((Mode::P25, 95u8, false), vec![2]),
        ((Mode::Fm, 100u8, true), vec![3]),
    ];
    assert_eq!(best_recording(&lanes, Mode::P25), Some(1));
    assert_eq!(best_recording(&Vec::new(), Mode::P25), None);
}

#[test]
fn a_collision_is_mixed_and_other_audio_passes() {
    let mut tap = Tap::new(1);
    let air = 0x8000_0000u32 | 1_230_250;
    let am = (Mode::Am, 100u8, false);
    let fm = (Mode::Fm, 100u8, true);
    let merged = tap.merge(7, air, true, vec![(am, vec![5; 160]), (fm, vec![6; 160])], 0);
    assert_eq!(merged.rest, vec![(fm, vec![6; 160])]);
    assert_eq!(merged.mixed.len(), 1);
    assert_eq!(merged.mixed[0].lane, am);

    let merged = tap.merge(7, air, false, vec![(am, vec![5; 160])], 0);
    assert_eq!(merged.rest, vec![(am, vec![5; 160])]);
}

//! The tap: a headless Mumble client attached to one server's voice server.
//!
//!   * Usernames are `[%d] %s` - the bracketed prefix is the player id, and it
//!     is the ONLY thing tying a voice session to a player.
//!   * A silent listener is reaped, so something is transmitted periodically.
//!   * Voice arrives tunnelled over the same connection as everything else.

use crate::ammix::{AmMix, Mix, MixState, AM_FRAME};
use crate::bytes::{append, byte_of, low_bytes, push_low};
use crate::clock::{elapsed, elapsed_between};
use crate::dsp::{LegKey, Mode, Sink};
use crate::router::{introduced, ClientId, Listener, Router, SessionId};
use crate::routing::State;
use crate::seqs::{lemma_filter_contains, lemma_push_contains};
use crate::table::Table;
use crate::text::{decimal_of, write_number, write_str};
use crate::varint::{decoded, encoded, write_varint, Reader};
use vstd::prelude::*;

verus! {

// -- messages ---------------------------------------------------------------

pub const VERSION: u16 = 0;

pub const UDP_TUNNEL: u16 = 1;

pub const AUTHENTICATE: u16 = 2;

pub const PING: u16 = 3;

pub const REJECT: u16 = 4;

pub const SERVER_SYNC: u16 = 5;

pub const CHANNEL_STATE: u16 = 7;

pub const USER_REMOVE: u16 = 8;

pub const USER_STATE: u16 = 9;

pub const PERMISSION_DENIED: u16 = 12;

pub const CODEC_VERSION: u16 = 21;

pub const CRYPT_SETUP: u16 = 15;

pub const SERVER_CONFIG: u16 = 24;

pub struct Settings {
    /// Which server this tap is attached to. Player ids are only unique within
    /// one server, so every identity derived here is scoped by it.
    pub server: u32,
    pub host: String,
    pub port: u16,
    pub username: String,
    pub password: String,
}

/// What a kind of message is to the tap.
#[derive(Debug, Clone, Copy, PartialEq, Eq, Structural)]
pub enum Handling {
    Voice,
    Synced,
    User,
    Left,
    Channel,
    Rejected,
    Denied,
    /// Known, and of no interest.
    Nothing,
    Unknown,
}

pub open spec fn handling_of(kind: u16) -> Handling {
    if kind == UDP_TUNNEL {
        Handling::Voice
    } else if kind == SERVER_SYNC {
        Handling::Synced
    } else if kind == USER_STATE {
        Handling::User
    } else if kind == USER_REMOVE {
        Handling::Left
    } else if kind == CHANNEL_STATE {
        Handling::Channel
    } else if kind == REJECT {
        Handling::Rejected
    } else if kind == PERMISSION_DENIED {
        Handling::Denied
    } else if kind == VERSION || kind == PING || kind == CRYPT_SETUP || kind == CODEC_VERSION || kind
        == SERVER_CONFIG {
        Handling::Nothing
    } else {
        Handling::Unknown
    }
}

pub fn handling(kind: u16) -> (h: Handling)
    ensures
        h == handling_of(kind),
{
    if kind == UDP_TUNNEL {
        Handling::Voice
    } else if kind == SERVER_SYNC {
        Handling::Synced
    } else if kind == USER_STATE {
        Handling::User
    } else if kind == USER_REMOVE {
        Handling::Left
    } else if kind == CHANNEL_STATE {
        Handling::Channel
    } else if kind == REJECT {
        Handling::Rejected
    } else if kind == PERMISSION_DENIED {
        Handling::Denied
    } else if kind == VERSION || kind == PING || kind == CRYPT_SETUP || kind == CODEC_VERSION || kind
        == SERVER_CONFIG {
        Handling::Nothing
    } else {
        Handling::Unknown
    }
}

// -- framing ----------------------------------------------------------------

/// A message on the wire: its kind, how long it is, and itself.
pub open spec fn framed(kind: u16, body: Seq<u8>) -> Seq<u8> {
    low_bytes(kind as u64, 2) + low_bytes((body.len() % 0x1_0000_0000) as u64, 4) + body
}

pub fn frame(kind: u16, body: &[u8]) -> (out: Vec<u8>)
    ensures
        out@ == framed(kind, body@),
{
    let mut out: Vec<u8> = Vec::new();
    push_low(&mut out, kind as u64, 2);
    push_low(&mut out, body.len() as u64 % 0x1_0000_0000, 4);
    append(&mut out, body);
    assert(out@ =~= framed(kind, body@));
    out
}

/// The protocol caps a message at 8 MiB, and nothing this tap parses comes near
/// it.
pub const MAX_FRAME: usize = 8_388_608;

/// Bytes in a message header.
pub const HEADER: usize = 6;

#[derive(Debug, Clone, Copy, PartialEq, Eq, Structural)]
pub enum HeaderError {
    /// The far end has gone.
    Closed,
    /// A length that cannot be.
    Oversized { kind: u16, len: usize },
}

impl HeaderError {
    pub open spec fn words(self) -> Seq<char> {
        match self {
            HeaderError::Closed => "connection closed by server"@,
            HeaderError::Oversized { kind, len } => "oversized mumble frame: kind "@ + decimal_of(
                kind as nat,
            ) + ", "@ + decimal_of(len as nat) + " bytes"@,
        }
    }

    pub fn text(&self) -> (s: String)
        ensures
            s@ == self.words(),
    {
        let mut s = String::new();
        match self {
            HeaderError::Closed => {
                write_str(&mut s, "connection closed by server");
            },
            HeaderError::Oversized { kind, len } => {
                write_str(&mut s, "oversized mumble frame: kind ");
                write_number(&mut s, *kind as u64);
                write_str(&mut s, ", ");
                write_number(&mut s, *len as u64);
                write_str(&mut s, " bytes");
            },
        }
        assert(s@ =~= self.words());
        s
    }
}

/// The kind a header names.
pub open spec fn kind_in(header: Seq<u8>) -> int {
    header[0] * 0x100 + header[1]
}

/// The length a header names.
pub open spec fn length_in(header: Seq<u8>) -> int {
    ((header[2] * 0x100 + header[3]) * 0x100 + header[4]) * 0x100 + header[5]
}

/// What a read does to a header that is held so far, and what comes of it: a
/// kind and a length once the header is whole, nothing while it is still short.
/// A read that yields nothing at all means the far end has gone, and an
/// impossible length is refused.
pub open spec fn header_step(held: Seq<u8>, bytes: Seq<u8>) -> (
    Seq<u8>,
    Result<Option<(u16, usize)>, HeaderError>,
) {
    let all = held + bytes;
    if bytes.len() == 0 {
        (held, Err(HeaderError::Closed))
    } else if all.len() < HEADER {
        (all, Ok(None))
    } else {
        let kind = kind_in(all) as u16;
        let len = length_in(all) as usize;
        (
            Seq::empty(),
            if length_in(all) > MAX_FRAME {
                Err(HeaderError::Oversized { kind, len })
            } else {
                Ok(Some((kind, len)))
            },
        )
    }
}

/// The inbound half of `frame`, read a piece at a time.
///
/// What was already read is kept here, so a read that is given up half way
/// loses nothing and the next one carries on where it left off.
pub struct Header {
    held: Vec<u8>,
}

impl View for Header {
    type V = Seq<u8>;

    closed spec fn view(&self) -> Seq<u8> {
        self.held@
    }
}

impl Default for Header {
    fn default() -> (h: Self)
        ensures
            h@ == Seq::<u8>::empty(),
    {
        Header { held: Vec::new() }
    }
}

impl Header {
    /// How many bytes are still missing.
    pub fn wants(&self) -> (n: usize)
        requires
            self@.len() <= HEADER,
        ensures
            n == HEADER - self@.len(),
    {
        HEADER - self.held.len()
    }

    /// Takes what a read yielded. An impossible length is refused BEFORE anybody
    /// allocates for it.
    pub fn read_from(&mut self, bytes: &[u8]) -> (r: Result<Option<(u16, usize)>, HeaderError>)
        requires
            old(self)@.len() + bytes@.len() <= HEADER,
        ensures
            (final(self)@, r) == header_step(old(self)@, bytes@),
    {
        if bytes.len() == 0 {
            return Err(HeaderError::Closed);
        }
        append(&mut self.held, bytes);
        if self.held.len() < HEADER {
            return Ok(None);
        }
        let kind: u16 = self.held[0] as u16 * 0x100 + self.held[1] as u16;
        let len: u32 = ((self.held[2] as u32 * 0x100 + self.held[3] as u32) * 0x100
            + self.held[4] as u32) * 0x100 + self.held[5] as u32;
        self.held = Vec::new();
        if len as usize > MAX_FRAME {
            return Err(HeaderError::Oversized { kind, len: len as usize });
        }
        Ok(Some((kind, len as usize)))
    }
}

/// A header split across reads is still one header: taken in two pieces it
/// comes to what it comes to taken whole.
pub proof fn a_split_header_is_one_header(held: Seq<u8>, first: Seq<u8>, second: Seq<u8>)
    requires
        first.len() > 0,
        second.len() > 0,
        held.len() + first.len() < HEADER,
    ensures
        header_step(header_step(held, first).0, second) == header_step(held, first + second),
        header_step(held, first).1 == Ok::<Option<(u16, usize)>, HeaderError>(None),
{
    assert((held + first) + second =~= held + (first + second));
}

/// What is framed reads back: the header of a message that fits says its kind
/// and its length.
pub proof fn framed_messages_read_back(kind: u16, body: Seq<u8>)
    requires
        body.len() <= MAX_FRAME,
    ensures
        kind_in(framed(kind, body).take(HEADER as int)) == kind,
        length_in(framed(kind, body).take(HEADER as int)) == body.len(),
        framed(kind, body).skip(HEADER as int) == body,
{
    reveal_with_fuel(byte_of, 5);
    let h = framed(kind, body).take(HEADER as int);
    let n = (body.len() % 0x1_0000_0000) as u64;
    assert(n == body.len());
    assert(h[0] == byte_of(kind as u64, 1) && h[1] == byte_of(kind as u64, 0));
    assert(h[2] == byte_of(n, 3) && h[3] == byte_of(n, 2) && h[4] == byte_of(n, 1) && h[5]
        == byte_of(n, 0));
    assert(framed(kind, body).skip(HEADER as int) =~= body);
}

// -- voice packets ----------------------------------------------------------

/// A zero-length payload with the terminator bit set: the end-of-transmission
/// marker a real client sends. Inaudible, and it counts as activity.
pub open spec fn keepalive(seq: u64) -> Seq<u8> {
    seq![0x80u8] + encoded(seq) + encoded(0x2000)
}

pub fn keepalive_frame(seq: u64) -> (p: Vec<u8>)
    ensures
        p@ == keepalive(seq),
{
    let mut p: Vec<u8> = Vec::new();
    p.push(0x80); // codec 4 (Opus), target 0
    write_varint(&mut p, seq);
    write_varint(&mut p, 0x2000);
    assert(p@ =~= keepalive(seq));
    p
}

#[derive(Debug, Clone, Copy, PartialEq, Eq, Structural)]
pub struct VoicePacket {
    pub codec: u8,
    pub target: u8,
    pub session: u32,
    pub payload_start: usize,
    pub payload_len: usize,
}

/// What a voice packet says. The header is a codec and a target; a session and
/// a sequence number follow, and for Opus a length.
pub open spec fn voice(data: Seq<u8>) -> Option<VoicePacket> {
    if data.len() == 0 {
        None
    } else {
        let codec = data[0] / 32;
        match decoded(data.skip(1)) {
            None => None,
            Some((session, a)) => match decoded(data.skip(1).skip(a as int)) {
                None => None,
                Some((_, b)) => {
                    let field = if codec == 4 {
                        decoded(data.skip(1).skip((a + b) as int))
                    } else {
                        Some((data.len() - 1 - a - b, 0nat))
                    };
                    match field {
                        None => None,
                        Some((len, c)) => {
                            let start = 1 + a + b + c;
                            let n = if codec == 4 {
                                len % 0x2000
                            } else {
                                len
                            };
                            if start + n > data.len() {
                                None
                            } else {
                                Some(
                                    VoicePacket {
                                        codec,
                                        target: (data[0] % 32) as u8,
                                        session: (session % 0x1_0000_0000) as u32,
                                        payload_start: start as usize,
                                        payload_len: n as usize,
                                    },
                                )
                            }
                        },
                    }
                },
            },
        }
    }
}

fn low_32(v: i64) -> (n: u32)
    ensures
        n == v as int % 0x1_0000_0000,
{
    if v >= 0 {
        (v % 0x1_0000_0000) as u32
    } else {
        // The remainder of a negative number, counted up from below.
        let down: i64 = -(v + 1);
        assert(v == -1 - down);
        let rest: i64 = down % 0x1_0000_0000;
        assert(v as int % 0x1_0000_0000 == 0xffff_ffff - rest);
        (0xffff_ffff - rest) as u32
    }
}

fn low_13(v: i64) -> (n: usize)
    ensures
        n == v as int % 0x2000,
{
    if v >= 0 {
        (v % 0x2000) as usize
    } else {
        let down: i64 = -(v + 1);
        let rest: i64 = down % 0x2000;
        assert(v as int % 0x2000 == 0x1fff - rest);
        (0x1fff - rest) as usize
    }
}

#[verifier::spinoff_prover]
#[verifier::rlimit(30)]
pub fn parse_voice(data: &[u8]) -> (r: Option<VoicePacket>)
    ensures
        r == voice(data@),
{
    if data.len() == 0 {
        return None;
    }
    let header: u8 = data[0];
    let body = vstd::slice::slice_subrange(data, 1, data.len());
    assert(body@ =~= data@.skip(1));
    let mut reader = Reader::new(body);
    assert(body@.skip(0) =~= body@);
    let session = match reader.varint() {
        Some(v) => v,
        None => {
            return None;
        },
    };
    let ghost a = reader.at();
    if reader.varint().is_none() {
        return None;
    }
    let ghost ab = reader.at();
    let codec: u8 = header / 32;
    let payload_len: usize = if codec == 4 {
        match reader.varint() {
            Some(v) => low_13(v),
            None => {
                return None;
            },
        }
    } else {
        reader.remaining()
    };
    let payload_start: usize = 1 + reader.pos();
    if payload_len > data.len() - payload_start {
        return None;
    }
    Some(
        VoicePacket {
            codec,
            target: header % 32,
            session: low_32(session),
            payload_start,
            payload_len,
        },
    )
}

// -- talkspurts -------------------------------------------------------------

/// A voice client may simply stop sending, so a gap is what ends a talkspurt.
/// Frames arrive every 40 ms, so this is three missed frames, in milliseconds.
pub const SILENCE_MS: u64 = 150;

/// One session's talking.
#[derive(Debug, Clone, Copy, PartialEq, Eq, Structural)]
pub struct Talk {
    pub packets: u64,
    pub bytes: u64,
    pub active: bool,
    pub started: u64,
    pub last: u64,
    pub routed_to: Option<u32>,
}

impl Talk {
    /// Nothing has come for too long.
    pub open spec fn is_over(self, now: u64) -> bool {
        self.active && elapsed(self.last, now) / 1_000_000 > SILENCE_MS
    }

    pub open spec fn swept(self, now: u64) -> Talk {
        if self.is_over(now) {
            Talk { active: false, ..self }
        } else {
            self
        }
    }

    /// A packet came. The first of a talkspurt starts the count anew, and
    /// where it goes then is where the talkspurt goes.
    pub open spec fn with_packet(self, bytes: nat, now: u64, dest: Option<u32>) -> Talk {
        let begun = if self.active {
            self
        } else {
            Talk { active: true, started: now, packets: 0, bytes: 0, routed_to: dest, ..self }
        };
        Talk {
            packets: ((begun.packets + 1) % 0x1_0000_0000_0000_0000) as u64,
            bytes: ((begun.bytes + bytes) % 0x1_0000_0000_0000_0000) as u64,
            last: now,
            ..begun
        }
    }
}

pub open spec fn fresh_talk(now: u64) -> Talk {
    Talk { packets: 0, bytes: 0, active: false, started: now, last: now, routed_to: None }
}

fn hear_packet(talk: Talk, bytes: usize, now: u64, dest: Option<u32>) -> (t: Talk)
    ensures
        t == talk.with_packet(bytes as nat, now, dest),
{
    let mut t = talk;
    if !t.active {
        t.active = true;
        t.started = now;
        t.packets = 0;
        t.bytes = 0;
        t.routed_to = dest;
    }
    t.packets = t.packets.wrapping_add(1);
    t.bytes = t.bytes.wrapping_add(bytes as u64);
    t.last = now;
    t
}

// -- the tap ----------------------------------------------------------------

#[verifier::ext_equal]
pub struct TapState {
    pub server: u32,
    /// The tap's own session, once it is told.
    pub me: Option<u32>,
    /// Channels announced, in order.
    pub known: Seq<u32>,
    /// Channels listened to.
    pub listening: Set<u32>,
    pub heard: Map<u32, Talk>,
    /// One mixer per AM frequency, alive only while people collide on it.
    pub mixes: Map<u32, MixState>,
}

pub open spec fn not_in(listening: Set<u32>) -> spec_fn(u32) -> bool {
    |c: u32| !listening.contains(c)
}

impl TapState {
    pub open spec fn started(server: u32) -> TapState {
        TapState {
            server,
            me: None,
            known: Seq::empty(),
            listening: Set::empty(),
            heard: Map::empty(),
            mixes: Map::empty(),
        }
    }

    /// The channels to start listening to once the tap knows who it is.
    pub open spec fn unheard(self) -> Seq<u32> {
        self.known.filter(not_in(self.listening))
    }

    pub open spec fn synced(self, session: Option<u32>) -> TapState {
        TapState {
            me: session,
            listening: if session is Some {
                self.listening.union(self.unheard().to_set())
            } else {
                self.listening
            },
            ..self
        }
    }

    /// Whether a channel is new, and whether it is to be listened to now.
    pub open spec fn news_of(self, id: u32) -> (bool, bool) {
        (!self.known.contains(id), self.me is Some && !self.listening.contains(id))
    }

    pub open spec fn with_channel(self, id: u32) -> TapState {
        TapState {
            known: if self.known.contains(id) {
                self.known
            } else {
                self.known.push(id)
            },
            listening: if self.me is Some {
                self.listening.insert(id)
            } else {
                self.listening
            },
            ..self
        }
    }

    pub open spec fn swept(self, now: u64) -> TapState {
        TapState { heard: self.heard.map_values(|t: Talk| t.swept(now)), ..self }
    }

    pub open spec fn talk(self, session: u32, now: u64) -> Talk {
        if self.heard.contains_key(session) {
            self.heard[session]
        } else {
            fresh_talk(now)
        }
    }

    pub open spec fn with_voice(self, p: VoicePacket, dest: Option<u32>, now: u64) -> TapState {
        TapState {
            heard: self.heard.insert(
                p.session,
                self.talk(p.session, now).with_packet(p.payload_len as nat, now, dest),
            ),
            ..self
        }
    }

    pub open spec fn without(self, session: u32) -> TapState {
        TapState { heard: self.heard.remove(session), ..self }
    }

    pub open spec fn mix(self, tg: u32) -> MixState {
        if self.mixes.contains_key(tg) {
            self.mixes[tg]
        } else {
            MixState::empty()
        }
    }
}

pub struct Tap {
    server: u32,
    me: Option<u32>,
    known: Vec<u32>,
    listening: Table<u32, bool>,
    heard: Table<u32, Talk>,
    mixes: Table<u32, AmMix>,
}

impl View for Tap {
    type V = TapState;

    closed spec fn view(&self) -> TapState {
        TapState {
            server: self.server,
            me: self.me,
            known: self.known@,
            listening: self.listening@.dom(),
            heard: self.heard@,
            mixes: self.mixes@.map_values(|m: AmMix| m@),
        }
    }
}

/// A packet somebody spoke.
pub struct Heard {
    pub packet: VoicePacket,
    /// It starts a talkspurt.
    pub starts: bool,
    /// Where it goes: a route, the speaker's own hop, and who receives it.
    pub dest: Option<(u32, Sink, Vec<Listener>)>,
    /// There is something to render, and somebody to render it for.
    pub render: bool,
}

/// Where a session's voice goes.
pub open spec fn is_destination(
    r: State,
    session: SessionId,
    dest: Option<(u32, Sink, Vec<Listener>)>,
) -> bool {
    match dest {
        Some((tg, sink, listeners)) => {
            let speaker = r.clients[session];
            &&& r.clients.contains_key(session)
            &&& r.on_air(speaker, tg)
            &&& sink == r.source_sink(tg, speaker)
            &&& r.is_audience(tg, Some(speaker), listeners@)
        },
        None => !r.clients.contains_key(session) || r.silent(r.clients[session]),
    }
}

pub open spec fn route_of(dest: Option<(u32, Sink, Vec<Listener>)>) -> Option<u32> {
    match dest {
        Some((tg, _, _)) => Some(tg),
        None => None,
    }
}

/// A session whose talkspurt is over.
#[derive(Debug, Clone, Copy, PartialEq, Eq, Structural)]
pub struct Ended {
    pub session: u32,
    pub talk: Talk,
}

/// What came of a voice packet.
pub open spec fn is_heard(
    before: TapState,
    body: Seq<u8>,
    r: State,
    now: u64,
    heard: Option<Heard>,
    after: TapState,
) -> bool {
    match (voice(body), heard) {
        (Some(p), Some(h)) => {
            &&& h.packet == p
            &&& before.me != Some(p.session)
            &&& is_destination(
                r,
                SessionId { server: before.server, session: p.session },
                h.dest,
            )
            &&& h.starts == !before.talk(p.session, now).active
            &&& h.render == (p.codec == 4 && p.payload_len > 0 && has_listeners(h.dest))
            &&& after == before.with_voice(p, route_of(h.dest), now)
        },
        (Some(p), None) => before.me == Some(p.session) && after == before,
        (None, None) => after == before,
        (None, Some(_)) => false,
    }
}

/// Somebody hears what goes there.
pub open spec fn has_listeners(dest: Option<(u32, Sink, Vec<Listener>)>) -> bool {
    dest matches Some((_, _, listeners)) && listeners@.len() > 0
}

/// The talkspurts that are over, each once.
pub open spec fn are_over(before: TapState, now: u64, ended: Seq<Ended>) -> bool {
    &&& forall|i: int, j: int|
        0 <= i < j < ended.len() ==> (#[trigger] ended[i]).session != (#[trigger] ended[j]).session
    &&& forall|e: Ended| #[trigger]
        ended.contains(e) <==> before.heard.contains_key(e.session) && before.heard[e.session]
            == e.talk && e.talk.is_over(now)
}

/// The renderings of a packet with a collision taken into account. What was
/// mixed still lacks the beat of its carriers.
pub struct Merged {
    pub mixed: Vec<Mix>,
    pub rest: Vec<(LegKey, Vec<i16>)>,
}

/// A packet's renderings, with a collision taken into account.
pub open spec fn is_merged(
    before: TapState,
    session: u32,
    tg: u32,
    collision: bool,
    lanes: Seq<(LegKey, Vec<i16>)>,
    now: u64,
    m: Merged,
    after: TapState,
) -> bool {
    if collision {
        let mix = with_lanes(before.mix(tg), rendered(lanes), session, now).present(now);
        &&& mix.are_mixes(m.mixed@)
        &&& rendered(m.rest@) == rendered(lanes).filter(not_am())
        &&& after == (TapState { mixes: before.mixes.insert(tg, mix.taken()), ..before })
    } else {
        &&& m.mixed@.len() == 0
        &&& exists|queued: Seq<(LegKey, Vec<i16>)>| #[trigger]
            before.mix(tg).are_rests(queued) && m.rest@ == queued + lanes
        &&& after == (TapState { mixes: before.mixes.remove(tg), ..before })
    }
}

pub open spec fn rendered(lanes: Seq<(LegKey, Vec<i16>)>) -> Seq<(LegKey, Seq<i16>)> {
    lanes.map_values(|l: (LegKey, Vec<i16>)| (l.0, l.1@))
}

/// A mixer with every AM rendering of a packet added to it.
pub open spec fn with_lanes(
    mix: MixState,
    lanes: Seq<(LegKey, Seq<i16>)>,
    session: u32,
    now: u64,
) -> MixState
    decreases lanes.len(),
{
    if lanes.len() == 0 {
        mix
    } else {
        let earlier = with_lanes(mix, lanes.drop_last(), session, now);
        let (lane, pcm) = lanes.last();
        if lane.0 == Mode::Am {
            earlier.added(lane, session, pcm, now)
        } else {
            earlier
        }
    }
}

pub open spec fn not_am() -> spec_fn((LegKey, Seq<i16>)) -> bool {
    |l: (LegKey, Seq<i16>)| l.0.0 != Mode::Am
}

impl Tap {
    pub fn new(server: u32) -> (t: Self)
        ensures
            t@ == TapState::started(server),
    {
        let t = Tap {
            server,
            me: None,
            known: Vec::new(),
            listening: Table::new(),
            heard: Table::new(),
            mixes: Table::new(),
        };
        assert(t@ =~= TapState::started(server));
        t
    }

    /// The sweep for talkspurts that are over.
    pub fn sweep(&mut self, now: u64) -> (ended: Vec<Ended>)
        ensures
            final(self)@ == old(self)@.swept(now),
            are_over(old(self)@, now, ended@),
            forall|i: int, j: int|
                0 <= i < j < ended@.len() ==> (#[trigger] ended@[i]).session != (
                #[trigger] ended@[j]).session,
            forall|e: Ended| #[trigger]
                ended@.contains(e) <==> old(self)@.heard.contains_key(e.session) && old(
                    self,
                )@.heard[e.session] == e.talk && e.talk.is_over(now),
    {
        let ghost before = self@;
        let sessions = self.heard.keys();
        let mut ended: Vec<Ended> = Vec::new();
        let mut i: usize = 0;
        while i < sessions.len()
            invariant
                i <= sessions.len(),
                self@ == before,
                sessions@.no_duplicates(),
                forall|s: u32| #[trigger] sessions@.contains(s) <==> before.heard.contains_key(s),
                forall|a: int, b: int|
                    0 <= a < b < ended@.len() ==> (#[trigger] ended@[a]).session != (
                    #[trigger] ended@[b]).session,
                forall|e: Ended| #[trigger]
                    ended@.contains(e) <==> sessions@.take(i as int).contains(e.session)
                        && before.heard[e.session] == e.talk && e.talk.is_over(now),
            decreases sessions.len() - i,
        {
            let s: u32 = sessions[i];
            let ghost had = ended@;
            proof {
                let upto = sessions@.take(i as int);
                assert(sessions@.take(i as int + 1) =~= upto.push(s));
                lemma_push_contains(upto, s);
                assert(sessions@.contains(s));
                assert(!upto.contains(s)) by {
                    if upto.contains(s) {
                        let j = choose|j: int| 0 <= j < upto.len() && upto[j] == s;
                        assert(sessions@[j] == sessions@[i as int]);
                    }
                }
            }
            if let Some(talk) = self.heard.get(&s) {
                let over = talk.active && elapsed_between(talk.last, now) / 1_000_000 > SILENCE_MS;
                if over {
                    let e = Ended { session: s, talk: *talk };
                    proof {
                        lemma_push_contains(had, e);
                        assert forall|a: int| 0 <= a < had.len() implies (#[trigger] had[a]).session
                            != s by {
                            assert(had.contains(had[a]));
                        }
                    }
                    ended.push(e);
                }
            }
            i += 1;
        }
        assert(sessions@.take(i as int) =~= sessions@);
        let quiet = |t: Talk| -> (o: Talk)
            ensures
                o == t.swept(now),
        {
            let mut o = t;
            if t.active && elapsed_between(t.last, now) / 1_000_000 > SILENCE_MS {
                o.active = false;
            }
            o
        };
        self.heard.change_all(quiet);
        assert(self@.heard =~= before.swept(now).heard);
        ended
    }

    /// A voice packet came. The tap does not hear itself, and where the voice
    /// goes is asked of the router for every packet.
    pub fn hear(&mut self, body: &[u8], r: &Router, now: u64) -> (heard: Option<Heard>)
        ensures
            is_heard(old(self)@, body@, r@, now, heard, final(self)@),
            match heard {
                Some(h) => {
                    &&& voice(body@) == Some(h.packet)
                    &&& old(self)@.me != Some(h.packet.session)
                    &&& is_destination(
                        r@,
                        SessionId { server: old(self)@.server, session: h.packet.session },
                        h.dest,
                    )
                    &&& h.starts == !old(self)@.talk(h.packet.session, now).active
                    &&& h.render == (h.packet.codec == 4 && h.packet.payload_len > 0 && (
                    h.dest matches Some((_, _, listeners)) && listeners@.len() > 0))
                    &&& final(self)@ == old(self)@.with_voice(h.packet, route_of(h.dest), now)
                },
                None => {
                    &&& final(self)@ == old(self)@
                    &&& voice(body@) matches Some(p) ==> old(self)@.me == Some(p.session)
                },
            },
    {
        let packet = match parse_voice(body) {
            Some(packet) => packet,
            None => {
                return None;
            },
        };
        let own = match self.me {
            Some(me) => me == packet.session,
            None => false,
        };
        if own {
            return None;
        }
        let dest = r.destination(SessionId::new(self.server, packet.session));
        let (route, someone) = match &dest {
            Some((tg, _sink, listeners)) => (Some(*tg), listeners.len() > 0),
            None => (None, false),
        };
        let talk = match self.heard.get(&packet.session) {
            Some(talk) => *talk,
            None => Talk {
                packets: 0,
                bytes: 0,
                active: false,
                started: now,
                last: now,
                routed_to: None,
            },
        };
        let starts = !talk.active;
        self.heard.insert(packet.session, hear_packet(talk, packet.payload_len, now, route));
        let render = packet.codec == 4 && packet.payload_len > 0 && someone;
        Some(Heard { packet, starts, dest, render })
    }

    /// Takes a collision into account. AM does not capture, so what a listener
    /// hears while more than one radio is up is the sum; only the AM renderings,
    /// because the same transmission patched onto a talkgroup is not colliding
    /// there. When a collision has just ended, what is still queued belongs to
    /// whoever is left.
    pub fn merge(
        &mut self,
        session: u32,
        tg: u32,
        collision: bool,
        lanes: Vec<(LegKey, Vec<i16>)>,
        now: u64,
    ) -> (m: Merged)
        ensures
            is_merged(old(self)@, session, tg, collision, lanes@, now, m, final(self)@),
            collision ==> {
                let mix = with_lanes(old(self)@.mix(tg), rendered(lanes@), session, now).present(
                    now,
                );
                &&& mix.are_mixes(m.mixed@)
                &&& rendered(m.rest@) == rendered(lanes@).filter(not_am())
                &&& final(self)@ == (TapState {
                    mixes: old(self)@.mixes.insert(tg, mix.taken()),
                    ..old(self)@
                })
            },
            !collision ==> {
                &&& m.mixed@.len() == 0
                &&& exists|queued: Seq<(LegKey, Vec<i16>)>| #[trigger]
                    old(self)@.mix(tg).are_rests(queued) && m.rest@ == queued + lanes@
                &&& final(self)@ == (TapState {
                    mixes: old(self)@.mixes.remove(tg),
                    ..old(self)@
                })
            },
    {
        let ghost all = rendered(lanes@);
        let ghost start = self@.mix(tg);
        let mut mix = match self.mixes.remove(&tg) {
            Some(mix) => mix,
            None => AmMix::default(),
        };
        assert(mix@ == start);
        if !collision {
            let mut rest = mix.flush();
            let ghost queued = rest@;
            append_lanes(&mut rest, lanes);
            assert(self@.mixes =~= old(self)@.mixes.remove(tg));
            assert(start.are_rests(queued) && rest@ == queued + lanes@);
            return Merged { mixed: Vec::new(), rest };
        }
        let mut rest: Vec<(LegKey, Vec<i16>)> = Vec::new();
        let mut i: usize = 0;
        assert(rendered(rest@) =~= Seq::empty());
        proof {
            reveal(Seq::filter);
        }
        while i < lanes.len()
            invariant
                i <= lanes.len(),
                all == rendered(lanes@),
                mix@ == with_lanes(start, all.take(i as int), session, now),
                rendered(rest@) == all.take(i as int).filter(not_am()),
            decreases lanes.len() - i,
        {
            proof {
                reveal(Seq::filter);
                assert(all.take(i as int + 1).drop_last() =~= all.take(i as int));
                assert(all[i as int] == (lanes@[i as int].0, lanes@[i as int].1@));
            }
            let lane = lanes[i].0;
            if lane.0 == Mode::Am {
                mix.add(lane, session, &lanes[i].1, now);
            } else {
                let ghost had = rest@;
                let mut pcm: Vec<i16> = Vec::new();
                crate::dsp::extend(&mut pcm, &lanes[i].1);
                assert(pcm@ =~= lanes@[i as int].1@);
                rest.push((lane, pcm));
                assert(rendered(rest@) =~= rendered(had).push(all[i as int]));
            }
            i += 1;
        }
        assert(all.take(i as int) =~= all);
        let mixed = mix.drain(now);
        self.mixes.insert(tg, mix);
        assert(self@.mixes =~= old(self)@.mixes.insert(tg, mix@));
        Merged { mixed, rest }
    }

    /// The tap was told its own session. Channels are usually announced before
    /// that, so it catches up on all of them: these are to be listened to now.
    pub fn server_sync(&mut self, session: Option<u32>) -> (listen: Vec<u32>)
        ensures
            final(self)@ == old(self)@.synced(session),
            listen@ == (if session is Some {
                old(self)@.unheard()
            } else {
                Seq::empty()
            }),
    {
        let ghost before = self@;
        self.me = session;
        let mut listen: Vec<u32> = Vec::new();
        if session.is_none() {
            return listen;
        }
        proof {
            reveal(Seq::filter);
        }
        let mut i: usize = 0;
        while i < self.known.len()
            invariant
                i <= self.known.len(),
                self@ == (TapState { me: session, ..before }),
                listen@ == before.known.take(i as int).filter(not_in(before.listening)),
            decreases self.known.len() - i,
        {
            proof {
                reveal(Seq::filter);
                assert(before.known.take(i as int + 1).drop_last() =~= before.known.take(i as int));
            }
            if !self.listening.contains_key(&self.known[i]) {
                listen.push(self.known[i]);
            }
            i += 1;
        }
        assert(before.known.take(i as int) =~= before.known);
        let mut k: usize = 0;
        assert(listen@.take(0).to_set() =~= Set::empty());
        assert(before.listening.union(Set::empty()) =~= before.listening);
        while k < listen.len()
            invariant
                k <= listen.len(),
                self@ == (TapState {
                    me: session,
                    listening: before.listening.union(listen@.take(k as int).to_set()),
                    ..before
                }),
            decreases listen.len() - k,
        {
            proof {
                let upto = listen@.take(k as int);
                assert(listen@.take(k as int + 1) =~= upto.push(listen@[k as int]));
                lemma_push_contains(upto, listen@[k as int]);
                assert(before.listening.union(listen@.take(k as int + 1).to_set())
                    =~= before.listening.union(upto.to_set()).insert(listen@[k as int]));
            }
            let ghost so_far = self.listening@;
            self.listening.insert(listen[k], true);
            assert(self.listening@.dom() =~= so_far.dom().insert(listen@[k as int]));
            k += 1;
        }
        assert(listen@.take(k as int) =~= listen@);
        listen
    }

    /// A channel was announced. It is listened to rather than joined: a client
    /// may only be IN one channel, but it may listen to many. Says whether the
    /// channel is new, and whether it is to be listened to now.
    pub fn channel_state(&mut self, id: u32) -> (r: (bool, bool))
        ensures
            final(self)@ == old(self)@.with_channel(id),
            r == old(self)@.news_of(id),
            r.0 == !old(self)@.known.contains(id),
            r.1 == (old(self)@.me is Some && !old(self)@.listening.contains(id)),
    {
        let ghost before = self@;
        let mut new = true;
        let mut i: usize = 0;
        while i < self.known.len()
            invariant
                i <= self.known.len(),
                self@ == before,
                new == !before.known.take(i as int).contains(id),
            decreases self.known.len() - i,
        {
            proof {
                let upto = before.known.take(i as int);
                assert(before.known.take(i as int + 1) =~= upto.push(before.known[i as int]));
                lemma_push_contains(upto, before.known[i as int]);
            }
            if self.known[i] == id {
                new = false;
            }
            i += 1;
        }
        assert(before.known.take(i as int) =~= before.known);
        if new {
            self.known.push(id);
        }
        let mut listen = false;
        if self.me.is_some() {
            listen = !self.listening.contains_key(&id);
            let ghost so_far = self.listening@;
            self.listening.insert(id, true);
            assert(self.listening@.dom() =~= so_far.dom().insert(id));
        }
        assert(self@ =~= before.with_channel(id));
        (new, listen)
    }

    /// A session announced itself, with a name if it has one.
    pub fn user_state(&self, session: Option<u32>, name: Option<&str>, r: &mut Router) -> (bound:
        Option<ClientId>)
        ensures
            match (session, name) {
                (Some(s), Some(n)) => (final(r)@, bound) == introduced(
                    old(r)@,
                    SessionId { server: self@.server, session: s },
                    n@,
                ),
                _ => (final(r)@, bound) == (old(r)@, None::<ClientId>),
            },
            match (session, name) {
                (Some(s), Some(n)) => {
                    let sid = SessionId { server: self@.server, session: s };
                    match crate::router::player_in(n@) {
                        Some(player) => {
                            &&& bound == Some(
                                ClientId { server: self@.server, player: player as u32 },
                            )
                            &&& final(r)@ == old(r)@.bound(sid, player as u32)
                        },
                        None => bound is None && final(r)@ == old(r)@,
                    }
                },
                _ => bound is None && final(r)@ == old(r)@,
            },
    {
        match (session, name) {
            (Some(s), Some(n)) => r.bind(SessionId::new(self.server, s), n),
            _ => None,
        }
    }

    /// A session left: its player is taken off everything.
    pub fn user_remove(&mut self, session: u32, r: &mut Router)
        ensures
            final(self)@ == old(self)@.without(session),
            final(r)@ == old(r)@.unbound(
                SessionId { server: old(self)@.server, session },
            ),
    {
        r.unbind(SessionId::new(self.server, session));
        self.heard.remove(&session);
    }
}

fn append_lanes(out: &mut Vec<(LegKey, Vec<i16>)>, more: Vec<(LegKey, Vec<i16>)>)
    ensures
        final(out)@ == old(out)@ + more@,
{
    let mut more = more;
    out.append(&mut more);
}

// -- what is recorded -------------------------------------------------------

/// What the SOURCE side heard: not a patched rendering.
pub open spec fn is_source_side(lane: LegKey, mode: Mode) -> bool {
    !lane.2 && lane.0 == mode
}

/// The cleanest of the source side's renderings; of equals the last.
pub open spec fn is_best(lanes: Seq<(LegKey, Vec<i16>)>, mode: Mode, i: int) -> bool {
    &&& 0 <= i < lanes.len()
    &&& is_source_side(lanes[i].0, mode)
    &&& forall|j: int|
        0 <= j < lanes.len() && is_source_side((#[trigger] lanes[j]).0, mode) ==> {
            &&& lanes[j].0.1 <= lanes[i].0.1
            &&& j > i ==> lanes[j].0.1 < lanes[i].0.1
        }
}

/// Which rendering to record: the call happened on one channel, and a version
/// that went through two extra hops would be the worst copy of it.
pub fn best_recording(lanes: &Vec<(LegKey, Vec<i16>)>, mode: Mode) -> (r: Option<usize>)
    ensures
        match r {
            Some(i) => is_best(lanes@, mode, i as int),
            None => forall|j: int|
                0 <= j < lanes@.len() ==> !is_source_side((#[trigger] lanes@[j]).0, mode),
        },
{
    let mut best: Option<usize> = None;
    let mut i: usize = 0;
    while i < lanes.len()
        invariant
            i <= lanes.len(),
            match best {
                Some(b) => {
                    &&& 0 <= b < i
                    &&& is_source_side(lanes@[b as int].0, mode)
                    &&& forall|j: int|
                        0 <= j < i && is_source_side((#[trigger] lanes@[j]).0, mode) ==> {
                            &&& lanes@[j].0.1 <= lanes@[b as int].0.1
                            &&& j > b ==> lanes@[j].0.1 < lanes@[b as int].0.1
                        }
                },
                None => forall|j: int|
                    0 <= j < i ==> !is_source_side((#[trigger] lanes@[j]).0, mode),
            },
        decreases lanes.len() - i,
    {
        let lane = lanes[i].0;
        if !lane.2 && lane.0 == mode {
            let better = match best {
                Some(b) => lanes[b].0.1 <= lane.1,
                None => true,
            };
            if better {
                best = Some(i);
            }
        }
        i += 1;
    }
    best
}

// -- laws -------------------------------------------------------------------

/// Every channel announced is listened to once the tap knows who it is,
/// whichever came first.
pub proof fn every_channel_is_listened_to(s: TapState, session: u32, id: u32, c: u32)
    ensures
        s.known.contains(c) ==> s.synced(Some(session)).listening.contains(c),
        s.me is Some ==> s.with_channel(id).listening.contains(id),
        s.with_channel(id).known.contains(id),
        s.with_channel(id).with_channel(id) == s.with_channel(id),
{
    lemma_filter_contains(s.known, not_in(s.listening));
    lemma_push_contains(s.known, id);
    if s.known.contains(c) && !s.listening.contains(c) {
        assert(s.unheard().contains(c));
        assert(s.unheard().to_set().contains(c));
    }
    let once = s.with_channel(id);
    assert(once.with_channel(id) =~= once) by {
        if s.me is Some {
            assert(once.listening.insert(id) =~= once.listening);
        }
    }
}

/// A talkspurt ends by silence and by nothing else, and ends once.
pub proof fn a_talkspurt_ends_once(t: Talk, now: u64, later: u64)
    ensures
        t.is_over(now) ==> !t.swept(now).active && !t.swept(now).is_over(later),
        !t.is_over(now) ==> t.swept(now) == t,
{
}

/// The keepalive is an Opus packet to everybody, numbered as it was asked.
pub proof fn a_keepalive_is_numbered(seq: u64)
    ensures
        keepalive(seq)[0] / 32 == 4,
        keepalive(seq)[0] % 32 == 0,
        decoded(keepalive(seq).skip(1)) == Some(
            (crate::varint::signed(seq as nat), encoded(seq).len()),
        ),
{
    crate::varint::written_numbers_read_back(seq, encoded(0x2000));
    assert(keepalive(seq).skip(1) =~= encoded(seq) + encoded(0x2000));
}

/// An Opus packet as it is written: a header byte, a session, a number, a length
/// with or without the mark of a transmission's end, and the payload.
pub open spec fn opus_packet(
    target: u8,
    session: u32,
    number: u64,
    last: bool,
    payload: Seq<u8>,
) -> Seq<u8> {
    seq![(0x80 + target) as u8] + encoded(session as u64) + encoded(number) + encoded(
        (payload.len() + if last {
            0x2000int
        } else {
            0
        }) as u64,
    ) + payload
}

proof fn lemma_pieces(
    header: u8,
    a: Seq<u8>,
    b: Seq<u8>,
    c: Seq<u8>,
    payload: Seq<u8>,
    rest: Seq<u8>,
)
    ensures
        ({
            let data = seq![header] + a + b + c + payload + rest;
            let from = 1 + a.len() + b.len() + c.len();
            &&& data[0] == header
            &&& data.len() == from + payload.len() + rest.len()
            &&& data.skip(1) == a + (b + c + payload + rest)
            &&& data.skip(1).skip(a.len() as int) == b + (c + payload + rest)
            &&& data.skip(1).skip((a.len() + b.len()) as int) == c + (payload + rest)
            &&& data.subrange(from as int, (from + payload.len()) as int) == payload
            &&& data.skip((from + payload.len()) as int) == rest
        }),
{
    let data = seq![header] + a + b + c + payload + rest;
    let from = 1 + a.len() + b.len() + c.len();
    assert(data.skip(1) =~= a + (b + c + payload + rest));
    assert(data.skip(1).skip(a.len() as int) =~= b + (c + payload + rest));
    assert(data.skip(1).skip((a.len() + b.len()) as int) =~= c + (payload + rest));
    assert(data.subrange(from as int, (from + payload.len()) as int) =~= payload);
    assert(data.skip((from + payload.len()) as int) =~= rest);
}

proof fn lemma_voice(data: Seq<u8>, s: int, a: nat, q: int, b: nat, len: int, c: nat)
    requires
        data.len() > 0,
        data[0] / 32 == 4,
        decoded(data.skip(1)) == Some((s, a)),
        decoded(data.skip(1).skip(a as int)) == Some((q, b)),
        decoded(data.skip(1).skip((a + b) as int)) == Some((len, c)),
    ensures
        voice(data) == if 1 + a + b + c + len % 0x2000 > data.len() {
            None
        } else {
            Some(
                VoicePacket {
                    codec: 4,
                    target: (data[0] % 32) as u8,
                    session: (s % 0x1_0000_0000) as u32,
                    payload_start: (1 + a + b + c) as usize,
                    payload_len: (len % 0x2000) as usize,
                },
            )
        },
{
}

/// A voice packet reads back as it was written, whatever follows it: the codec,
/// the target and the session, and a payload that is exactly the payload.
pub proof fn a_voice_packet_reads_back(
    target: u8,
    session: u32,
    number: u64,
    last: bool,
    payload: Seq<u8>,
    rest: Seq<u8>,
)
    requires
        target < 32,
        payload.len() < 0x2000,
        payload.len() + rest.len() + 64 <= usize::MAX,
    ensures
        ({
            let data = opus_packet(target, session, number, last, payload) + rest;
            match voice(data) {
                Some(p) => {
                    let from = p.payload_start as int;
                    &&& p.codec == 4 && p.target == target && p.session == session
                    &&& p.payload_len == payload.len()
                    &&& from + payload.len() <= data.len()
                    &&& data.subrange(from, from + payload.len()) == payload
                    &&& data.skip(from + payload.len()) == rest
                },
                None => false,
            }
        }),
{
    let n = (payload.len() + if last {
        0x2000int
    } else {
        0
    }) as u64;
    lemma_opus(target, session, number, last, payload, payload, rest);
    crate::varint::a_number_is_written_in_the_fewest_bytes(session as u64);
    crate::varint::a_number_is_written_in_the_fewest_bytes(number);
    crate::varint::a_number_is_written_in_the_fewest_bytes(n);
    let header = (0x80 + target) as u8;
    let (a, b, c) = (encoded(session as u64), encoded(number), encoded(n));
    lemma_pieces(header, a, b, c, payload, rest);
}

/// What is read of a packet that says its payload is one thing and holds another.
proof fn lemma_opus(
    target: u8,
    session: u32,
    number: u64,
    last: bool,
    payload: Seq<u8>,
    there: Seq<u8>,
    rest: Seq<u8>,
)
    requires
        target < 32,
        payload.len() < 0x2000,
    ensures
        ({
            let n = (payload.len() + if last {
                0x2000int
            } else {
                0
            }) as u64;
            let (a, b, c) = (encoded(session as u64), encoded(number), encoded(n));
            let data = seq![(0x80 + target) as u8] + a + b + c + there + rest;
            let from = 1 + a.len() + b.len() + c.len();
            voice(data) == if from + payload.len() > data.len() {
                None
            } else {
                Some(
                    VoicePacket {
                        codec: 4,
                        target,
                        session,
                        payload_start: from as usize,
                        payload_len: payload.len() as usize,
                    },
                )
            }
        }),
{
    let n = (payload.len() + if last {
        0x2000int
    } else {
        0
    }) as u64;
    let header = (0x80 + target) as u8;
    crate::varint::written_numbers_read_back(
        session as u64,
        encoded(number) + encoded(n) + there + rest,
    );
    crate::varint::written_numbers_read_back(number, encoded(n) + there + rest);
    crate::varint::written_numbers_read_back(n, there + rest);
    lemma_opus_of(
        header,
        session,
        n,
        encoded(session as u64),
        encoded(number),
        encoded(n),
        there,
        rest,
        crate::varint::signed(number as nat),
    );
    assert(n % 0x2000 == payload.len());
}

#[verifier::spinoff_prover]
#[verifier::rlimit(100)]
proof fn lemma_opus_of(
    header: u8,
    session: u32,
    n: u64,
    a: Seq<u8>,
    b: Seq<u8>,
    c: Seq<u8>,
    there: Seq<u8>,
    rest: Seq<u8>,
    q: int,
)
    requires
        header / 32 == 4,
        n < 0x4000,
        decoded(a + (b + c + there + rest)) == Some((session as int, a.len())),
        decoded(b + (c + there + rest)) == Some((q, b.len())),
        decoded(c + (there + rest)) == Some((n as int, c.len())),
    ensures
        ({
            let data = seq![header] + a + b + c + there + rest;
            let from = 1 + a.len() + b.len() + c.len();
            voice(data) == if from + n % 0x2000 > data.len() {
                None
            } else {
                Some(
                    VoicePacket {
                        codec: 4,
                        target: (header % 32) as u8,
                        session,
                        payload_start: from as usize,
                        payload_len: (n % 0x2000) as usize,
                    },
                )
            }
        }),
{
    let data = seq![header] + a + b + c + there + rest;
    lemma_pieces(header, a, b, c, there, rest);
    lemma_voice(data, session as int, a.len(), q, b.len(), n as int, c.len());
}

/// A packet that is cut short of its payload is none.
pub proof fn a_voice_packet_cut_short_is_none(
    target: u8,
    session: u32,
    number: u64,
    last: bool,
    payload: Seq<u8>,
    short: nat,
)
    requires
        target < 32,
        payload.len() < 0x2000,
        short < payload.len(),
    ensures
        ({
            let whole = opus_packet(target, session, number, last, payload);
            voice(whole.take(whole.len() - payload.len() + short)) is None
        }),
{
    let n = (payload.len() + if last {
        0x2000int
    } else {
        0
    }) as u64;
    let whole = opus_packet(target, session, number, last, payload);
    let there = payload.take(short as int);
    lemma_opus(target, session, number, last, payload, there, Seq::empty());
    lemma_cut(
        (0x80 + target) as u8,
        encoded(session as u64),
        encoded(number),
        encoded(n),
        payload,
        short,
    );
}

proof fn lemma_cut(
    header: u8,
    a: Seq<u8>,
    b: Seq<u8>,
    c: Seq<u8>,
    payload: Seq<u8>,
    short: nat,
)
    requires
        short < payload.len(),
    ensures
        ({
            let whole = seq![header] + a + b + c + payload;
            let left = seq![header] + a + b + c + payload.take(short as int) + Seq::<u8>::empty();
            &&& whole.take(whole.len() - payload.len() + short) == left
            &&& left.len() < 1 + a.len() + b.len() + c.len() + payload.len()
        }),
{
    let whole = seq![header] + a + b + c + payload;
    let left = seq![header] + a + b + c + payload.take(short as int) + Seq::<u8>::empty();
    assert(whole.take(whole.len() - payload.len() + short) =~= left);
}

/// A packet of any other codec has no length: everything after its number is
/// its payload.
pub proof fn other_codecs_run_to_the_end(header: u8, session: u32, number: u64, payload: Seq<u8>)
    requires
        header / 32 != 4,
        payload.len() + 64 <= usize::MAX,
    ensures
        ({
            let data = seq![header] + encoded(session as u64) + encoded(number) + payload;
            match voice(data) {
                Some(p) => {
                    &&& p.codec == header / 32 && p.target == header % 32 && p.session == session
                    &&& p.payload_len == payload.len()
                    &&& data.skip(p.payload_start as int) == payload
                },
                None => false,
            }
        }),
{
    let (a, b) = (encoded(session as u64), encoded(number));
    crate::varint::written_numbers_read_back(session as u64, b + payload);
    crate::varint::written_numbers_read_back(number, payload);
    crate::varint::a_number_is_written_in_the_fewest_bytes(session as u64);
    crate::varint::a_number_is_written_in_the_fewest_bytes(number);
    lemma_no_length(header, session, crate::varint::signed(number as nat), a, b, payload);
}

#[verifier::spinoff_prover]
proof fn lemma_no_length(
    header: u8,
    session: u32,
    q: int,
    a: Seq<u8>,
    b: Seq<u8>,
    payload: Seq<u8>,
)
    requires
        header / 32 != 4,
        a.len() <= 9,
        b.len() <= 9,
        payload.len() + 64 <= usize::MAX,
        decoded(a + (b + payload)) == Some((session as int, a.len())),
        decoded(b + payload) == Some((q, b.len())),
    ensures
        ({
            let data = seq![header] + a + b + payload;
            match voice(data) {
                Some(p) => {
                    &&& p.codec == header / 32 && p.target == header % 32 && p.session == session
                    &&& p.payload_len == payload.len()
                    &&& data.skip(p.payload_start as int) == payload
                },
                None => false,
            }
        }),
{
    let data = seq![header] + a + b + payload;
    let from = (1 + a.len() + b.len()) as int;
    lemma_two_pieces(header, a, b, payload);
    assert(voice(data)->0.payload_start == from);
}

proof fn lemma_two_pieces(header: u8, a: Seq<u8>, b: Seq<u8>, payload: Seq<u8>)
    ensures
        ({
            let data = seq![header] + a + b + payload;
            let from = (1 + a.len() + b.len()) as int;
            &&& data[0] == header
            &&& data.len() == from + payload.len()
            &&& data.skip(1) == a + (b + payload)
            &&& data.skip(1).skip(a.len() as int) == b + payload
            &&& data.skip(from) == payload
        }),
{
    let data = seq![header] + a + b + payload;
    let from = (1 + a.len() + b.len()) as int;
    assert(data.skip(1) =~= a + (b + payload));
    assert(data.skip(1).skip(a.len() as int) =~= b + payload);
    assert(data.skip(from) =~= payload);
}

/// The keepalive holds nothing but its number and an empty payload marked as the
/// end of a transmission.
pub proof fn a_keepalive_is_empty_and_the_last(seq: u64)
    ensures
        decoded(keepalive(seq).skip(1 + encoded(seq).len() as int)) == Some((0x2000int, 2nat)),
        keepalive(seq).len() == 1 + encoded(seq).len() + 2,
{
    crate::varint::written_numbers_read_back(0x2000, Seq::empty());
    crate::varint::a_number_is_written_in_the_fewest_bytes(0x2000);
    assert(keepalive(seq).skip(1 + encoded(seq).len() as int) =~= encoded(0x2000) + Seq::empty());
}

/// What is framed reads back through a header: the kind and the length of every
/// message that fits, big endian; a longer one is refused by kind and length, and
/// a read of nothing means the far end has gone.
pub proof fn a_header_says_kind_and_length(b: Seq<u8>, kind: u16, body: Seq<u8>)
    requires
        b.len() == 6,
    ensures
        ({
            let n = b[2] * 0x100_0000 + b[3] * 0x1_0000 + b[4] * 0x100 + b[5];
            let k = b[0] * 0x100 + b[1];
            header_step(Seq::empty(), b).1 == if n <= 8_388_608 {
                Ok::<Option<(u16, usize)>, HeaderError>(Some((k as u16, n as usize)))
            } else {
                Err(HeaderError::Oversized { kind: k as u16, len: n as usize })
            }
        }),
        header_step(Seq::empty(), b).0.len() == 0,
        header_step(b.take(3), Seq::empty()) == (
            b.take(3),
            Err::<Option<(u16, usize)>, HeaderError>(HeaderError::Closed),
        ),
        body.len() <= 8_388_608 ==> header_step(Seq::empty(), framed(kind, body).take(6)).1 == Ok::<
            Option<(u16, usize)>,
            HeaderError,
        >(Some((kind, body.len() as usize))),
        body.len() <= 8_388_608 ==> framed(kind, body).skip(6) == body,
{
    assert(Seq::<u8>::empty() + b =~= b);
    if body.len() <= 8_388_608 {
        framed_messages_read_back(kind, body);
        assert(Seq::<u8>::empty() + framed(kind, body).take(6) =~= framed(kind, body).take(6));
    }
}

/// What each kind of message is, by its number.
pub proof fn messages_are_known_by_number(kind: u16)
    ensures
        handling_of(kind) == Handling::Voice <==> kind == 1,
        handling_of(kind) == Handling::Rejected <==> kind == 4,
        handling_of(kind) == Handling::Synced <==> kind == 5,
        handling_of(kind) == Handling::Channel <==> kind == 7,
        handling_of(kind) == Handling::Left <==> kind == 8,
        handling_of(kind) == Handling::User <==> kind == 9,
        handling_of(kind) == Handling::Denied <==> kind == 12,
        handling_of(kind) == Handling::Nothing <==> kind == 0 || kind == 3 || kind == 15 || kind
            == 21 || kind == 24,
{
}

/// A talkspurt is over once nothing has come for more than 150 whole
/// milliseconds, and not before; nothing else of it changes.
pub proof fn a_talkspurt_is_over_after_150_ms(t: Talk, now: u64)
    ensures
        t.is_over(now) <==> t.active && now - t.last >= 151_000_000,
        t.swept(now).active <==> t.active && now - t.last < 151_000_000,
        t.swept(now).packets == t.packets,
        t.swept(now).bytes == t.bytes,
        t.swept(now).started == t.started,
        t.swept(now).last == t.last,
        t.swept(now).routed_to == t.routed_to,
{
}

impl Talk {
    /// Several packets of a talkspurt, one after another.
    pub open spec fn with_packets(self, packets: Seq<(nat, u64, Option<u32>)>) -> Talk
        decreases packets.len(),
    {
        if packets.len() == 0 {
            self
        } else {
            let (bytes, now, dest) = packets.last();
            self.with_packets(packets.drop_last()).with_packet(bytes, now, dest)
        }
    }
}

/// The bytes of several packets.
pub open spec fn bytes_in(packets: Seq<(nat, u64, Option<u32>)>) -> nat
    decreases packets.len(),
{
    if packets.len() == 0 {
        0
    } else {
        bytes_in(packets.drop_last()) + packets.last().0
    }
}

/// A talkspurt counts its own packets and bytes, from its first, which says when
/// it started and where it goes; it was last heard with its last.
pub proof fn a_talkspurt_counts_its_packets(t: Talk, packets: Seq<(nat, u64, Option<u32>)>)
    requires
        !t.active,
        packets.len() > 0,
        packets.len() <= u64::MAX,
        bytes_in(packets) <= u64::MAX,
    ensures
        t.with_packets(packets) == (Talk {
            packets: packets.len() as u64,
            bytes: bytes_in(packets) as u64,
            active: true,
            started: packets[0].1,
            last: packets.last().1,
            routed_to: packets[0].2,
        }),
    decreases packets.len(),
{
    let rest = packets.drop_last();
    if rest.len() == 0 {
        assert(bytes_in(rest) == 0);
        assert(t.with_packets(rest) == t);
    } else {
        a_talkspurt_counts_its_packets(t, rest);
        assert(rest[0] == packets[0]);
    }
}

/// A packet is its own session's: nobody else's talking changes by it, nor by
/// somebody leaving; and a sweep is everybody's.
pub proof fn a_packet_is_its_own_sessions(
    s: TapState,
    p: VoicePacket,
    dest: Option<u32>,
    now: u64,
    other: u32,
)
    requires
        other != p.session,
    ensures
        s.with_voice(p, dest, now).heard.contains_key(p.session),
        s.with_voice(p, dest, now).heard[p.session] == (if s.heard.contains_key(p.session) {
            s.heard[p.session]
        } else {
            Talk { packets: 0, bytes: 0, active: false, started: now, last: now, routed_to: None }
        }).with_packet(p.payload_len as nat, now, dest),
        s.with_voice(p, dest, now).heard.get(other) == s.heard.get(other),
        s.with_voice(p, dest, now) == (TapState { heard: s.with_voice(p, dest, now).heard, ..s }),
        s.without(p.session).heard.get(other) == s.heard.get(other),
        !s.without(p.session).heard.contains_key(p.session),
        s.heard.contains_key(other) ==> s.swept(now).heard.contains_key(other) && s.swept(
            now,
        ).heard[other] == s.heard[other].swept(now),
        s.swept(now).heard.dom() == s.heard.dom(),
        s.swept(now) == (TapState { heard: s.swept(now).heard, ..s }),
{
    assert(s.swept(now).heard.dom() =~= s.heard.dom());
}

/// Listening follows what was announced, and nothing else: once told who it is,
/// a tap listens to exactly what it listened to and what was announced before,
/// and asks for each of those it did not listen to yet; a channel announced later
/// is listened to at once, and alone.
pub proof fn listening_follows_what_was_announced(
    s: TapState,
    session: Option<u32>,
    id: u32,
    c: u32,
)
    ensures
        s.synced(session).me == session,
        s.synced(session).known == s.known,
        session is Some ==> (s.synced(session).listening.contains(c) <==> s.listening.contains(c)
            || s.known.contains(c)),
        session is None ==> s.synced(session).listening == s.listening,
        s.unheard().contains(c) <==> s.known.contains(c) && !s.listening.contains(c),
        s.known.no_duplicates() ==> s.unheard().no_duplicates() && s.with_channel(
            id,
        ).known.no_duplicates(),
        s.with_channel(id).known.contains(c) <==> s.known.contains(c) || c == id,
        s.with_channel(id).listening.contains(c) <==> s.listening.contains(c) || c == id && s.me
            is Some,
        s.with_channel(id).me == s.me,
{
    lemma_filter_contains(s.known, not_in(s.listening));
    lemma_push_contains(s.known, id);
    assert(s.unheard().to_set().contains(c) <==> s.unheard().contains(c));
    if s.known.no_duplicates() {
        crate::seqs::lemma_filter_no_duplicates(s.known, not_in(s.listening));
    }
}

/// Everything a packet says in one rendering.
pub open spec fn said_in(lanes: Seq<(LegKey, Seq<i16>)>, lane: LegKey) -> Seq<i16>
    decreases lanes.len(),
{
    if lanes.len() == 0 {
        Seq::empty()
    } else {
        let earlier = said_in(lanes.drop_last(), lane);
        if lanes.last().0 == lane {
            earlier + lanes.last().1
        } else {
            earlier
        }
    }
}

/// What a packet adds to a mixer: all of what it says in each AM rendering, behind
/// what its speaker has queued there; nothing of any other rendering, and nothing
/// to anybody else's queue.
pub proof fn only_am_is_mixed(
    mix: MixState,
    lanes: Seq<(LegKey, Seq<i16>)>,
    session: u32,
    now: u64,
    f: crate::ammix::Feed,
)
    ensures
        ({
            let after = with_lanes(mix, lanes, session, now);
            let had = if mix.queues.contains_key(f) {
                mix.queues[f]
            } else {
                Seq::empty()
            };
            let said = said_in(lanes, f.key());
            &&& f.mode == Mode::Am && f.talker == session && said.len() > 0
                ==> after.queues.contains_key(f) && after.queues[f] == had + said
            &&& f.mode == Mode::Am && f.talker == session && mix.queues.contains_key(f)
                ==> after.queues.contains_key(f) && after.queues[f] == had + said
            &&& f.mode == Mode::Am && f.talker == session && after.queues.contains_key(f)
                ==> after.queues[f] == had + said
            &&& f.mode == Mode::Am && f.talker == session && !after.queues.contains_key(f)
                ==> said.len() == 0
            &&& f.mode != Mode::Am || f.talker != session ==> after.queues.get(f)
                == mix.queues.get(f)
        }),
    decreases lanes.len(),
{
    let had = if mix.queues.contains_key(f) {
        mix.queues[f]
    } else {
        Seq::empty()
    };
    if lanes.len() == 0 {
        assert(had + said_in(lanes, f.key()) =~= had);
    } else {
        let rest = lanes.drop_last();
        let (lane, pcm) = lanes.last();
        only_am_is_mixed(mix, rest, session, now, f);
        let earlier = with_lanes(mix, rest, session, now);
        let said = said_in(rest, f.key());
        assert((had + said) + pcm =~= had + (said + pcm));
        if lane == f.key() {
            assert(crate::ammix::feed(lane, session) == f <==> f.talker == session);
            if !earlier.queues.contains_key(f) && f.mode == Mode::Am && f.talker == session {
                assert(said =~= Seq::empty());
                assert(had =~= Seq::empty());
                assert(had + (said + pcm) =~= pcm);
            }
        } else {
            assert(crate::ammix::feed(lane, session) != f);
        }
    }
}

/// What passes by a mixer is every rendering that is not AM, in order.
pub proof fn what_is_not_am_passes_by(lanes: Seq<(LegKey, Seq<i16>)>, l: (LegKey, Seq<i16>))
    ensures
        lanes.filter(not_am()).contains(l) <==> lanes.contains(l) && (l.0.0 == Mode::P25 || l.0.0
            == Mode::Fm),
        not_am()(l) <==> l.0.0 == Mode::P25 || l.0.0 == Mode::Fm,
{
    lemma_filter_contains(lanes, not_am());
}

/// What is recorded is a rendering of the channel the call was on, not one that
/// crossed a patch, and none of those is cleaner.
pub proof fn what_is_recorded_is_the_cleanest_copy(
    lanes: Seq<(LegKey, Vec<i16>)>,
    mode: Mode,
    i: int,
    j: int,
)
    requires
        0 <= j < lanes.len(),
        lanes[j].0.0 == mode && !lanes[j].0.2,
    ensures
        is_source_side(lanes[j].0, mode),
        is_best(lanes, mode, i) ==> {
            &&& 0 <= i < lanes.len()
            &&& lanes[i].0.0 == mode && !lanes[i].0.2
            &&& lanes[j].0.1 <= lanes[i].0.1
        },
{
    assert(is_source_side(lanes[j].0, mode));
}

/// Nothing that crossed a patch, or sounds like another radio system, is the
/// source side's.
pub proof fn a_patched_rendering_is_not_recorded(lane: LegKey, mode: Mode)
    ensures
        is_source_side(lane, mode) <==> !lane.2 && lane.0 == mode,
{
}

/// A voice goes nowhere unless its session is a player's and that player is
/// transmitting; where it goes is a route the player transmits on, and it is
/// never sent back to the speaker.
pub proof fn a_voice_goes_where_its_speaker_transmits(
    r: State,
    session: SessionId,
    dest: Option<(u32, Sink, Vec<Listener>)>,
)
    requires
        is_destination(r, session, dest),
    ensures
        dest matches Some((tg, sink, listeners)) ==> {
            &&& r.clients.contains_key(session)
            &&& r.holds(tg, r.clients[session])
            &&& route_of(dest) == Some(tg)
            &&& !sink.bridged
            &&& forall|i: int|
                0 <= i < listeners@.len() ==> (#[trigger] listeners@[i]).client
                    != r.clients[session]
        },
        dest is None ==> route_of(dest) is None && (r.clients.contains_key(session) ==> forall|
            t: u32,
        |
            !r.holds(t, r.clients[session])),
{
    if let Some((tg, sink, listeners)) = dest {
        let speaker = r.clients[session];
        crate::laws::speech_goes_only_where_a_key_is_held(r, speaker);
        assert forall|i: int| 0 <= i < listeners@.len() implies (#[trigger] listeners@[i]).client
            != speaker by {
            assert(listeners@.contains(listeners@[i]));
        }
    }
}

/// A packet is heard if it can be read and is not the tap's own, and anything
/// else leaves the tap as it was. It is rendered if it is Opus with something in
/// it and somebody is there to hear it; and it starts a talkspurt if its session
/// was not in one.
pub proof fn a_packet_is_heard_unless_it_is_the_taps_own(
    before: TapState,
    body: Seq<u8>,
    r: State,
    now: u64,
    heard: Option<Heard>,
    after: TapState,
)
    requires
        is_heard(before, body, r, now, heard, after),
    ensures
        heard is Some <==> voice(body) is Some && before.me != Some(voice(body)->0.session),
        heard is None ==> after == before,
        heard matches Some(h) ==> {
            let s = voice(body)->0.session;
            &&& h.packet == voice(body)->0
            &&& h.starts <==> !(before.heard.contains_key(s) && before.heard[s].active)
            &&& h.render <==> h.packet.codec == 4 && h.packet.payload_len > 0 && (
            h.dest matches Some((_, _, listeners)) && listeners@.len() > 0)
            &&& after.heard.contains_key(s) && after.heard[s].active && after.heard[s].last == now
            &&& h.starts ==> after.heard[s].packets == 1 && after.heard[s].started == now
                && after.heard[s].bytes == h.packet.payload_len
            &&& h.starts ==> after.heard[s].routed_to == (match h.dest {
                Some((tg, _, _)) => Some(tg),
                None => None,
            })
            &&& after.mixes == before.mixes && after.known == before.known && after.listening
                == before.listening && after.me == before.me && after.server == before.server
        },
{
}

/// While there is a collision, what is AM goes into the mix of its route and
/// what is not goes on as it is. No other route's mix is touched.
pub proof fn a_collision_mixes_what_is_am(
    before: TapState,
    session: u32,
    tg: u32,
    lanes: Seq<(LegKey, Vec<i16>)>,
    now: u64,
    m: Merged,
    after: TapState,
    t: u32,
    l: (LegKey, Seq<i16>),
)
    requires
        is_merged(before, session, tg, true, lanes, now, m, after),
    ensures
        rendered(m.rest@).contains(l) <==> rendered(lanes).contains(l) && l.0.0 != Mode::Am,
        after.mixes.contains_key(tg),
        t != tg ==> after.mixes.contains_key(t) == before.mixes.contains_key(t),
        t != tg && before.mixes.contains_key(t) ==> after.mixes[t] == before.mixes[t],
        after == (TapState { mixes: after.mixes, ..before }),
        forall|i: int| 0 <= i < m.mixed@.len() ==> (#[trigger] m.mixed@[i]).sums@.len() > 0,
{
    lemma_filter_contains(rendered(lanes), not_am());
    let mix = with_lanes(before.mix(tg), rendered(lanes), session, now).present(now);
    assert forall|i: int| 0 <= i < m.mixed@.len() implies (#[trigger] m.mixed@[i]).sums@.len()
        > 0 by {
        assert(mix.ready(m.mixed@[i].lane) > 0 && mix.is_mix(m.mixed@[i]));
        assert(mix.ready(m.mixed@[i].lane) * AM_FRAME > 0) by (nonlinear_arith)
            requires
                mix.ready(m.mixed@[i].lane) > 0,
                AM_FRAME == 160,
        ;
    }
}

/// Without a collision everything that was rendered goes on as it is, behind
/// what was still queued from one, and nothing stays queued. With nothing
/// queued, that is all there is.
pub proof fn without_a_collision_everything_goes_on(
    before: TapState,
    session: u32,
    tg: u32,
    lanes: Seq<(LegKey, Vec<i16>)>,
    now: u64,
    m: Merged,
    after: TapState,
    t: u32,
)
    requires
        is_merged(before, session, tg, false, lanes, now, m, after),
    ensures
        m.mixed@.len() == 0,
        m.rest@.len() >= lanes.len(),
        m.rest@.skip(m.rest@.len() - lanes.len()) == lanes,
        !before.mixes.contains_key(tg) ==> m.rest@ == lanes,
        !after.mixes.contains_key(tg),
        t != tg ==> after.mixes.contains_key(t) == before.mixes.contains_key(t),
        t != tg && before.mixes.contains_key(t) ==> after.mixes[t] == before.mixes[t],
        after == (TapState { mixes: after.mixes, ..before }),
{
    let queued = choose|queued: Seq<(LegKey, Vec<i16>)>| #[trigger]
        before.mix(tg).are_rests(queued) && m.rest@ == queued + lanes;
    assert(before.mix(tg).are_rests(queued) && m.rest@ == queued + lanes);
    assert(m.rest@.skip(m.rest@.len() - lanes.len()) =~= lanes);
    if !before.mixes.contains_key(tg) {
        if queued.len() > 0 {
            let first = queued[0];
            assert(before.mix(tg).is_rest(first.0, first.1@));
            assert(before.mix(tg).is_longest(first.0, first.1@.len()));
        }
        assert(m.rest@ =~= lanes);
    }
}

/// A talkspurt is reported over once, with what there was of it, after more than
/// 150 milliseconds of silence, and is in none from then on.
pub proof fn a_talkspurt_is_reported_over_once(
    before: TapState,
    now: u64,
    ended: Seq<Ended>,
    s: u32,
)
    requires
        are_over(before, now, ended),
        before.heard.contains_key(s),
        before.heard[s].last <= now,
    ensures
        (exists|i: int| 0 <= i < ended.len() && (#[trigger] ended[i]).session == s)
            <==> before.heard[s].active && now - before.heard[s].last >= 151_000_000,
        forall|i: int|
            0 <= i < ended.len() && (#[trigger] ended[i]).session == s ==> ended[i].talk
                == before.heard[s],
        before.swept(now).heard[s].active <==> before.heard[s].active && now - before.heard[s].last
            < 151_000_000,
{
    let e = Ended { session: s, talk: before.heard[s] };
    if before.heard[s].is_over(now) {
        assert(ended.contains(e));
        let i = choose|i: int| 0 <= i < ended.len() && ended[i] == e;
        assert(ended[i].session == s);
    }
    assert forall|i: int| 0 <= i < ended.len() && (#[trigger] ended[i]).session == s implies
        ended[i].talk == before.heard[s] && before.heard[s].is_over(now) by {
        assert(ended.contains(ended[i]));
    }
}

/// A channel is new the first time it is announced, and is listened to once:
/// when it is announced to a tap that is in already, or else when the tap comes
/// in.
pub proof fn a_channel_is_news_once(tap: TapState, id: u32)
    ensures
        tap.news_of(id).0 <==> !tap.known.contains(id),
        !tap.with_channel(id).news_of(id).0,
        !tap.with_channel(id).news_of(id).1,
        tap.news_of(id).1 ==> tap.me is Some && tap.with_channel(id).listening.contains(id),
        tap.me is None ==> !tap.news_of(id).1,
        tap.me is Some && !tap.listening.contains(id) ==> tap.news_of(id).1,
{
    lemma_push_contains(tap.known, id);
}

/// Of renderings as clean as each other, it is the last that is recorded.
pub proof fn of_equals_the_last_is_recorded(
    lanes: Seq<(LegKey, Vec<i16>)>,
    mode: Mode,
    i: int,
    j: int,
)
    requires
        is_best(lanes, mode, i),
        0 <= j < lanes.len(),
        lanes[j].0.0 == mode && !lanes[j].0.2,
        lanes[j].0.1 == lanes[i].0.1,
    ensures
        j <= i,
{
    assert(is_source_side(lanes[j].0, mode));
}

/// The words a tap gives up in.
pub proof fn a_tap_gives_up_in_words(kind: u16, len: usize)
    ensures
        HeaderError::Closed.words() == "connection closed by server"@,
        (HeaderError::Oversized { kind, len }).words() == "oversized mumble frame: kind "@
            + decimal_of(kind as nat) + ", "@ + decimal_of(len as nat) + " bytes"@,
{
}

/// A session that leaves takes its talkspurt along and nothing else, and one that
/// comes in late is heard of as if it had just begun.
pub proof fn a_session_leaves_alone(tap: TapState, session: u32, other: u32, now: u64)
    ensures
        ({
            let after = tap.without(session);
            &&& after == (TapState { heard: after.heard, ..tap })
            &&& after.heard.get(other) == (if other == session {
                None
            } else {
                tap.heard.get(other)
            })
            &&& after.talk(session, now) == (Talk {
                packets: 0,
                bytes: 0,
                active: false,
                started: now,
                last: now,
                routed_to: None,
            })
        }),
        TapState::started(session).server == session,
        TapState::started(session).me is None,
        TapState::started(session).known.len() == 0,
        forall|c: u32| !TapState::started(session).listening.contains(c),
        forall|c: u32| !TapState::started(session).heard.contains_key(c),
        forall|c: u32| !TapState::started(session).mixes.contains_key(c),
{
}

} // verus!

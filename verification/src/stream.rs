//! Audio delivery to players.
//!
//! Each player's page opens one socket and receives 8 kHz PCM for whatever
//! their radio is entitled to hear. This is the only path by which radio audio
//! reaches anyone.
//!
//! **Authentication is not optional.** Without a token the socket is an open
//! scanner feed of every talkgroup on the system. A server mints a token per
//! player and passes the same token to that player's page; an unknown token is
//! closed immediately.

use crate::bytes::{append_samples, append_text, big_endian, bytes_samples, low_bytes, piece, push_low, samples_bytes, samples_of};
use crate::dsp::{key, key_of, same_key, LegKey, Sink, RATE};
use crate::laws::a_release_ends_nobody_else;
use crate::names::Names;
use crate::patches::joined_is_the_connected_component;
use crate::router::{answers, ClientId, Keyed, Listener, Router};
use crate::routing::State;
use crate::seqs::{lemma_filter_contains, lemma_push_contains};
use crate::table::Table;
use crate::text::{after_prefix, chars_of, split, split_at_each, string_of, strip_prefix, texts_of};
use vstd::prelude::*;
use vstd::utf8::encode_utf8;

verus! {

// Wire format, first byte is the frame kind.
//
//   0 hello  [0][u32 sample rate BE]
//   1 audio  [1][reserved][u32 talkgroup BE][i16 LE PCM ...]
//   2 call   [2][keyed][u32 talkgroup BE][utf8 talker]
//   3 deny   [3][0][u32 talkgroup BE][utf8 reason]
//
// The talkgroup is a u32 because a CONVENTIONAL route id is one. The header is
// 6 bytes and that keeps the PCM 2-byte aligned.
pub const KIND_HELLO: u8 = 0;

pub const KIND_AUDIO: u8 = 1;

/// A call started or ended on a talkgroup. Sent when the GRANT is decided, not
/// when audio arrives.
pub const KIND_CALL: u8 = 2;

/// A transmit request was refused, and why.
pub const KIND_DENY: u8 = 3;

// Inbound, from a console. Numbered well clear of the outbound kinds so a frame
// going the wrong way is obviously wrong rather than subtly valid.
pub const TX_KEY: u8 = 16;

pub const TX_UNKEY: u8 = 17;

pub const TX_AUDIO: u8 = 18;

/// Where the PCM starts in an audio frame. Even, so the PCM stays alignable.
pub const AUDIO_HEADER: usize = 6;

// -- frames -----------------------------------------------------------------

/// The header of a frame about a route.
pub open spec fn header(kind: u8, flag: u8, tg: u32) -> Seq<u8> {
    seq![kind, flag] + low_bytes(tg as u64, 4)
}

pub open spec fn hello() -> Seq<u8> {
    seq![KIND_HELLO] + low_bytes(RATE as u64, 4)
}

pub open spec fn call(tg: u32, keyed: bool, talker: Seq<char>) -> Seq<u8> {
    header(
        KIND_CALL,
        if keyed {
            1
        } else {
            0
        },
        tg,
    ) + encode_utf8(talker)
}

pub open spec fn deny(tg: u32, reason: Seq<char>) -> Seq<u8> {
    header(KIND_DENY, 0, tg) + encode_utf8(reason)
}

pub open spec fn audio(tg: u32, pcm: Seq<i16>) -> Seq<u8> {
    header(KIND_AUDIO, 0, tg) + samples_bytes(pcm)
}

fn push_header(out: &mut Vec<u8>, kind: u8, flag: u8, tg: u32)
    ensures
        final(out)@ == old(out)@ + header(kind, flag, tg),
{
    out.push(kind);
    out.push(flag);
    push_low(out, tg as u64, 4);
    assert(out@ =~= old(out)@ + header(kind, flag, tg));
}

/// States the sample rate, so that no page has to assume it.
pub fn hello_frame() -> (frame: Vec<u8>)
    ensures
        frame@ == hello(),
{
    let mut frame: Vec<u8> = Vec::new();
    frame.push(KIND_HELLO);
    push_low(&mut frame, RATE as u64, 4);
    assert(frame@ =~= hello());
    frame
}

/// The talker is a label rather than an id: whatever the server called the
/// unit, or empty when it did not say.
pub fn call_frame(tg: u32, keyed: bool, talker: &str) -> (frame: Vec<u8>)
    ensures
        frame@ == call(tg, keyed, talker@),
{
    let mut frame: Vec<u8> = Vec::new();
    let flag: u8 = if keyed {
        1
    } else {
        0
    };
    push_header(&mut frame, KIND_CALL, flag, tg);
    append_text(&mut frame, talker);
    assert(frame@ =~= call(tg, keyed, talker@));
    frame
}

pub fn deny_frame(tg: u32, reason: &str) -> (frame: Vec<u8>)
    ensures
        frame@ == deny(tg, reason@),
{
    let mut frame: Vec<u8> = Vec::new();
    push_header(&mut frame, KIND_DENY, 0, tg);
    append_text(&mut frame, reason);
    assert(frame@ =~= deny(tg, reason@));
    frame
}

pub fn audio_frame(tg: u32, pcm: &[i16]) -> (frame: Vec<u8>)
    ensures
        frame@ == audio(tg, pcm@),
{
    let mut frame: Vec<u8> = Vec::new();
    push_header(&mut frame, KIND_AUDIO, 0, tg);
    append_samples(&mut frame, pcm);
    assert(frame@ =~= audio(tg, pcm@));
    frame
}

/// The route a frame is about.
pub open spec fn route_in(frame: Seq<u8>) -> nat {
    big_endian(frame.subrange(2, 6))
}

/// Every kind of frame carries its route whole, a conventional one too, and
/// the samples of an audio frame start at an even offset and read back.
pub proof fn frames_carry_their_route_whole(
    tg: u32,
    keyed: bool,
    text: Seq<char>,
    pcm: Seq<i16>,
)
    ensures
        route_in(call(tg, keyed, text)) == tg,
        route_in(deny(tg, text)) == tg,
        route_in(audio(tg, pcm)) == tg,
        AUDIO_HEADER % 2 == 0,
        bytes_samples(audio(tg, pcm).skip(AUDIO_HEADER as int)) == pcm,
{
    crate::bytes::lemma_low_bytes(tg as u64, 4);
    crate::bytes::samples_read_back(pcm);
    assert(call(tg, keyed, text).subrange(2, 6) =~= low_bytes(tg as u64, 4));
    assert(deny(tg, text).subrange(2, 6) =~= low_bytes(tg as u64, 4));
    assert(audio(tg, pcm).subrange(2, 6) =~= low_bytes(tg as u64, 4));
    assert(audio(tg, pcm).skip(AUDIO_HEADER as int) =~= samples_bytes(pcm));
}

// -- who is connected -------------------------------------------------------

#[verifier::ext_equal]
pub struct StreamsState {
    /// Token to client, minted by a server.
    pub tokens: Map<Seq<char>, ClientId>,
    /// The clients with a live socket.
    pub connected: Set<ClientId>,
    /// Frames on their way out, in order.
    pub outbox: Seq<(ClientId, Seq<u8>)>,
}

impl StreamsState {
    pub open spec fn empty() -> StreamsState {
        StreamsState { tokens: Map::empty(), connected: Set::empty(), outbox: Seq::empty() }
    }

    /// A frame sent to a client: whoever has no socket is sent nothing.
    pub open spec fn sent(self, client: ClientId, frame: Seq<u8>) -> StreamsState {
        if self.connected.contains(client) {
            StreamsState { outbox: self.outbox.push((client, frame)), ..self }
        } else {
            self
        }
    }

    /// One frame sent to each of several clients in turn.
    pub open spec fn sent_each(self, clients: Seq<ClientId>, frame: Seq<u8>) -> StreamsState
        decreases clients.len(),
    {
        if clients.len() == 0 {
            self
        } else {
            self.sent_each(clients.drop_last(), frame).sent(clients.last(), frame)
        }
    }

    /// A token was handed in for a client.
    pub open spec fn authorized(self, token: Seq<char>, client: ClientId) -> StreamsState {
        StreamsState { tokens: self.tokens.insert(token, client), ..self }
    }

    /// A client's socket came up, and was greeted.
    pub open spec fn came_up(self, client: ClientId) -> StreamsState {
        StreamsState { connected: self.connected.insert(client), ..self }.sent(client, hello())
    }

    /// A client's socket went away.
    pub open spec fn went_away(self, client: ClientId) -> StreamsState {
        StreamsState { connected: self.connected.remove(client), ..self }
    }

    pub open spec fn revoked(self, client: ClientId) -> StreamsState {
        StreamsState {
            tokens: self.tokens.remove_keys(
                Set::new(|t: Seq<char>| self.tokens.contains_key(t) && self.tokens[t] == client),
            ),
            connected: self.connected.remove(client),
            ..self
        }
    }

    pub open spec fn server_dropped(self, server: u32) -> StreamsState {
        StreamsState {
            tokens: self.tokens.remove_keys(
                Set::new(
                    |t: Seq<char>| self.tokens.contains_key(t) && self.tokens[t].server == server,
                ),
            ),
            connected: self.connected.filter(|c: ClientId| c.server != server),
            ..self
        }
    }
}

/// A frame on its way to a client.
pub struct Outgoing {
    pub client: ClientId,
    pub frame: Vec<u8>,
}

impl Outgoing {
    pub open spec fn view(&self) -> (ClientId, Seq<u8>) {
        (self.client, self.frame@)
    }
}

pub open spec fn outgoing(list: Seq<Outgoing>) -> Seq<(ClientId, Seq<u8>)> {
    list.map_values(|o: Outgoing| o.view())
}

pub struct Streams {
    tokens: Names<ClientId>,
    sinks: Table<ClientId, bool>,
    outbox: Vec<Outgoing>,
}

impl View for Streams {
    type V = StreamsState;

    closed spec fn view(&self) -> StreamsState {
        StreamsState {
            tokens: self.tokens@,
            connected: self.sinks@.dom(),
            outbox: outgoing(self.outbox@),
        }
    }
}

impl Default for Streams {
    fn default() -> (s: Self)
        ensures
            s@ == StreamsState::empty(),
    {
        let s = Streams { tokens: Names::new(), sinks: Table::new(), outbox: Vec::new() };
        assert(s@ =~= StreamsState::empty());
        s
    }
}

impl Streams {
    pub fn authorize(&mut self, token: String, client: ClientId)
        ensures
            final(self)@ == old(self)@.authorized(token@, client),
            final(self)@ == (StreamsState {
                tokens: old(self)@.tokens.insert(token@, client),
                ..old(self)@
            }),
    {
        self.tokens.insert(token, client);
    }

    pub fn revoke_player(&mut self, client: ClientId)
        ensures
            final(self)@ == old(self)@.revoked(client),
    {
        let stays = |c: &ClientId| -> (keep: bool)
            ensures
                keep == !(*c == client),
        { *c != client };
        self.tokens.retain(stays);
        self.sinks.remove(&client);
        proof {
            assert forall|t: Seq<char>| #[trigger] self.tokens@.contains_key(t) <==> old(
                self,
            ).tokens@.contains_key(t) && old(self).tokens@[t] != client by {
                if old(self).tokens@.contains_key(t) {
                }
            }
            assert(self@.tokens =~= old(self)@.revoked(client).tokens);
            assert(self@.connected =~= old(self)@.revoked(client).connected);
        }
    }

    /// Everything belonging to one server, for when a tap disconnects. The
    /// other servers on the platform must be unaffected.
    pub fn drop_server(&mut self, server: u32)
        ensures
            final(self)@ == old(self)@.server_dropped(server),
    {
        let stays = |c: &ClientId| -> (keep: bool)
            ensures
                keep == !(c.server == server),
        { c.server != server };
        self.tokens.retain(stays);
        let sink_stays = |c: &ClientId, live: &bool| -> (keep: bool)
            ensures
                keep == !(c.server == server),
        { c.server != server };
        self.sinks.retain(sink_stays);
        proof {
            let target = old(self)@.server_dropped(server);
            assert forall|t: Seq<char>| #[trigger] self.tokens@.contains_key(t) <==> old(
                self,
            ).tokens@.contains_key(t) && old(self).tokens@[t].server != server by {
                if old(self).tokens@.contains_key(t) {
                }
            }
            assert(self@.tokens =~= target.tokens);
            assert forall|c: ClientId| #[trigger] self.sinks@.contains_key(c) <==> old(
                self,
            ).sinks@.contains_key(c) && c.server != server by {
            }
            assert(self@.connected =~= target.connected);
        }
    }

    pub fn client_for(&self, token: &str) -> (r: Option<ClientId>)
        ensures
            r == self@.tokens.get(token@),
    {
        self.tokens.get(token)
    }

    /// How many sockets are live.
    pub fn connected(&self) -> (n: usize)
        ensures
            n == self@.connected.len(),
    {
        self.sinks.keys().len()
    }

    pub fn is_connected(&self, client: ClientId) -> (b: bool)
        ensures
            b == self@.connected.contains(client),
    {
        self.sinks.contains_key(&client)
    }

    /// A client's socket came up: it is greeted, and sent to from now on.
    pub fn connect(&mut self, client: ClientId)
        ensures
            final(self)@ == old(self)@.came_up(client),
            final(self)@ == (StreamsState {
                connected: old(self)@.connected.insert(client),
                ..old(self)@
            }).sent(client, hello()),
    {
        self.sinks.insert(client, true);
        assert(self@.connected =~= old(self)@.connected.insert(client));
        self.send(client, hello_frame());
    }

    /// A client's socket went away.
    pub fn disconnect(&mut self, client: ClientId)
        ensures
            final(self)@ == old(self)@.went_away(client),
            final(self)@ == (StreamsState {
                connected: old(self)@.connected.remove(client),
                ..old(self)@
            }),
    {
        self.sinks.remove(&client);
        assert(self@.connected =~= old(self)@.connected.remove(client));
    }

    fn send(&mut self, client: ClientId, frame: Vec<u8>)
        ensures
            final(self)@ == old(self)@.sent(client, frame@),
    {
        if self.sinks.contains_key(&client) {
            let ghost bytes = frame@;
            self.outbox.push(Outgoing { client, frame });
            assert(outgoing(self.outbox@) =~= outgoing(old(self).outbox@).push((client, bytes)));
        }
    }

    pub fn send_call(&mut self, client: ClientId, tg: u32, keyed: bool, talker: &str)
        ensures
            final(self)@ == old(self)@.sent(client, call(tg, keyed, talker@)),
    {
        self.send(client, call_frame(tg, keyed, talker));
    }

    pub fn send_deny(&mut self, client: ClientId, tg: u32, reason: &str)
        ensures
            final(self)@ == old(self)@.sent(client, deny(tg, reason@)),
    {
        self.send(client, deny_frame(tg, reason));
    }

    /// Delivers PCM for one talkgroup to one player.
    pub fn send_pcm(&mut self, client: ClientId, tg: u32, pcm: &[i16])
        ensures
            final(self)@ == old(self)@.sent(client, audio(tg, pcm@)),
    {
        self.send(client, audio_frame(tg, pcm));
    }

    /// Sends a call frame to each of several clients.
    pub fn send_call_each(&mut self, clients: &Vec<ClientId>, tg: u32, keyed: bool, talker: &str)
        ensures
            final(self)@ == old(self)@.sent_each(clients@, call(tg, keyed, talker@)),
    {
        let mut i: usize = 0;
        while i < clients.len()
            invariant
                i <= clients.len(),
                self@ == old(self)@.sent_each(
                    clients@.take(i as int),
                    call(tg, keyed, talker@),
                ),
            decreases clients.len() - i,
        {
            assert(clients@.take(i as int + 1).drop_last() =~= clients@.take(i as int));
            self.send_call(clients[i], tg, keyed, talker);
            i += 1;
        }
        assert(clients@.take(i as int) =~= clients@);
    }

    /// Hands over the frames waiting to go out.
    pub fn take_outbox(&mut self) -> (out: Vec<Outgoing>)
        ensures
            outgoing(out@) == old(self)@.outbox,
            final(self)@ == (StreamsState { outbox: Seq::empty(), ..old(self)@ }),
    {
        let mut out: Vec<Outgoing> = Vec::new();
        std::mem::swap(&mut out, &mut self.outbox);
        assert(outgoing(self.outbox@) =~= Seq::empty());
        out
    }
}

// -- delivery ---------------------------------------------------------------

/// One rendering sent to each listener it was made for, in turn.
pub open spec fn lane_sent(
    s: StreamsState,
    tg: u32,
    lane: LegKey,
    pcm: Seq<i16>,
    listeners: Seq<Listener>,
) -> StreamsState
    decreases listeners.len(),
{
    if listeners.len() == 0 {
        s
    } else {
        let earlier = lane_sent(s, tg, lane, pcm, listeners.drop_last());
        if is_for(lane, listeners.last()) {
            earlier.sent(listeners.last().client, audio(tg, pcm))
        } else {
            earlier
        }
    }
}

/// A rendering is the one a listener gets.
pub open spec fn is_for(lane: LegKey, l: Listener) -> bool {
    key(Sink { mode: l.mode, quality: l.quality, bridged: l.bridged }) == lane
}

/// Every rendering with anything in it sent to its listeners.
pub open spec fn lanes_sent(
    s: StreamsState,
    tg: u32,
    lanes: Seq<(LegKey, Vec<i16>)>,
    listeners: Seq<Listener>,
) -> StreamsState
    decreases lanes.len(),
{
    if lanes.len() == 0 {
        s
    } else {
        let earlier = lanes_sent(s, tg, lanes.drop_last(), listeners);
        let (lane, pcm) = lanes.last();
        if pcm@.len() == 0 {
            earlier
        } else {
            lane_sent(earlier, tg, lane, pcm@, listeners)
        }
    }
}

/// Sends what was rendered to everybody it was rendered for.
pub fn deliver(
    s: &mut Streams,
    tg: u32,
    lanes: &Vec<(LegKey, Vec<i16>)>,
    listeners: &Vec<Listener>,
)
    ensures
        final(s)@ == lanes_sent(old(s)@, tg, lanes@, listeners@),
{
    let mut i: usize = 0;
    while i < lanes.len()
        invariant
            i <= lanes.len(),
            s@ == lanes_sent(old(s)@, tg, lanes@.take(i as int), listeners@),
        decreases lanes.len() - i,
    {
        assert(lanes@.take(i as int + 1).drop_last() =~= lanes@.take(i as int));
        let ghost before = s@;
        let lane = lanes[i].0;
        let pcm = &lanes[i].1;
        if pcm.len() > 0 {
            let mut j: usize = 0;
            while j < listeners.len()
                invariant
                    j <= listeners.len(),
                    s@ == lane_sent(before, tg, lane, pcm@, listeners@.take(j as int)),
                decreases listeners.len() - j,
            {
                assert(listeners@.take(j as int + 1).drop_last() =~= listeners@.take(j as int));
                let l = listeners[j];
                if same_key(key_of(l.sink()), lane) {
                    s.send_pcm(l.client, tg, pcm);
                }
                j += 1;
            }
            assert(listeners@.take(j as int) =~= listeners@);
        }
        i += 1;
    }
    assert(lanes@.take(i as int) =~= lanes@);
}

/// A frame carries one rendering to one listener it was made for.
pub open spec fn is_delivery(
    tg: u32,
    lane: LegKey,
    pcm: Seq<i16>,
    l: Listener,
    out: (ClientId, Seq<u8>),
) -> bool {
    is_for(lane, l) && out == (l.client, audio(tg, pcm))
}

/// A frame carries one rendering to some listener it was made for.
pub open spec fn delivers_lane(
    tg: u32,
    lane: LegKey,
    pcm: Seq<i16>,
    listeners: Seq<Listener>,
    out: (ClientId, Seq<u8>),
) -> bool {
    exists|j: int|
        0 <= j < listeners.len() && is_delivery(tg, lane, pcm, #[trigger] listeners[j], out)
}

/// A frame carries some rendering to some listener it was made for.
pub open spec fn delivers(
    tg: u32,
    lanes: Seq<(LegKey, Vec<i16>)>,
    listeners: Seq<Listener>,
    out: (ClientId, Seq<u8>),
) -> bool {
    exists|i: int|
        0 <= i < lanes.len() && delivers_lane(
            tg,
            (#[trigger] lanes[i]).0,
            lanes[i].1@,
            listeners,
            out,
        )
}

proof fn lemma_lane_sent(
    s: StreamsState,
    tg: u32,
    lane: LegKey,
    pcm: Seq<i16>,
    listeners: Seq<Listener>,
)
    ensures
        ({
            let after = lane_sent(s, tg, lane, pcm, listeners);
            &&& after.tokens == s.tokens
            &&& after.connected == s.connected
            &&& s.outbox.len() <= after.outbox.len()
            &&& forall|k: int| 0 <= k < s.outbox.len() ==> #[trigger] after.outbox[k] == s.outbox[k]
            &&& forall|k: int|
                s.outbox.len() <= k < after.outbox.len() ==> delivers_lane(
                    tg,
                    lane,
                    pcm,
                    listeners,
                    #[trigger] after.outbox[k],
                )
            &&& forall|j: int|
                0 <= j < listeners.len() && is_for(lane, #[trigger] listeners[j])
                    && s.connected.contains(listeners[j].client) ==> after.outbox.contains(
                    (listeners[j].client, audio(tg, pcm)),
                )
        }),
    decreases listeners.len(),
{
    if listeners.len() > 0 {
        let rest = listeners.drop_last();
        lemma_lane_sent(s, tg, lane, pcm, rest);
        let earlier = lane_sent(s, tg, lane, pcm, rest);
        let after = lane_sent(s, tg, lane, pcm, listeners);
        let n = listeners.len() - 1;
        assert forall|k: int| s.outbox.len() <= k < after.outbox.len() implies delivers_lane(
            tg,
            lane,
            pcm,
            listeners,
            #[trigger] after.outbox[k],
        ) by {
            if k < earlier.outbox.len() {
                assert(delivers_lane(tg, lane, pcm, rest, earlier.outbox[k]));
                let j = choose|j: int|
                    0 <= j < rest.len() && is_delivery(
                        tg,
                        lane,
                        pcm,
                        #[trigger] rest[j],
                        earlier.outbox[k],
                    );
                assert(listeners[j] == rest[j]);
            } else {
                assert(is_delivery(tg, lane, pcm, listeners[n], after.outbox[k]));
            }
        }
        assert forall|j: int|
            0 <= j < listeners.len() && is_for(lane, #[trigger] listeners[j])
                && s.connected.contains(listeners[j].client) implies after.outbox.contains(
            (listeners[j].client, audio(tg, pcm)),
        ) by {
            let sent = (listeners[j].client, audio(tg, pcm));
            if j < n {
                assert(rest[j] == listeners[j]);
                let k = choose|k: int| 0 <= k < earlier.outbox.len() && earlier.outbox[k] == sent;
                assert(after.outbox[k] == sent);
            } else {
                assert(after.outbox.last() == sent);
            }
        }
    }
}

/// Audio is sent to nobody but the listeners it was rendered for, and every one
/// of them with a socket is sent it. Nothing already on its way is touched.
pub proof fn audio_goes_to_its_listeners_and_nobody_else(
    s: StreamsState,
    tg: u32,
    lanes: Seq<(LegKey, Vec<i16>)>,
    listeners: Seq<Listener>,
)
    ensures
        ({
            let after = lanes_sent(s, tg, lanes, listeners);
            &&& after.tokens == s.tokens
            &&& after.connected == s.connected
            &&& s.outbox.len() <= after.outbox.len()
            &&& forall|k: int| 0 <= k < s.outbox.len() ==> #[trigger] after.outbox[k] == s.outbox[k]
            &&& forall|k: int|
                s.outbox.len() <= k < after.outbox.len() ==> delivers(
                    tg,
                    lanes,
                    listeners,
                    #[trigger] after.outbox[k],
                )
            &&& forall|i: int, j: int|
                0 <= i < lanes.len() && lanes[i].1@.len() > 0 && 0 <= j < listeners.len() && is_for(
                    (#[trigger] lanes[i]).0,
                    #[trigger] listeners[j],
                ) && s.connected.contains(listeners[j].client) ==> after.outbox.contains(
                    (listeners[j].client, audio(tg, lanes[i].1@)),
                )
        }),
    decreases lanes.len(),
{
    if lanes.len() > 0 {
        let rest = lanes.drop_last();
        let n = lanes.len() - 1;
        audio_goes_to_its_listeners_and_nobody_else(s, tg, rest, listeners);
        let earlier = lanes_sent(s, tg, rest, listeners);
        let after = lanes_sent(s, tg, lanes, listeners);
        let (lane, pcm) = lanes.last();
        lemma_lane_sent(earlier, tg, lane, pcm@, listeners);
        assert forall|k: int| s.outbox.len() <= k < after.outbox.len() implies delivers(
            tg,
            lanes,
            listeners,
            #[trigger] after.outbox[k],
        ) by {
            if k < earlier.outbox.len() {
                assert(delivers(tg, rest, listeners, earlier.outbox[k]));
                let i = choose|i: int|
                    0 <= i < rest.len() && delivers_lane(
                        tg,
                        (#[trigger] rest[i]).0,
                        rest[i].1@,
                        listeners,
                        earlier.outbox[k],
                    );
                assert(rest[i] == lanes[i]);
            } else {
                assert(delivers_lane(tg, lanes[n].0, lanes[n].1@, listeners, after.outbox[k]));
            }
        }
        assert forall|i: int, j: int|
            0 <= i < lanes.len() && lanes[i].1@.len() > 0 && 0 <= j < listeners.len() && is_for(
                (#[trigger] lanes[i]).0,
                #[trigger] listeners[j],
            ) && s.connected.contains(listeners[j].client) implies after.outbox.contains(
            (listeners[j].client, audio(tg, lanes[i].1@)),
        ) by {
            let sent = (listeners[j].client, audio(tg, lanes[i].1@));
            if i < n {
                assert(rest[i] == lanes[i]);
                assert(earlier.outbox.contains(sent));
                let k = choose|k: int| 0 <= k < earlier.outbox.len() && earlier.outbox[k] == sent;
                assert(after.outbox[k] == sent);
            }
        }
    }
}

// -- consoles ---------------------------------------------------------------

/// A list of the consoles monitoring a talkgroup, each once.
pub open spec fn lists_consoles(s: State, tg: u32, list: Seq<ClientId>) -> bool {
    &&& list.no_duplicates()
    &&& forall|c: ClientId| #[trigger] list.contains(c) <==> s.listens(tg, c) && c.console()
}

/// The consoles monitoring a talkgroup.
pub fn consoles_on(r: &Router, tg: u32) -> (out: Vec<ClientId>)
    ensures
        lists_consoles(r@, tg, out@),
{
    let all = r.listeners_of(tg);
    let mut out: Vec<ClientId> = Vec::new();
    let mut i: usize = 0;
    while i < all.len()
        invariant
            i <= all.len(),
            all@.no_duplicates(),
            out@.no_duplicates(),
            forall|c: ClientId| #[trigger]
                out@.contains(c) <==> all@.take(i as int).contains(c) && c.console(),
        decreases all.len() - i,
    {
        let c = all[i];
        proof {
            let upto = all@.take(i as int);
            assert(all@.take(i as int + 1) =~= upto.push(c));
            lemma_push_contains(upto, c);
            lemma_push_contains(out@, c);
            assert(!upto.contains(c)) by {
                if upto.contains(c) {
                    let j = choose|j: int| 0 <= j < upto.len() && upto[j] == c;
                    assert(all@[j] == all@[i as int]);
                }
            }
            assert(!out@.contains(c));
        }
        if c.is_console() {
            out.push(c);
            assert(out@.no_duplicates());
        }
        i += 1;
    }
    assert(all@.take(i as int) =~= all@);
    out
}

/// What a console's frame came to.
pub enum ConsoleEvent {
    /// Too short, or of no kind a console sends.
    Ignored,
    /// A press, and how it was answered.
    Press(u32, Result<Keyed, &'static str>),
    /// The button was let go.
    Release(u32),
    /// Audio, on the route the console is keyed on, for these listeners. The
    /// samples are 48 kHz.
    Audio(u32, Sink, Vec<Listener>, Vec<i16>),
    /// Audio, and the console is keyed on nothing.
    NotKeyed,
    /// Audio, and nobody is listening on the route.
    NobodyListening(u32),
}

/// The words a call is announced in when dispatch is talking.
pub open spec fn dispatch_label() -> Seq<char> {
    "DISPATCH"@
}

pub open spec fn preempted_words() -> Seq<char> {
    "preempted by dispatch"@
}

/// The unit that was cut off is told so, and that its call is over.
pub open spec fn cut_off(s: StreamsState, was: ClientId, tg: u32) -> StreamsState {
    s.sent(was, deny(tg, preempted_words())).sent(was, call(tg, false, ""@))
}

/// What a press makes of the streams: whoever was cut off is told, then every
/// console on the talkgroup and the one that pressed. A refusal is told to the
/// one that pressed.
pub open spec fn pressed(
    before: StreamsState,
    after: StreamsState,
    router: State,
    client: ClientId,
    tg: u32,
    answer: Result<Keyed, &'static str>,
) -> bool {
    match answer {
        Ok(keyed) => {
            let told = match keyed {
                Keyed::Preempted(was) => cut_off(before, was, tg),
                _ => before,
            };
            exists|watching: Seq<ClientId>| #[trigger]
                lists_consoles(router, tg, watching) && after == told.sent_each(
                    watching,
                    call(tg, true, dispatch_label()),
                ).sent(client, call(tg, true, dispatch_label()))
        },
        Err(why) => after == before.sent(client, deny(tg, why@)),
    }
}

/// What a release makes of the streams: every console on the talkgroup is told,
/// and the one that released.
pub open spec fn released(
    before: StreamsState,
    after: StreamsState,
    router: State,
    client: ClientId,
    tg: u32,
) -> bool {
    exists|watching: Seq<ClientId>| #[trigger]
        lists_consoles(router, tg, watching) && after == before.sent_each(
            watching,
            call(tg, false, ""@),
        ).sent(client, call(tg, false, ""@))
}

/// What a console's frame does.
pub open spec fn handled(
    r: State,
    s: StreamsState,
    client: ClientId,
    frame: Seq<u8>,
    at: u64,
    r_after: State,
    s_after: StreamsState,
    event: ConsoleEvent,
) -> bool {
    let tg = route_in(frame) as u32;
    if frame.len() < AUDIO_HEADER {
        event is Ignored && r_after == r && s_after == s
    } else if frame[0] == TX_KEY {
        &&& event matches ConsoleEvent::Press(t, answer) && t == tg && answers(
            answer,
            r.keyed_at(tg, client, at).1,
        ) && pressed(s, s_after, r_after, client, tg, answer)
        &&& r_after == r.keyed_at(tg, client, at).0
    } else if frame[0] == TX_UNKEY {
        &&& event == ConsoleEvent::Release(tg)
        &&& r_after == r.unkeyed_as(tg, client)
        // A call is over once the whole channel has gone clear, and not before.
        &&& if r_after.is_clear(tg) {
            released(s, s_after, r_after, client, tg)
        } else {
            s_after == s
        }
    } else if frame[0] == TX_AUDIO {
        &&& r_after == r
        &&& s_after == s
        &&& match event {
            // The talkgroup comes from the ROUTER, not the frame.
            ConsoleEvent::Audio(live, src, listeners, pcm) => {
                &&& r.on_air(client, live)
                &&& src == r.source_sink(live, client)
                &&& r.is_audience(live, Some(client), listeners@)
                &&& listeners@.len() > 0
                &&& pcm@ == bytes_samples(frame.skip(AUDIO_HEADER as int))
            },
            ConsoleEvent::NobodyListening(live) => r.on_air(client, live) && r.is_audience(
                live,
                Some(client),
                Seq::empty(),
            ),
            ConsoleEvent::NotKeyed => r.silent(client),
            _ => false,
        }
    } else {
        event is Ignored && r_after == r && s_after == s
    }
}

/// Takes one frame from a console. A console transmits over its own socket,
/// and gets no exemption from the rule that one talker holds a talkgroup.
pub fn console_frame(
    r: &mut Router,
    s: &mut Streams,
    client: ClientId,
    frame: &[u8],
    at: u64,
) -> (event: ConsoleEvent)
    ensures
        handled(old(r)@, old(s)@, client, frame@, at, final(r)@, final(s)@, event),
{
    if frame.len() < AUDIO_HEADER {
        return ConsoleEvent::Ignored;
    }
    let tg = read_route(frame);
    let kind = frame[0];
    if kind == TX_KEY {
        let answer = r.key_at(tg, client, at);
        let watching = consoles_on(r, tg);
        let ghost before = s@;
        match answer {
            Ok(keyed) => {
                if let Keyed::Preempted(was) = keyed {
                    s.send_deny(was, tg, "preempted by dispatch");
                    s.send_call(was, tg, false, "");
                }
                s.send_call_each(&watching, tg, true, "DISPATCH");
                s.send_call(client, tg, true, "DISPATCH");
            },
            Err(why) => {
                s.send_deny(client, tg, why);
            },
        }
        assert(pressed(before, s@, r@, client, tg, answer));
        ConsoleEvent::Press(tg, answer)
    } else if kind == TX_UNKEY {
        // Only what this console holds: an unkey for somebody else's call
        // would be a console able to cut off a field unit by asking nicely.
        r.unkey_as(tg, client);
        if r.is_clear(tg) {
            let watching = consoles_on(r, tg);
            s.send_call_each(&watching, tg, false, "");
            s.send_call(client, tg, false, "");
        }
        ConsoleEvent::Release(tg)
    } else if kind == TX_AUDIO {
        match r.destination_of(client) {
            Some((live, listeners)) => {
                if listeners.len() == 0 {
                    assert(listeners@ =~= Seq::empty());
                    return ConsoleEvent::NobodyListening(live);
                }
                let body = piece(frame, AUDIO_HEADER, frame.len());
                assert(body@ =~= frame@.skip(AUDIO_HEADER as int));
                let pcm = samples_of(&body);
                ConsoleEvent::Audio(live, r.source_sink(live, client), listeners, pcm)
            },
            None => ConsoleEvent::NotKeyed,
        }
    } else {
        ConsoleEvent::Ignored
    }
}

fn read_route(frame: &[u8]) -> (tg: u32)
    requires
        frame@.len() >= AUDIO_HEADER,
    ensures
        tg == route_in(frame@),
{
    proof {
        reveal_with_fuel(big_endian, 5);
        let b = frame@.subrange(2, 6);
        assert(b.drop_last() =~= frame@.subrange(2, 5));
        assert(b.drop_last().drop_last() =~= frame@.subrange(2, 4));
        assert(b.drop_last().drop_last().drop_last() =~= frame@.subrange(2, 3));
        assert(b.drop_last().drop_last().drop_last().drop_last() =~= Seq::empty());
    }
    ((frame[2] as u32 * 0x100 + frame[3] as u32) * 0x100 + frame[4] as u32) * 0x100
        + frame[5] as u32
}

/// A console's release ends nobody's call but its own: while somebody else is
/// still up on the talkgroup, nobody is told that the call is over.
pub proof fn a_release_that_releases_nothing_tells_nobody(
    r: State,
    s: StreamsState,
    client: ClientId,
    frame: Seq<u8>,
    at: u64,
    r_after: State,
    s_after: StreamsState,
    event: ConsoleEvent,
    other: ClientId,
)
    requires
        handled(r, s, client, frame, at, r_after, s_after, event),
        frame.len() >= AUDIO_HEADER,
        frame[0] == TX_UNKEY,
        other != client,
        r.holds(route_in(frame) as u32, other),
    ensures
        s_after == s,
        r_after.holds(route_in(frame) as u32, other),
{
    let tg = route_in(frame) as u32;
    a_release_ends_nobody_else(r, tg, client, tg, other);
    joined_is_the_connected_component(r_after.patches, tg);
    assert(r_after.joined(tg).contains(tg));
    assert(r_after.talkers_on(tg).len() > 0);
}

/// A client's socket dropped: whatever it was transmitting on, patched routes
/// too, must not stay keyed against everybody else.
pub fn console_gone(r: &mut Router, s: &mut Streams, client: ClientId)
    ensures
        final(s)@ == old(s)@.went_away(client),
        final(r)@ == old(r)@.silenced(client),
        final(s)@ == (StreamsState {
            connected: old(s)@.connected.remove(client),
            ..old(s)@
        }),
{
    r.silence(client);
    s.disconnect(client);
}

// -- tokens -----------------------------------------------------------------

/// The last of several pieces that begin with a prefix, without it.
pub open spec fn last_with_prefix(pieces: Seq<Seq<char>>, prefix: Seq<char>) -> Option<Seq<char>>
    decreases pieces.len(),
{
    if pieces.len() == 0 {
        None
    } else {
        match after_prefix(pieces.last(), prefix) {
            Some(rest) => Some(rest),
            None => last_with_prefix(pieces.drop_last(), prefix),
        }
    }
}

/// The token a page presents in the query of its request.
pub open spec fn token(query: Seq<char>) -> Option<Seq<char>> {
    last_with_prefix(split(query, '&'), "token="@)
}

pub fn token_in(query: &str) -> (r: Option<String>)
    ensures
        match r {
            Some(t) => token(query@) == Some(t@),
            None => token(query@) is None,
        },
{
    let pieces = split_at_each(&chars_of(query), '&');
    let prefix = chars_of("token=");
    let ghost texts = texts_of(pieces@);
    let mut n: usize = pieces.len();
    assert(texts.take(n as int) =~= texts);
    while n > 0
        invariant
            n <= pieces.len(),
            texts == texts_of(pieces@),
            prefix@ == "token="@,
            last_with_prefix(texts, "token="@) == last_with_prefix(texts.take(n as int), "token="@),
            texts == split(query@, '&'),
        decreases n,
    {
        assert(texts.take(n as int).last() == pieces@[n - 1]@);
        assert(texts.take(n as int).drop_last() =~= texts.take(n as int - 1));
        match strip_prefix(&pieces[n - 1], &prefix) {
            Some(rest) => {
                return Some(string_of(&rest));
            },
            None => {},
        }
        n -= 1;
    }
    None
}

/// An unknown token opens nothing, and neither does a missing one.
pub fn socket_client(s: &Streams, query: Option<&str>) -> (r: Option<ClientId>)
    ensures
        r == (match query {
            Some(q) => match token(q@) {
                Some(t) => s@.tokens.get(t),
                None => None,
            },
            None => None,
        }),
{
    match query {
        Some(q) => match token_in(q) {
            Some(t) => s.client_for(t.as_str()),
            None => None,
        },
        None => None,
    }
}

/// A token that was never issued, was revoked, or whose server went away opens
/// nothing.
pub proof fn a_revoked_token_opens_nothing(
    s: StreamsState,
    client: ClientId,
    server: u32,
    t: Seq<char>,
)
    ensures
        s.tokens.get(t) == Some(client) ==> s.revoked(client).tokens.get(t) is None,
        s.tokens.get(t) matches Some(c) && c.server == server ==> s.server_dropped(
            server,
        ).tokens.get(t) is None,
        s.tokens.get(t) is None ==> s.revoked(client).tokens.get(t) is None && s.server_dropped(
            server,
        ).tokens.get(t) is None,
        s.tokens.get(t) matches Some(c) && c != client ==> s.revoked(client).tokens.get(t)
            == s.tokens.get(t),
        s.tokens.get(t) matches Some(c) && c.server != server ==> s.server_dropped(
            server,
        ).tokens.get(t) == s.tokens.get(t),
{
}

// -- what goes over the wire ------------------------------------------------

/// A call frame is the byte 2, a byte that says whether the call starts or
/// ends, the route with its high byte first, and the talker's name. A refusal
/// is the same with a 3 and a 0, and audio with a 1 and a 0 and the samples.
pub proof fn a_frame_is_its_kind_route_and_body(
    tg: u32,
    keyed: bool,
    text: Seq<char>,
    pcm: Seq<i16>,
)
    ensures
        ({
            let route = seq![
                (tg as int / 16777216) as u8,
                (tg as int / 65536 % 256) as u8,
                (tg as int / 256 % 256) as u8,
                (tg as int % 256) as u8,
            ];
            let flag: u8 = if keyed {
                1
            } else {
                0
            };
            &&& call(tg, keyed, text) == seq![2u8, flag] + route + encode_utf8(text)
            &&& deny(tg, text) == seq![3u8, 0u8] + route + encode_utf8(text)
            &&& audio(tg, pcm).take(6) == seq![1u8, 0u8] + route
            &&& audio(tg, pcm).len() == 6 + 2 * pcm.len()
            &&& forall|i: int|
                0 <= i < pcm.len() ==> (audio(tg, pcm)[6 + 2 * i] + audio(tg, pcm)[7 + 2 * i]
                    * 256) % 65536 == (#[trigger] pcm[i]) as int % 65536
            &&& hello() == seq![0u8, 0u8, 0u8, 31u8, 64u8]
        }),
{
    crate::bytes::four_bytes_are_a_number(tg, seq![0u8, 0u8, 0u8, 0u8]);
    crate::bytes::four_bytes_are_a_number(8000, seq![0u8, 0u8, 0u8, 0u8]);
    crate::bytes::samples_read_back(pcm);
    let a = audio(tg, pcm);
    assert(a.take(6) =~= seq![1u8, 0u8] + low_bytes(tg as u64, 4));
    assert forall|i: int| 0 <= i < pcm.len() implies (a[6 + 2 * i] + a[7 + 2 * i] * 256) % 65536
        == (#[trigger] pcm[i]) as int % 65536 by {
        crate::bytes::a_sample_is_two_bytes_low_first(pcm, Seq::empty(), i);
        assert(a[6 + 2 * i] == samples_bytes(pcm)[2 * i]);
        assert(a[7 + 2 * i] == samples_bytes(pcm)[2 * i + 1]);
    }
    assert(RATE == 8000);
    assert(hello() =~= seq![0u8, 0u8, 0u8, 31u8, 64u8]);
}

/// The route in a frame is the number in its third to sixth bytes.
pub proof fn a_route_is_read_high_byte_first(frame: Seq<u8>)
    requires
        frame.len() >= 6,
    ensures
        route_in(frame) == frame[2] * 16777216 + frame[3] * 65536 + frame[4] * 256 + frame[5],
        route_in(frame) <= u32::MAX,
{
    crate::bytes::four_bytes_are_a_number(0, frame.subrange(2, 6));
}

/// Those of several clients that have a socket.
pub open spec fn with_sockets(connected: Set<ClientId>, clients: Seq<ClientId>) -> Seq<ClientId> {
    clients.filter(|c: ClientId| connected.contains(c))
}

/// A frame is sent once to each client that has a socket, in the order given,
/// behind whatever was on its way already, and to nobody else.
pub proof fn a_frame_goes_once_to_each_socket(
    s: StreamsState,
    clients: Seq<ClientId>,
    frame: Seq<u8>,
)
    ensures
        ({
            let after = s.sent_each(clients, frame);
            &&& after.tokens == s.tokens
            &&& after.connected == s.connected
            &&& after.outbox == s.outbox + with_sockets(s.connected, clients).map_values(
                |c: ClientId| (c, frame),
            )
        }),
        clients.len() == 1 ==> s.sent(clients[0], frame) == s.sent_each(clients, frame),
    decreases clients.len(),
{
    let up = |c: ClientId| s.connected.contains(c);
    let to = |c: ClientId| (c, frame);
    reveal(Seq::filter);
    if clients.len() > 0 {
        let rest = clients.drop_last();
        a_frame_goes_once_to_each_socket(s, rest, frame);
        let earlier = s.sent_each(rest, frame);
        assert(rest.len() == 0 ==> earlier == s);
        if s.connected.contains(clients.last()) {
            assert(clients.filter(up) =~= rest.filter(up).push(clients.last()));
        } else {
            assert(clients.filter(up) =~= rest.filter(up));
        }
        assert(s.sent_each(clients, frame).outbox =~= s.outbox + clients.filter(up).map_values(to));
    } else {
        assert(s.outbox + clients.filter(up).map_values(to) =~= s.outbox);
    }
}

/// The listeners a rendering was made for, in order.
pub open spec fn made_for(lane: LegKey, listeners: Seq<Listener>) -> Seq<ClientId> {
    listeners.filter(|l: Listener| is_for(lane, l)).map_values(|l: Listener| l.client)
}

/// A rendering goes once to each of its listeners, in the order of the
/// listeners, and an empty one goes to nobody.
pub proof fn a_rendering_goes_once_to_each_of_its_listeners(
    s: StreamsState,
    tg: u32,
    lanes: Seq<(LegKey, Vec<i16>)>,
    lane: LegKey,
    pcm: Vec<i16>,
    listeners: Seq<Listener>,
)
    ensures
        lanes_sent(s, tg, Seq::empty(), listeners) == s,
        pcm@.len() == 0 ==> lanes_sent(s, tg, lanes.push((lane, pcm)), listeners) == lanes_sent(
            s,
            tg,
            lanes,
            listeners,
        ),
        pcm@.len() > 0 ==> lanes_sent(s, tg, lanes.push((lane, pcm)), listeners) == lanes_sent(
            s,
            tg,
            lanes,
            listeners,
        ).sent_each(made_for(lane, listeners), audio(tg, pcm@)),
{
    assert(lanes.push((lane, pcm)).drop_last() =~= lanes);
    lemma_lane_is_sent_each(lanes_sent(s, tg, lanes, listeners), tg, lane, pcm@, listeners);
}

proof fn lemma_lane_is_sent_each(
    s: StreamsState,
    tg: u32,
    lane: LegKey,
    pcm: Seq<i16>,
    listeners: Seq<Listener>,
)
    ensures
        lane_sent(s, tg, lane, pcm, listeners) == s.sent_each(
            made_for(lane, listeners),
            audio(tg, pcm),
        ),
    decreases listeners.len(),
{
    reveal(Seq::filter);
    if listeners.len() > 0 {
        let rest = listeners.drop_last();
        lemma_lane_is_sent_each(s, tg, lane, pcm, rest);
        if is_for(lane, listeners.last()) {
            assert(made_for(lane, listeners) =~= made_for(lane, rest).push(
                listeners.last().client,
            ));
            assert(made_for(lane, listeners).drop_last() =~= made_for(lane, rest));
        } else {
            assert(made_for(lane, listeners) =~= made_for(lane, rest));
        }
    } else {
        assert(made_for(lane, listeners) =~= Seq::empty());
    }
}

/// A listener gets the rendering of their own mode and side of the patch, and
/// shares it with whoever has the same link.
pub proof fn a_listener_gets_the_rendering_of_their_own_link(a: Listener, b: Listener)
    ensures
        ({
            let lane = key(Sink { mode: a.mode, quality: a.quality, bridged: a.bridged });
            &&& is_for(lane, a)
            &&& a.mode != b.mode ==> !is_for(lane, b)
            &&& a.bridged != b.bridged ==> !is_for(lane, b)
            &&& a.mode == b.mode && a.bridged == b.bridged && a.quality == b.quality ==> is_for(
                lane,
                b,
            )
        }),
{
}

// -- who leaves -------------------------------------------------------------

/// A player whose token is withdrawn loses every token and the socket, and a
/// server that goes takes all of its players' with it. Nobody else loses
/// either, and nothing already on its way is recalled.
pub proof fn leaving_takes_nobody_else_along(
    s: StreamsState,
    client: ClientId,
    server: u32,
    t: Seq<char>,
    other: ClientId,
)
    ensures
        s.revoked(client).outbox == s.outbox,
        s.server_dropped(server).outbox == s.outbox,
        s.revoked(client).tokens.get(t) == (if s.tokens.get(t) == Some(client) {
            None
        } else {
            s.tokens.get(t)
        }),
        s.revoked(client).connected.contains(other) <==> s.connected.contains(other) && other
            != client,
        s.server_dropped(server).tokens.get(t) == (match s.tokens.get(t) {
            Some(c) => if c.server == server {
                None
            } else {
                Some(c)
            },
            None => None,
        }),
        s.server_dropped(server).connected.contains(other) <==> s.connected.contains(other)
            && other.server != server,
{
}

// -- what a console does ----------------------------------------------------

/// A console's frame: 16 keys, 17 unkeys and 18 is audio. Anything else, and
/// anything too short to hold a route, does nothing.
pub proof fn a_console_keys_unkeys_and_talks(
    r: State,
    s: StreamsState,
    client: ClientId,
    frame: Seq<u8>,
    at: u64,
    r_after: State,
    s_after: StreamsState,
    event: ConsoleEvent,
    tg: u32,
)
    requires
        handled(r, s, client, frame, at, r_after, s_after, event),
        frame.len() >= 6 ==> tg == frame[2] * 16777216 + frame[3] * 65536 + frame[4] * 256
            + frame[5],
    ensures
        frame.len() < 6 || !(16 <= frame[0] <= 18) ==> event is Ignored && r_after == r && s_after
            == s,
        frame.len() >= 6 && frame[0] == 16 ==> event is Press && event->Press_0 == tg && r_after
            == r.keyed_at(tg, client, at).0 && (event->Press_1 is Ok <==> r.keyed_at(
            tg,
            client,
            at,
        ).1 is Ok),
        frame.len() >= 6 && frame[0] == 17 ==> event == ConsoleEvent::Release(tg) && r_after
            == r.unkeyed_as(tg, client),
        frame.len() >= 6 && frame[0] == 18 ==> r_after == r && s_after == s && (event is NotKeyed
            <==> r.silent(client)) && !(event is Ignored) && !(event is Press) && !(
        event is Release),
        event matches ConsoleEvent::Audio(live, src, listeners, pcm) ==> r.on_air(client, live)
            && pcm@.len() == (frame.len() - 6) / 2 && (forall|i: int|
            0 <= i < pcm@.len() ==> (#[trigger] pcm@[i] - frame[6 + 2 * i] - frame[7 + 2 * i] * 256)
                % 65536 == 0),
{
    if frame.len() >= 6 {
        a_route_is_read_high_byte_first(frame);
        if let ConsoleEvent::Audio(live, src, listeners, pcm) = event {
            let body = frame.skip(6);
            assert forall|i: int| 0 <= i < pcm@.len() implies (#[trigger] pcm@[i] - frame[6 + 2 * i]
                - frame[7 + 2 * i] * 256) % 65536 == 0 by {
                crate::bytes::a_sample_is_two_bytes_low_first(Seq::empty(), body, i);
                assert(body[2 * i] == frame[6 + 2 * i]);
                assert(body[2 * i + 1] == frame[7 + 2 * i]);
            }
        }
    }
}

/// A refused press is answered to the console that pressed, with the reason,
/// and nobody else hears of it.
pub proof fn a_refusal_is_told_to_who_pressed(
    r: State,
    s: StreamsState,
    client: ClientId,
    frame: Seq<u8>,
    at: u64,
    r_after: State,
    s_after: StreamsState,
    event: ConsoleEvent,
    why: &'static str,
)
    requires
        handled(r, s, client, frame, at, r_after, s_after, event),
        frame.len() >= 6,
        frame[0] == 16,
        event->Press_1 == Err::<Keyed, &'static str>(why),
    ensures
        s_after.tokens == s.tokens,
        s_after.connected == s.connected,
        s.connected.contains(client) ==> s_after.outbox == s.outbox.push(
            (client, deny(event->Press_0, why@)),
        ),
        !s.connected.contains(client) ==> s_after.outbox == s.outbox,
{
}

/// The words on every console when dispatch takes a route, and when it is let
/// go: a press that is granted says DISPATCH on every console monitoring the
/// route and on the one that pressed, and a release that clears the route says
/// so with no name. A unit that was cut off is told first: that dispatch took
/// the route from it, and that its call is over.
pub proof fn every_console_is_told(
    r: State,
    s: StreamsState,
    client: ClientId,
    frame: Seq<u8>,
    at: u64,
    r_after: State,
    s_after: StreamsState,
    event: ConsoleEvent,
    tg: u32,
    c: ClientId,
)
    requires
        handled(r, s, client, frame, at, r_after, s_after, event),
        frame.len() >= 6,
        tg == frame[2] * 16777216 + frame[3] * 65536 + frame[4] * 256 + frame[5],
        frame[0] == 16 && event->Press_1 is Ok || frame[0] == 17 && r_after.is_clear(tg),
        s.connected.contains(c),
    ensures
        ({
            let told = if frame[0] == 16 {
                call(tg, true, "DISPATCH"@)
            } else {
                call(tg, false, ""@)
            };
            let hears = c == client || r_after.listens(tg, c) && c.console();
            let cut = frame[0] == 16 && event->Press_1 == Ok::<Keyed, &'static str>(
                Keyed::Preempted(c),
            );
            let deny_words = deny(tg, "preempted by dispatch"@);
            let over = call(tg, false, ""@);
            &&& hears ==> s_after.outbox.skip(s.outbox.len() as int).contains((c, told))
            &&& !hears && !cut ==> !s_after.outbox.skip(s.outbox.len() as int).map_values(
                |o: (ClientId, Seq<u8>)| o.0,
            ).contains(c)
            &&& cut ==> s_after.outbox.len() >= s.outbox.len() + 2 && s_after.outbox[s.outbox.len() as int]
                == (c, deny_words) && s_after.outbox[s.outbox.len() as int + 1] == (c, over)
            &&& s_after.outbox.take(s.outbox.len() as int) == s.outbox
        }),
{
    a_route_is_read_high_byte_first(frame);
    let told = if frame[0] == 16 {
        call(tg, true, "DISPATCH"@)
    } else {
        call(tg, false, ""@)
    };
    let cut_first = if frame[0] == 16 {
        match event->Press_1 {
            Ok(Keyed::Preempted(was)) => cut_off(s, was, tg),
            _ => s,
        }
    } else {
        s
    };
    let watching = choose|watching: Seq<ClientId>| #[trigger]
        lists_consoles(r_after, tg, watching) && s_after == cut_first.sent_each(
            watching,
            told,
        ).sent(client, told);
    assert(lists_consoles(r_after, tg, watching) && s_after == cut_first.sent_each(
        watching,
        told,
    ).sent(client, told));
    a_frame_goes_once_to_each_socket(cut_first, watching, told);
    let up = |x: ClientId| cut_first.connected.contains(x);
    let to = |x: ClientId| (x, told);
    let n = s.outbox.len() as int;
    let m = cut_first.outbox.len() as int;
    let listed = watching.filter(up);
    lemma_filter_contains(watching, up);
    let mid = cut_first.outbox + listed.map_values(to);
    let new = s_after.outbox.skip(n);
    let whom = |o: (ClientId, Seq<u8>)| o.0;
    assert(s_after.outbox.take(n) =~= s.outbox);
    if c == client {
        assert(s_after.outbox == mid.push((c, told)));
        assert(new.last() == (c, told));
    } else if r_after.listens(tg, c) && c.console() {
        assert(listed.contains(c));
        let k = choose|k: int| 0 <= k < listed.len() && listed[k] == c;
        assert(mid[m + k] == (c, told));
        assert(new[m + k - n] == (c, told));
    } else {
        assert(!listed.contains(c));
        assert forall|k: int| m <= k < s_after.outbox.len() implies (#[trigger]
        s_after.outbox[k]).0 != c by {
            if k < mid.len() {
                assert(s_after.outbox[k] == (listed[k - m], told));
                assert(listed.contains(listed[k - m]));
            }
        }
        if new.map_values(whom).contains(c) {
            let k = choose|k: int|
                0 <= k < new.map_values(whom).len() && new.map_values(whom)[k] == c;
            assert(s_after.outbox[n + k].0 == c);
        }
    }
}

/// A page's token is found in its query by its name, whatever stands before it,
/// and a query without one has none.
pub proof fn a_token_is_found_by_its_name(before: Seq<char>, t: Seq<char>, other: Seq<char>)
    requires
        !t.contains('&'),
        !other.contains('&'),
        after_prefix(other, "token="@) is None,
    ensures
        token("token="@ + t) == Some(t),
        token(before + seq!['&'] + ("token="@ + t)) == Some(t),
        token(other) is None,
        token(before + seq!['&'] + other) == token(before),
{
    reveal_strlit("token=");
    let named = "token="@ + t;
    assert(!named.contains('&')) by {
        if named.contains('&') {
            let i = choose|i: int| 0 <= i < named.len() && named[i] == '&';
            if i >= 6 {
                assert(t[i - 6] == '&');
            }
        }
    }
    crate::text::what_was_joined_comes_apart(before, named, '&');
    crate::text::what_was_joined_comes_apart(before, other, '&');
    crate::text::what_follows_a_prefix("token="@, t, named);
    reveal_with_fuel(last_with_prefix, 2);
    let early = split(before, '&');
    assert((early + seq![named]).last() == named);
    assert((early + seq![other]).last() == other);
    assert((early + seq![other]).drop_last() =~= early);
    assert(seq![named].last() == named);
    assert(seq![other].drop_last() =~= Seq::<Seq<char>>::empty());
}

/// A socket that comes up is greeted, once, and sent to from then on; one that
/// goes is sent nothing more. A token opens the socket of whoever it was handed
/// in for last. None of them is anything to anybody else.
pub proof fn sockets_come_and_go(
    s: StreamsState,
    client: ClientId,
    other: ClientId,
    token: Seq<char>,
    t: Seq<char>,
    frame: Seq<u8>,
)
    ensures
        ({
            let up = s.came_up(client);
            let down = s.went_away(client);
            let known = s.authorized(token, client);
            &&& up.connected.contains(other) <==> s.connected.contains(other) || other == client
            &&& up.outbox == s.outbox.push((client, seq![0u8, 0u8, 0u8, 31u8, 64u8]))
            &&& up.tokens == s.tokens
            &&& up.sent(client, frame).outbox == up.outbox.push((client, frame))
            &&& down.connected.contains(other) <==> s.connected.contains(other) && other != client
            &&& down.sent(client, frame) == down
            &&& down.outbox == s.outbox
            &&& down.tokens == s.tokens
            &&& known.tokens.get(t) == (if t == token {
                Some(client)
            } else {
                s.tokens.get(t)
            })
            &&& known.connected == s.connected
            &&& known.outbox == s.outbox
        }),
{
    a_frame_is_its_kind_route_and_body(0, false, Seq::empty(), Seq::empty());
}

/// What a console says goes to everybody who listens on the channel it is keyed
/// on, a patch included, and not back to itself. It goes out as the console's own
/// link would carry it.
pub proof fn a_console_is_heard_by_everybody_else(
    r: State,
    s: StreamsState,
    client: ClientId,
    frame: Seq<u8>,
    at: u64,
    r_after: State,
    s_after: StreamsState,
    event: ConsoleEvent,
    c: ClientId,
)
    requires
        handled(r, s, client, frame, at, r_after, s_after, event),
        frame.len() >= 6,
        frame[0] == 18,
    ensures
        event matches ConsoleEvent::Audio(live, src, listeners, pcm) ==> {
            &&& r.on_air(client, live)
            &&& src == r.source_sink(live, client)
            &&& listeners@.len() > 0
            &&& (exists|i: int| 0 <= i < listeners@.len() && (#[trigger] listeners@[i]).client == c)
                <==> c != client && exists|t: u32| #[trigger]
                r.joined(live).contains(t) && r.listens(t, c)
        },
        event matches ConsoleEvent::NobodyListening(live) ==> r.on_air(client, live) && (c != client
            ==> forall|t: u32| #[trigger] r.joined(live).contains(t) ==> !r.listens(t, c)),
{
    match event {
        ConsoleEvent::Audio(live, src, listeners, pcm) => {
            crate::laws::the_audience_is_who_listens(r, live, client, listeners@, c);
            if c != client && exists|t: u32| #[trigger]
                r.joined(live).contains(t) && r.listens(t, c) {
                let t = choose|t: u32| #[trigger] r.joined(live).contains(t) && r.listens(t, c);
                assert(r.joined(live).contains(t) && r.routes.contains_key(t)
                    && r.routes[t].members.contains_key(c) && r.routes[t].members[c].listen);
            }
            if exists|t: u32| #[trigger]
                r.joined(live).contains(t) && r.routes.contains_key(t)
                    && r.routes[t].members.contains_key(c) && r.routes[t].members[c].listen {
                let t = choose|t: u32| #[trigger]
                    r.joined(live).contains(t) && r.routes.contains_key(t)
                        && r.routes[t].members.contains_key(c) && r.routes[t].members[c].listen;
                assert(r.joined(live).contains(t) && r.listens(t, c));
            }
        },
        ConsoleEvent::NobodyListening(live) => {
            crate::laws::the_audience_is_who_listens(r, live, client, Seq::empty(), c);
            if c != client {
                assert forall|t: u32| #[trigger] r.joined(live).contains(t) implies !r.listens(
                    t,
                    c,
                ) by {
                    if r.listens(t, c) {
                        assert(r.joined(live).contains(t) && r.routes.contains_key(t)
                            && r.routes[t].members.contains_key(c)
                            && r.routes[t].members[c].listen);
                    }
                }
            }
        },
        _ => {},
    }
}

} // verus!

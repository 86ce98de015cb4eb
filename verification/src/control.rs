//! The control API: what game servers and consoles post.
//!
//! No audio crosses this link - it carries routing decisions only.

use crate::bytes::samples_bytes;
use crate::dsp::{LegKey, Mode, RATE};
use crate::http::{b64, base64, Head, HeadState};
use crate::json::{payload, payload_of, Datum, Document, Json, Reply};
use crate::laws::{
    a_release_ends_nobody_else, clear_means_nobody_is_up,
    detaching_releases_and_resubscribing_does_not,
};
use crate::mumble::{best_recording, is_best, is_source_side};
use crate::patches::{groups_of, joined_is_the_connected_component};
use crate::recorder::{Active, ActiveState};
use crate::router::{ClientId, Keyed, Listener, Member, Router, CONSOLE_SERVER};
use crate::routing::{not_from, State};
use crate::seqs::{lemma_filter_contains, lemma_push_contains};
use crate::servers::{
    a_key_resolves_to_its_server, an_unknown_key_resolves_to_nothing, constant_time_eq, hash_of,
    hashable, index_of, is_key, key_digest, mint_key, KeyIndex, NoRandomness, ServerState,
};
use crate::stream::{call, deliver, lanes_sent, Streams, StreamsState};
use crate::text::{same_text, write_str};
use vstd::prelude::*;
use vstd::utf8::encode_utf8_decode_utf8;

verus! {

/// What the control API works on.
#[verifier::ext_equal]
pub struct NodeState {
    pub router: State,
    pub streams: StreamsState,
    pub rec: ActiveState,
    /// What the next console to attach is numbered.
    pub next_console: u32,
}

pub struct Node {
    pub router: Router,
    pub streams: Streams,
    pub rec: Active,
    pub next_console: u32,
}

impl NodeState {
    /// The router's clock was read.
    pub open spec fn read_at(self, at: u64) -> NodeState {
        NodeState { router: self.router.read_at(at), ..self }
    }

    /// A server went, and everything of it.
    pub open spec fn without_server(self, server: u32) -> NodeState {
        NodeState {
            router: self.router.server_dropped(server),
            streams: self.streams.server_dropped(server),
            ..self
        }
    }
}

/// What carrying a transmission comes to: everybody it was rendered for is sent
/// it, and what is to be recorded of it, with which rendering that is.
pub open spec fn is_carried(
    before: NodeState,
    tg: u32,
    mode: Mode,
    lanes: Seq<(LegKey, Vec<i16>)>,
    listeners: Seq<Listener>,
    after: NodeState,
    r: Option<(usize, Vec<u8>)>,
) -> bool {
    &&& after == (NodeState {
        streams: lanes_sent(before.streams, tg, lanes, listeners),
        ..before
    })
    &&& match r {
        Some((i, bytes)) => {
            &&& is_best(lanes, mode, i as int)
            &&& before.rec.is_writing(tg)
            &&& bytes@ == samples_bytes(lanes[i as int].1@)
        },
        None => before.rec.is_writing(tg) ==> forall|j: int|
            0 <= j < lanes.len() ==> !is_source_side((#[trigger] lanes[j]).0, mode),
    }
}

impl View for Node {
    type V = NodeState;

    open spec fn view(&self) -> NodeState {
        NodeState {
            router: self.router@,
            streams: self.streams@,
            rec: self.rec@,
            next_console: self.next_console,
        }
    }
}

impl Node {
    /// A node that routes nothing yet. Consoles are numbered from one.
    pub fn new(rec: Active) -> (n: Node)
        ensures
            n@ == (NodeState {
                router: State::empty(),
                streams: StreamsState::empty(),
                rec: rec@,
                next_console: 1,
            }),
    {
        Node { router: Router::default(), streams: Streams::default(), rec, next_console: 1 }
    }

    /// Takes what was rendered of a transmission: everybody it was rendered for
    /// is sent it, and the bytes to record of it are handed back, with which
    /// rendering they are.
    ///
    /// What is recorded is what the SOURCE side heard at its cleanest, while a
    /// call is being recorded on the route.
    pub fn carry(
        &mut self,
        tg: u32,
        mode: Mode,
        lanes: &Vec<(LegKey, Vec<i16>)>,
        listeners: &Vec<Listener>,
    ) -> (r: Option<(usize, Vec<u8>)>)
        ensures
            is_carried(old(self)@, tg, mode, lanes@, listeners@, final(self)@, r),
            final(self)@ == (NodeState {
                streams: lanes_sent(old(self)@.streams, tg, lanes@, listeners@),
                ..old(self)@
            }),
            match r {
                Some((i, bytes)) => {
                    &&& is_best(lanes@, mode, i as int)
                    &&& old(self)@.rec.is_writing(tg)
                    &&& bytes@ == samples_bytes(lanes@[i as int].1@)
                },
                None => old(self)@.rec.is_writing(tg) ==> forall|j: int|
                    0 <= j < lanes@.len() ==> !is_source_side((#[trigger] lanes@[j]).0, mode),
            },
    {
        deliver(&mut self.streams, tg, lanes, listeners);
        match best_recording(lanes, mode) {
            Some(i) => match self.rec.push(tg, &lanes[i].1) {
                Some(bytes) => Some((i, bytes)),
                None => None,
            },
            None => None,
        }
    }

    /// A server is gone, and takes its identities, its places on routes, its
    /// tokens and its sockets with it. Everyone else keeps talking.
    pub fn drop_server(&mut self, server: u32)
        ensures
            final(self)@ == old(self)@.without_server(server),
            final(self)@ == (NodeState {
                router: old(self)@.router.server_dropped(server),
                streams: old(self)@.streams.server_dropped(server),
                ..old(self)@
            }),
    {
        self.router.drop_server(server);
        self.streams.drop_server(server);
    }
}

// -- replies ----------------------------------------------------------------

pub open spec fn ok() -> (Seq<char>, Datum) {
    ("ok"@, Datum::Flag(true))
}

/// A refusal, in words.
pub open spec fn refusal(words: Seq<char>) -> Seq<(Seq<char>, Datum)> {
    seq![("ok"@, Datum::Flag(false)), ("error"@, Datum::Words(words))]
}

fn fine() -> (r: Reply)
    ensures
        r@ == seq![ok()],
{
    let r = Reply::new().flag("ok", true);
    assert(r@ =~= seq![ok()]);
    r
}

fn refuse(words: &str) -> (r: Reply)
    ensures
        r@ == refusal(words@),
{
    let r = Reply::new().flag("ok", false).words("error", words.to_owned());
    assert(r@ =~= refusal(words@));
    r
}

fn refuse_unknown(what: &str, name: &str) -> (r: Reply)
    ensures
        r@ == refusal(what@ + name@),
{
    let mut words = String::new();
    write_str(&mut words, what);
    write_str(&mut words, name);
    assert(words@ =~= what@ + name@);
    refuse(words.as_str())
}

// -- announcing calls -------------------------------------------------------

/// The first of several routes a client listens on.
pub open spec fn first_route(r: State, group: Seq<u32>, c: ClientId) -> Option<u32>
    decreases group.len(),
{
    if group.len() == 0 {
        None
    } else {
        match first_route(r, group.drop_last(), c) {
            Some(m) => Some(m),
            None => if r.listens(group.last(), c) {
                Some(group.last())
            } else {
                None
            },
        }
    }
}

/// A list of every console listening anywhere on a route's patch group, each
/// once, with the route IT holds.
pub open spec fn lists_watchers(r: State, group: Seq<u32>, told: Seq<(ClientId, u32)>) -> bool {
    &&& forall|i: int, j: int|
        0 <= i < j < told.len() ==> (#[trigger] told[i]).0 != (#[trigger] told[j]).0
    &&& forall|c: ClientId, m: u32| #[trigger]
        told.contains((c, m)) <==> c.console() && first_route(r, group, c) == Some(m)
}

/// A call frame sent to each of several clients, each about its own route.
pub open spec fn called_each(
    s: StreamsState,
    told: Seq<(ClientId, u32)>,
    keyed: bool,
    talker: Seq<char>,
) -> StreamsState
    decreases told.len(),
{
    if told.len() == 0 {
        s
    } else {
        let (c, m) = told.last();
        called_each(s, told.drop_last(), keyed, talker).sent(c, call(m, keyed, talker))
    }
}

/// A call was announced: across the patch group, and on the route each console
/// is actually watching. Consoles only; players learn of calls from their own
/// server.
pub open spec fn announced(
    before: StreamsState,
    after: StreamsState,
    r: State,
    tg: u32,
    keyed: bool,
    talker: Seq<char>,
) -> bool {
    exists|told: Seq<(ClientId, u32)>| #[trigger]
        lists_watchers(r, r.joined(tg), told) && after == called_each(before, told, keyed, talker)
}

/// Pushes a call event to every CONSOLE listening to a talkgroup.
pub fn announce_call(r: &Router, s: &mut Streams, tg: u32, keyed: bool, talker: &str)
    ensures
        announced(old(s)@, final(s)@, r@, tg, keyed, talker@),
{
    let group = r.joined(tg);
    let ghost before = s@;
    let mut told: Vec<(ClientId, u32)> = Vec::new();
    let mut i: usize = 0;
    while i < group.len()
        invariant
            i <= group.len(),
            lists_watchers(r@, group@.take(i as int), told@),
            s@ == called_each(before, told@, keyed, talker@),
        decreases group.len() - i,
    {
        let member: u32 = group[i];
        let ghost done = group@.take(i as int);
        let ghost more = group@.take(i as int + 1);
        assert(more.drop_last() =~= done);
        let clients = r.listeners_of(member);
        let mut k: usize = 0;
        while k < clients.len()
            invariant
                k <= clients.len(),
                clients@.no_duplicates(),
                forall|c: ClientId| #[trigger] clients@.contains(c) <==> r@.listens(member, c),
                more.len() > 0,
                more.drop_last() == done,
                more.last() == member,
                s@ == called_each(before, told@, keyed, talker@),
                forall|a: int, b: int|
                    0 <= a < b < told@.len() ==> (#[trigger] told@[a]).0 != (#[trigger] told@[b]).0,
                forall|c: ClientId, m: u32| #[trigger]
                    told@.contains((c, m)) <==> c.console() && first_route(
                        r@,
                        if clients@.take(k as int).contains(c) {
                            more
                        } else {
                            done
                        },
                        c,
                    ) == Some(m),
            decreases clients.len() - k,
        {
            let c = clients[k];
            let ghost had = told@;
            let ghost upto = clients@.take(k as int);
            let ghost next = clients@.take(k as int + 1);
            proof {
                assert(next =~= upto.push(c));
                lemma_push_contains(upto, c);
                assert(clients@.contains(c));
                assert(!upto.contains(c)) by {
                    if upto.contains(c) {
                        let j = choose|j: int| 0 <= j < upto.len() && upto[j] == c;
                        assert(clients@[j] == clients@[k as int]);
                    }
                }
            }
            let already = is_told(&told, c);
            if c.is_console() && !already {
                proof {
                    lemma_push_contains(had, (c, member));
                    assert(first_route(r@, done, c) is None) by {
                        if let Some(m) = first_route(r@, done, c) {
                            assert(had.contains((c, m)));
                            let j = choose|j: int| 0 <= j < had.len() && had[j] == (c, m);
                            assert(had[j].0 == c);
                        }
                    }
                    assert(first_route(r@, more, c) == Some(member));
                }
                told.push((c, member));
                s.send_call(c, member, keyed, talker);
                proof {
                    assert(told@.drop_last() =~= had);
                    assert forall|a: int, b: int| 0 <= a < b < told@.len() implies (
                    #[trigger] told@[a]).0 != (#[trigger] told@[b]).0 by {
                        assert(had[a].0 != c);
                    }
                    assert forall|x: ClientId, m: u32| #[trigger]
                        told@.contains((x, m)) <==> x.console() && first_route(
                            r@,
                            if next.contains(x) {
                                more
                            } else {
                                done
                            },
                            x,
                        ) == Some(m) by {
                        assert(told@.contains((x, m)) <==> had.contains((x, m)) || (x, m) == (
                            c,
                            member,
                        ));
                        assert(next.contains(x) <==> upto.contains(x) || x == c);
                        if x == c {
                            assert(!had.contains((x, m))) by {
                                if had.contains((x, m)) {
                                    let j = choose|j: int| 0 <= j < had.len() && had[j] == (x, m);
                                    assert(had[j].0 == c);
                                }
                            }
                        }
                    }
                }
            } else {
                proof {
                    assert forall|x: ClientId, m: u32| #[trigger]
                        told@.contains((x, m)) <==> x.console() && first_route(
                            r@,
                            if next.contains(x) {
                                more
                            } else {
                                done
                            },
                            x,
                        ) == Some(m) by {
                        assert(next.contains(x) <==> upto.contains(x) || x == c);
                        if x == c && c.console() {
                            let j = choose|j: int| 0 <= j < told@.len() && (#[trigger] told@[j]).0
                                == c;
                            assert(told@.contains((c, told@[j].1)));
                            assert(first_route(r@, done, c) == Some(told@[j].1));
                        }
                    }
                }
            }
            k += 1;
        }
        proof {
            assert(clients@.take(k as int) =~= clients@);
            assert forall|c: ClientId, m: u32| #[trigger]
                told@.contains((c, m)) <==> c.console() && first_route(r@, more, c) == Some(m) by {
                if !clients@.contains(c) {
                    assert(first_route(r@, more, c) == first_route(r@, done, c));
                }
            }
        }
        i += 1;
    }
    assert(group@.take(i as int) =~= group@);
}

fn is_told(told: &Vec<(ClientId, u32)>, c: ClientId) -> (b: bool)
    ensures
        b == exists|j: int| 0 <= j < told@.len() && (#[trigger] told@[j]).0 == c,
{
    let mut i: usize = 0;
    while i < told.len()
        invariant
            i <= told.len(),
            forall|j: int| 0 <= j < i ==> (#[trigger] told@[j]).0 != c,
        decreases told.len() - i,
    {
        if told[i].0 == c {
            return true;
        }
        i += 1;
    }
    false
}

// -- reading requests -------------------------------------------------------

/// Player ids are unique only within one server, so a client is always the
/// pair, and the server half comes from the AUTHENTICATED key, never from the
/// request body.
pub open spec fn client(server: u32, body: Document) -> Option<ClientId> {
    match body.u32_at("client"@) {
        Some(player) => Some(ClientId { server, player }),
        None => None,
    }
}

pub fn client_of(server: u32, body: &Json) -> (r: Option<ClientId>)
    ensures
        r == client(server, body.view()),
{
    match body.u32_at("client") {
        Some(player) => Some(ClientId::new(server, player)),
        None => None,
    }
}

pub fn u32_of(body: &Json, name: &str) -> (r: Option<u32>)
    ensures
        r == body.view().u32_at(name@),
{
    body.u32_at(name)
}

/// How a request puts a client on a route: listening only if it says so, and
/// with a link from 0 to 100 that is full quieting if it does not say.
pub open spec fn membership(body: Document) -> Member {
    Member {
        listen: body.flag_at("listen"@),
        quality: match body.u32_at("quality"@) {
            Some(q) => if q < 100 {
                q as u8
            } else {
                100
            },
            None => 100,
        },
    }
}

fn membership_of(body: &Json) -> (m: Member)
    ensures
        m == membership(body.view()),
{
    let quality: u8 = match u32_of(body, "quality") {
        Some(q) => if q < 100 {
            q as u8
        } else {
            100
        },
        None => 100,
    };
    Member { listen: body.flag_at("listen"), quality }
}

/// The whole numbers of a list, each cut down to 32 bits; anything else in it
/// is passed over.
pub open spec fn numbers(items: Seq<Document>) -> Seq<u32>
    decreases items.len(),
{
    if items.len() == 0 {
        Seq::empty()
    } else {
        let earlier = numbers(items.drop_last());
        match items.last().as_u64() {
            Some(n) => earlier.push((n % 0x1_0000_0000) as u32),
            None => earlier,
        }
    }
}

/// The documents of a list.
pub open spec fn documents(items: Seq<Json>) -> Seq<Document> {
    items.map_values(|j: Json| j.view())
}

fn numbers_of(items: &Vec<Json>) -> (out: Vec<u32>)
    ensures
        out@ == numbers(documents(items@)),
{
    let ghost all = documents(items@);
    let mut out: Vec<u32> = Vec::new();
    let mut i: usize = 0;
    while i < items.len()
        invariant
            i <= items.len(),
            all == documents(items@),
            out@ == numbers(all.take(i as int)),
        decreases items.len() - i,
    {
        assert(all.take(i as int + 1).drop_last() =~= all.take(i as int));
        if let Some(n) = items[i].as_u64() {
            out.push((n % 0x1_0000_0000) as u32);
        }
        i += 1;
    }
    assert(all.take(i as int) =~= all);
    out
}

proof fn lemma_list_items(j: Json)
    ensures
        j matches Json::List(items, text) ==> j.view() == Document::List(
            documents(items@),
            text@,
        ),
{
    if let Json::List(items, text) = j {
        assert(j.view()->List_0 =~= documents(items@));
    }
}

/// The talkgroups a console asks for.
pub open spec fn talkgroups(body: Document) -> Seq<u32> {
    match body.list_at("talkgroups"@) {
        Some(items) => numbers(items),
        None => Seq::empty(),
    }
}

fn talkgroups_of(body: &Json) -> (out: Vec<u32>)
    ensures
        out@ == talkgroups(body.view()),
{
    match body.get("talkgroups") {
        Some(j) => {
            proof {
                lemma_list_items(*j);
            }
            match j {
                Json::List(items, _text) => numbers_of(items),
                _ => Vec::new(),
            }
        },
        None => Vec::new(),
    }
}

/// The groups of a patch table: lists of numbers, and only those that join
/// anything.
pub open spec fn patch_groups(items: Seq<Document>) -> Seq<Seq<u32>>
    decreases items.len(),
{
    if items.len() == 0 {
        Seq::empty()
    } else {
        let earlier = patch_groups(items.drop_last());
        match items.last().as_list() {
            Some(group) => if numbers(group).len() > 1 {
                earlier.push(numbers(group))
            } else {
                earlier
            },
            None => earlier,
        }
    }
}

fn patch_groups_of(items: &Vec<Json>) -> (out: Vec<Vec<u32>>)
    ensures
        groups_of(out) == patch_groups(documents(items@)),
{
    let ghost all = documents(items@);
    let mut out: Vec<Vec<u32>> = Vec::new();
    let mut i: usize = 0;
    assert(groups_of(out) =~= Seq::empty());
    while i < items.len()
        invariant
            i <= items.len(),
            all == documents(items@),
            groups_of(out) == patch_groups(all.take(i as int)),
        decreases items.len() - i,
    {
        assert(all.take(i as int + 1).drop_last() =~= all.take(i as int));
        proof {
            lemma_list_items(items@[i as int]);
        }
        if let Json::List(group, _text) = &items[i] {
            let found = numbers_of(group);
            if found.len() > 1 {
                let ghost had = out;
                let ghost numbers_found = found@;
                out.push(found);
                assert(groups_of(out) =~= groups_of(had).push(numbers_found));
            }
        }
        i += 1;
    }
    assert(all.take(i as int) =~= all);
    out
}

// -- many members at once ---------------------------------------------------

/// One member update applied, if it names a route and a client.
pub open spec fn member_set(r: State, server: u32, body: Document) -> State {
    match (body.u32_at("tg"@), client(server, body)) {
        (Some(tg), Some(c)) => r.with_member(tg, c, membership(body)),
        _ => r,
    }
}

pub open spec fn names_member(server: u32, body: Document) -> bool {
    body.u32_at("tg"@) is Some && client(server, body) is Some
}

/// Member updates applied one after another.
pub open spec fn members_set(r: State, server: u32, items: Seq<Document>) -> State
    decreases items.len(),
{
    if items.len() == 0 {
        r
    } else {
        member_set(members_set(r, server, items.drop_last()), server, items.last())
    }
}

/// How many of them there was anything to apply of.
pub open spec fn applied(server: u32, items: Seq<Document>) -> nat
    decreases items.len(),
{
    if items.len() == 0 {
        0
    } else {
        applied(server, items.drop_last()) + if names_member(server, items.last()) {
            1nat
        } else {
            0
        }
    }
}

fn set_members(r: &mut Router, server: u32, items: &Vec<Json>) -> (n: u64)
    ensures
        final(r)@ == members_set(old(r)@, server, documents(items@)),
        n == applied(server, documents(items@)),
{
    let ghost all = documents(items@);
    let mut n: u64 = 0;
    let mut i: usize = 0;
    while i < items.len()
        invariant
            i <= items.len(),
            n <= i,
            all == documents(items@),
            r@ == members_set(old(r)@, server, all.take(i as int)),
            n == applied(server, all.take(i as int)),
        decreases items.len() - i,
    {
        assert(all.take(i as int + 1).drop_last() =~= all.take(i as int));
        let m = &items[i];
        if let (Some(tg), Some(c)) = (u32_of(m, "tg"), client_of(server, m)) {
            let member = membership_of(m);
            r.set_member(tg, c, member.listen, member.quality);
            n += 1;
        }
        i += 1;
    }
    assert(all.take(i as int) =~= all);
    n
}

// -- what servers post ------------------------------------------------------

/// What a unit is called: a text as it is, anything else as it is written, and
/// nothing when the server did not say.
pub open spec fn unit_of(body: Document) -> Seq<char> {
    match body.get("unit"@) {
        Some(d) => d.shown(),
        None => Seq::empty(),
    }
}

/// A key request, answered.
pub open spec fn key_posted(
    before: NodeState,
    after: NodeState,
    server: u32,
    tg: u32,
    c: ClientId,
    unit: Seq<char>,
    at: u64,
    wall: u64,
    code: u16,
    reply: Seq<(Seq<char>, Datum)>,
) -> bool {
    let (router, outcome) = before.router.keyed_at(tg, c, at);
    &&& after.router == router
    &&& after.next_console == before.next_console
    &&& match outcome {
        // AM: accepted AND heard, on top of whoever was already there. The call
        // that is open is still theirs.
        Ok(Keyed::Mixed) => {
            &&& code == 200
            &&& reply == seq![ok(), ("mixed"@, Datum::Flag(true))]
            &&& after.streams == before.streams
            &&& after.rec == before.rec
        },
        // Accepted, not heard, and not announced as a call because it is not
        // one.
        Ok(Keyed::Doubled) => {
            &&& code == 200
            &&& reply == seq![ok(), ("doubled"@, Datum::Flag(true))]
            &&& after.streams == before.streams
            &&& after.rec == before.rec
        },
        // Consoles are told the moment the grant lands, before any audio.
        Ok(_) => {
            &&& code == 200
            &&& reply == seq![
                ok(),
                ("bound"@, Datum::Flag(before.router.sessions.contains_key(c))),
            ]
            &&& announced(before.streams, after.streams, router, tg, true, unit)
            &&& after.rec == before.rec.begun(tg, server, c.player, unit, RATE, wall)
        },
        // Usually another server got there first.
        Err(why) => {
            &&& code == 409
            &&& reply == refusal(why.text())
            &&& after.streams == before.streams
            &&& after.rec == before.rec
        },
    }
}

/// A release, answered. It ends a recording once its route is quiet, and a call
/// once the whole channel has gone clear: a release that released nothing ends
/// nothing.
pub open spec fn unkey_posted(
    before: NodeState,
    after: NodeState,
    tg: u32,
    c: Option<ClientId>,
) -> bool {
    let router = match c {
        Some(c) => before.router.unkeyed_as(tg, c),
        None => before.router.all_unkeyed(tg),
    };
    &&& after.router == router
    &&& after.next_console == before.next_console
    &&& after.rec == if router.talkers_on(tg).len() == 0 {
        before.rec.ended(tg)
    } else {
        before.rec
    }
    &&& if router.is_clear(tg) {
        announced(before.streams, after.streams, router, tg, false, ""@)
    } else {
        after.streams == before.streams
    }
}

/// A message a server posted, answered.
pub open spec fn dispatched(
    path: Seq<char>,
    body: Document,
    server: u32,
    at: u64,
    wall: u64,
    before: NodeState,
    after: NodeState,
    code: u16,
    reply: Seq<(Seq<char>, Datum)>,
) -> bool {
    let bad = |words: Seq<char>|
        code == 400 && reply == refusal(words) && after == before;
    let rerouted = |router: State| after == (NodeState { router, ..before });
    if path == "conv.open"@ {
        match body.u32_at("tg"@) {
            Some(id) => {
                &&& code == 200
                &&& reply == seq![
                    ok(),
                    ("fresh"@, Datum::Flag(!before.router.routes.contains_key(id))),
                ]
                &&& rerouted(before.router.opened_conventional(id, body.flag_at("am"@)))
            },
            None => bad("tg required"@),
        }
    } else if path == "tg.open"@ {
        match body.u32_at("tg"@) {
            Some(tg) => {
                &&& code == 200
                &&& reply == seq![
                    ok(),
                    ("fresh"@, Datum::Flag(!before.router.routes.contains_key(tg))),
                ]
                &&& rerouted(before.router.opened(tg, body.flag_at("encrypted"@)))
            },
            None => bad("tg required"@),
        }
    } else if path == "tg.close"@ {
        match body.u32_at("tg"@) {
            Some(tg) => code == 200 && reply == seq![ok()] && rerouted(before.router.closed(tg)),
            None => bad("tg required"@),
        }
    } else if path == "tg.members"@ {
        match body.list_at("members"@) {
            Some(items) => {
                &&& code == 200
                &&& reply == seq![
                    ok(),
                    ("applied"@, Datum::Count(applied(server, items) as u64)),
                ]
                &&& rerouted(members_set(before.router, server, items))
            },
            None => bad("members required"@),
        }
    } else if path == "tg.member"@ {
        if names_member(server, body) {
            code == 200 && reply == seq![ok()] && rerouted(
                member_set(before.router, server, body),
            )
        } else {
            bad("tg, server and client required"@)
        }
    } else if path == "key"@ {
        match (body.u32_at("tg"@), client(server, body)) {
            (Some(tg), Some(c)) => key_posted(
                before,
                after,
                server,
                tg,
                c,
                unit_of(body),
                at,
                wall,
                code,
                reply,
            ),
            _ => bad("tg, server and client required"@),
        }
    } else if path == "unkey"@ {
        match body.u32_at("tg"@) {
            Some(tg) => {
                &&& code == 200
                &&& reply == seq![ok()]
                &&& unkey_posted(before, after, tg, client(server, body))
            },
            None => bad("tg required"@),
        }
    } else if path == "session.token"@ {
        match (client(server, body), body.text_at("token"@)) {
            (Some(c), Some(token)) => if token.len() > 0 {
                &&& code == 200
                &&& reply == seq![ok()]
                &&& after == (NodeState {
                    streams: StreamsState {
                        tokens: before.streams.tokens.insert(token, c),
                        ..before.streams
                    },
                    ..before
                })
            } else {
                bad("server, client and non-empty token required"@)
            },
            _ => bad("server, client and non-empty token required"@),
        }
    } else if path == "session.drop"@ {
        match client(server, body) {
            Some(c) => {
                &&& code == 200
                &&& reply == seq![ok()]
                &&& after == (NodeState { streams: before.streams.revoked(c), ..before })
            },
            None => bad("server and client required"@),
        }
    } else if path == "stats"@ {
        &&& code == 200
        &&& reply == seq![
            ok(),
            ("server"@, Datum::Count(server as u64)),
            ("summary"@, Datum::Words(before.router.summary())),
            ("streams"@, Datum::Count(before.streams.connected.len() as u64)),
        ]
        &&& after == before
    } else {
        &&& code == 404
        &&& reply == refusal("unknown endpoint "@ + path)
        &&& after == before
    }
}

fn post_key(
    node: &mut Node,
    body: &Json,
    server: u32,
    tg: u32,
    c: ClientId,
    at: u64,
    wall: u64,
) -> (r: (u16, Reply))
    ensures
        key_posted(
            old(node)@,
            final(node)@,
            server,
            tg,
            c,
            unit_of(body.view()),
            at,
            wall,
            r.0,
            r.1@,
        ),
{
    let bound = node.router.session_of(c).is_some();
    match node.router.key_at(tg, c, at) {
        Ok(Keyed::Mixed) => {
            let reply = fine().flag("mixed", true);
            assert(reply@ =~= seq![ok(), ("mixed"@, Datum::Flag(true))]);
            (200, reply)
        },
        Ok(Keyed::Doubled) => {
            let reply = fine().flag("doubled", true);
            assert(reply@ =~= seq![ok(), ("doubled"@, Datum::Flag(true))]);
            (200, reply)
        },
        Ok(_) => {
            let unit = match body.get("unit") {
                Some(j) => j.shown(),
                None => String::new(),
            };
            assert(unit@ =~= unit_of(body.view()));
            announce_call(&node.router, &mut node.streams, tg, true, unit.as_str());
            node.rec.begin(tg, server, c.player, unit.as_str(), RATE, wall);
            let reply = fine().flag("bound", bound);
            assert(reply@ =~= seq![ok(), ("bound"@, Datum::Flag(bound))]);
            (200, reply)
        },
        Err(why) => (409, refuse(why)),
    }
}

fn post_unkey(node: &mut Node, tg: u32, c: Option<ClientId>)
    ensures
        unkey_posted(old(node)@, final(node)@, tg, c),
{
    // Scoped to the caller when it names one: dispatch can preempt a unit, and
    // the preempted unit still sends its own unkey.
    match c {
        Some(c) => {
            node.router.unkey_as(tg, c);
        },
        None => {
            node.router.unkey_everybody(tg);
        },
    }
    // AFTER the release, and only once the channel has actually gone clear.
    let talkers = node.router.talkers_on(tg);
    if talkers.len() == 0 {
        node.rec.end(tg);
    }
    if node.router.is_clear(tg) {
        announce_call(&node.router, &mut node.streams, tg, false, "");
    }
}

/// Answers a message a server posted, at the time of day `wall`, in seconds.
pub fn dispatch(path: &str, body: &Json, server: u32, node: &mut Node, wall: u64) -> (r: (
    u16,
    Reply,
))
    ensures
        exists|at: u64|
            old(node)@.router.latest <= at && #[trigger] dispatched(
                path@,
                body.view(),
                server,
                at,
                wall,
                old(node)@.read_at(at),
                final(node)@,
                r.0,
                r.1@,
            ),
{
    let at = node.router.now();
    assert(node@ =~= old(node)@.read_at(at));
    dispatch_at(path, body, server, node, at, wall)
}

/// The same, at an explicit moment on the router's clock.
pub fn dispatch_at(
    path: &str,
    body: &Json,
    server: u32,
    node: &mut Node,
    at: u64,
    wall: u64,
) -> (r: (u16, Reply))
    ensures
        dispatched(
            path@,
            body.view(),
            server,
            at,
            wall,
            old(node)@,
            final(node)@,
            r.0,
            r.1@,
        ),
{
    if same_text(path, "conv.open") {
        return match u32_of(body, "tg") {
            Some(id) => {
                let fresh = node.router.open_conventional(id, body.flag_at("am"));
                let reply = fine().flag("fresh", fresh);
                assert(reply@ =~= seq![ok(), ("fresh"@, Datum::Flag(fresh))]);
                (200, reply)
            },
            None => (400, refuse("tg required")),
        };
    }
    if same_text(path, "tg.open") {
        return match u32_of(body, "tg") {
            Some(tg) => {
                let fresh = node.router.open(tg, body.flag_at("encrypted"));
                let reply = fine().flag("fresh", fresh);
                assert(reply@ =~= seq![ok(), ("fresh"@, Datum::Flag(fresh))]);
                (200, reply)
            },
            None => (400, refuse("tg required")),
        };
    }
    if same_text(path, "tg.close") {
        return match u32_of(body, "tg") {
            Some(tg) => {
                node.router.close(tg);
                (200, fine())
            },
            None => (400, refuse("tg required")),
        };
    }
    if same_text(path, "tg.members") {
        if let Some(j) = body.get("members") {
            proof {
                lemma_list_items(*j);
            }
            if let Json::List(items, _text) = j {
                let n = set_members(&mut node.router, server, items);
                let reply = fine().count("applied", n);
                assert(reply@ =~= seq![ok(), ("applied"@, Datum::Count(n))]);
                return (200, reply);
            }
        }
        return (400, refuse("members required"));
    }
    if same_text(path, "tg.member") {
        return match (u32_of(body, "tg"), client_of(server, body)) {
            (Some(tg), Some(c)) => {
                let member = membership_of(body);
                node.router.set_member(tg, c, member.listen, member.quality);
                (200, fine())
            },
            _ => (400, refuse("tg, server and client required")),
        };
    }
    if same_text(path, "key") {
        return match (u32_of(body, "tg"), client_of(server, body)) {
            (Some(tg), Some(c)) => post_key(node, body, server, tg, c, at, wall),
            _ => (400, refuse("tg, server and client required")),
        };
    }
    if same_text(path, "unkey") {
        return match u32_of(body, "tg") {
            Some(tg) => {
                post_unkey(node, tg, client_of(server, body));
                (200, fine())
            },
            None => (400, refuse("tg required")),
        };
    }
    if same_text(path, "session.token") {
        if let (Some(c), Some(token)) = (client_of(server, body), body.text_at("token")) {
            if !token.as_str().is_empty() {
                node.streams.authorize(token, c);
                return (200, fine());
            }
        }
        return (400, refuse("server, client and non-empty token required"));
    }
    if same_text(path, "session.drop") {
        return match client_of(server, body) {
            Some(c) => {
                node.streams.revoke_player(c);
                (200, fine())
            },
            None => (400, refuse("server and client required")),
        };
    }
    if same_text(path, "stats") {
        let connected = node.streams.connected() as u64;
        let reply = fine().count("server", server as u64).words("summary", node.router.summary())
            .count("streams", connected);
        assert(reply@ =~= seq![
            ok(),
            ("server"@, Datum::Count(server as u64)),
            ("summary"@, Datum::Words(node@.router.summary())),
            ("streams"@, Datum::Count(connected)),
        ]);
        return (200, reply);
    }
    (404, refuse_unknown("unknown endpoint ", path))
}

// -- what consoles post -----------------------------------------------------

/// A question to the recording store.
#[verifier::ext_equal]
pub enum Asked {
    Index(u64, u64),
    Audio(Seq<char>),
}

pub enum Recall {
    /// The calls from a moment on, at most so many.
    Index(u64, u64),
    /// The audio of one call.
    Audio(String),
}

impl View for Recall {
    type V = Asked;

    open spec fn view(&self) -> Asked {
        match *self {
            Recall::Index(since, limit) => Asked::Index(since, limit),
            Recall::Audio(id) => Asked::Audio(id@),
        }
    }
}

/// What a message asks of the recording store, if it asks that at all.
pub open spec fn recalled(path: Seq<char>, body: Document) -> Option<Asked> {
    if path == "rec.index"@ {
        let since = match body.number_at("since"@) {
            Some(n) => n,
            None => 0,
        };
        let limit = match body.number_at("limit"@) {
            Some(n) => if n < 1000 {
                n
            } else {
                1000
            },
            None => 200,
        };
        Some(Asked::Index(since, limit))
    } else if path == "rec.audio"@ {
        Some(
            Asked::Audio(
                match body.text_at("id"@) {
                    Some(id) => id,
                    None => Seq::empty(),
                },
            ),
        )
    } else {
        None
    }
}

/// Answered without the router or the streams: a query that walks the whole
/// store must not hold up live audio.
pub fn recall(path: &str, body: &Json) -> (r: Option<Recall>)
    ensures
        match r {
            Some(q) => recalled(path@, body.view()) == Some(q@),
            None => recalled(path@, body.view()) is None,
        },
{
    if same_text(path, "rec.index") {
        let since = match body.number_at("since") {
            Some(n) => n,
            None => 0,
        };
        let limit = match body.number_at("limit") {
            Some(n) => if n < 1000 {
                n
            } else {
                1000
            },
            None => 200,
        };
        return Some(Recall::Index(since, limit));
    }
    if same_text(path, "rec.audio") {
        let id = match body.text_at("id") {
            Some(id) => id,
            None => String::new(),
        };
        assert(Some(Asked::Audio(id@)) =~= recalled(path@, body.view()));
        return Some(Recall::Audio(id));
    }
    None
}

/// The answer to a question for one call's audio.
pub open spec fn audio_answer(pcm: Option<Seq<u8>>) -> (u16, Seq<(Seq<char>, Datum)>) {
    match pcm {
        Some(bytes) => (
            200,
            seq![
                ok(),
                ("rate"@, Datum::Count(RATE as u64)),
                ("pcm"@, Datum::Words(base64(bytes))),
            ],
        ),
        None => (404, refusal("no such recording"@)),
    }
}

pub fn audio_reply(pcm: Option<Vec<u8>>) -> (r: (u16, Reply))
    ensures
        (r.0, r.1@) == audio_answer(
            match pcm {
                Some(bytes) => Some(bytes@),
                None => None,
            },
        ),
{
    match pcm {
        Some(bytes) => {
            let reply = fine().count("rate", RATE as u64).words("pcm", b64(&bytes));
            assert(reply@ =~= seq![
                ok(),
                ("rate"@, Datum::Count(RATE as u64)),
                ("pcm"@, Datum::Words(base64(bytes@))),
            ]);
            (200, reply)
        },
        None => (404, refuse("no such recording")),
    }
}

/// A console put on several routes. It is wired into the network, not listening
/// over the air, so its link is perfect.
pub open spec fn wired_into(r: State, tgs: Seq<u32>, c: ClientId) -> State
    decreases tgs.len(),
{
    if tgs.len() == 0 {
        r
    } else {
        wired_into(r, tgs.drop_last(), c).with_member(
            tgs.last(),
            c,
            Member { listen: true, quality: 100 },
        )
    }
}

fn wire_into(r: &mut Router, tgs: &Vec<u32>, c: ClientId)
    ensures
        final(r)@ == wired_into(old(r)@, tgs@, c),
{
    let mut i: usize = 0;
    while i < tgs.len()
        invariant
            i <= tgs.len(),
            r@ == wired_into(old(r)@, tgs@.take(i as int), c),
        decreases tgs.len() - i,
    {
        assert(tgs@.take(i as int + 1).drop_last() =~= tgs@.take(i as int));
        r.set_member(tgs[i], c, true, 100);
        i += 1;
    }
    assert(tgs@.take(i as int) =~= tgs@);
}

/// The console a number stands for.
pub open spec fn console(id: u32) -> ClientId {
    ClientId { server: CONSOLE_SERVER, player: id }
}

/// A message of the console plane, answered: attach, re-subscribe, detach, and
/// patches. `minted` is the token a console that attaches is to be given, if
/// there was the randomness to make one.
pub open spec fn console_dispatched(
    path: Seq<char>,
    body: Document,
    minted: Option<Seq<char>>,
    before: NodeState,
    after: NodeState,
    code: u16,
    reply: Seq<(Seq<char>, Datum)>,
) -> bool {
    let bad = |words: Seq<char>|
        code == 400 && reply == refusal(words) && after == before;
    let tgs = talkgroups(body);
    if path == "patches.set"@ {
        // Replaced whole: a patch that half applied is a channel joined in one
        // direction only.
        match body.list_at("groups"@) {
            Some(items) => {
                let groups = patch_groups(items);
                &&& code == 200
                &&& reply == seq![ok(), ("groups"@, Datum::Count(groups.len() as u64))]
                &&& after == (NodeState {
                    router: State { patches: groups, ..before.router },
                    ..before
                })
            },
            None => bad("groups required"@),
        }
    } else if path == "console.attach"@ {
        let c = console(before.next_console);
        let numbered = NodeState {
            next_console: if before.next_console < u32::MAX {
                (before.next_console + 1) as u32
            } else {
                0
            },
            ..before
        };
        match minted {
            Some(token) => {
                &&& code == 200
                &&& reply == seq![
                    ok(),
                    ("client"@, Datum::Count(c.player as u64)),
                    ("token"@, Datum::Words(token)),
                ]
                &&& after == (NodeState {
                    router: wired_into(before.router, tgs, c),
                    streams: StreamsState {
                        tokens: before.streams.tokens.insert(token, c),
                        ..before.streams
                    },
                    ..numbered
                })
            },
            None => {
                &&& code == 500
                &&& reply == refusal("no randomness"@)
                &&& after == numbered
            },
        }
    } else if path == "console.update"@ {
        // MEMBERSHIP only: re-subscribing is a board change, not an unkey.
        match body.u32_at("client"@) {
            Some(id) => {
                &&& code == 200
                &&& reply == seq![ok(), ("talkgroups"@, Datum::Count(tgs.len() as u64))]
                &&& after == (NodeState {
                    router: wired_into(
                        before.router.membership_forgotten(console(id)),
                        tgs,
                        console(id),
                    ),
                    ..before
                })
            },
            None => bad("client required"@),
        }
    } else if path == "console.detach"@ {
        match body.u32_at("client"@) {
            Some(id) => {
                &&& code == 200
                &&& reply == seq![ok()]
                &&& after == (NodeState {
                    router: before.router.forgotten(console(id)),
                    streams: before.streams.revoked(console(id)),
                    ..before
                })
            },
            None => bad("client required"@),
        }
    } else {
        &&& code == 404
        &&& reply == refusal("unknown message "@ + path)
        &&& after == before
    }
}

/// How a message of the console plane is answered.
pub enum Answer {
    Reply(u16, Reply),
    /// From the recording store.
    Recall(Recall),
}

/// An answer to a message of the console plane.
pub open spec fn console_answered(
    path: Seq<char>,
    body: Document,
    minted: Option<Seq<char>>,
    before: NodeState,
    after: NodeState,
    answer: Answer,
) -> bool {
    match answer {
        Answer::Recall(q) => recalled(path, body) == Some(q@) && after == before,
        Answer::Reply(code, reply) => recalled(path, body) is None && console_dispatched(
            path,
            body,
            minted,
            before,
            after,
            code,
            reply@,
        ),
    }
}

/// A token, if there is one.
pub open spec fn token_of(minted: Result<String, NoRandomness>) -> Option<Seq<char>> {
    match minted {
        Ok(token) => Some(token@),
        Err(_) => None,
    }
}

/// Attach, re-subscribe, detach. Everything a position needs and nothing else.
pub fn dispatch_console(path: &str, body: &Json, node: &mut Node) -> (answer: Answer)
    ensures
        exists|minted: Option<Seq<char>>|
            {
                &&& minted matches Some(token) ==> is_key(token)
                &&& #[trigger] console_answered(
                    path@,
                    body.view(),
                    minted,
                    old(node)@,
                    final(node)@,
                    answer,
                )
            },
{
    if let Some(q) = recall(path, body) {
        assert(console_answered(
            path@,
            body.view(),
            None,
            old(node)@,
            node@,
            Answer::Recall(q),
        ));
        return Answer::Recall(q);
    }
    let minted = if same_text(path, "console.attach") {
        mint_key()
    } else {
        Err(NoRandomness)
    };
    let ghost token = token_of(minted);
    let (code, reply) = dispatch_console_with(path, body, node, minted);
    assert(console_answered(
        path@,
        body.view(),
        token,
        old(node)@,
        node@,
        Answer::Reply(code, reply),
    ));
    Answer::Reply(code, reply)
}

/// The same for a message that asks nothing of the recording store, with what
/// came of minting a token.
pub fn dispatch_console_with(
    path: &str,
    body: &Json,
    node: &mut Node,
    minted: Result<String, NoRandomness>,
) -> (r: (u16, Reply))
    ensures
        console_dispatched(
            path@,
            body.view(),
            token_of(minted),
            old(node)@,
            final(node)@,
            r.0,
            r.1@,
        ),
{
    let tgs = talkgroups_of(body);
    if same_text(path, "patches.set") {
        if let Some(j) = body.get("groups") {
            proof {
                lemma_list_items(*j);
            }
            if let Json::List(items, _text) = j {
                let groups = patch_groups_of(items);
                let n = groups.len() as u64;
                node.router.set_patches(groups);
                let reply = fine().count("groups", n);
                assert(reply@ =~= seq![ok(), ("groups"@, Datum::Count(n))]);
                return (200, reply);
            }
        }
        return (400, refuse("groups required"));
    }
    if same_text(path, "console.attach") {
        let id: u32 = node.next_console;
        node.next_console = id.wrapping_add(1);
        let c = ClientId::new(CONSOLE_SERVER, id);
        return match minted {
            Ok(token) => {
                let kept = copy_text(token.as_str());
                wire_into(&mut node.router, &tgs, c);
                node.streams.authorize(kept, c);
                let reply = fine().count("client", id as u64).words("token", token);
                assert(reply@ =~= seq![
                    ok(),
                    ("client"@, Datum::Count(id as u64)),
                    ("token"@, Datum::Words(token@)),
                ]);
                (200, reply)
            },
            Err(_) => (500, refuse("no randomness")),
        };
    }
    if same_text(path, "console.update") {
        return match u32_of(body, "client") {
            Some(id) => {
                let c = ClientId::new(CONSOLE_SERVER, id);
                node.router.forget_membership(c);
                wire_into(&mut node.router, &tgs, c);
                let n = tgs.len() as u64;
                let reply = fine().count("talkgroups", n);
                assert(reply@ =~= seq![ok(), ("talkgroups"@, Datum::Count(n))]);
                (200, reply)
            },
            None => (400, refuse("client required")),
        };
    }
    if same_text(path, "console.detach") {
        return match u32_of(body, "client") {
            Some(id) => {
                let c = ClientId::new(CONSOLE_SERVER, id);
                node.router.forget_client(c);
                node.streams.revoke_player(c);
                (200, fine())
            },
            None => (400, refuse("client required")),
        };
    }
    (404, refuse_unknown("unknown message ", path))
}

fn copy_text(text: &str) -> (s: String)
    ensures
        s@ == text@,
{
    let mut s = String::new();
    write_str(&mut s, text);
    assert(s@ =~= text@);
    s
}

// -- who is asking ----------------------------------------------------------

/// Who a request comes from.
#[derive(Clone, Copy, PartialEq, Eq, Structural, Debug)]
pub enum Caller {
    /// The platform, on behalf of a dispatch console.
    Console,
    /// An enrolled server.
    Server(u32),
    /// Somebody with a node key that is not this node's.
    BadNodeKey,
    /// Somebody without a key that anybody was given.
    Unknown,
}

/// The server key a request presents, in a header or else in its body.
pub open spec fn presented_key(head: HeadState, body: Document) -> Seq<char> {
    match head.key {
        Some(key) => key,
        None => match body.text_at("key"@) {
            Some(key) => key,
            None => Seq::empty(),
        },
    }
}

/// Who a request comes from, by the keys it presents and by nothing it claims.
pub open spec fn caller_by(
    head: HeadState,
    body: Document,
    node_key: Option<Seq<char>>,
    keys: Map<Seq<char>, u32>,
) -> Caller {
    let presented = presented_key(head, body);
    if head.node_key.len() > 0 {
        if node_key == Some(head.node_key) {
            Caller::Console
        } else {
            Caller::BadNodeKey
        }
    } else if hashable(presented) && keys.contains_key(key_digest(presented)) {
        Caller::Server(keys[key_digest(presented)])
    } else {
        Caller::Unknown
    }
}

/// The key a node is set to, if it is set to one.
pub open spec fn key_set(node_key: Option<&str>) -> Option<Seq<char>> {
    match node_key {
        Some(k) => Some(k@),
        None => None,
    }
}

pub fn caller_of(head: &Head, body: &Json, node_key: Option<&str>, keys: &KeyIndex) -> (c: Caller)
    ensures
        c == caller_by(head@, body.view(), key_set(node_key), keys@),
{
    if !head.node_key.as_str().is_empty() {
        return match node_key {
            Some(k) => {
                proof {
                    encode_utf8_decode_utf8(k@);
                    encode_utf8_decode_utf8(head.node_key@);
                }
                if constant_time_eq(k.as_bytes(), head.node_key.as_str().as_bytes()) {
                    Caller::Console
                } else {
                    Caller::BadNodeKey
                }
            },
            None => Caller::BadNodeKey,
        };
    }
    let presented = match &head.key {
        Some(key) => copy_text(key.as_str()),
        None => match body.text_at("key") {
            Some(key) => key,
            None => String::new(),
        },
    };
    assert(presented@ =~= presented_key(head@, body.view()));
    match keys.resolve(presented.as_str()) {
        Some(server) => Caller::Server(server),
        None => Caller::Unknown,
    }
}

/// What a request comes to before anything is routed.
pub enum Step {
    /// It is answered at once.
    Answer(u16, Reply),
    /// It asks for recordings.
    Recall(Recall),
    /// A console's message.
    Console(Json),
    /// A server's message.
    Server(u32, Json),
}

/// AUTHENTICATE FIRST, and derive the server from the key rather than believing
/// whatever the caller claims.
pub open spec fn stepped(
    head: HeadState,
    body: Seq<u8>,
    node_key: Option<Seq<char>>,
    keys: Map<Seq<char>, u32>,
    step: Step,
) -> bool {
    let said = payload(body);
    match caller_by(head, said, node_key, keys) {
        Caller::BadNodeKey => step matches Step::Answer(code, reply) && code == 401 && reply@
            == refusal("bad node key"@),
        Caller::Unknown => step matches Step::Answer(code, reply) && code == 401 && reply@
            == refusal("unknown or missing server key"@),
        Caller::Console => match recalled(head.path, said) {
            Some(asked) => step matches Step::Recall(q) && q@ == asked,
            None => step matches Step::Console(j) && j.view() == said,
        },
        Caller::Server(id) => step matches Step::Server(server, j) && server == id && j.view()
            == said,
    }
}

pub fn triage(head: &Head, body: &[u8], node_key: Option<&str>, keys: &KeyIndex) -> (step: Step)
    ensures
        stepped(head@, body@, key_set(node_key), keys@, step),
{
    let said = payload_of(body);
    match caller_of(head, &said, node_key, keys) {
        Caller::BadNodeKey => Step::Answer(401, refuse("bad node key")),
        Caller::Unknown => Step::Answer(401, refuse("unknown or missing server key")),
        Caller::Console => match recall(head.path.as_str(), &said) {
            Some(q) => Step::Recall(q),
            None => Step::Console(said),
        },
        Caller::Server(id) => Step::Server(id, said),
    }
}

/// The answer to a head that does not end.
pub fn too_large() -> (r: (u16, Reply))
    ensures
        r.0 == 431,
        r.1@ == seq![("error"@, Datum::Words("headers too large"@))],
{
    let reply = Reply::new().words("error", "headers too large".to_owned());
    assert(reply@ =~= seq![("error"@, Datum::Words("headers too large"@))]);
    (431, reply)
}

// -- laws -------------------------------------------------------------------

proof fn lemma_unkey_is_unkey()
    ensures
        "unkey"@ != "conv.open"@,
        "unkey"@ != "tg.open"@,
        "unkey"@ != "tg.close"@,
        "unkey"@ != "tg.members"@,
        "unkey"@ != "tg.member"@,
        "unkey"@ != "key"@,
{
    reveal_strlit("unkey");
    reveal_strlit("conv.open");
    reveal_strlit("tg.open");
    reveal_strlit("tg.close");
    reveal_strlit("tg.members");
    reveal_strlit("tg.member");
    reveal_strlit("key");
    assert("unkey"@.len() == 5);
    assert("conv.open"@.len() == 9);
    assert("tg.open"@.len() == 7);
    assert("tg.close"@.len() == 8);
    assert("tg.members"@.len() == 10);
    assert("tg.member"@.len() == 9);
    assert("key"@.len() == 3);
}

/// A unit that was cut off still sends its own release when its operator lets
/// go, and that ends neither the call that took the channel nor its recording.
pub proof fn a_release_that_releases_nothing_ends_nothing(
    body: Document,
    server: u32,
    at: u64,
    wall: u64,
    before: NodeState,
    after: NodeState,
    code: u16,
    reply: Seq<(Seq<char>, Datum)>,
    tg: u32,
    c: ClientId,
    other: ClientId,
)
    requires
        dispatched("unkey"@, body, server, at, wall, before, after, code, reply),
        body.u32_at("tg"@) == Some(tg),
        client(server, body) == Some(c),
        other != c,
        before.router.holds(tg, other),
    ensures
        after.streams == before.streams,
        after.rec == before.rec,
        after.router.holds(tg, other),
{
    lemma_unkey_is_unkey();
    a_release_ends_nobody_else(before.router, tg, c, tg, other);
    let router = before.router.unkeyed_as(tg, c);
    clear_means_nobody_is_up(router, tg);
    joined_is_the_connected_component(router.patches, tg);
    assert(router.joined(tg).contains(tg));
    lemma_held_is_talked_on(router, tg, other);
}

proof fn lemma_held_is_talked_on(r: State, tg: u32, c: ClientId)
    requires
        r.holds(tg, c),
    ensures
        r.talkers_on(tg).len() > 0,
{
}

/// A module stays lit while anybody is talking anywhere on the channel: two
/// people may hold two members of one patch.
pub proof fn a_patch_stays_lit_while_anybody_talks_on_it(
    body: Document,
    server: u32,
    at: u64,
    wall: u64,
    before: NodeState,
    after: NodeState,
    code: u16,
    reply: Seq<(Seq<char>, Datum)>,
    tg: u32,
    c: ClientId,
    t: u32,
    other: ClientId,
)
    requires
        dispatched("unkey"@, body, server, at, wall, before, after, code, reply),
        body.u32_at("tg"@) == Some(tg),
        client(server, body) == Some(c),
        other != c,
        before.router.joined(tg).contains(t),
        before.router.holds(t, other),
    ensures
        after.streams == before.streams,
{
    lemma_unkey_is_unkey();
    a_release_ends_nobody_else(before.router, tg, c, t, other);
    let router = before.router.unkeyed_as(tg, c);
    clear_means_nobody_is_up(router, tg);
    assert(router.joined(tg).contains(t) && router.holds(t, other));
}

/// A release that leaves the channel clear ends the call and the recording,
/// also where the router had lost the key first and nothing was released.
pub proof fn a_release_of_a_clear_channel_ends_the_call(
    body: Document,
    server: u32,
    at: u64,
    wall: u64,
    before: NodeState,
    after: NodeState,
    code: u16,
    reply: Seq<(Seq<char>, Datum)>,
    tg: u32,
    c: ClientId,
)
    requires
        dispatched("unkey"@, body, server, at, wall, before, after, code, reply),
        body.u32_at("tg"@) == Some(tg),
        client(server, body) == Some(c),
        before.router.unkeyed_as(tg, c).is_clear(tg),
    ensures
        announced(before.streams, after.streams, after.router, tg, false, ""@),
        after.rec == before.rec.ended(tg),
{
    lemma_unkey_is_unkey();
    let router = before.router.unkeyed_as(tg, c);
    joined_is_the_connected_component(router.patches, tg);
    assert(router.joined(tg).contains(tg));
}

/// A request puts nobody on a route, and changes nobody's place on one, but
/// players of the server whose key it came with.
pub proof fn a_server_moves_only_its_own_players(
    r: State,
    server: u32,
    items: Seq<Document>,
    t: u32,
    c: ClientId,
)
    requires
        c.server != server,
    ensures
        members_set(r, server, items).listens(t, c) == r.listens(t, c),
        members_set(r, server, items).holds(t, c) == r.holds(t, c),
    decreases items.len(),
{
    if items.len() > 0 {
        a_server_moves_only_its_own_players(r, server, items.drop_last(), t, c);
    }
}

/// What a request claims about itself makes no difference: who it comes from
/// is decided by the keys in its head alone, once there is one.
pub proof fn a_server_does_not_say_which_server_it_is(
    head: HeadState,
    one: Document,
    two: Document,
    node_key: Option<Seq<char>>,
    keys: Map<Seq<char>, u32>,
)
    requires
        head.key is Some || head.node_key.len() > 0,
    ensures
        caller_by(head, one, node_key, keys) == caller_by(head, two, node_key, keys),
{
}

/// A request whose key no server is found by is refused, and so is one with a
/// node key that is not this node's: it is told so, and goes no further.
pub proof fn a_request_without_a_known_key_is_refused(
    head: HeadState,
    body: Seq<u8>,
    node_key: Option<Seq<char>>,
    servers: Seq<ServerState>,
    step: Step,
)
    requires
        stepped(head, body, node_key, index_of(servers), step),
        if head.node_key.len() > 0 {
            node_key != Some(head.node_key)
        } else {
            forall|j: int|
                0 <= j < servers.len() ==> hash_of(#[trigger] servers[j]) != Some(
                    key_digest(presented_key(head, payload(body))),
                )
        },
    ensures
        step matches Step::Answer(code, reply) && code == 401 && reply@ == refusal(
            if head.node_key.len() > 0 {
                "bad node key"@
            } else {
                "unknown or missing server key"@
            },
        ),
{
    if head.node_key.len() == 0 {
        an_unknown_key_resolves_to_nothing(
            servers,
            key_digest(presented_key(head, payload(body))),
        );
    }
}

/// A request with the key of an enrolled server is that server's, as long as no
/// server after it in the list is found by the same hash.
pub proof fn a_request_with_a_servers_key_is_that_servers(
    head: HeadState,
    body: Seq<u8>,
    node_key: Option<Seq<char>>,
    servers: Seq<ServerState>,
    step: Step,
    i: int,
)
    requires
        stepped(head, body, node_key, index_of(servers), step),
        head.node_key.len() == 0,
        hashable(presented_key(head, payload(body))),
        0 <= i < servers.len(),
        hash_of(servers[i]) == Some(key_digest(presented_key(head, payload(body)))),
        forall|j: int|
            i < j < servers.len() ==> hash_of(#[trigger] servers[j]) != hash_of(servers[i]),
    ensures
        step matches Step::Server(id, said) && id == servers[i].id && said.view() == payload(body),
{
    a_key_resolves_to_its_server(servers, i);
}

/// A console that changes its board keeps the channel it is talking on, and
/// listens to what it asked for and to nothing else.
pub proof fn a_console_keeps_talking_while_it_resubscribes(
    r: State,
    tgs: Seq<u32>,
    id: u32,
    t: u32,
    c: ClientId,
)
    ensures
        wired_into(r.membership_forgotten(console(id)), tgs, console(id)).holds(t, c) == r.holds(
            t,
            c,
        ),
        wired_into(r.membership_forgotten(console(id)), tgs, console(id)).listens(t, c) == (if c
            == console(id) {
            tgs.contains(t)
        } else {
            r.listens(t, c)
        }),
    decreases tgs.len(),
{
    let start = r.membership_forgotten(console(id));
    detaching_releases_and_resubscribing_does_not(r, console(id), t, c);
    if tgs.len() > 0 {
        let rest = tgs.drop_last();
        a_console_keeps_talking_while_it_resubscribes(r, rest, id, t, c);
        assert(tgs =~= rest.push(tgs.last()));
        lemma_push_contains(rest, tgs.last());
    }
}

/// Every console that hears a call hears of it, on a route it watches, and
/// nobody else does.
pub proof fn a_call_is_announced_to_every_console_that_hears_it(
    r: State,
    tg: u32,
    told: Seq<(ClientId, u32)>,
    c: ClientId,
)
    requires
        lists_watchers(r, r.joined(tg), told),
    ensures
        (exists|m: u32| #[trigger] told.contains((c, m))) <==> c.console() && exists|t: u32| #[trigger]
            r.joined(tg).contains(t) && r.listens(t, c),
        forall|m: u32| #[trigger]
            told.contains((c, m)) ==> r.joined(tg).contains(m) && r.listens(m, c),
{
    let group = r.joined(tg);
    lemma_first_route(r, group, c);
    if c.console() && exists|t: u32| #[trigger] group.contains(t) && r.listens(t, c) {
        let m = first_route(r, group, c)->0;
        assert(told.contains((c, m)));
    }
}

proof fn lemma_first_route(r: State, group: Seq<u32>, c: ClientId)
    ensures
        match first_route(r, group, c) {
            Some(m) => group.contains(m) && r.listens(m, c),
            None => forall|t: u32| #[trigger] group.contains(t) ==> !r.listens(t, c),
        },
    decreases group.len(),
{
    if group.len() > 0 {
        let rest = group.drop_last();
        lemma_first_route(r, rest, c);
        assert(group =~= rest.push(group.last()));
        lemma_push_contains(rest, group.last());
    }
}

// -- what each message does -------------------------------------------------

proof fn lemma_paths_differ()
    ensures
        "conv.open"@.len() == 9,
        "tg.open"@.len() == 7,
        "tg.close"@.len() == 8,
        "tg.members"@.len() == 10,
        "tg.member"@.len() == 9,
        "key"@.len() == 3,
        "unkey"@.len() == 5,
        "session.token"@.len() == 13,
        "session.drop"@.len() == 12,
        "stats"@.len() == 5,
        "conv.open"@ != "tg.member"@,
        "unkey"@ != "stats"@,
        "patches.set"@.len() == 11,
        "rec.index"@.len() == 9,
        "rec.audio"@.len() == 9,
        "rec.index"@ != "rec.audio"@,
        "console.attach"@.len() == 14,
        "console.update"@.len() == 14,
        "console.detach"@.len() == 14,
        "console.attach"@ != "console.update"@,
        "console.attach"@ != "console.detach"@,
        "console.update"@ != "console.detach"@,
{
    reveal_strlit("conv.open");
    reveal_strlit("tg.open");
    reveal_strlit("tg.close");
    reveal_strlit("tg.members");
    reveal_strlit("tg.member");
    reveal_strlit("key");
    reveal_strlit("unkey");
    reveal_strlit("session.token");
    reveal_strlit("session.drop");
    reveal_strlit("stats");
    reveal_strlit("patches.set");
    reveal_strlit("rec.index");
    reveal_strlit("rec.audio");
    reveal_strlit("console.attach");
    reveal_strlit("console.update");
    reveal_strlit("console.detach");
    assert("conv.open"@[0] != "tg.member"@[0]);
    assert("unkey"@[0] != "stats"@[0]);
    assert("rec.index"@[4] != "rec.audio"@[4]);
    assert("console.attach"@[8] != "console.update"@[8]);
    assert("console.attach"@[8] != "console.detach"@[8]);
    assert("console.update"@[8] != "console.detach"@[8]);
}

/// A request names a number: the low 32 bits of a whole number that is there.
pub open spec fn says(body: Document, name: Seq<char>, n: u32) -> bool {
    body.get(name) matches Some(Document::Number(Some(v), _)) && n == v as int % 4294967296
}

/// A request names no number.
pub open spec fn is_silent_on(body: Document, name: Seq<char>) -> bool {
    body.get(name) matches Some(Document::Number(Some(_), _)) ==> false
}

/// A member report puts the player it names, of the server whose key it came
/// with, on the route it names. They listen if it says so. Their link is what
/// it says, no better than 100, and 100 if it does not say.
pub proof fn a_report_puts_a_player_on_a_route(
    body: Document,
    server: u32,
    at: u64,
    wall: u64,
    before: NodeState,
    after: NodeState,
    code: u16,
    reply: Seq<(Seq<char>, Datum)>,
    tg: u32,
    player: u32,
    quality: u32,
)
    requires
        dispatched("tg.member"@, body, server, at, wall, before, after, code, reply),
    ensures
        says(body, "tg"@, tg) && says(body, "client"@, player) ==> ({
            let link: int = if is_silent_on(body, "quality"@) || quality > 100 {
                100
            } else {
                quality as int
            };
            says(body, "quality"@, quality) || is_silent_on(body, "quality"@) ==> {
                &&& code == 200
                &&& reply == seq![("ok"@, Datum::Flag(true))]
                &&& after == (NodeState {
                    router: before.router.with_member(
                        tg,
                        ClientId { server, player },
                        Member {
                            listen: body.get("listen"@) == Some(Document::Bool(true)),
                            quality: link as u8,
                        },
                    ),
                    streams: before.streams,
                    rec: before.rec,
                    next_console: before.next_console,
                })
            }
        }),
        is_silent_on(body, "tg"@) || is_silent_on(body, "client"@) ==> code == 400 && after
            == before && reply == refusal("tg, server and client required"@),
{
    lemma_paths_differ();
}

/// Reports that come together are applied one after the other, and those that
/// name no route or no player are passed over. The answer says how many there
/// were to apply.
pub proof fn reports_are_applied_one_after_the_other(
    r: State,
    server: u32,
    items: Seq<Document>,
    d: Document,
    tg: u32,
    player: u32,
    listen: bool,
    quality: u8,
)
    requires
        body_says_membership(d, listen, quality),
    ensures
        members_set(r, server, Seq::empty()) == r,
        applied(server, Seq::empty()) == 0,
        says(d, "tg"@, tg) && says(d, "client"@, player) ==> members_set(r, server, items.push(d))
            == members_set(r, server, items).with_member(
            tg,
            ClientId { server, player },
            Member { listen, quality },
        ) && applied(server, items.push(d)) == applied(server, items) + 1,
        is_silent_on(d, "tg"@) || is_silent_on(d, "client"@) ==> members_set(
            r,
            server,
            items.push(d),
        ) == members_set(r, server, items) && applied(server, items.push(d)) == applied(
            server,
            items,
        ),
{
    assert(items.push(d).drop_last() =~= items);
}

/// What a report says of a membership.
pub open spec fn body_says_membership(d: Document, listen: bool, quality: u8) -> bool {
    &&& listen == (d.get("listen"@) == Some(Document::Bool(true)))
    &&& match d.get("quality"@) {
        Some(Document::Number(Some(v), _)) => quality == (if v as int % 4294967296 > 100 {
            100int
        } else {
            v as int % 4294967296
        }),
        _ => quality == 100,
    }
}

/// A request that reports several members is answered with how many there were,
/// and one without a list of them is refused.
pub proof fn several_reports_are_counted(
    body: Document,
    server: u32,
    at: u64,
    wall: u64,
    before: NodeState,
    after: NodeState,
    code: u16,
    reply: Seq<(Seq<char>, Datum)>,
)
    requires
        dispatched("tg.members"@, body, server, at, wall, before, after, code, reply),
    ensures
        match body.get("members"@) {
            Some(Document::List(items, _)) => {
                &&& code == 200
                &&& reply == seq![
                    ("ok"@, Datum::Flag(true)),
                    ("applied"@, Datum::Count(applied(server, items) as u64)),
                ]
                &&& after == (NodeState {
                    router: members_set(before.router, server, items),
                    streams: before.streams,
                    rec: before.rec,
                    next_console: before.next_console,
                })
            },
            _ => code == 400 && after == before && reply == refusal("members required"@),
        },
{
    lemma_paths_differ();
}

/// Opening a route says whether it is new. A conventional one is AM if the
/// request says so, and a trunked one encrypted. Closing takes it away. None of
/// them touches anything but the routes, and without a route to open or close
/// nothing happens.
pub proof fn routes_are_opened_and_closed(
    path: Seq<char>,
    body: Document,
    server: u32,
    at: u64,
    wall: u64,
    before: NodeState,
    after: NodeState,
    code: u16,
    reply: Seq<(Seq<char>, Datum)>,
    tg: u32,
)
    requires
        dispatched(path, body, server, at, wall, before, after, code, reply),
        path == "conv.open"@ || path == "tg.open"@ || path == "tg.close"@,
    ensures
        is_silent_on(body, "tg"@) ==> code == 400 && after == before && reply == seq![
            ("ok"@, Datum::Flag(false)),
            ("error"@, Datum::Words("tg required"@)),
        ],
        says(body, "tg"@, tg) ==> {
            &&& code == 200
            &&& after.streams == before.streams
            &&& after.rec == before.rec
            &&& after.next_console == before.next_console
            &&& reply == if path == "tg.close"@ {
                seq![("ok"@, Datum::Flag(true))]
            } else {
                seq![
                    ("ok"@, Datum::Flag(true)),
                    ("fresh"@, Datum::Flag(!before.router.routes.contains_key(tg))),
                ]
            }
            &&& after.router == if path == "conv.open"@ {
                before.router.opened_conventional(
                    tg,
                    body.get("am"@) == Some(Document::Bool(true)),
                )
            } else if path == "tg.open"@ {
                before.router.opened(tg, body.get("encrypted"@) == Some(Document::Bool(true)))
            } else {
                before.router.closed(tg)
            }
        },
{
    lemma_paths_differ();
}

/// A press is answered by what the router made of it. Somebody who got the
/// route has a call announced and recorded from that moment, and is told
/// whether a voice connection of theirs is known. Somebody mixed in with others
/// or doubling with them is told so, and opens no call. Somebody refused is
/// told why, with 409.
pub proof fn a_press_is_answered_by_what_it_came_to(
    body: Document,
    server: u32,
    at: u64,
    wall: u64,
    before: NodeState,
    after: NodeState,
    code: u16,
    reply: Seq<(Seq<char>, Datum)>,
    tg: u32,
    player: u32,
)
    requires
        dispatched("key"@, body, server, at, wall, before, after, code, reply),
        says(body, "tg"@, tg),
        says(body, "client"@, player),
    ensures
        ({
            let c = ClientId { server, player };
            let outcome = before.router.keyed_at(tg, c, at).1;
            let call_opens = outcome is Ok && !(outcome->Ok_0 is Mixed) && !(
            outcome->Ok_0 is Doubled);
            let unit = match body.get("unit"@) {
                Some(d) => d.shown(),
                None => Seq::empty(),
            };
            &&& after.router == before.router.keyed_at(tg, c, at).0
            &&& after.next_console == before.next_console
            &&& code == if outcome is Ok {
                200int
            } else {
                409
            }
            &&& reply[0] == ("ok"@, Datum::Flag(outcome is Ok))
            &&& reply.len() == 2
            &&& outcome is Err ==> reply[1] == ("error"@, Datum::Words(outcome->Err_0.text()))
            &&& (outcome is Ok && outcome->Ok_0 is Mixed) ==> reply[1] == (
                "mixed"@,
                Datum::Flag(true),
            )
            &&& (outcome is Ok && outcome->Ok_0 is Doubled) ==> reply[1] == (
                "doubled"@,
                Datum::Flag(true),
            )
            &&& call_opens ==> reply[1] == (
                "bound"@,
                Datum::Flag(before.router.sessions.contains_key(c)),
            ) && after.rec == before.rec.begun(tg, server, player, unit, 8000, wall) && announced(
                before.streams,
                after.streams,
                after.router,
                tg,
                true,
                unit,
            )
            &&& !call_opens ==> after.rec == before.rec && after.streams == before.streams
        }),
{
    lemma_paths_differ();
}

/// A press that does not say who or where is refused, and so is a release that
/// does not say where.
pub proof fn a_press_says_who_and_where(
    path: Seq<char>,
    body: Document,
    server: u32,
    at: u64,
    wall: u64,
    before: NodeState,
    after: NodeState,
    code: u16,
    reply: Seq<(Seq<char>, Datum)>,
)
    requires
        dispatched(path, body, server, at, wall, before, after, code, reply),
        path == "key"@ || path == "unkey"@,
        is_silent_on(body, "tg"@) || path == "key"@ && is_silent_on(body, "client"@),
    ensures
        code == 400,
        after == before,
        reply == seq![
            ("ok"@, Datum::Flag(false)),
            (
                "error"@,
                Datum::Words(
                    if path == "key"@ {
                        "tg, server and client required"@
                    } else {
                        "tg required"@
                    },
                ),
            ),
        ],
{
    lemma_paths_differ();
}

/// A release lets go of what the player it names held, or of what everybody
/// held if it names nobody. The recording ends once nobody talks on the route,
/// and the call once nobody talks anywhere on its patch.
pub proof fn a_release_lets_go(
    body: Document,
    server: u32,
    at: u64,
    wall: u64,
    before: NodeState,
    after: NodeState,
    code: u16,
    reply: Seq<(Seq<char>, Datum)>,
    tg: u32,
    player: u32,
)
    requires
        dispatched("unkey"@, body, server, at, wall, before, after, code, reply),
        says(body, "tg"@, tg),
    ensures
        code == 200,
        reply == seq![("ok"@, Datum::Flag(true))],
        after.next_console == before.next_console,
        says(body, "client"@, player) ==> after.router == before.router.unkeyed_as(
            tg,
            ClientId { server, player },
        ),
        is_silent_on(body, "client"@) ==> after.router == before.router.all_unkeyed(tg),
        after.router.talkers_on(tg).len() == 0 ==> after.rec == before.rec.ended(tg),
        after.router.talkers_on(tg).len() > 0 ==> after.rec == before.rec,
        after.router.is_clear(tg) ==> announced(
            before.streams,
            after.streams,
            after.router,
            tg,
            false,
            Seq::empty(),
        ),
        !after.router.is_clear(tg) ==> after.streams == before.streams,
{
    lemma_paths_differ();
    reveal_strlit("");
    assert(""@ =~= Seq::<char>::empty());
}

/// A token opens a socket for the player it was handed in for, from then on,
/// and no other token changes. An empty one is refused. A player dropped loses
/// theirs.
pub proof fn a_token_is_for_one_player(
    path: Seq<char>,
    body: Document,
    server: u32,
    at: u64,
    wall: u64,
    before: NodeState,
    after: NodeState,
    code: u16,
    reply: Seq<(Seq<char>, Datum)>,
    player: u32,
    token: Seq<char>,
)
    requires
        dispatched(path, body, server, at, wall, before, after, code, reply),
        path == "session.token"@ || path == "session.drop"@,
    ensures
        after.router == before.router,
        after.rec == before.rec,
        after.next_console == before.next_console,
        after.streams.outbox == before.streams.outbox,
        path == "session.token"@ ==> after.streams.connected == before.streams.connected,
        path == "session.token"@ && says(body, "client"@, player) && body.get("token"@) == Some(
            Document::Text(token),
        ) && token.len() > 0 ==> code == 200 && reply == seq![("ok"@, Datum::Flag(true))]
            && after.streams.tokens == before.streams.tokens.insert(
            token,
            ClientId { server, player },
        ),
        path == "session.token"@ && (is_silent_on(body, "client"@) || !(body.get("token"@) matches Some(
            Document::Text(t),
        ) && t.len() > 0)) ==> code == 400 && after == before && reply == refusal(
            "server, client and non-empty token required"@,
        ),
        path == "session.drop"@ && says(body, "client"@, player) ==> code == 200 && reply == seq![
            ("ok"@, Datum::Flag(true)),
        ] && after.streams == before.streams.revoked(ClientId { server, player }),
        path == "session.drop"@ && is_silent_on(body, "client"@) ==> code == 400 && after == before
            && reply == refusal("server and client required"@),
{
    lemma_paths_differ();
}

/// A question for the node's figures changes nothing, and is answered with the
/// asker's own number, the router's summary and how many sockets are up. A
/// message nobody knows changes nothing either.
pub proof fn a_question_changes_nothing(
    path: Seq<char>,
    body: Document,
    server: u32,
    at: u64,
    wall: u64,
    before: NodeState,
    after: NodeState,
    code: u16,
    reply: Seq<(Seq<char>, Datum)>,
)
    requires
        dispatched(path, body, server, at, wall, before, after, code, reply),
        path != "conv.open"@,
        path != "tg.open"@,
        path != "tg.close"@,
        path != "tg.members"@,
        path != "tg.member"@,
        path != "key"@,
        path != "unkey"@,
        path != "session.token"@,
        path != "session.drop"@,
    ensures
        after == before,
        path == "stats"@ ==> code == 200 && reply == seq![
            ("ok"@, Datum::Flag(true)),
            ("server"@, Datum::Count(server as u64)),
            ("summary"@, Datum::Words(before.router.summary())),
            ("streams"@, Datum::Count(before.streams.connected.len() as u64)),
        ],
        path != "stats"@ ==> code == 404 && reply == seq![
            ("ok"@, Datum::Flag(false)),
            ("error"@, Datum::Words("unknown endpoint "@ + path)),
        ],
{
}

/// A call is announced once to each console, about the first route of the patch
/// that the console listens on, whatever order the consoles are told in.
pub proof fn a_console_is_told_about_its_own_route(
    r: State,
    group: Seq<u32>,
    c: ClientId,
    i: int,
)
    requires
        0 <= i < group.len(),
        r.listens(group[i], c),
        forall|j: int| 0 <= j < i ==> !r.listens(#[trigger] group[j], c),
    ensures
        first_route(r, group, c) == Some(group[i]),
    decreases group.len(),
{
    let rest = group.drop_last();
    if i < rest.len() {
        a_console_is_told_about_its_own_route(r, rest, c, i);
    } else {
        lemma_first_route(r, rest, c);
        if let Some(m) = first_route(r, rest, c) {
            let j = choose|j: int| 0 <= j < rest.len() && rest[j] == m;
            assert(group[j] == m);
        }
    }
}

/// The frames of an announcement: one to each console that has a socket, behind
/// whatever was on its way already.
pub proof fn an_announcement_is_one_frame_each(
    s: StreamsState,
    told: Seq<(ClientId, u32)>,
    c: ClientId,
    m: u32,
    keyed: bool,
    talker: Seq<char>,
)
    ensures
        called_each(s, Seq::empty(), keyed, talker) == s,
        ({
            let earlier = called_each(s, told, keyed, talker);
            let after = called_each(s, told.push((c, m)), keyed, talker);
            &&& earlier.connected == s.connected
            &&& earlier.tokens == s.tokens
            &&& after == (StreamsState {
                outbox: if s.connected.contains(c) {
                    earlier.outbox.push((c, call(m, keyed, talker)))
                } else {
                    earlier.outbox
                },
                ..earlier
            })
        }),
    decreases told.len(),
{
    assert(told.push((c, m)).drop_last() =~= told);
    if told.len() > 0 {
        let (c1, m1) = told.last();
        an_announcement_is_one_frame_each(s, told.drop_last(), c1, m1, keyed, talker);
        assert(told.drop_last().push(told.last()) =~= told);
    }
}

// -- what each message of a console does ------------------------------------

/// A console that attaches is given the next number and a token of its own,
/// and is put on every route it asks for. A number is given once, whether or
/// not there was a token to go with it, until the numbers run out.
pub proof fn a_console_is_numbered_when_it_attaches(
    body: Document,
    minted: Option<Seq<char>>,
    before: NodeState,
    after: NodeState,
    code: u16,
    reply: Seq<(Seq<char>, Datum)>,
)
    requires
        console_dispatched("console.attach"@, body, minted, before, after, code, reply),
    ensures
        before.next_console < u32::MAX ==> after.next_console == before.next_console + 1,
        before.next_console == u32::MAX ==> after.next_console == 0,
        after.rec == before.rec,
        after.streams.connected == before.streams.connected,
        after.streams.outbox == before.streams.outbox,
        match minted {
            Some(token) => {
                let c = ClientId { server: 0, player: before.next_console };
                &&& code == 200
                &&& reply == seq![
                    ("ok"@, Datum::Flag(true)),
                    ("client"@, Datum::Count(before.next_console as u64)),
                    ("token"@, Datum::Words(token)),
                ]
                &&& after.streams.tokens == before.streams.tokens.insert(token, c)
                &&& after.router == wired_into(before.router, talkgroups(body), c)
            },
            None => {
                &&& code == 500
                &&& reply == seq![
                    ("ok"@, Datum::Flag(false)),
                    ("error"@, Datum::Words("no randomness"@)),
                ]
                &&& after.router == before.router
                &&& after.streams == before.streams
            },
        },
{
    lemma_paths_differ();
}

/// A console that changes its board is taken off what it was on and put on what
/// it asks for, and nothing else changes. One that detaches is forgotten, and
/// its token with it. Neither happens to a console that is not named.
pub proof fn a_console_changes_its_board_and_leaves(
    path: Seq<char>,
    body: Document,
    minted: Option<Seq<char>>,
    before: NodeState,
    after: NodeState,
    code: u16,
    reply: Seq<(Seq<char>, Datum)>,
    id: u32,
)
    requires
        console_dispatched(path, body, minted, before, after, code, reply),
        path == "console.update"@ || path == "console.detach"@,
    ensures
        after.rec == before.rec,
        after.next_console == before.next_console,
        is_silent_on(body, "client"@) ==> code == 400 && after == before && reply == refusal(
            "client required"@,
        ),
        says(body, "client"@, id) ==> {
            let c = ClientId { server: 0, player: id };
            &&& code == 200
            &&& path == "console.update"@ ==> after.streams == before.streams && after.router
                == wired_into(before.router.membership_forgotten(c), talkgroups(body), c) && reply
                == seq![
                ("ok"@, Datum::Flag(true)),
                ("talkgroups"@, Datum::Count(talkgroups(body).len() as u64)),
            ]
            &&& path == "console.detach"@ ==> after.streams == before.streams.revoked(c)
                && after.router == before.router.forgotten(c) && reply == seq![
                ("ok"@, Datum::Flag(true)),
            ]
        },
{
    lemma_paths_differ();
}

/// A patch table replaces the one before it, whole. A message of no known kind
/// changes nothing.
pub proof fn patches_are_replaced_whole(
    path: Seq<char>,
    body: Document,
    minted: Option<Seq<char>>,
    before: NodeState,
    after: NodeState,
    code: u16,
    reply: Seq<(Seq<char>, Datum)>,
)
    requires
        console_dispatched(path, body, minted, before, after, code, reply),
        path != "console.attach"@,
        path != "console.update"@,
        path != "console.detach"@,
    ensures
        path == "patches.set"@ ==> match body.get("groups"@) {
            Some(Document::List(items, _)) => {
                &&& code == 200
                &&& reply == seq![
                    ("ok"@, Datum::Flag(true)),
                    ("groups"@, Datum::Count(patch_groups(items).len() as u64)),
                ]
                &&& after == (NodeState {
                    router: State { patches: patch_groups(items), ..before.router },
                    ..before
                })
            },
            _ => code == 400 && after == before && reply == refusal("groups required"@),
        },
        path != "patches.set"@ ==> code == 404 && after == before && reply == seq![
            ("ok"@, Datum::Flag(false)),
            ("error"@, Datum::Words("unknown message "@ + path)),
        ],
{
}

/// The routes in a list are its whole numbers, in order, each by its low 32
/// bits. A patch group is such a list of at least two; shorter ones join
/// nothing and are left out.
pub proof fn a_list_of_routes_is_its_numbers(body: Document, items: Seq<Document>, d: Document)
    ensures
        numbers(Seq::empty()) == Seq::<u32>::empty(),
        match d {
            Document::Number(Some(n), _) => numbers(items.push(d)).len() == numbers(items).len() + 1
                && numbers(items.push(d)).drop_last() == numbers(items) && numbers(
                items.push(d),
            ).last() == n as int % 4294967296,
            _ => numbers(items.push(d)) == numbers(items),
        },
        patch_groups(Seq::empty()) == Seq::<Seq<u32>>::empty(),
        match d {
            Document::List(group, _) => patch_groups(items.push(d)) == if numbers(group).len()
                >= 2 {
                patch_groups(items).push(numbers(group))
            } else {
                patch_groups(items)
            },
            _ => patch_groups(items.push(d)) == patch_groups(items),
        },
        match body.get("talkgroups"@) {
            Some(Document::List(list, _)) => talkgroups(body) == numbers(list),
            _ => talkgroups(body) == Seq::<u32>::empty(),
        },
{
    assert(items.push(d).drop_last() =~= items);
    if let Document::Number(Some(n), _) = d {
        assert(numbers(items.push(d)).drop_last() =~= numbers(items));
    }
}

/// A console hears each route it is put on, over a perfect link, and a route
/// asked for again is no different.
pub proof fn a_console_is_wired_in(r: State, tgs: Seq<u32>, t: u32, c: ClientId)
    ensures
        wired_into(r, Seq::empty(), c) == r,
        wired_into(r, tgs.push(t), c) == wired_into(r, tgs, c).with_member(
            t,
            c,
            Member { listen: true, quality: 100 },
        ),
{
    assert(tgs.push(t).drop_last() =~= tgs);
}

/// A question for recordings: from a moment on, from the start if it does not
/// say, and 200 of them unless it asks for another number, which is at most
/// 1000. One for a call's audio is by the call's name. Anything else asks
/// nothing of the store.
pub proof fn recordings_are_asked_for_by_moment_or_name(
    path: Seq<char>,
    body: Document,
    since: u64,
    limit: u64,
    id: Seq<char>,
)
    requires
        match body.get("since"@) {
            Some(Document::Number(Some(n), _)) => since == n,
            _ => since == 0,
        },
        match body.get("limit"@) {
            Some(Document::Number(Some(n), _)) => if n > 1000 {
                limit == 1000
            } else {
                limit == n
            },
            _ => limit == 200,
        },
        match body.get("id"@) {
            Some(Document::Text(s)) => id == s,
            _ => id == Seq::<char>::empty(),
        },
    ensures
        recalled("rec.index"@, body) == Some(Asked::Index(since, limit)),
        recalled("rec.audio"@, body) == Some(Asked::Audio(id)),
        path != "rec.index"@ && path != "rec.audio"@ ==> recalled(path, body) is None,
{
    lemma_paths_differ();
}

/// A call's audio is handed over in base 64 with its rate, and a call nobody
/// has is not found.
pub proof fn a_recording_is_handed_over_with_its_rate(bytes: Seq<u8>)
    ensures
        audio_answer(Some(bytes)) == (
            200u16,
            seq![
                ("ok"@, Datum::Flag(true)),
                ("rate"@, Datum::Count(8000)),
                ("pcm"@, Datum::Words(base64(bytes))),
            ],
        ),
        audio_answer(None) == (
            404u16,
            seq![
                ("ok"@, Datum::Flag(false)),
                ("error"@, Datum::Words("no such recording"@)),
            ],
        ),
{
}

/// A request with this node's own key is a console's, whatever else it says: it
/// is handed on with what it carries, and goes to the store if it asks for
/// recordings.
pub proof fn a_request_with_the_nodes_key_is_a_consoles(
    head: HeadState,
    body: Seq<u8>,
    node_key: Seq<char>,
    keys: Map<Seq<char>, u32>,
    step: Step,
)
    requires
        stepped(head, body, Some(node_key), keys, step),
        head.node_key == node_key,
        node_key.len() > 0,
    ensures
        head.path != "rec.index"@ && head.path != "rec.audio"@ ==> step is Console
            && step->Console_0.view() == payload(body),
        head.path == "rec.index"@ || head.path == "rec.audio"@ ==> step is Recall && Some(
            step->Recall_0.view(),
        ) == recalled(head.path, payload(body)),
{
    lemma_paths_differ();
}

/// The key a request presents is the one in its head. Only without one there is
/// it the one in its body.
pub proof fn a_key_in_the_head_goes_first(head: HeadState, body: Document, key: Seq<char>)
    ensures
        head.key == Some(key) ==> presented_key(head, body) == key,
        head.key is None && body.get("key"@) == Some(Document::Text(key)) ==> presented_key(
            head,
            body,
        ) == key,
        head.key is None && !(body.get("key"@) matches Some(Document::Text(_))) ==> presented_key(
            head,
            body,
        ).len() == 0,
{
}

/// A transmission is recorded while a call is being recorded on its route, from
/// a rendering of its own channel that no other is cleaner than, two bytes for
/// each sample; and not otherwise. Carrying one changes nothing but what is on
/// its way to the listeners.
pub proof fn a_transmission_is_recorded_while_its_call_is(
    before: NodeState,
    tg: u32,
    mode: Mode,
    lanes: Seq<(LegKey, Vec<i16>)>,
    listeners: Seq<Listener>,
    after: NodeState,
    r: Option<(usize, Vec<u8>)>,
    j: int,
)
    requires
        is_carried(before, tg, mode, lanes, listeners, after, r),
        0 <= j < lanes.len(),
        lanes[j].0.0 == mode && !lanes[j].0.2,
    ensures
        r is Some <==> before.rec.open.contains_key(tg) && before.rec.open[tg].writing,
        r matches Some((i, bytes)) ==> {
            let best = lanes[i as int];
            &&& i < lanes.len()
            &&& best.0.0 == mode && !best.0.2
            &&& lanes[j].0.1 <= best.0.1
            &&& bytes@.len() == 2 * best.1@.len()
            &&& forall|k: int|
                0 <= k < best.1@.len() ==> (bytes@[2 * k] + bytes@[2 * k + 1] * 256) % 65536 == (
                #[trigger] best.1@[k]) as int % 65536
        },
        after.router == before.router,
        after.rec == before.rec,
        after.next_console == before.next_console,
        after.streams.connected == before.streams.connected,
        after.streams.tokens == before.streams.tokens,
{
    assert(is_source_side(lanes[j].0, mode));
    if let Some((i, bytes)) = r {
        let pcm = lanes[i as int].1@;
        crate::bytes::samples_read_back(pcm);
        assert forall|k: int| 0 <= k < pcm.len() implies (bytes@[2 * k] + bytes@[2 * k + 1] * 256)
            % 65536 == (#[trigger] pcm[k]) as int % 65536 by {
            crate::bytes::a_sample_is_two_bytes_low_first(pcm, Seq::empty(), k);
        }
    }
    crate::stream::audio_goes_to_its_listeners_and_nobody_else(
        before.streams,
        tg,
        lanes,
        listeners,
    );
}

/// A server that goes takes its sessions, its players' places and keys, their
/// tokens and their sockets, and nobody else's. What is being recorded goes on.
pub proof fn a_server_goes_alone(
    node: NodeState,
    server: u32,
    t: u32,
    c: ClientId,
    token: Seq<char>,
)
    ensures
        ({
            let after = node.without_server(server);
            &&& after.rec == node.rec
            &&& after.next_console == node.next_console
            &&& after.streams.outbox == node.streams.outbox
            &&& c.server == server ==> {
                &&& !after.router.holds(t, c)
                &&& !after.router.listens(t, c)
                &&& !after.router.sessions.contains_key(c)
                &&& !after.streams.connected.contains(c)
                &&& after.streams.tokens.get(token) != Some(c)
            }
            &&& c.server != server ==> {
                &&& after.router.holds(t, c) == node.router.holds(t, c)
                &&& after.router.listens(t, c) == node.router.listens(t, c)
                &&& after.router.sessions.get(c) == node.router.sessions.get(c)
                &&& after.streams.connected.contains(c) == node.streams.connected.contains(c)
                &&& node.streams.tokens.get(token) == Some(c) ==> after.streams.tokens.get(token)
                    == Some(c)
            }
        }),
{
    if node.router.routes.contains_key(t) {
        lemma_filter_contains(node.router.routes[t].also, not_from(server));
    }
}

/// A message that asks for recordings is answered from the store and changes
/// nothing, and no other is.
pub proof fn recordings_come_from_the_store(
    path: Seq<char>,
    body: Document,
    minted: Option<Seq<char>>,
    before: NodeState,
    after: NodeState,
    answer: Answer,
)
    requires
        console_answered(path, body, minted, before, after, answer),
    ensures
        answer is Recall <==> path == "rec.index"@ || path == "rec.audio"@,
        answer is Recall ==> after == before && Some(answer->Recall_0@) == recalled(path, body),
{
    lemma_paths_differ();
}

} // verus!

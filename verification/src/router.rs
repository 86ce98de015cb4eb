//! The routing table: who may hear what, and who currently holds the channel.
//!
//! This is the audio-side mirror of the trunking core. It makes no decisions -
//! the game servers decide everything and say so - but it is where those
//! decisions are ENFORCED, which is a different and stronger thing than
//! rendering them.
//!
//! Three invariants, and they are the entire security model:
//!
//!   1. Routed nowhere by default. A speaker with no key in force reaches no
//!      talkgroup, whatever the client believes.
//!   2. One key per route. A second key on a route that already holds one is
//!      refused here, so digital cannot double even if a game server is wrong.
//!   3. `listen: false` means never transmitted, not muted at the receiver.

use crate::clock::{elapsed_between, Clock};
use crate::dsp::{Mode, Sink};
use crate::patches;
use crate::patches::{
    add_members, groups_of, joined_is_the_connected_component, with_members,
};
use crate::routing::{
    all_but, dropping, dropping_server, idle_route, is_airband, is_frequency, lemma_dropping,
    lemma_dropping_twice, lemma_passed_on_twice, lemma_presses_change_routes_alone, Refusal, RouteState, State,
};
use crate::seqs::lemma_push_contains;
use crate::table::{Key, Table};
use crate::tally::{count_each, lemma_occurrences_count, occurrences};
use crate::text::{chars_of, decimal_of, number_in, parse_number, write_number, write_str};
use vstd::prelude::*;

verus! {

/// A client, globally.
///
/// Player ids are unique only WITHIN one server - server A's player 3 and
/// server B's player 3 are different people - so identity is always the pair.
#[derive(Debug, Clone, Copy, PartialEq, Eq, Structural, Hash, PartialOrd, Ord)]
pub struct ClientId {
    pub server: u32,
    pub player: u32,
}

/// Consoles live on server 0, which no enrolled world can ever be.
pub const CONSOLE_SERVER: u32 = 0;

impl ClientId {
    pub open spec fn console(self) -> bool {
        self.server == CONSOLE_SERVER
    }

    pub fn is_console(&self) -> (b: bool)
        ensures
            b == self.console(),
    {
        self.server == CONSOLE_SERVER
    }

    pub fn new(server: u32, player: u32) -> (c: Self)
        ensures
            c == (ClientId { server, player }),
    {
        ClientId { server, player }
    }

    /// How a client is written in a log.
    pub open spec fn words(self) -> Seq<char> {
        "s"@ + decimal_of(self.server as nat) + "/p"@ + decimal_of(self.player as nat)
    }

    pub fn text(&self) -> (s: String)
        ensures
            s@ == self.words(),
    {
        let mut s = String::new();
        write_str(&mut s, "s");
        write_number(&mut s, self.server as u64);
        write_str(&mut s, "/p");
        write_number(&mut s, self.player as u64);
        assert(s@ =~= self.words());
        s
    }
}

impl Key for ClientId {
    open spec fn code(self) -> u128 {
        (self.server as u128 * 0x1_0000_0000 + self.player as u128) as u128
    }

    fn to_code(self) -> (c: u128) {
        self.server as u128 * 0x1_0000_0000 + self.player as u128
    }

    fn same(self, other: Self) -> (b: bool) {
        self == other
    }

    proof fn code_is_injective(a: Self, b: Self) {
    }
}

/// A voice session, which is only meaningful within one tap.
#[derive(Debug, Clone, Copy, PartialEq, Eq, Structural, Hash)]
pub struct SessionId {
    pub server: u32,
    pub session: u32,
}

impl SessionId {
    pub fn new(server: u32, session: u32) -> (s: Self)
        ensures
            s == (SessionId { server, session }),
    {
        SessionId { server, session }
    }
}

impl Key for SessionId {
    open spec fn code(self) -> u128 {
        (self.server as u128 * 0x1_0000_0000 + self.session as u128) as u128
    }

    fn to_code(self) -> (c: u128) {
        self.server as u128 * 0x1_0000_0000 + self.session as u128
    }

    fn same(self, other: Self) -> (b: bool) {
        self == other
    }

    proof fn code_is_injective(a: Self, b: Self) {
    }
}

/// A client's button, on one route.
#[derive(Debug, Clone, Copy, PartialEq, Eq, Structural, Hash)]
pub struct Press {
    pub client: ClientId,
    pub tg: u32,
}

impl Key for Press {
    open spec fn code(self) -> u128 {
        (self.tg as u128 * 0x1_0000_0000_0000_0000 + self.client.code()) as u128
    }

    fn to_code(self) -> (c: u128) {
        self.tg as u128 * 0x1_0000_0000_0000_0000 + self.client.to_code()
    }

    fn same(self, other: Self) -> (b: bool) {
        self == other
    }

    proof fn code_is_injective(a: Self, b: Self) {
    }
}

#[derive(Debug, Clone, Copy, PartialEq, Eq, Structural)]
pub struct Member {
    pub listen: bool,
    /// Link quality 0..100, where 100 is full quieting and 0 is below the
    /// decode threshold.
    pub quality: u8,
}

/// Who hears a transmission, and how it should SOUND to them.
#[derive(Debug, Clone, Copy, PartialEq, Eq, Structural)]
pub struct Listener {
    pub client: ClientId,
    /// 0..100, where 100 is full quieting.
    pub quality: u8,
    pub mode: Mode,
    /// On the far side of a patch from the speaker, and so two RF hops away
    /// rather than one.
    pub bridged: bool,
}

impl Listener {
    pub fn sink(&self) -> (s: Sink)
        ensures
            s == (Sink { mode: self.mode, quality: self.quality, bridged: self.bridged }),
    {
        Sink { mode: self.mode, quality: self.quality, bridged: self.bridged }
    }
}

pub struct Route {
    pub encrypted: bool,
    pub members: Table<ClientId, Member>,
    /// The current grant holder, if any. Talkgroups are GLOBAL, so this is the
    /// one place doubling is prevented across every server at once.
    pub keyed: Option<ClientId>,
    /// A frequency rather than a talkgroup. Changes what keying means.
    pub conventional: bool,
    /// Amplitude modulation. FM captures; AM does not, and two transmitters
    /// are both heard, beating together.
    pub am: bool,
    /// Everybody else transmitting on this frequency right now.
    pub also: Vec<ClientId>,
}

impl View for Route {
    type V = RouteState;

    open spec fn view(&self) -> RouteState {
        RouteState {
            encrypted: self.encrypted,
            members: self.members@,
            keyed: self.keyed,
            conventional: self.conventional,
            am: self.am,
            also: self.also@,
        }
    }
}

/// Conventional routes carry the high bit.
pub const CONV_BASE: u32 = 0x8000_0000;

/// How long, in nanoseconds, a dispatcher has to insist after being refused a
/// busy channel.
pub const PREEMPT_WINDOW: u64 = 4_000_000_000;

/// What a route id says about itself, before anybody tells us anything: whether
/// it is a frequency, and whether that frequency is AM.
fn classify(id: u32) -> (r: (bool, bool))
    ensures
        r == (is_frequency(id), is_airband(id)),
{
    if id < CONV_BASE {
        return (false, false);
    }
    let steps: u32 = id - CONV_BASE;
    (true, 1_080_000 <= steps && steps < 1_370_000)
}

impl Route {
    fn idle(conventional: bool, am: bool) -> (r: Self)
        ensures
            r@ == idle_route(conventional, am),
    {
        Route {
            encrypted: false,
            members: Table::new(),
            keyed: None,
            conventional,
            am,
            also: Vec::new(),
        }
    }

    pub fn mode(&self) -> (m: Mode)
        ensures
            m == self@.mode(),
    {
        if self.conventional {
            if self.am {
                Mode::Am
            } else {
                Mode::Fm
            }
        } else {
            Mode::P25
        }
    }

    fn carries(&self, client: ClientId) -> (b: bool)
        ensures
            b == self@.carries(client),
    {
        self.held_by(client) || contains_client(&self.also, client)
    }

    fn held_by(&self, client: ClientId) -> (b: bool)
        ensures
            b == (self.keyed == Some(client)),
    {
        match self.keyed {
            Some(holder) => holder == client,
            None => false,
        }
    }

    fn release(&mut self, client: ClientId)
        ensures
            final(self)@ == old(self)@.released_by(client),
    {
        self.also = without_client(&self.also, client);
        if self.held_by(client) {
            self.keyed = None;
        }
    }

    fn take(&mut self, client: ClientId)
        ensures
            final(self)@ == old(self)@.taken_by(client),
    {
        self.also = without_client(&self.also, client);
        self.keyed = Some(client);
    }

    fn forget(&mut self, client: ClientId)
        ensures
            final(self)@ == old(self)@.without(client),
    {
        self.members.remove(&client);
        self.release(client);
    }

    fn forget_server(&mut self, server: u32)
        ensures
            final(self)@ == old(self)@.without_server(server),
    {
        let ghost before = self@;
        let stays = |c: &ClientId, m: &Member| -> (keep: bool)
            ensures
                keep == !(c.server == server),
        { c.server != server };
        self.members.retain(stays);
        self.also = without_server(&self.also, server);
        if let Some(holder) = self.keyed {
            if holder.server == server {
                self.keyed = None;
            }
        }
        assert(self@.members =~= before.without_server(server).members);
    }
}

fn contains_client(list: &Vec<ClientId>, client: ClientId) -> (b: bool)
    ensures
        b == list@.contains(client),
{
    let mut i: usize = 0;
    while i < list.len()
        invariant
            i <= list.len(),
            forall|j: int| 0 <= j < i ==> list@[j] != client,
        decreases list.len() - i,
    {
        if list[i] == client {
            return true;
        }
        i += 1;
    }
    false
}

fn without_client(list: &Vec<ClientId>, client: ClientId) -> (out: Vec<ClientId>)
    ensures
        out@ == dropping(list@, client),
{
    let mut out: Vec<ClientId> = Vec::new();
    let mut i: usize = 0;
    while i < list.len()
        invariant
            i <= list.len(),
            out@ == dropping(list@.take(i as int), client),
        decreases list.len() - i,
    {
        proof {
            reveal(Seq::filter);
            assert(list@.take(i as int + 1).drop_last() =~= list@.take(i as int));
        }
        if list[i] != client {
            out.push(list[i]);
        }
        i += 1;
    }
    assert(list@.take(i as int) =~= list@);
    out
}

fn without_server(list: &Vec<ClientId>, server: u32) -> (out: Vec<ClientId>)
    ensures
        out@ == dropping_server(list@, server),
{
    let mut out: Vec<ClientId> = Vec::new();
    let mut i: usize = 0;
    while i < list.len()
        invariant
            i <= list.len(),
            out@ == dropping_server(list@.take(i as int), server),
        decreases list.len() - i,
    {
        proof {
            reveal(Seq::filter);
            assert(list@.take(i as int + 1).drop_last() =~= list@.take(i as int));
        }
        if list[i].server != server {
            out.push(list[i]);
        }
        i += 1;
    }
    assert(list@.take(i as int) =~= list@);
    out
}

/// What happened to a key request. Preemption carries whoever was cut off, so
/// they can be told rather than simply going quiet.
#[derive(Debug, Clone, Copy, PartialEq, Eq, Structural)]
pub enum Keyed {
    Granted,
    Preempted(ClientId),
    /// Accepted on a conventional channel that somebody else is already
    /// holding, and not heard over the stronger signal.
    Doubled,
    /// Accepted on an AM channel somebody else is already on. Both are heard,
    /// summed and beating.
    Mixed,
}

/// A key request was answered as decided, a refusal in its own words.
pub open spec fn answers(r: Result<Keyed, &'static str>, decided: Result<Keyed, Refusal>) -> bool {
    match (r, decided) {
        (Ok(a), Ok(b)) => a == b,
        (Err(words), Err(why)) => words@ == why.text(),
        _ => false,
    }
}

pub struct Router {
    routes: Table<u32, Route>,
    /// The bridge between the two identity spaces: game servers speak in player
    /// ids, and a tap sees session ids.
    session_to_client: Table<SessionId, ClientId>,
    client_to_session: Table<ClientId, SessionId>,
    /// The route each speaker KEYED, as opposed to every route that key took.
    keyed_by: Table<ClientId, u32>,
    /// Talkgroups cross-connected into one.
    patches: Vec<Vec<u32>>,
    /// When each console was refused a busy route it may insist on.
    pending: Table<Press, u64>,
    /// What a key ACTUALLY took, per client and the route they pressed. A
    /// release gives back exactly that, whatever is patched by then.
    took: Table<Press, Vec<u32>>,
    clock: Clock,
}

impl View for Router {
    type V = State;

    closed spec fn view(&self) -> State {
        State {
            routes: self.routes@.map_values(|r: Route| r@),
            clients: self.session_to_client@,
            sessions: self.client_to_session@,
            keyed_by: self.keyed_by@,
            patches: groups_of(self.patches),
            pending: self.pending@,
            took: self.took@.map_values(|v: Vec<u32>| v@),
            latest: self.clock.latest(),
        }
    }
}

impl Default for Router {
    fn default() -> (r: Self)
        ensures
            r@ == State::empty(),
    {
        let r = Router {
            routes: Table::new(),
            session_to_client: Table::new(),
            client_to_session: Table::new(),
            keyed_by: Table::new(),
            patches: Vec::new(),
            pending: Table::new(),
            took: Table::new(),
            clock: Clock::start(),
        };
        assert(r@ =~= State::empty());
        r
    }
}

/// The player id in front of a player's name: `[12] Arthur Mitchell` is
/// player 12. What stands between the brackets is a whole number.
pub open spec fn player_in(name: Seq<char>) -> Option<nat> {
    if name.len() > 0 && name[0] == '[' && name.contains(']') {
        number_in(name.subrange(1, name.index_of_first(']')->0), u32::MAX as nat)
    } else {
        None
    }
}

pub fn player_id_from_username(name: &str) -> (r: Option<u32>)
    ensures
        match r {
            Some(id) => player_in(name@) == Some(id as nat),
            None => player_in(name@) is None,
        },
{
    let chars = chars_of(name);
    if chars.len() == 0 || chars[0] != '[' {
        return None;
    }
    let mut end: usize = 1;
    while end < chars.len() && chars[end] != ']'
        invariant
            1 <= end <= chars.len(),
            chars@ == name@,
            name@[0] == '[',
            forall|j: int| 0 <= j < end ==> name@[j] != ']',
        decreases chars.len() - end,
    {
        end += 1;
    }
    proof {
        name@.index_of_first_ensures(']');
    }
    if end == chars.len() {
        return None;
    }
    assert(name@[end as int] == ']');
    let digits = vstd::slice::slice_subrange(chars.as_slice(), 1, end);
    match parse_number(digits, 0xffff_ffff) {
        Some(id) => Some(id as u32),
        None => None,
    }
}

/// A session that goes by a name, and whose it is: the player's whose number
/// stands in front, of the session's own server. A name without one says
/// nothing.
pub open spec fn introduced(s: State, session: SessionId, name: Seq<char>) -> (
    State,
    Option<ClientId>,
) {
    match player_in(name) {
        Some(player) => (
            s.bound(session, player as u32),
            Some(ClientId { server: session.server, player: player as u32 }),
        ),
        None => (s, None),
    }
}

impl Router {
    /// A voice session belongs to the player named in front of its username.
    pub fn bind(&mut self, session: SessionId, username: &str) -> (r: Option<ClientId>)
        ensures
            (final(self)@, r) == introduced(old(self)@, session, username@),
            match player_in(username@) {
                Some(player) => {
                    &&& r == Some(ClientId { server: session.server, player: player as u32 })
                    &&& final(self)@ == old(self)@.bound(session, player as u32)
                },
                None => r is None && final(self)@ == old(self)@,
            },
    {
        let player = match player_id_from_username(username) {
            Some(player) => player,
            None => {
                return None;
            },
        };
        let client = ClientId::new(session.server, player);
        self.session_to_client.insert(session, client);
        self.client_to_session.insert(client, session);
        Some(client)
    }

    /// A session that ends takes its player off everything: a player who drops
    /// cannot still hold a channel, as the holder or mixed in on top of one.
    pub fn unbind(&mut self, session: SessionId)
        ensures
            final(self)@ == old(self)@.unbound(session),
    {
        if let Some(client) = self.session_to_client.remove(&session) {
            self.client_to_session.remove(&client);
            self.forget_client(client);
        } else {
            assert(self@ =~= old(self)@);
        }
    }

    /// Everything belonging to one server, for when a tap disconnects. The
    /// other servers on the platform are unaffected.
    pub fn drop_server(&mut self, server: u32)
        ensures
            final(self)@ == old(self)@.server_dropped(server),
    {
        let ghost before = *self;
        let session_stays = |s: &SessionId, c: &ClientId| -> (keep: bool)
            ensures
                keep == !(s.server == server),
        { s.server != server };
        self.session_to_client.retain(session_stays);
        let client_stays = |c: &ClientId, s: &SessionId| -> (keep: bool)
            ensures
                keep == !(c.server == server),
        { c.server != server };
        self.client_to_session.retain(client_stays);
        let stripped = |r: Route| -> (o: Route)
            ensures
                o@ == r@.without_server(server),
        {
            let mut o = r;
            o.forget_server(server);
            o
        };
        self.routes.change_all(stripped);
        let talker_stays = |c: &ClientId, tg: &u32| -> (keep: bool)
            ensures
                keep == !(c.server == server),
        { c.server != server };
        self.keyed_by.retain(talker_stays);
        let press_stays = |p: &Press, took: &Vec<u32>| -> (keep: bool)
            ensures
                keep == !(p.client.server == server),
        { p.client.server != server };
        self.took.retain(press_stays);
        proof {
            let target = before@.server_dropped(server);
            assert(self@.clients =~= target.clients);
            assert(self@.sessions =~= target.sessions);
            assert(self@.keyed_by =~= target.keyed_by);
            assert forall|k: u32| before.routes@.contains_key(k) implies #[trigger] self.routes@[k]@
                == before.routes@[k]@.without_server(server) by {
            }
            assert(self@.routes =~= target.routes);
            assert forall|p: Press| #[trigger] self.took@.contains_key(p) <==> before.took@.contains_key(p)
                && p.client.server != server by {
            }
            assert(self@.took =~= target.took);
        }
    }

    pub fn client_of(&self, session: SessionId) -> (r: Option<ClientId>)
        ensures
            r == self@.clients.get(session),
    {
        match self.session_to_client.get(&session) {
            Some(c) => Some(*c),
            None => None,
        }
    }

    pub fn session_of(&self, client: ClientId) -> (r: Option<SessionId>)
        ensures
            r == self@.sessions.get(client),
    {
        match self.client_to_session.get(&client) {
            Some(s) => Some(*s),
            None => None,
        }
    }

    /// What is known of one route.
    pub fn route(&self, tg: u32) -> (r: Option<&Route>)
        ensures
            match r {
                Some(route) => self@.routes.contains_key(tg) && route@ == self@.routes[tg],
                None => !self@.routes.contains_key(tg),
            },
    {
        self.routes.get(&tg)
    }

    // -- control operations -------------------------------------------------

    fn take_or_idle(&mut self, tg: u32) -> (r: (Route, bool))
        ensures
            final(self)@ == (State { routes: old(self)@.routes.remove(tg), ..old(self)@ }),
            r.1 == !old(self)@.routes.contains_key(tg),
            r.0@ == (if old(self)@.routes.contains_key(tg) {
                old(self)@.routes[tg]
            } else {
                idle_route(false, false)
            }),
    {
        let taken = self.routes.remove(&tg);
        assert(self@.routes =~= old(self)@.routes.remove(tg));
        match taken {
            Some(route) => (route, false),
            None => (Route::idle(false, false), true),
        }
    }

    fn put(&mut self, tg: u32, route: Route)
        ensures
            final(self)@ == old(self)@.with_route(tg, route@),
    {
        self.routes.insert(tg, route);
        assert(self@.routes =~= old(self)@.routes.insert(tg, route@));
    }

    pub fn open(&mut self, tg: u32, encrypted: bool) -> (fresh: bool)
        ensures
            fresh == !old(self)@.routes.contains_key(tg),
            final(self)@ == old(self)@.opened(tg, encrypted),
    {
        let (mut route, fresh) = self.take_or_idle(tg);
        route.encrypted = encrypted;
        self.put(tg, route);
        assert(self@ =~= old(self)@.opened(tg, encrypted));
        fresh
    }

    /// A conventional channel: a frequency, not a talkgroup. No controller, no
    /// grant, no slots.
    pub fn open_conventional(&mut self, id: u32, am: bool) -> (fresh: bool)
        ensures
            fresh == !old(self)@.routes.contains_key(id),
            final(self)@ == old(self)@.opened_conventional(id, am),
    {
        let (mut route, fresh) = self.take_or_idle(id);
        route.conventional = true;
        route.am = am;
        if !am {
            route.also = Vec::new();
            assert(route.also@ =~= Seq::empty());
        }
        self.put(id, route);
        assert(self@ =~= old(self)@.opened_conventional(id, am));
        fresh
    }

    pub fn close(&mut self, tg: u32) -> (was_open: bool)
        ensures
            was_open == old(self)@.routes.contains_key(tg),
            final(self)@ == old(self)@.closed(tg),
    {
        let was = self.routes.remove(&tg);
        assert(self@.routes =~= old(self)@.routes.remove(tg));
        was.is_some()
    }

    /// Puts a client on a route, or changes how it is on it. A route nobody has
    /// opened is classified by its id alone.
    pub fn set_member(&mut self, tg: u32, client: ClientId, listen: bool, quality: u8)
        ensures
            final(self)@ == old(self)@.with_member(tg, client, Member { listen, quality }),
    {
        let (taken, fresh) = self.take_or_idle(tg);
        let mut route = if fresh {
            let (conventional, am) = classify(tg);
            Route::idle(conventional, am)
        } else {
            taken
        };
        route.members.insert(client, Member { listen, quality });
        self.put(tg, route);
        assert(self@ =~= old(self)@.with_member(tg, client, Member { listen, quality }));
    }

    /// Asks for the channel, now.
    ///
    /// This is the platform's global no-double rule. Talkgroups are shared
    /// across every server, so two of them can each believe they granted one -
    /// and exactly one of them is right. Whichever arrives second is refused
    /// here.
    pub fn key(&mut self, tg: u32, client: ClientId) -> (r: Result<Keyed, &'static str>)
        ensures
            ({
                let now = final(self)@.latest;
                let start = old(self)@.read_at(now);
                &&& old(self)@.latest <= now
                &&& final(self)@ == start.keyed_at(tg, client, now).0
                &&& answers(r, start.keyed_at(tg, client, now).1)
            }),
    {
        let now = self.now();
        proof {
            lemma_a_press_leaves_the_clock(self@, tg, client, now);
        }
        self.key_at(tg, client, now)
    }

    /// The moment it is, on the clock that presses are timed by. It is never
    /// earlier than any it was before.
    pub fn now(&mut self) -> (nanos: u64)
        ensures
            final(self)@ == old(self)@.read_at(nanos),
            old(self)@.latest <= nanos,
    {
        self.clock.now()
    }

    /// The same, at an explicit moment.
    pub fn key_at(&mut self, tg: u32, client: ClientId, now: u64) -> (r: Result<
        Keyed,
        &'static str,
    >)
        ensures
            final(self)@ == old(self)@.keyed_at(tg, client, now).0,
            answers(r, old(self)@.keyed_at(tg, client, now).1),
    {
        let ghost start = self@;
        // A patch makes several talkgroups into one channel, so keying any of
        // them keys all of them.
        let group = self.joined(tg);
        let others = other_routes(&group, tg);
        let outcome = match self.key_one(tg, client, now) {
            Ok(outcome) => outcome,
            Err(why) => {
                return Err(why);
            },
        };
        if let Keyed::Preempted(holder) = outcome {
            // The two-press bar was cleared for the CHANNEL, and a patch is one
            // channel: what the preempted unit had on the rest of it goes too.
            self.hand_over(&others, holder, client);
        }
        let ghost shared = self@;
        let mut i: usize = 0;
        while i < others.len()
            invariant
                i <= others.len(),
                self@ == shared.keyed_each(others@.take(i as int), client, now),
            decreases others.len() - i,
        {
            // Best effort on the rest: a sibling that refuses is one somebody
            // else is holding.
            let _ = self.key_one(others[i], client, now);
            proof {
                assert(others@.take(i as int + 1).drop_last() =~= others@.take(i as int));
            }
            i += 1;
        }
        assert(others@.take(i as int) =~= others@);
        let ghost all = self@;
        // Recorded now: what is joined here is not necessarily what will be
        // joined at release. A reply adds to the record, and forgets nothing.
        let mut record: Vec<u32> = match self.took.remove(&Press { client, tg }) {
            Some(earlier) => earlier,
            None => Vec::new(),
        };
        proof {
            lemma_presses_change_routes_alone(shared, others@, client, now);
            lemma_nothing_and_members(group@);
            joined_is_the_connected_component(start.patches, tg);
        }
        add_members(&mut record, &group);
        assert(record@ == start.recorded(tg, client));
        self.took.insert(Press { client, tg }, record);
        self.keyed_by.insert(client, tg);
        assert(self@ =~= start.keyed_at(tg, client, now).0);
        Ok(outcome)
    }

    fn key_one(&mut self, tg: u32, client: ClientId, now: u64) -> (r: Result<Keyed, &'static str>)
        ensures
            final(self)@ == old(self)@.keyed_one(tg, client, now).0,
            answers(r, old(self)@.keyed_one(tg, client, now).1),
    {
        let ghost start = self@;
        let mut route = match self.routes.remove(&tg) {
            Some(route) => route,
            None => {
                assert(self@.routes =~= start.routes);
                return Err("no such route");
            },
        };
        let ghost here = route@;
        assert(self@.routes =~= start.routes.remove(tg));
        let outcome = match route.keyed {
            None => {
                route.take(client);
                Ok(Keyed::Granted)
            },
            Some(holder) => if holder == client {
                // A repeat inside hang time, which is a reply, not a new
                // transmission.
                Ok(Keyed::Granted)
            } else if route.conventional && route.am {
                // AM does not capture: a second transmitter is HEARD, on top of
                // the first.
                if !contains_client(&route.also, client) {
                    route.also.push(client);
                }
                Ok(Keyed::Mixed)
            } else if route.conventional {
                // FM captures: accepted, and nobody hears it.
                Ok(Keyed::Doubled)
            } else if client.is_console() && !holder.is_console() {
                // Dispatch preempts, but not on the first press. A second press
                // inside the window is a deliberate act.
                let press = Press { client, tg };
                let insisting = match self.pending.get(&press) {
                    Some(asked) => elapsed_between(*asked, now) <= PREEMPT_WINDOW,
                    None => false,
                };
                if insisting {
                    self.pending.remove(&press);
                    route.take(client);
                    Ok(Keyed::Preempted(holder))
                } else {
                    self.pending.insert(press, now);
                    Err("busy - key again to take the channel")
                }
            } else if !client.is_console() && holder.is_console() {
                Err("dispatch is transmitting")
            } else {
                Err("route already keyed")
            },
        };
        self.routes.insert(tg, route);
        proof {
            assert(self@.routes =~= start.routes.insert(tg, route@));
            assert(self@ =~= start.keyed_one(tg, client, now).0);
        }
        outcome
    }

    fn hand_over_one(&mut self, tg: u32, holder: ClientId, client: ClientId)
        ensures
            final(self)@ == (State {
                routes: if old(self)@.routes.contains_key(tg) {
                    old(self)@.routes.insert(tg, old(self)@.routes[tg].passed_on(holder, client))
                } else {
                    old(self)@.routes
                },
                pending: old(self)@.pending.remove(Press { client, tg }),
                ..old(self)@
            }),
    {
        let ghost start = self@;
        if let Some(taken) = self.routes.remove(&tg) {
            let mut route = taken;
            let held = route.held_by(holder);
            route.also = without_client(&route.also, holder);
            if held {
                route.take(client);
            }
            self.routes.insert(tg, route);
            assert(route@ == start.routes[tg].passed_on(holder, client));
            assert(self@.routes =~= start.routes.insert(tg, route@));
        } else {
            assert(self@.routes =~= start.routes);
        }
        self.pending.remove(&Press { client, tg });
    }

    fn hand_over(&mut self, others: &Vec<u32>, holder: ClientId, client: ClientId)
        ensures
            final(self)@ == old(self)@.handed_over(others@, holder, client),
    {
        let ghost start = self@;
        let mut i: usize = 0;
        assert(self@ =~= start.handed_over(others@.take(0), holder, client));
        while i < others.len()
            invariant
                i <= others.len(),
                self@ == start.handed_over(others@.take(i as int), holder, client),
            decreases others.len() - i,
        {
            let ghost upto = others@.take(i as int);
            let ghost more = others@.take(i as int + 1);
            let ghost before = self@;
            let other = others[i];
            proof {
                assert(more =~= upto.push(other));
                assert forall|t: u32| #[trigger] more.contains(t) <==> upto.contains(t) || t
                    == other by {
                    if upto.contains(t) {
                        let j = choose|j: int| 0 <= j < upto.len() && upto[j] == t;
                        assert(more[j] == t);
                    }
                    assert(more[i as int] == other);
                }
                lemma_passed_on_twice(start.routes[other], holder, client);
            }
            self.hand_over_one(other, holder, client);
            proof {
                let target = start.handed_over(more, holder, client);
                assert forall|t: u32| start.routes.contains_key(t) implies #[trigger] self@.routes[t]
                    == target.routes[t] by {
                    assert(more.contains(t) <==> upto.contains(t) || t == other);
                }
                assert(self@.routes =~= target.routes);
                assert(self@.pending =~= target.pending);
                assert(self@ =~= target);
            }
            i += 1;
        }
        assert(others@.take(i as int) =~= others@);
    }

    /// Drops a client's MEMBERSHIP without touching what it is transmitting.
    ///
    /// Changing the board is not letting go of the button, and the two must not
    /// be the same operation.
    pub fn forget_membership(&mut self, client: ClientId)
        ensures
            final(self)@ == old(self)@.membership_forgotten(client),
    {
        let ghost before = *self;
        let stripped = |r: Route| -> (o: Route)
            ensures
                o@ == (RouteState { members: r@.members.remove(client), ..r@ }),
        {
            let mut o = r;
            o.members.remove(&client);
            o
        };
        self.routes.change_all(stripped);
        proof {
            let target = before@.membership_forgotten(client);
            assert forall|k: u32| before.routes@.contains_key(k) implies #[trigger] self.routes@[k]@
                == target.routes[k] by {
            }
            assert(self@.routes =~= target.routes);
        }
    }

    /// Removes a client from every talkgroup, and releases anything it was
    /// keying.
    pub fn forget_client(&mut self, client: ClientId)
        ensures
            final(self)@ == old(self)@.forgotten(client),
    {
        let ghost before = *self;
        let stripped = |r: Route| -> (o: Route)
            ensures
                o@ == r@.without(client),
        {
            let mut o = r;
            o.forget(client);
            o
        };
        self.routes.change_all(stripped);
        self.keyed_by.remove(&client);
        let press_stays = |p: &Press, took: &Vec<u32>| -> (keep: bool)
            ensures
                keep == !(p.client == client),
        { p.client != client };
        self.took.retain(press_stays);
        proof {
            let target = before@.forgotten(client);
            assert forall|k: u32| before.routes@.contains_key(k) implies #[trigger] self.routes@[k]@
                == target.routes[k] by {
            }
            assert(self@.routes =~= target.routes);
            assert(self@.took =~= target.took);
        }
    }

    /// Every talkgroup joined to this one, including itself.
    ///
    /// A talkgroup in two patches joins both, transitively.
    pub fn joined(&self, tg: u32) -> (out: Vec<u32>)
        ensures
            out@ == self@.joined(tg),
    {
        patches::joined(&self.patches, tg)
    }

    /// Replaces the patch table wholesale: a patch that half-applied would be a
    /// channel joined in one direction only.
    pub fn set_patches(&mut self, groups: Vec<Vec<u32>>)
        ensures
            final(self)@ == (State { patches: groups_of(groups), ..old(self)@ }),
    {
        self.patches = groups;
    }
}

proof fn lemma_a_press_leaves_the_clock(s: State, tg: u32, client: ClientId, now: u64)
    ensures
        s.keyed_at(tg, client, now).0.latest == s.latest,
{
    let others = s.patched_to(tg);
    let (pressed, outcome) = s.keyed_one(tg, client, now);
    if let Ok(keyed) = outcome {
        let shared = match keyed {
            Keyed::Preempted(holder) => pressed.handed_over(others, holder, client),
            _ => pressed,
        };
        lemma_presses_change_routes_alone(shared, others, client, now);
    }
}

proof fn lemma_nothing_and_members(group: Seq<u32>)
    ensures
        group.no_duplicates() ==> with_members(Seq::empty(), group) == group,
    decreases group.len(),
{
    if group.len() > 0 && group.no_duplicates() {
        let rest = group.drop_last();
        lemma_nothing_and_members(rest);
        assert(!rest.contains(group.last())) by {
            if rest.contains(group.last()) {
                let j = choose|j: int| 0 <= j < rest.len() && rest[j] == group.last();
                assert(group[j] == group[group.len() - 1]);
            }
        }
        assert(rest.push(group.last()) =~= group);
    }
}

fn other_routes(group: &Vec<u32>, tg: u32) -> (out: Vec<u32>)
    ensures
        out@ == all_but(group@, tg),
{
    let mut out: Vec<u32> = Vec::new();
    let mut i: usize = 0;
    while i < group.len()
        invariant
            i <= group.len(),
            out@ == all_but(group@.take(i as int), tg),
        decreases group.len() - i,
    {
        proof {
            reveal(Seq::filter);
            assert(group@.take(i as int + 1).drop_last() =~= group@.take(i as int));
        }
        if group[i] != tg {
            out.push(group[i]);
        }
        i += 1;
    }
    assert(group@.take(i as int) =~= group@);
    out
}

impl Router {
    /// Releases a talkgroup, but only for whoever actually holds it.
    ///
    /// What the key took is given back, not what is joined now.
    pub fn unkey_as(&mut self, tg: u32, client: ClientId) -> (released: bool)
        ensures
            released == old(self)@.releases(tg, client),
            final(self)@ == old(self)@.unkeyed_as(tg, client),
    {
        let ghost start = self@;
        let mine = match self.took.remove(&Press { client, tg }) {
            Some(taken) => taken,
            None => self.joined(tg),
        };
        assert(mine@ == start.to_release(tg, client));
        assert(self@.took =~= start.took.remove(Press { client, tg }));
        let ghost opened = self@;
        let released = self.release_each(&mine, client);
        self.keyed_by.remove(&client);
        proof {
            assert forall|t: u32| opened.holds(t, client) <==> start.holds(t, client) by {
            }
            if released {
                let j = choose|j: int| 0 <= j < mine@.len() && opened.holds(#[trigger] mine@[j], client);
                assert(start.to_release(tg, client).contains(mine@[j]));
            }
            if start.releases(tg, client) {
                let t = choose|t: u32| #[trigger]
                    start.to_release(tg, client).contains(t) && start.holds(t, client);
                let j = choose|j: int| 0 <= j < mine@.len() && mine@[j] == t;
                assert(opened.holds(mine@[j], client));
            }
            assert(self@.routes =~= start.unkeyed_as(tg, client).routes);
        }
        released
    }

    /// Takes a client off several routes, and says whether it was on any.
    fn release_each(&mut self, mine: &Vec<u32>, client: ClientId) -> (released: bool)
        ensures
            released <==> exists|j: int|
                0 <= j < mine@.len() && old(self)@.holds(#[trigger] mine@[j], client),
            final(self)@ == old(self)@.given_back(mine@, client),
    {
        let ghost opened = self@;
        let mut released = false;
        let mut i: usize = 0;
        assert(self@.routes =~= opened.given_back(mine@.take(0), client).routes);
        while i < mine.len()
            invariant
                i <= mine.len(),
                self@ == opened.given_back(mine@.take(i as int), client),
                released <==> exists|j: int| 0 <= j < i && opened.holds(#[trigger] mine@[j], client),
            decreases mine.len() - i,
        {
            let other = mine[i];
            let ghost before = self@;
            let ghost upto = mine@.take(i as int);
            let ghost more = mine@.take(i as int + 1);
            let ghost already = upto.contains(other);
            proof {
                assert(more =~= upto.push(other));
                lemma_push_contains(upto, other);
                if already {
                    let j = choose|j: int| 0 <= j < upto.len() && upto[j] == other;
                    assert(mine@[j] == other);
                }
                lemma_dropping_twice(opened.routes[other].also, client);
                lemma_dropping(opened.routes[other].also, client);
            }
            if self.release_one(other, client) {
                released = true;
            }
            proof {
                assert(before.holds(other, client) ==> !already);
                assert(opened.holds(other, client) && !already ==> before.holds(other, client));
                assert forall|t: u32| opened.routes.contains_key(t) implies #[trigger] self@.routes[t]
                    == opened.given_back(more, client).routes[t] by {
                    assert(more.contains(t) <==> upto.contains(t) || t == other);
                }
                assert(self@.routes =~= opened.given_back(more, client).routes);
            }
            i += 1;
        }
        assert(mine@.take(i as int) =~= mine@);
        released
    }

    fn end_press(&mut self, tg: u32, client: ClientId)
        ensures
            final(self)@ == old(self)@.press_ended(tg, client),
    {
        let ghost start = self@;
        let press = Press { client, tg };
        if let Some(mine) = self.took.remove(&press) {
            assert(self@.took =~= start.took.remove(press));
            self.release_each(&mine, client);
            assert(self@.routes =~= start.press_ended(tg, client).routes);
        } else {
            assert(self@.took =~= start.took);
        }
    }

    fn release_one(&mut self, tg: u32, client: ClientId) -> (released: bool)
        ensures
            released == old(self)@.holds(tg, client),
            final(self)@ == (if old(self)@.routes.contains_key(tg) {
                old(self)@.with_route(tg, old(self)@.routes[tg].released_by(client))
            } else {
                old(self)@
            }),
    {
        let ghost start = self@;
        if let Some(taken) = self.routes.remove(&tg) {
            let mut route = taken;
            let released = route.carries(client);
            route.release(client);
            self.routes.insert(tg, route);
            assert(self@.routes =~= start.routes.insert(tg, route@));
            released
        } else {
            assert(self@.routes =~= start.routes);
            false
        }
    }

    /// Unconditional release, for teardown paths that own the route outright.
    pub fn unkey(&mut self, tg: u32)
        ensures
            final(self)@ == old(self)@.unkeyed(tg),
    {
        let ghost start = self@;
        if let Some(taken) = self.routes.remove(&tg) {
            let mut route = taken;
            route.keyed = None;
            route.also = Vec::new();
            self.routes.insert(tg, route);
            assert(route@ =~= (RouteState { keyed: None, also: Seq::empty(), ..start.routes[tg] }));
            assert(self@.routes =~= start.routes.insert(tg, route@));
        } else {
            assert(self@.routes =~= start.routes);
        }
    }

    /// Takes everybody transmitting on a route off it, and off whatever their
    /// press of it took. What they hold by another press stays theirs.
    pub fn unkey_everybody(&mut self, tg: u32)
        ensures
            final(self)@ == old(self)@.all_unkeyed(tg),
    {
        let ghost start = self@;
        let talkers = self.talkers_on(tg);
        let mut i: usize = 0;
        while i < talkers.len()
            invariant
                i <= talkers.len(),
                self@ == start.presses_ended(tg, talkers@.take(i as int)),
            decreases talkers.len() - i,
        {
            assert(talkers@.take(i as int + 1).drop_last() =~= talkers@.take(i as int));
            self.end_press(tg, talkers[i]);
            i += 1;
        }
        assert(talkers@.take(i as int) =~= talkers@);
        self.unkey(tg);
    }

    /// Takes a client off the air everywhere, and leaves it where it listens.
    pub fn silence(&mut self, client: ClientId)
        ensures
            final(self)@ == old(self)@.silenced(client),
    {
        let ghost before = *self;
        let quieted = |r: Route| -> (o: Route)
            ensures
                o@ == r@.released_by(client),
        {
            let mut o = r;
            o.release(client);
            o
        };
        self.routes.change_all(quieted);
        self.keyed_by.remove(&client);
        let press_stays = |p: &Press, took: &Vec<u32>| -> (keep: bool)
            ensures
                keep == !(p.client == client),
        { p.client != client };
        self.took.retain(press_stays);
        proof {
            let target = before@.silenced(client);
            assert forall|k: u32| before.routes@.contains_key(k) implies #[trigger] self.routes@[k]@
                == target.routes[k] by {
            }
            assert(self@.routes =~= target.routes);
            assert(self@.took =~= target.took);
        }
    }

    // -- the hot path -------------------------------------------------------

    /// Whether this client is transmitting on that route right now: as the
    /// holder, or as somebody mixed in on top of them.
    fn holds(&self, tg: u32, client: ClientId) -> (b: bool)
        ensures
            b == self@.holds(tg, client),
    {
        match self.routes.get(&tg) {
            Some(route) => route.carries(client),
            None => false,
        }
    }

    /// The lowest route a client holds.
    fn lowest_held(&self, client: ClientId) -> (r: Option<u32>)
        ensures
            match r {
                Some(tg) => self@.holds(tg, client) && forall|t: u32| #[trigger]
                    self@.holds(t, client) ==> tg <= t,
                None => self@.silent(client),
            },
    {
        let tgs = self.routes.keys();
        let mut lowest: Option<u32> = None;
        let mut i: usize = 0;
        while i < tgs.len()
            invariant
                i <= tgs.len(),
                match lowest {
                    Some(tg) => self@.holds(tg, client) && forall|j: int|
                        0 <= j < i && self@.holds(#[trigger] tgs@[j], client) ==> tg <= tgs@[j],
                    None => forall|j: int| 0 <= j < i ==> !self@.holds(#[trigger] tgs@[j], client),
                },
            decreases tgs.len() - i,
        {
            let tg = tgs[i];
            if self.holds(tg, client) {
                match lowest {
                    Some(low) => if tg < low {
                        lowest = Some(tg);
                    },
                    None => {
                        lowest = Some(tg);
                    },
                }
            }
            i += 1;
        }
        proof {
            assert forall|t: u32| #[trigger] self@.holds(t, client) implies exists|j: int|
                0 <= j < tgs@.len() && #[trigger] tgs@[j] == t by {
                assert(self.routes@.contains_key(t));
                assert(tgs@.contains(t));
            }
        }
        lowest
    }

    /// What this client is keyed into, and who should hear it.
    ///
    /// The ROUTER decides what a client is keyed to; the client saying so would
    /// let a position transmit on a talkgroup it was never granted.
    pub fn destination_of(&self, speaker: ClientId) -> (r: Option<(u32, Vec<Listener>)>)
        ensures
            match r {
                Some((tg, listeners)) => self@.on_air(speaker, tg) && self@.is_audience(
                    tg,
                    Some(speaker),
                    listeners@,
                ),
                None => self@.silent(speaker),
            },
    {
        let asked = match self.keyed_by.get(&speaker) {
            Some(tg) => if self.holds(*tg, speaker) {
                Some(*tg)
            } else {
                None
            },
            None => None,
        };
        let tg = match asked {
            Some(tg) => tg,
            None => match self.lowest_held(speaker) {
                Some(tg) => tg,
                None => {
                    return None;
                },
            },
        };
        let listeners = self.listeners_across(tg, Some(speaker));
        Some((tg, listeners))
    }

    /// Given a speaking session: the route it is keyed into, that speaker's own
    /// hop, and who should receive it.
    pub fn destination(&self, session: SessionId) -> (r: Option<(u32, Sink, Vec<Listener>)>)
        ensures
            match r {
                Some((tg, sink, listeners)) => {
                    let speaker = self@.clients[session];
                    &&& self@.clients.contains_key(session)
                    &&& self@.on_air(speaker, tg)
                    &&& sink == self@.source_sink(tg, speaker)
                    &&& self@.is_audience(tg, Some(speaker), listeners@)
                },
                None => !self@.clients.contains_key(session) || self@.silent(
                    self@.clients[session],
                ),
            },
    {
        let speaker = match self.client_of(session) {
            Some(speaker) => speaker,
            None => {
                return None;
            },
        };
        match self.destination_of(speaker) {
            Some((tg, listeners)) => Some((tg, self.source_sink(tg, speaker), listeners)),
            None => None,
        }
    }

    /// The SPEAKER's own hop: the mode of the route they keyed and their own
    /// link on it. Full quieting when the route does not list them, which is
    /// the console case.
    pub fn source_sink(&self, tg: u32, speaker: ClientId) -> (s: Sink)
        ensures
            s == self@.source_sink(tg, speaker),
    {
        match self.routes.get(&tg) {
            Some(route) => Sink {
                mode: route.mode(),
                quality: match route.members.get(&speaker) {
                    Some(m) => m.quality,
                    None => 100,
                },
                bridged: false,
            },
            None => Sink { mode: Mode::P25, quality: 100, bridged: false },
        }
    }

    /// Everybody transmitting on a route at once. One person normally; more
    /// only on AM, where that is the whole point.
    pub fn talkers_on(&self, tg: u32) -> (out: Vec<ClientId>)
        ensures
            out@ == self@.talkers_on(tg),
    {
        let mut out: Vec<ClientId> = Vec::new();
        if let Some(route) = self.routes.get(&tg) {
            if let Some(holder) = route.keyed {
                out.push(holder);
            }
            let mut i: usize = 0;
            let ghost first = out@;
            while i < route.also.len()
                invariant
                    i <= route.also.len(),
                    out@ =~= first + route.also@.take(i as int),
                decreases route.also.len() - i,
            {
                out.push(route.also[i]);
                i += 1;
            }
            assert(out@ =~= route@.talkers());
        }
        out
    }

    /// Whether a collision is in progress on an AM member anywhere in this
    /// route's patch group.
    pub fn am_collision(&self, tg: u32) -> (b: bool)
        ensures
            b == self@.am_collision(tg),
    {
        let group = self.joined(tg);
        let mut any_am = false;
        let mut found: Option<ClientId> = None;
        let mut two = false;
        let mut i: usize = 0;
        while i < group.len()
            invariant
                i <= group.len(),
                any_am <==> exists|j: int|
                    0 <= j < i && self@.routes.contains_key(#[trigger] group@[j])
                        && self@.routes[group@[j]].am,
                match found {
                    Some(a) => self@.transmits_on(group@, a),
                    None => forall|j: int|
                        0 <= j < i ==> self@.talkers_on(#[trigger] group@[j]).len() == 0,
                },
                two ==> exists|a: ClientId, b: ClientId|
                    a != b && #[trigger] self@.transmits_on(group@, a)
                        && #[trigger] self@.transmits_on(group@, b),
                !two ==> forall|j: int, k: int|
                    0 <= j < i && 0 <= k < self@.talkers_on(#[trigger] group@[j]).len() ==> Some(
                        #[trigger] self@.talkers_on(group@[j])[k],
                    ) == found,
            decreases group.len() - i,
        {
            let t = group[i];
            if let Some(route) = self.routes.get(&t) {
                if route.am {
                    any_am = true;
                }
            }
            let talkers = self.talkers_on(t);
            let ghost earlier = found;
            let mut k: usize = 0;
            while k < talkers.len()
                invariant
                    k <= talkers.len(),
                    i < group.len(),
                    t == group@[i as int],
                    talkers@ == self@.talkers_on(t),
                    earlier is Some ==> found == earlier,
                    k == 0 ==> found == earlier,
                    k > 0 ==> found is Some,
                    found matches Some(a) ==> self@.transmits_on(group@, a),
                    two ==> exists|a: ClientId, b: ClientId|
                        a != b && #[trigger] self@.transmits_on(group@, a)
                            && #[trigger] self@.transmits_on(group@, b),
                    !two ==> forall|j: int, m: int|
                        0 <= j < i && 0 <= m < self@.talkers_on(#[trigger] group@[j]).len() ==> Some(
                            #[trigger] self@.talkers_on(group@[j])[m],
                        ) == earlier,
                    !two ==> forall|m: int| 0 <= m < k ==> Some(#[trigger] talkers@[m]) == found,
                decreases talkers.len() - k,
            {
                let who = talkers[k];
                proof {
                    lemma_talker_transmits(self@, t, k as int);
                    assert(group@.contains(t));
                    assert(self@.transmits_on(group@, who));
                }
                match found {
                    Some(a) => if a != who {
                        two = true;
                    },
                    None => {
                        found = Some(who);
                    },
                }
                k += 1;
            }
            i += 1;
        }
        proof {
            if any_am {
                let j = choose|j: int|
                    0 <= j < i && self@.routes.contains_key(#[trigger] group@[j])
                        && self@.routes[group@[j]].am;
                assert(group@.contains(group@[j]));
            }
            if exists|t: u32| #[trigger]
                group@.contains(t) && self@.routes.contains_key(t) && self@.routes[t].am {
                let t = choose|t: u32| #[trigger]
                    group@.contains(t) && self@.routes.contains_key(t) && self@.routes[t].am;
                let j = choose|j: int| 0 <= j < group@.len() && group@[j] == t;
                assert(self@.routes[group@[j]].am);
            }
            if !two {
                assert forall|a: ClientId| #[trigger] self@.transmits_on(group@, a) implies found
                    == Some(a) by {
                    let t = choose|t: u32| #[trigger] group@.contains(t) && self@.holds(t, a);
                    let j = choose|j: int| 0 <= j < group@.len() && group@[j] == t;
                    lemma_transmitter_talks(self@, t, a);
                    let k = choose|k: int|
                        0 <= k < self@.talkers_on(t).len() && self@.talkers_on(t)[k] == a;
                    assert(self@.talkers_on(group@[j])[k] == a);
                }
            }
        }
        any_am && two
    }

    /// Whether the channel has actually gone clear: nobody transmitting on this
    /// route, or on anything patched to it.
    pub fn is_clear(&self, tg: u32) -> (b: bool)
        ensures
            b == self@.is_clear(tg),
    {
        let group = self.joined(tg);
        let mut i: usize = 0;
        while i < group.len()
            invariant
                i <= group.len(),
                group@ == self@.joined(tg),
                forall|j: int| 0 <= j < i ==> self@.talkers_on(#[trigger] group@[j]).len() == 0,
            decreases group.len() - i,
        {
            let talkers = self.talkers_on(group[i]);
            if talkers.len() > 0 {
                assert(self@.joined(tg).contains(group@[i as int]));
                return false;
            }
            i += 1;
        }
        true
    }

    /// Listeners on a talkgroup and everything patched to it.
    ///
    /// Once each: somebody affiliated to two patched talkgroups is one person
    /// and must not be sent the same audio twice.
    fn listeners_across(&self, tg: u32, except: Option<ClientId>) -> (out: Vec<Listener>)
        ensures
            self@.is_audience(tg, except, out@),
    {
        let group = self.joined(tg);
        let mut out: Vec<Listener> = Vec::new();
        let mut i: usize = 0;
        while i < group.len()
            invariant
                i <= group.len(),
                once_each(out@),
                forall|l: Listener| #[trigger]
                    out@.contains(l) <==> except != Some(l.client) && self@.hears_best(
                        tg,
                        group@.take(i as int),
                        l.client,
                    ) == Some(l),
            decreases group.len() - i,
        {
            self.add_listeners(&mut out, tg, group[i], except, Ghost(group@.take(i as int)));
            assert(group@.take(i as int + 1) =~= group@.take(i as int).push(group@[i as int]));
            i += 1;
        }
        assert(group@.take(i as int) =~= group@);
        out
    }

    fn add_listeners(
        &self,
        out: &mut Vec<Listener>,
        tg: u32,
        member: u32,
        except: Option<ClientId>,
        Ghost(done): Ghost<Seq<u32>>,
    )
        requires
            once_each(old(out)@),
            forall|l: Listener| #[trigger]
                old(out)@.contains(l) <==> except != Some(l.client) && self@.hears_best(
                    tg,
                    done,
                    l.client,
                ) == Some(l),
        ensures
            once_each(final(out)@),
            forall|l: Listener| #[trigger]
                final(out)@.contains(l) <==> except != Some(l.client) && self@.hears_best(
                    tg,
                    done.push(member),
                    l.client,
                ) == Some(l),
    {
        let ghost more = done.push(member);
        assert(more.drop_last() =~= done);
        let route = match self.routes.get(&member) {
            Some(route) => route,
            None => {
                assert forall|c: ClientId| #[trigger] self@.hears_best(tg, more, c)
                    == self@.hears_best(tg, done, c) by {
                    assert(self@.hears_on(tg, member, c) is None);
                }
                return;
            },
        };
        let mode = route.mode();
        let clients = route.members.keys();
        let mut k: usize = 0;
        while k < clients.len()
            invariant
                k <= clients.len(),
                clients@.no_duplicates(),
                forall|c: ClientId| #[trigger]
                    clients@.contains(c) <==> route.members@.contains_key(c),
                more == done.push(member),
                more.drop_last() == done,
                mode == route@.mode(),
                self@.routes.contains_key(member),
                self@.routes[member] == route@,
                once_each(out@),
                forall|l: Listener| #[trigger]
                    out@.contains(l) <==> except != Some(l.client) && self@.hears_best(
                        tg,
                        if clients@.take(k as int).contains(l.client) {
                            more
                        } else {
                            done
                        },
                        l.client,
                    ) == Some(l),
            decreases clients.len() - k,
        {
            let c = clients[k];
            let ghost before = out@;
            let ghost upto = clients@.take(k as int);
            let ghost next = clients@.take(k as int + 1);
            proof {
                assert(next =~= upto.push(c));
                lemma_push_contains(upto, c);
                assert(clients@.contains(c));
                assert(!upto.contains(c)) by {
                    if upto.contains(c) {
                        let j = choose|j: int| 0 <= j < upto.len() && upto[j] == c;
                        assert(clients@[j] == clients@[k as int]);
                    }
                }
            }
            let excepted = match except {
                Some(e) => e == c,
                None => false,
            };
            let m = match route.members.get(&c) {
                Some(m) => *m,
                None => Member { listen: false, quality: 0 },
            };
            if m.listen && !excepted {
                let l = Listener { client: c, quality: m.quality, mode, bridged: member != tg };
                assert(self@.hears_on(tg, member, c) == Some(l));
                note(out, l);
                proof {
                    assert forall|x: Listener| #[trigger] out@.contains(x) <==> except != Some(
                        x.client,
                    ) && self@.hears_best(
                        tg,
                        if next.contains(x.client) {
                            more
                        } else {
                            done
                        },
                        x.client,
                    ) == Some(x) by {
                        assert(next.contains(x.client) <==> upto.contains(x.client) || x.client == c);
                        assert(before.contains(x) <==> except != Some(x.client)
                            && self@.hears_best(
                            tg,
                            if upto.contains(x.client) {
                                more
                            } else {
                                done
                            },
                            x.client,
                        ) == Some(x));
                        if x.client == c {
                            let earlier = self@.hears_best(tg, done, c);
                            if earlier is Some {
                                lemma_heard_is_oneself(self@, tg, done, c);
                                assert(before.contains(earlier->0));
                            }
                        }
                    }
                }
            } else {
                proof {
                    assert forall|x: Listener| #[trigger] out@.contains(x) <==> except != Some(
                        x.client,
                    ) && self@.hears_best(
                        tg,
                        if next.contains(x.client) {
                            more
                        } else {
                            done
                        },
                        x.client,
                    ) == Some(x) by {
                        assert(next.contains(x.client) <==> upto.contains(x.client) || x.client == c);
                        if x.client == c && !excepted {
                            assert(self@.hears_on(tg, member, c) is None);
                        }
                    }
                }
            }
            k += 1;
        }
        proof {
            assert(clients@.take(k as int) =~= clients@);
            assert forall|l: Listener| #[trigger] out@.contains(l) <==> except != Some(l.client)
                && self@.hears_best(tg, more, l.client) == Some(l) by {
                if !clients@.contains(l.client) {
                    assert(self@.hears_on(tg, member, l.client) is None);
                }
            }
        }
    }

    /// Who is listening to a talkgroup.
    pub fn listeners_of(&self, tg: u32) -> (out: Vec<ClientId>)
        ensures
            out@.no_duplicates(),
            forall|c: ClientId| #[trigger] out@.contains(c) <==> self@.listens(tg, c),
    {
        let mut out: Vec<ClientId> = Vec::new();
        let route = match self.routes.get(&tg) {
            Some(route) => route,
            None => {
                return out;
            },
        };
        let clients = route.members.keys();
        let mut k: usize = 0;
        while k < clients.len()
            invariant
                k <= clients.len(),
                clients@.no_duplicates(),
                forall|c: ClientId| #[trigger]
                    clients@.contains(c) <==> route.members@.contains_key(c),
                self@.routes.contains_key(tg),
                self@.routes[tg] == route@,
                out@.no_duplicates(),
                forall|c: ClientId| #[trigger]
                    out@.contains(c) <==> clients@.take(k as int).contains(c) && self@.listens(
                        tg,
                        c,
                    ),
            decreases clients.len() - k,
        {
            let c = clients[k];
            let ghost before = out@;
            let ghost upto = clients@.take(k as int);
            proof {
                assert(clients@.take(k as int + 1) =~= upto.push(c));
                lemma_push_contains(upto, c);
                assert(clients@.contains(c));
                assert(!upto.contains(c)) by {
                    if upto.contains(c) {
                        let j = choose|j: int| 0 <= j < upto.len() && upto[j] == c;
                        assert(clients@[j] == clients@[k as int]);
                    }
                }
                lemma_push_contains(before, c);
                assert(!before.contains(c));
            }
            if let Some(m) = route.members.get(&c) {
                if m.listen {
                    out.push(c);
                    assert(out@.no_duplicates());
                }
            }
            k += 1;
        }
        assert(clients@.take(k as int) =~= clients@);
        out
    }
}

/// Whether every count in a table can be told in 32 bits.
fn all_fit(counts: &Table<u32, u64>) -> (b: bool)
    ensures
        b == forall|x: u32| #[trigger] counts@.contains_key(x) ==> counts@[x] <= u32::MAX,
{
    let keys = counts.keys();
    let mut i: usize = 0;
    while i < keys.len()
        invariant
            i <= keys.len(),
            forall|x: u32| #[trigger] keys@.contains(x) <==> counts@.contains_key(x),
            forall|j: int| 0 <= j < i ==> counts@[#[trigger] keys@[j]] <= u32::MAX,
        decreases keys.len() - i,
    {
        assert(keys@.contains(keys@[i as int]));
        if let Some(n) = counts.get(&keys[i]) {
            if *n > u32::MAX as u64 {
                assert(counts@.contains_key(keys@[i as int]));
                return false;
            }
        }
        i += 1;
    }
    assert forall|x: u32| #[trigger] counts@.contains_key(x) implies counts@[x] <= u32::MAX by {
        assert(keys@.contains(x));
    }
    true
}

impl Router {
    /// Per-server counts: bound identities, distinct affiliated clients, and
    /// how many talkgroups that server is currently keying.
    pub fn stats(&self) -> (out: Table<u32, (u32, u32, u32)>)
        requires
            self@.countable(),
        ensures
            self@.are_counts(out@),
    {
        let bound = self.bound_each();
        let affiliated = self.affiliated_each();
        let keying = self.keying_each();
        let mut out: Table<u32, (u32, u32, u32)> = Table::new();
        add_servers(&mut out, &bound, &affiliated, &keying, &bound, self);
        add_servers(&mut out, &bound, &affiliated, &keying, &affiliated, self);
        add_servers(&mut out, &bound, &affiliated, &keying, &keying, self);
        out
    }

    /// The same counts, where every one of them can be told.
    pub fn try_stats(&self) -> (r: Option<Table<u32, (u32, u32, u32)>>)
        ensures
            match r {
                Some(out) => self@.countable() && self@.are_counts(out@),
                None => !self@.countable(),
            },
    {
        let bound = self.bound_each();
        let affiliated = self.affiliated_each();
        let keying = self.keying_each();
        let fits = all_fit(&bound) && all_fit(&affiliated) && all_fit(&keying);
        if fits {
            proof {
                let s = self@;
                assert forall|x: u32|
                    (#[trigger] s.bound_on(x).len()) <= u32::MAX && s.affiliated_on(x).len()
                        <= u32::MAX && s.keying_on(x).len() <= u32::MAX by {
                    assert(bound@.contains_key(x) <==> self@.bound_on(x).len() > 0);
                    assert(affiliated@.contains_key(x) <==> self@.affiliated_on(x).len() > 0);
                    assert(keying@.contains_key(x) <==> self@.keying_on(x).len() > 0);
                }
                assert(s.countable());
            }
            Some(self.stats())
        } else {
            proof {
                let s = self@;
                if s.countable() {
                    assert forall|x: u32| #[trigger] bound@.contains_key(x) implies bound@[x]
                        <= u32::MAX by {
                        assert(s.bound_on(x).len() <= u32::MAX);
                    }
                    assert forall|x: u32| #[trigger] affiliated@.contains_key(x) implies affiliated@[x]
                        <= u32::MAX by {
                        assert(s.bound_on(x).len() <= u32::MAX);
                    }
                    assert forall|x: u32| #[trigger] keying@.contains_key(x) implies keying@[x]
                        <= u32::MAX by {
                        assert(s.bound_on(x).len() <= u32::MAX);
                    }
                }
            }
            None
        }
    }

    fn bound_each(&self) -> (out: Table<u32, u64>)
        ensures
            forall|x: u32| #[trigger] out@.contains_key(x) <==> self@.bound_on(x).len() > 0,
            forall|x: u32| #[trigger]
                out@.contains_key(x) ==> out@[x] == self@.bound_on(x).len(),
    {
        let sessions = self.session_to_client.keys();
        let ghost server_of = |s: SessionId| self@.clients[s].server;
        let mut servers: Vec<u32> = Vec::new();
        let mut i: usize = 0;
        while i < sessions.len()
            invariant
                i <= sessions.len(),
                server_of == (|s: SessionId| self@.clients[s].server),
                forall|s: SessionId| #[trigger]
                    sessions@.contains(s) <==> self@.clients.contains_key(s),
                servers@ =~= sessions@.take(i as int).map_values(server_of),
            decreases sessions.len() - i,
        {
            assert(sessions@.contains(sessions@[i as int]));
            if let Some(client) = self.session_to_client.get(&sessions[i]) {
                servers.push(client.server);
            }
            i += 1;
        }
        proof {
            assert(sessions@.take(i as int) =~= sessions@);
            assert forall|x: u32| occurrences(servers@, x) == #[trigger] self@.bound_on(x).len() by {
                lemma_occurrences_count(sessions@, server_of, x, self@.bound_on(x));
            }
        }
        count_each(&servers)
    }

    fn affiliated_each(&self) -> (out: Table<u32, u64>)
        ensures
            forall|x: u32| #[trigger] out@.contains_key(x) <==> self@.affiliated_on(x).len() > 0,
            forall|x: u32| #[trigger]
                out@.contains_key(x) ==> out@[x] == self@.affiliated_on(x).len(),
    {
        let tgs = self.routes.keys();
        let mut everybody: Table<ClientId, bool> = Table::new();
        let mut i: usize = 0;
        while i < tgs.len()
            invariant
                i <= tgs.len(),
                forall|t: u32| #[trigger] tgs@.contains(t) <==> self.routes@.contains_key(t),
                forall|c: ClientId| #[trigger]
                    everybody@.contains_key(c) <==> exists|j: int|
                        0 <= j < i && self@.routes[#[trigger] tgs@[j]].members.contains_key(c),
            decreases tgs.len() - i,
        {
            let ghost before = everybody@;
            assert(tgs@.contains(tgs@[i as int]));
            if let Some(route) = self.routes.get(&tgs[i]) {
                assert(self@.routes[tgs@[i as int]] == route@);
                let clients = route.members.keys();
                let mut k: usize = 0;
                while k < clients.len()
                    invariant
                        k <= clients.len(),
                        forall|c: ClientId| #[trigger]
                            everybody@.contains_key(c) <==> before.contains_key(c)
                                || clients@.take(k as int).contains(c),
                    decreases clients.len() - k,
                {
                    proof {
                        let upto = clients@.take(k as int);
                        assert(clients@.take(k as int + 1) =~= upto.push(clients@[k as int]));
                        lemma_push_contains(upto, clients@[k as int]);
                    }
                    everybody.insert(clients[k], true);
                    k += 1;
                }
                assert(clients@.take(k as int) =~= clients@);
                assert forall|c: ClientId| #[trigger]
                    everybody@.contains_key(c) <==> before.contains_key(c)
                        || self@.routes[tgs@[i as int]].members.contains_key(c) by {
                }
            }
            proof {
                assert forall|c: ClientId| #[trigger]
                    everybody@.contains_key(c) <==> exists|j: int|
                        0 <= j < i + 1 && self@.routes[#[trigger] tgs@[j]].members.contains_key(c) by {
                    if before.contains_key(c) {
                        let j = choose|j: int|
                            0 <= j < i && self@.routes[#[trigger] tgs@[j]].members.contains_key(c);
                        assert(0 <= j < i + 1 && self@.routes[tgs@[j]].members.contains_key(c));
                    }
                }
            }
            i += 1;
        }
        let ghost met = everybody@;
        let clients = everybody.keys();
        let ghost server_of = |c: ClientId| c.server;
        let mut servers: Vec<u32> = Vec::new();
        let mut k: usize = 0;
        while k < clients.len()
            invariant
                k <= clients.len(),
                server_of == (|c: ClientId| c.server),
                servers@ =~= clients@.take(k as int).map_values(server_of),
            decreases clients.len() - k,
        {
            servers.push(clients[k].server);
            k += 1;
        }
        proof {
            assert(clients@.take(k as int) =~= clients@);
            assert forall|c: ClientId| #[trigger] met.contains_key(c) <==> self@.is_affiliated(
                c,
            ) by {
                if self@.is_affiliated(c) {
                    let t = choose|t: u32| #[trigger]
                        self@.routes.contains_key(t) && self@.routes[t].members.contains_key(c);
                    assert(tgs@.contains(t));
                    let j = choose|j: int| 0 <= j < tgs@.len() && tgs@[j] == t;
                    assert(self@.routes[tgs@[j]].members.contains_key(c));
                }
                if met.contains_key(c) {
                    let j = choose|j: int|
                        0 <= j < tgs@.len() && self@.routes[#[trigger] tgs@[j]].members.contains_key(
                            c,
                        );
                    assert(tgs@.contains(tgs@[j]));
                    assert(self@.routes.contains_key(tgs@[j]));
                }
            }
            assert forall|x: u32| occurrences(servers@, x) == #[trigger] self@.affiliated_on(
                x,
            ).len() by {
                assert forall|c: ClientId| #[trigger] clients@.contains(c)
                    <==> self@.is_affiliated(c) by {
                    assert(clients@.contains(c) <==> met.contains_key(c));
                }
                lemma_occurrences_count(clients@, server_of, x, self@.affiliated_on(x));
            }
        }
        count_each(&servers)
    }

    /// The routes somebody holds, each once, and whose server each is held from.
    fn keyed_now(&self) -> (out: (Vec<u32>, Vec<u32>))
        ensures
            out.0@.no_duplicates(),
            out.0@.to_set() == self@.keyed_routes(),
            out.1@ == out.0@.map_values(|t: u32| self@.routes[t].keyed->0.server),
    {
        let all = self.routes.keys();
        let mut tgs: Vec<u32> = Vec::new();
        let mut servers: Vec<u32> = Vec::new();
        let ghost server_of = |t: u32| self@.routes[t].keyed->0.server;
        let mut i: usize = 0;
        while i < all.len()
            invariant
                i <= all.len(),
                all@.no_duplicates(),
                forall|t: u32| #[trigger] all@.contains(t) <==> self@.routes.contains_key(t),
                server_of == (|t: u32| self@.routes[t].keyed->0.server),
                tgs@.no_duplicates(),
                forall|t: u32| #[trigger]
                    tgs@.contains(t) <==> all@.take(i as int).contains(t)
                        && self@.routes[t].keyed is Some,
                servers@ =~= tgs@.map_values(server_of),
            decreases all.len() - i,
        {
            let tg = all[i];
            proof {
                let upto = all@.take(i as int);
                assert(all@.take(i as int + 1) =~= upto.push(tg));
                lemma_push_contains(upto, tg);
                lemma_push_contains(tgs@, tg);
                assert(all@.contains(tg));
                assert(!upto.contains(tg)) by {
                    if upto.contains(tg) {
                        let j = choose|j: int| 0 <= j < upto.len() && upto[j] == tg;
                        assert(all@[j] == all@[i as int]);
                    }
                }
                assert(!tgs@.contains(tg));
            }
            if let Some(route) = self.routes.get(&tg) {
                if let Some(holder) = route.keyed {
                    tgs.push(tg);
                    assert(tgs@.no_duplicates());
                    servers.push(holder.server);
                }
            }
            i += 1;
        }
        assert(all@.take(i as int) =~= all@);
        assert(tgs@.to_set() =~= self@.keyed_routes());
        (tgs, servers)
    }

    fn keying_each(&self) -> (out: Table<u32, u64>)
        ensures
            forall|x: u32| #[trigger] out@.contains_key(x) <==> self@.keying_on(x).len() > 0,
            forall|x: u32| #[trigger]
                out@.contains_key(x) ==> out@[x] == self@.keying_on(x).len(),
    {
        let (tgs, servers) = self.keyed_now();
        proof {
            let server_of = |t: u32| self@.routes[t].keyed->0.server;
            assert(servers@ =~= tgs@.map_values(server_of));
            assert forall|x: u32| occurrences(servers@, x) == #[trigger] self@.keying_on(
                x,
            ).len() by {
                assert forall|t: u32| #[trigger] self@.keying_on(x).contains(t) <==> tgs@.contains(
                    t,
                ) && server_of(t) == x by {
                    assert(tgs@.contains(t) <==> tgs@.to_set().contains(t));
                }
                lemma_occurrences_count(tgs@, server_of, x, self@.keying_on(x));
            }
        }
        count_each(&servers)
    }

    pub fn summary(&self) -> (s: String)
        ensures
            s@ == self@.summary(),
    {
        let tgs = self.routes.keys();
        let (keyed, _servers) = self.keyed_now();
        let sessions = self.session_to_client.keys();
        proof {
            keyed@.unique_seq_to_set();
            assert(self@.routes.dom() =~= self.routes@.dom());
        }
        let mut s = String::new();
        write_number(&mut s, tgs.len() as u64);
        write_str(&mut s, " routes (");
        write_number(&mut s, keyed.len() as u64);
        write_str(&mut s, " keyed), ");
        write_number(&mut s, sessions.len() as u64);
        write_str(&mut s, " identities bound");
        assert(s@ =~= self@.summary());
        s
    }
}

/// Puts the counts of every server that one of the tables knows into `out`.
fn add_servers(
    out: &mut Table<u32, (u32, u32, u32)>,
    bound: &Table<u32, u64>,
    affiliated: &Table<u32, u64>,
    keying: &Table<u32, u64>,
    of: &Table<u32, u64>,
    router: &Router,
)
    requires
        router@.countable(),
        forall|x: u32| #[trigger]
            bound@.contains_key(x) <==> router@.bound_on(x).len() > 0,
        forall|x: u32| #[trigger]
            bound@.contains_key(x) ==> bound@[x] == router@.bound_on(x).len(),
        forall|x: u32| #[trigger]
            affiliated@.contains_key(x) <==> router@.affiliated_on(x).len() > 0,
        forall|x: u32| #[trigger]
            affiliated@.contains_key(x) ==> affiliated@[x] == router@.affiliated_on(x).len(),
        forall|x: u32| #[trigger]
            keying@.contains_key(x) <==> router@.keying_on(x).len() > 0,
        forall|x: u32| #[trigger]
            keying@.contains_key(x) ==> keying@[x] == router@.keying_on(x).len(),
    ensures
        forall|x: u32| #[trigger]
            final(out)@.contains_key(x) <==> old(out)@.contains_key(x) || of@.contains_key(x),
        forall|x: u32| #[trigger]
            of@.contains_key(x) ==> {
                let (b, a, k) = router@.counts_of(x);
                final(out)@[x] == (b as u32, a as u32, k as u32)
            },
        forall|x: u32|
            !of@.contains_key(x) && #[trigger] old(out)@.contains_key(x) ==> final(out)@[x] == old(
                out,
            )@[x],
{
    let servers = of.keys();
    let mut i: usize = 0;
    while i < servers.len()
        invariant
            i <= servers.len(),
            forall|x: u32| #[trigger] servers@.contains(x) <==> of@.contains_key(x),
            router@.countable(),
            forall|x: u32| #[trigger]
                bound@.contains_key(x) <==> router@.bound_on(x).len() > 0,
            forall|x: u32| #[trigger]
                bound@.contains_key(x) ==> bound@[x] == router@.bound_on(x).len(),
            forall|x: u32| #[trigger]
                affiliated@.contains_key(x) <==> router@.affiliated_on(x).len() > 0,
            forall|x: u32| #[trigger]
                affiliated@.contains_key(x) ==> affiliated@[x] == router@.affiliated_on(x).len(),
            forall|x: u32| #[trigger]
                keying@.contains_key(x) <==> router@.keying_on(x).len() > 0,
            forall|x: u32| #[trigger]
                keying@.contains_key(x) ==> keying@[x] == router@.keying_on(x).len(),
            forall|x: u32| #[trigger]
                out@.contains_key(x) <==> old(out)@.contains_key(x) || servers@.take(
                    i as int,
                ).contains(x),
            forall|x: u32| #[trigger]
                servers@.take(i as int).contains(x) ==> {
                    let (b, a, k) = router@.counts_of(x);
                    out@[x] == (b as u32, a as u32, k as u32)
                },
            forall|x: u32|
                !servers@.take(i as int).contains(x) && #[trigger] old(out)@.contains_key(x)
                    ==> out@[x] == old(out)@[x],
        decreases servers.len() - i,
    {
        let server = servers[i];
        proof {
            let upto = servers@.take(i as int);
            assert(servers@.take(i as int + 1) =~= upto.push(server));
            lemma_push_contains(upto, server);
            assert(router@.bound_on(server).len() <= u32::MAX);
        }
        let b: u64 = match bound.get(&server) {
            Some(n) => *n,
            None => 0,
        };
        let a: u64 = match affiliated.get(&server) {
            Some(n) => *n,
            None => 0,
        };
        let k: u64 = match keying.get(&server) {
            Some(n) => *n,
            None => 0,
        };
        out.insert(server, (b as u32, a as u32, k as u32));
        i += 1;
    }
    assert(servers@.take(i as int) =~= servers@);
}

spec fn once_each(listeners: Seq<Listener>) -> bool {
    forall|i: int, j: int|
        0 <= i < j < listeners.len() ==> (#[trigger] listeners[i]).client != (
        #[trigger] listeners[j]).client
}

/// Adds a way of hearing a transmission: the better link wins.
fn note(out: &mut Vec<Listener>, l: Listener)
    requires
        once_each(old(out)@),
    ensures
        once_each(final(out)@),
        forall|x: Listener|
            x.client != l.client ==> (#[trigger] final(out)@.contains(x) <==> old(out)@.contains(x)),
        forall|x: Listener|
            x.client == l.client ==> (#[trigger] final(out)@.contains(x) <==> if exists|e: Listener|

                #[trigger] old(out)@.contains(e) && e.client == l.client && l.quality <= e.quality {
                old(out)@.contains(x)
            } else {
                x == l
            }),
{
    let mut i: usize = 0;
    while i < out.len()
        invariant
            i <= out.len(),
            out@ == old(out)@,
            once_each(out@),
            forall|j: int| 0 <= j < i ==> (#[trigger] out@[j]).client != l.client,
        decreases out.len() - i,
    {
        if out[i].client == l.client {
            let existing = out[i];
            if l.quality > existing.quality {
                out.set(i, l);
                proof {
                    let was = old(out)@;
                    assert forall|x: Listener| x.client != l.client implies (
                    #[trigger] out@.contains(x) <==> was.contains(x)) by {
                        if was.contains(x) {
                            let j = choose|j: int| 0 <= j < was.len() && was[j] == x;
                            assert(out@[j] == x);
                        }
                    }
                    assert forall|x: Listener| x.client == l.client implies (
                    #[trigger] out@.contains(x) <==> x == l) by {
                        assert(out@[i as int] == l);
                    }
                    assert forall|e: Listener| #[trigger]
                        was.contains(e) && e.client == l.client implies e == existing by {
                        let j = choose|j: int| 0 <= j < was.len() && was[j] == e;
                        assert(j == i);
                    }
                }
            } else {
                assert(old(out)@.contains(existing));
            }
            return ;
        }
        i += 1;
    }
    proof {
        lemma_push_contains(out@, l);
    }
    out.push(l);
}

proof fn lemma_talker_transmits(s: State, tg: u32, k: int)
    requires
        0 <= k < s.talkers_on(tg).len(),
    ensures
        s.holds(tg, s.talkers_on(tg)[k]),
{
    let route = s.routes[tg];
    let who = s.talkers_on(tg)[k];
    if route.keyed is Some && k > 0 {
        assert(route.also[k - 1] == who);
    }
}

proof fn lemma_transmitter_talks(s: State, tg: u32, client: ClientId)
    requires
        s.holds(tg, client),
    ensures
        s.talkers_on(tg).contains(client),
{
    let route = s.routes[tg];
    let talkers = route.talkers();
    if route.keyed == Some(client) {
        assert(talkers[0] == client);
    } else {
        let j = choose|j: int| 0 <= j < route.also.len() && route.also[j] == client;
        let at = if route.keyed is Some {
            j + 1
        } else {
            j
        };
        assert(talkers[at] == client);
    }
}

proof fn lemma_heard_is_oneself(s: State, tg: u32, group: Seq<u32>, client: ClientId)
    ensures
        s.hears_best(tg, group, client) matches Some(l) ==> l.client == client,
    decreases group.len(),
{
    if group.len() > 0 {
        lemma_heard_is_oneself(s, tg, group.drop_last(), client);
    }
}

} // verus!

//! The routing table as mathematics: its state, and what each operation makes
//! of it.

use crate::clock::elapsed;
use crate::dsp::{Mode, Sink};
use crate::patches::{joined_of, with_members};
use crate::router::{ClientId, Keyed, Listener, Member, Press, SessionId, CONV_BASE, PREEMPT_WINDOW};
use crate::seqs::{lemma_filter_contains, lemma_push_contains};
use crate::text::decimal_of;
use vstd::prelude::*;

verus! {

/// One route: who is on it, and who is transmitting.
#[verifier::ext_equal]
pub struct RouteState {
    pub encrypted: bool,
    pub members: Map<ClientId, Member>,
    pub keyed: Option<ClientId>,
    pub conventional: bool,
    pub am: bool,
    pub also: Seq<ClientId>,
}

/// The whole routing table.
#[verifier::ext_equal]
pub struct State {
    pub routes: Map<u32, RouteState>,
    pub clients: Map<SessionId, ClientId>,
    pub sessions: Map<ClientId, SessionId>,
    pub keyed_by: Map<ClientId, u32>,
    pub patches: Seq<Seq<u32>>,
    pub pending: Map<Press, u64>,
    pub took: Map<Press, Seq<u32>>,
    /// The latest reading of the clock that presses are timed by.
    pub latest: u64,
}

/// Why a key was refused.
pub enum Refusal {
    NoSuchRoute,
    Busy,
    DispatchTransmitting,
    AlreadyKeyed,
}

impl Refusal {
    /// The words the refused party is given.
    pub open spec fn text(self) -> Seq<char> {
        match self {
            Refusal::NoSuchRoute => "no such route"@,
            Refusal::Busy => "busy - key again to take the channel"@,
            Refusal::DispatchTransmitting => "dispatch is transmitting"@,
            Refusal::AlreadyKeyed => "route already keyed"@,
        }
    }
}

pub open spec fn other_than(client: ClientId) -> spec_fn(ClientId) -> bool {
    |c: ClientId| c != client
}

pub open spec fn not_from(server: u32) -> spec_fn(ClientId) -> bool {
    |c: ClientId| c.server != server
}

pub open spec fn other_route(tg: u32) -> spec_fn(u32) -> bool {
    |t: u32| t != tg
}

/// A list of clients with one of them taken out.
pub open spec fn dropping(list: Seq<ClientId>, client: ClientId) -> Seq<ClientId> {
    list.filter(other_than(client))
}

pub proof fn lemma_dropping(list: Seq<ClientId>, client: ClientId)
    ensures
        forall|c: ClientId| #[trigger]
            dropping(list, client).contains(c) <==> list.contains(c) && c != client,
{
    lemma_filter_contains(list, other_than(client));
}

pub proof fn lemma_dropping_twice(list: Seq<ClientId>, client: ClientId)
    ensures
        dropping(dropping(list, client), client) == dropping(list, client),
    decreases list.len(),
{
    reveal(Seq::filter);
    if list.len() > 0 {
        lemma_dropping_twice(list.drop_last(), client);
        let rest = dropping(list.drop_last(), client);
        if list.last() != client {
            assert(rest.push(list.last()).drop_last() =~= rest);
        }
    }
}

pub proof fn lemma_dropping_absent(list: Seq<ClientId>, client: ClientId)
    requires
        !list.contains(client),
    ensures
        dropping(list, client) == list,
    decreases list.len(),
{
    reveal(Seq::filter);
    if list.len() > 0 {
        let rest = list.drop_last();
        assert(list =~= rest.push(list.last()));
        lemma_push_contains(rest, list.last());
        lemma_dropping_absent(rest, client);
    }
}

pub proof fn lemma_passed_on_twice(route: RouteState, from: ClientId, to: ClientId)
    ensures
        route.passed_on(from, to).passed_on(from, to) == route.passed_on(from, to),
{
    let once = route.passed_on(from, to);
    lemma_dropping(route.also, from);
    lemma_dropping(dropping(route.also, from), to);
    lemma_dropping_absent(once.also, from);
    if route.keyed == Some(from) {
        lemma_dropping_absent(once.also, to);
    }
}

/// A list of clients with everybody on one server taken out.
pub open spec fn dropping_server(list: Seq<ClientId>, server: u32) -> Seq<ClientId> {
    list.filter(not_from(server))
}

/// A list of routes with one of them taken out.
pub open spec fn all_but(list: Seq<u32>, tg: u32) -> Seq<u32> {
    list.filter(other_route(tg))
}

pub open spec fn idle_route(conventional: bool, am: bool) -> RouteState {
    RouteState {
        encrypted: false,
        members: Map::empty(),
        keyed: None,
        conventional,
        am,
        also: Seq::empty(),
    }
}

/// The first id that names a frequency rather than a talkgroup.
pub open spec fn is_frequency(id: u32) -> bool {
    id >= CONV_BASE
}

/// A frequency is carried in steps of 100 Hz above the base, and civil airband,
/// 108 up to 137 MHz, is the band that is AM.
pub open spec fn is_airband(id: u32) -> bool {
    is_frequency(id) && 1_080_000 <= id - CONV_BASE < 1_370_000
}

impl RouteState {
    pub open spec fn mode(self) -> Mode {
        if self.conventional && self.am {
            Mode::Am
        } else if self.conventional {
            Mode::Fm
        } else {
            Mode::P25
        }
    }

    /// Whether a client is transmitting here: as the holder, or mixed in on
    /// top of one.
    pub open spec fn carries(self, client: ClientId) -> bool {
        self.keyed == Some(client) || self.also.contains(client)
    }

    /// Everybody transmitting here, the holder first.
    pub open spec fn talkers(self) -> Seq<ClientId> {
        match self.keyed {
            Some(holder) => seq![holder] + self.also,
            None => self.also,
        }
    }

    /// The route with a client's transmission taken off it.
    pub open spec fn released_by(self, client: ClientId) -> RouteState {
        RouteState {
            keyed: if self.keyed == Some(client) {
                None
            } else {
                self.keyed
            },
            also: dropping(self.also, client),
            ..self
        }
    }

    /// The route held by a client, who is then nobody ELSE on it.
    pub open spec fn taken_by(self, client: ClientId) -> RouteState {
        RouteState { keyed: Some(client), also: dropping(self.also, client), ..self }
    }

    /// The route with one client's hold on it passed to another.
    pub open spec fn passed_on(self, from: ClientId, to: ClientId) -> RouteState {
        let rest = RouteState { also: dropping(self.also, from), ..self };
        if self.keyed == Some(from) {
            rest.taken_by(to)
        } else {
            rest
        }
    }

    /// The route with every trace of a client taken off it.
    pub open spec fn without(self, client: ClientId) -> RouteState {
        RouteState { members: self.members.remove(client), ..self.released_by(client) }
    }

    /// The route with everything from one server taken off it.
    pub open spec fn without_server(self, server: u32) -> RouteState {
        RouteState {
            members: self.members.filter_keys(|c: ClientId| c.server != server),
            keyed: match self.keyed {
                Some(c) => if c.server == server {
                    None
                } else {
                    Some(c)
                },
                None => None,
            },
            also: dropping_server(self.also, server),
            ..self
        }
    }
}

impl State {
    pub open spec fn empty() -> State {
        State {
            routes: Map::empty(),
            clients: Map::empty(),
            sessions: Map::empty(),
            keyed_by: Map::empty(),
            patches: Seq::empty(),
            pending: Map::empty(),
            took: Map::empty(),
            latest: 0,
        }
    }

    /// The clock was read.
    pub open spec fn read_at(self, at: u64) -> State {
        State { latest: at, ..self }
    }

    pub open spec fn with_route(self, tg: u32, route: RouteState) -> State {
        State { routes: self.routes.insert(tg, route), ..self }
    }

    /// Whether a client is transmitting on a route right now.
    pub open spec fn holds(self, tg: u32, client: ClientId) -> bool {
        self.routes.contains_key(tg) && self.routes[tg].carries(client)
    }

    pub open spec fn joined(self, tg: u32) -> Seq<u32> {
        joined_of(self.patches, tg)
    }

    pub open spec fn talkers_on(self, tg: u32) -> Seq<ClientId> {
        if self.routes.contains_key(tg) {
            self.routes[tg].talkers()
        } else {
            Seq::empty()
        }
    }

    // -- identities ---------------------------------------------------------

    pub open spec fn bound(self, session: SessionId, player: u32) -> State {
        let client = ClientId { server: session.server, player };
        State {
            clients: self.clients.insert(session, client),
            sessions: self.sessions.insert(client, session),
            ..self
        }
    }

    pub open spec fn forgotten(self, client: ClientId) -> State {
        State {
            routes: self.routes.map_values(|r: RouteState| r.without(client)),
            keyed_by: self.keyed_by.remove(client),
            took: self.took.filter_keys(|p: Press| p.client != client),
            ..self
        }
    }

    pub open spec fn unbound(self, session: SessionId) -> State {
        if self.clients.contains_key(session) {
            let client = self.clients[session];
            State {
                clients: self.clients.remove(session),
                sessions: self.sessions.remove(client),
                ..self.forgotten(client)
            }
        } else {
            self
        }
    }

    pub open spec fn server_dropped(self, server: u32) -> State {
        State {
            routes: self.routes.map_values(|r: RouteState| r.without_server(server)),
            clients: self.clients.filter_keys(|s: SessionId| s.server != server),
            sessions: self.sessions.filter_keys(|c: ClientId| c.server != server),
            keyed_by: self.keyed_by.filter_keys(|c: ClientId| c.server != server),
            took: self.took.filter_keys(|p: Press| p.client.server != server),
            ..self
        }
    }

    pub open spec fn membership_forgotten(self, client: ClientId) -> State {
        State {
            routes: self.routes.map_values(
                |r: RouteState| RouteState { members: r.members.remove(client), ..r },
            ),
            ..self
        }
    }

    // -- routes -------------------------------------------------------------

    pub open spec fn opened(self, tg: u32, encrypted: bool) -> State {
        let route = if self.routes.contains_key(tg) {
            self.routes[tg]
        } else {
            idle_route(false, false)
        };
        self.with_route(tg, RouteState { encrypted, ..route })
    }

    /// What is not AM has nobody mixed in on it.
    pub open spec fn opened_conventional(self, id: u32, am: bool) -> State {
        let route = if self.routes.contains_key(id) {
            self.routes[id]
        } else {
            idle_route(false, false)
        };
        self.with_route(
            id,
            RouteState {
                conventional: true,
                am,
                also: if am {
                    route.also
                } else {
                    Seq::empty()
                },
                ..route
            },
        )
    }

    pub open spec fn closed(self, tg: u32) -> State {
        State { routes: self.routes.remove(tg), ..self }
    }

    pub open spec fn with_member(self, tg: u32, client: ClientId, member: Member) -> State {
        let route = if self.routes.contains_key(tg) {
            self.routes[tg]
        } else {
            idle_route(is_frequency(tg), is_airband(tg))
        };
        self.with_route(
            tg,
            RouteState { members: route.members.insert(client, member), ..route },
        )
    }

    // -- keying -------------------------------------------------------------

    /// A console that was refused this route may insist for a while.
    pub open spec fn insisting(self, tg: u32, client: ClientId, now: u64) -> bool {
        self.pending.contains_key(Press { client, tg }) && elapsed(self.pending[Press { client, tg }], now)
            <= PREEMPT_WINDOW
    }

    /// One press on one route.
    pub open spec fn keyed_one(self, tg: u32, client: ClientId, now: u64) -> (State, Result<
        Keyed,
        Refusal,
    >) {
        if !self.routes.contains_key(tg) {
            (self, Err(Refusal::NoSuchRoute))
        } else {
            let route = self.routes[tg];
            let taken = route.taken_by(client);
            match route.keyed {
                None => (self.with_route(tg, taken), Ok(Keyed::Granted)),
                Some(holder) => if holder == client {
                    (self, Ok(Keyed::Granted))
                } else if route.conventional && route.am {
                    (
                        if route.also.contains(client) {
                            self
                        } else {
                            self.with_route(
                                tg,
                                RouteState { also: route.also.push(client), ..route },
                            )
                        },
                        Ok(Keyed::Mixed),
                    )
                } else if route.conventional {
                    (self, Ok(Keyed::Doubled))
                } else if client.console() && !holder.console() {
                    if self.insisting(tg, client, now) {
                        (
                            State {
                                pending: self.pending.remove(Press { client, tg }),
                                ..self.with_route(tg, taken)
                            },
                            Ok(Keyed::Preempted(holder)),
                        )
                    } else {
                        (
                            State { pending: self.pending.insert(Press { client, tg }, now), ..self },
                            Err(Refusal::Busy),
                        )
                    }
                } else if !client.console() && holder.console() {
                    (self, Err(Refusal::DispatchTransmitting))
                } else {
                    (self, Err(Refusal::AlreadyKeyed))
                },
            }
        }
    }

    /// A preemption carried across the rest of a patch: whatever the preempted
    /// unit had there passes to whoever preempted it.
    pub open spec fn handed_over(
        self,
        others: Seq<u32>,
        holder: ClientId,
        client: ClientId,
    ) -> State {
        State {
            routes: self.routes.map_entries(
                |t: u32, r: RouteState|
                    if others.contains(t) {
                        r.passed_on(holder, client)
                    } else {
                        r
                    },
            ),
            pending: self.pending.filter_keys(
                |p: Press| !(p.client == client && others.contains(p.tg)),
            ),
            ..self
        }
    }

    /// The press tried on each of several routes in turn, whatever comes of it.
    pub open spec fn keyed_each(self, others: Seq<u32>, client: ClientId, now: u64) -> State
        decreases others.len(),
    {
        if others.len() == 0 {
            self
        } else {
            self.keyed_each(others.drop_last(), client, now).keyed_one(
                others.last(),
                client,
                now,
            ).0
        }
    }

    /// Everything joined to a route but the route itself.
    pub open spec fn patched_to(self, tg: u32) -> Seq<u32> {
        all_but(self.joined(tg), tg)
    }

    /// What a press will have to give back: what is joined now and, while an
    /// earlier press has not been released, what that one took.
    pub open spec fn recorded(self, tg: u32, client: ClientId) -> Seq<u32> {
        if self.took.contains_key(Press { client, tg }) {
            with_members(self.took[Press { client, tg }], self.joined(tg))
        } else {
            self.joined(tg)
        }
    }

    /// One press of the button: the route, and then everything patched to it.
    pub open spec fn keyed_at(self, tg: u32, client: ClientId, now: u64) -> (State, Result<
        Keyed,
        Refusal,
    >) {
        let others = self.patched_to(tg);
        let (pressed, outcome) = self.keyed_one(tg, client, now);
        match outcome {
            Err(why) => (pressed, Err(why)),
            Ok(keyed) => {
                let shared = match keyed {
                    Keyed::Preempted(holder) => pressed.handed_over(others, holder, client),
                    _ => pressed,
                };
                let all = shared.keyed_each(others, client, now);
                (
                    State {
                        took: all.took.insert(Press { client, tg }, self.recorded(tg, client)),
                        keyed_by: all.keyed_by.insert(client, tg),
                        ..all
                    },
                    Ok(keyed),
                )
            },
        }
    }

    /// What a release gives back: what the key took, or, with no record of one,
    /// what is joined now.
    pub open spec fn to_release(self, tg: u32, client: ClientId) -> Seq<u32> {
        if self.took.contains_key(Press { client, tg }) {
            self.took[Press { client, tg }]
        } else {
            self.joined(tg)
        }
    }

    /// A client's transmission taken off several routes.
    pub open spec fn given_back(self, tgs: Seq<u32>, client: ClientId) -> State {
        State {
            routes: self.routes.map_entries(
                |t: u32, r: RouteState|
                    if tgs.contains(t) {
                        r.released_by(client)
                    } else {
                        r
                    },
            ),
            ..self
        }
    }

    pub open spec fn unkeyed_as(self, tg: u32, client: ClientId) -> State {
        State {
            took: self.took.remove(Press { client, tg }),
            keyed_by: self.keyed_by.remove(client),
            ..self.given_back(self.to_release(tg, client), client)
        }
    }

    pub open spec fn releases(self, tg: u32, client: ClientId) -> bool {
        exists|t: u32| #[trigger]
            self.to_release(tg, client).contains(t) && self.holds(t, client)
    }

    pub open spec fn unkeyed(self, tg: u32) -> State {
        if self.routes.contains_key(tg) {
            self.with_route(
                tg,
                RouteState { keyed: None, also: Seq::empty(), ..self.routes[tg] },
            )
        } else {
            self
        }
    }

    /// A client gave back what its press of a route took; with no press of it on
    /// record, nothing.
    pub open spec fn press_ended(self, tg: u32, client: ClientId) -> State {
        let press = Press { client, tg };
        if self.took.contains_key(press) {
            State {
                took: self.took.remove(press),
                ..self.given_back(self.took[press], client)
            }
        } else {
            self
        }
    }

    /// Each of several clients did, in turn.
    pub open spec fn presses_ended(self, tg: u32, clients: Seq<ClientId>) -> State
        decreases clients.len(),
    {
        if clients.len() == 0 {
            self
        } else {
            self.presses_ended(tg, clients.drop_last()).press_ended(tg, clients.last())
        }
    }

    /// Everybody transmitting on a route was taken off it, and off whatever
    /// their press of it took.
    pub open spec fn all_unkeyed(self, tg: u32) -> State {
        self.presses_ended(tg, self.talkers_on(tg)).unkeyed(tg)
    }

    /// A client went off the air everywhere, and is still where it listens.
    pub open spec fn silenced(self, client: ClientId) -> State {
        State {
            routes: self.routes.map_values(|r: RouteState| r.released_by(client)),
            keyed_by: self.keyed_by.remove(client),
            took: self.took.filter_keys(|p: Press| p.client != client),
            ..self
        }
    }

    // -- who hears what -----------------------------------------------------

    /// How a client hears what is keyed on `tg` by way of one route, if it
    /// hears it there at all.
    pub open spec fn hears_on(self, tg: u32, t: u32, client: ClientId) -> Option<Listener> {
        if self.routes.contains_key(t) && self.routes[t].members.contains_key(client)
            && self.routes[t].members[client].listen {
            Some(
                Listener {
                    client,
                    quality: self.routes[t].members[client].quality,
                    mode: self.routes[t].mode(),
                    bridged: t != tg,
                },
            )
        } else {
            None
        }
    }

    /// The best of the ways a client hears what is keyed on `tg` by way of
    /// several routes: the best link, and of equals the first.
    pub open spec fn hears_best(self, tg: u32, group: Seq<u32>, client: ClientId) -> Option<
        Listener,
    >
        decreases group.len(),
    {
        if group.len() == 0 {
            None
        } else {
            let earlier = self.hears_best(tg, group.drop_last(), client);
            match (earlier, self.hears_on(tg, group.last(), client)) {
                (Some(a), Some(b)) => if b.quality > a.quality {
                    Some(b)
                } else {
                    Some(a)
                },
                (None, Some(b)) => Some(b),
                (a, None) => a,
            }
        }
    }

    /// How a client hears what somebody keys on `tg`: never oneself, and once.
    pub open spec fn hears(self, tg: u32, except: Option<ClientId>, client: ClientId) -> Option<
        Listener,
    > {
        if except == Some(client) {
            None
        } else {
            self.hears_best(tg, self.joined(tg), client)
        }
    }

    /// A list holds everybody who hears what is keyed on `tg`, once each.
    pub open spec fn is_audience(
        self,
        tg: u32,
        except: Option<ClientId>,
        listeners: Seq<Listener>,
    ) -> bool {
        &&& forall|i: int, j: int|
            0 <= i < j < listeners.len() ==> (#[trigger] listeners[i]).client != (
            #[trigger] listeners[j]).client
        &&& forall|l: Listener| #[trigger]
            listeners.contains(l) <==> self.hears(tg, except, l.client) == Some(l)
    }

    /// The route a client's transmission is on: the one it keyed, while it
    /// still holds that; else the lowest it holds.
    pub open spec fn on_air(self, client: ClientId, tg: u32) -> bool {
        let asked = self.keyed_by.contains_key(client) && self.holds(
            self.keyed_by[client],
            client,
        );
        if asked {
            tg == self.keyed_by[client]
        } else {
            self.holds(tg, client) && forall|t: u32| #[trigger]
                self.holds(t, client) ==> tg <= t
        }
    }

    pub open spec fn silent(self, client: ClientId) -> bool {
        forall|t: u32| !self.holds(t, client)
    }

    pub open spec fn source_sink(self, tg: u32, speaker: ClientId) -> Sink {
        Sink {
            mode: if self.routes.contains_key(tg) {
                self.routes[tg].mode()
            } else {
                Mode::P25
            },
            quality: if self.routes.contains_key(tg) && self.routes[tg].members.contains_key(
                speaker,
            ) {
                self.routes[tg].members[speaker].quality
            } else {
                100
            },
            bridged: false,
        }
    }

    pub open spec fn transmits_on(self, group: Seq<u32>, client: ClientId) -> bool {
        exists|t: u32| #[trigger] group.contains(t) && self.holds(t, client)
    }

    /// Two radios up at once on a channel with an AM member.
    pub open spec fn am_collision(self, tg: u32) -> bool {
        let group = self.joined(tg);
        &&& exists|t: u32| #[trigger]
            group.contains(t) && self.routes.contains_key(t) && self.routes[t].am
        &&& exists|a: ClientId, b: ClientId|
            a != b && #[trigger] self.transmits_on(group, a) && #[trigger] self.transmits_on(
                group,
                b,
            )
    }

    pub open spec fn is_clear(self, tg: u32) -> bool {
        forall|t: u32| #[trigger] self.joined(tg).contains(t) ==> self.talkers_on(t).len() == 0
    }

    /// The clients a route is sent to.
    pub open spec fn listens(self, tg: u32, client: ClientId) -> bool {
        self.routes.contains_key(tg) && self.routes[tg].members.contains_key(client)
            && self.routes[tg].members[client].listen
    }

    // -- telemetry ----------------------------------------------------------

    /// The sessions bound to players of one server.
    pub open spec fn bound_on(self, server: u32) -> Set<SessionId> {
        self.clients.dom().filter(|s: SessionId| self.clients[s].server == server)
    }

    pub open spec fn is_affiliated(self, client: ClientId) -> bool {
        exists|t: u32| #[trigger]
            self.routes.contains_key(t) && self.routes[t].members.contains_key(client)
    }

    /// The clients of one server that are on some route.
    pub open spec fn affiliated_on(self, server: u32) -> Set<ClientId> {
        Set::new(|c: ClientId| c.server == server && self.is_affiliated(c))
    }

    /// The routes held.
    pub open spec fn keyed_routes(self) -> Set<u32> {
        self.routes.dom().filter(|t: u32| self.routes[t].keyed is Some)
    }

    /// The routes held from one server.
    pub open spec fn keying_on(self, server: u32) -> Set<u32> {
        self.keyed_routes().filter(|t: u32| self.routes[t].keyed->0.server == server)
    }

    /// No server has more of anything than a count can say.
    pub open spec fn countable(self) -> bool {
        forall|server: u32|
            {
                &&& #[trigger] self.bound_on(server).len() <= u32::MAX
                &&& self.affiliated_on(server).len() <= u32::MAX
                &&& self.keying_on(server).len() <= u32::MAX
            }
    }

    /// What one server is counted as: identities bound, clients affiliated,
    /// routes keyed.
    pub open spec fn counts_of(self, server: u32) -> (nat, nat, nat) {
        (
            self.bound_on(server).len(),
            self.affiliated_on(server).len(),
            self.keying_on(server).len(),
        )
    }

    /// A table holds the counts of every server that has anything to count.
    pub open spec fn are_counts(self, out: Map<u32, (u32, u32, u32)>) -> bool {
        &&& forall|server: u32| #[trigger]
            out.contains_key(server) <==> self.counts_of(server) != (0nat, 0nat, 0nat)
        &&& forall|server: u32| #[trigger]
            out.contains_key(server) ==> {
                let (bound, affiliated, keying) = self.counts_of(server);
                out[server] == (bound as u32, affiliated as u32, keying as u32)
            }
    }

    pub open spec fn summary(self) -> Seq<char> {
        decimal_of(self.routes.dom().len()) + " routes ("@ + decimal_of(self.keyed_routes().len())
            + " keyed), "@ + decimal_of(self.clients.dom().len()) + " identities bound"@
    }
}

/// Pressing on several routes changes nothing but the routes, and which of them
/// were refused.
pub proof fn lemma_presses_change_routes_alone(
    s: State,
    others: Seq<u32>,
    client: ClientId,
    now: u64,
)
    ensures
        s.keyed_each(others, client, now) == (State {
            routes: s.keyed_each(others, client, now).routes,
            pending: s.keyed_each(others, client, now).pending,
            ..s
        }),
    decreases others.len(),
{
    if others.len() > 0 {
        lemma_presses_change_routes_alone(s, others.drop_last(), client, now);
    }
}

} // verus!

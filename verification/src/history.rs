//! What holds of the routing table after any course of operations.

use crate::laws::{a_press_puts_nobody_else_on_the_air, a_talkgroup_has_one_talker};
use crate::patches::{joined_is_the_connected_component, lemma_with_members, with_members};
use crate::router::{ClientId, Keyed, Member, Press, SessionId};
use crate::routing::{
    dropping, lemma_dropping, lemma_presses_change_routes_alone, not_from, other_than, RouteState,
    State,
};
use crate::seqs::{lemma_filter_contains, lemma_filter_no_duplicates, lemma_push_contains};
use vstd::prelude::*;

verus! {

/// Something done to the routing table.
pub enum Op {
    Bind(SessionId, u32),
    Unbind(SessionId),
    DropServer(u32),
    ForgetClient(ClientId),
    ForgetMembership(ClientId),
    Open(u32, bool),
    OpenConventional(u32, bool),
    Close(u32),
    SetMember(u32, ClientId, Member),
    Key(u32, ClientId, u64),
    UnkeyAs(u32, ClientId),
    Unkey(u32),
    UnkeyEverybody(u32),
    Silence(ClientId),
    SetPatches(Seq<Seq<u32>>),
    ReadClock(u64),
}

impl State {
    pub open spec fn after(self, op: Op) -> State {
        match op {
            Op::Bind(session, player) => self.bound(session, player),
            Op::Unbind(session) => self.unbound(session),
            Op::DropServer(server) => self.server_dropped(server),
            Op::ForgetClient(client) => self.forgotten(client),
            Op::ForgetMembership(client) => self.membership_forgotten(client),
            Op::Open(tg, encrypted) => self.opened(tg, encrypted),
            Op::OpenConventional(id, am) => self.opened_conventional(id, am),
            Op::Close(tg) => self.closed(tg),
            Op::SetMember(tg, client, member) => self.with_member(tg, client, member),
            Op::Key(tg, client, now) => self.keyed_at(tg, client, now).0,
            Op::UnkeyAs(tg, client) => self.unkeyed_as(tg, client),
            Op::Unkey(tg) => self.unkeyed(tg),
            Op::UnkeyEverybody(tg) => self.all_unkeyed(tg),
            Op::Silence(client) => self.silenced(client),
            Op::SetPatches(patches) => State { patches, ..self },
            Op::ReadClock(at) => self.read_at(at),
        }
    }

    /// The table after several operations, one after another.
    pub open spec fn after_all(self, ops: Seq<Op>) -> State
        decreases ops.len(),
    {
        if ops.len() == 0 {
            self
        } else {
            self.after_all(ops.drop_last()).after(ops.last())
        }
    }

    /// Nobody is listed twice on a route: whoever is mixed in is somebody ELSE
    /// than the holder, and is mixed in once.
    pub open spec fn lists_once(self) -> bool {
        forall|t: u32| #[trigger] self.routes.contains_key(t) ==> nobody_twice(self.routes[t])
    }

    /// Whatever a press is recorded to have taken, the route pressed is in it.
    pub open spec fn records_what_was_pressed(self) -> bool {
        forall|p: Press| #[trigger] self.took.contains_key(p) ==> self.took[p].contains(p.tg)
    }
}

/// The same of one route.
pub open spec fn nobody_twice(route: RouteState) -> bool {
    &&& route.also.no_duplicates()
    &&& route.keyed matches Some(holder) ==> !route.also.contains(holder)
}

// -- one route at a time ----------------------------------------------------

proof fn lemma_filter_shrinks<T>(list: Seq<T>, p: spec_fn(T) -> bool)
    ensures
        list.filter(p).len() <= list.len(),
    decreases list.len(),
{
    reveal(Seq::filter);
    if list.len() > 0 {
        lemma_filter_shrinks(list.drop_last(), p);
    }
}

/// Leaving a route, or passing a hold on it, mixes nobody in and lists nobody
/// twice.
proof fn lemma_leaving(route: RouteState, a: ClientId, b: ClientId, server: u32)
    ensures
        dropping(route.also, a).len() <= route.also.len(),
        route.released_by(a).also.len() <= route.also.len(),
        route.taken_by(a).also.len() <= route.also.len(),
        route.passed_on(a, b).also.len() <= route.also.len(),
        route.without_server(server).also.len() <= route.also.len(),
        nobody_twice(route) ==> {
            &&& nobody_twice(route.released_by(a))
            &&& nobody_twice(route.taken_by(a))
            &&& nobody_twice(route.passed_on(a, b))
            &&& nobody_twice(route.without_server(server))
        },
{
    let also = route.also;
    let rest = dropping(also, a);
    lemma_filter_shrinks(also, other_than(a));
    lemma_filter_shrinks(rest, other_than(b));
    lemma_filter_shrinks(also, not_from(server));
    lemma_dropping(also, a);
    lemma_dropping(rest, b);
    lemma_filter_contains(also, not_from(server));
    if also.no_duplicates() {
        lemma_filter_no_duplicates(also, other_than(a));
        lemma_filter_no_duplicates(rest, other_than(b));
        lemma_filter_no_duplicates(also, not_from(server));
    }
}

proof fn lemma_push_no_duplicates(list: Seq<ClientId>, c: ClientId)
    requires
        list.no_duplicates(),
        !list.contains(c),
    ensures
        list.push(c).no_duplicates(),
{
}

// -- presses ----------------------------------------------------------------

/// What holds of every table.
pub open spec fn is_sound(s: State) -> bool {
    s.mixes_only_on_am() && s.lists_once() && s.records_what_was_pressed()
}

proof fn lemma_key_one_is_sound(s: State, tg: u32, client: ClientId, now: u64)
    requires
        is_sound(s),
    ensures
        is_sound(s.keyed_one(tg, client, now).0),
{
    if s.routes.contains_key(tg) {
        let route = s.routes[tg];
        lemma_leaving(route, client, client, 0);
        if !route.also.contains(client) {
            lemma_push_no_duplicates(route.also, client);
            lemma_push_contains(route.also, client);
        }
    }
}

proof fn lemma_key_each_is_sound(s: State, others: Seq<u32>, client: ClientId, now: u64)
    requires
        is_sound(s),
    ensures
        is_sound(s.keyed_each(others, client, now)),
    decreases others.len(),
{
    if others.len() > 0 {
        let before = s.keyed_each(others.drop_last(), client, now);
        lemma_key_each_is_sound(s, others.drop_last(), client, now);
        lemma_key_one_is_sound(before, others.last(), client, now);
    }
}

proof fn lemma_key_is_sound(s: State, tg: u32, client: ClientId, now: u64)
    requires
        is_sound(s),
    ensures
        is_sound(s.keyed_at(tg, client, now).0),
{
    let (pressed, outcome) = s.keyed_one(tg, client, now);
    lemma_key_one_is_sound(s, tg, client, now);
    if let Ok(keyed) = outcome {
        let others = s.patched_to(tg);
        let shared = match keyed {
            Keyed::Preempted(holder) => pressed.handed_over(others, holder, client),
            _ => pressed,
        };
        if let Keyed::Preempted(holder) = keyed {
            assert forall|t: u32| #[trigger] shared.routes.contains_key(t) implies (
            shared.routes[t].also.len() > 0 ==> shared.routes[t].conventional
                && shared.routes[t].am) && nobody_twice(shared.routes[t]) by {
                assert(pressed.routes.contains_key(t));
                lemma_leaving(pressed.routes[t], holder, client, 0);
            }
        }
        assert(is_sound(shared));
        lemma_key_each_is_sound(shared, others, client, now);
        let press = Press { client, tg };
        joined_is_the_connected_component(s.patches, tg);
        assert(s.joined(tg).contains(tg));
        if s.took.contains_key(press) {
            lemma_with_members(s.took[press], s.joined(tg));
        }
        assert(s.recorded(tg, client).contains(tg));
    }
}

proof fn lemma_giving_back_is_sound(s: State, tgs: Seq<u32>, client: ClientId)
    requires
        is_sound(s),
    ensures
        is_sound(s.given_back(tgs, client)),
{
    let after = s.given_back(tgs, client);
    assert forall|t: u32| #[trigger] after.routes.contains_key(t) implies (
    after.routes[t].also.len() > 0 ==> after.routes[t].conventional && after.routes[t].am)
        && nobody_twice(after.routes[t]) by {
        assert(s.routes.contains_key(t));
        lemma_leaving(s.routes[t], client, client, 0);
    }
}

proof fn lemma_presses_ended_is_sound(s: State, tg: u32, clients: Seq<ClientId>)
    requires
        is_sound(s),
    ensures
        is_sound(s.presses_ended(tg, clients)),
    decreases clients.len(),
{
    if clients.len() > 0 {
        let before = s.presses_ended(tg, clients.drop_last());
        let client = clients.last();
        lemma_presses_ended_is_sound(s, tg, clients.drop_last());
        lemma_giving_back_is_sound(before, before.took[Press { client, tg }], client);
    }
}

// -- every state ------------------------------------------------------------

/// Each operation keeps what holds of every table: whoever is mixed in is mixed
/// in on AM, nobody is listed twice on a route, and a press is recorded to have
/// taken at least the route that was pressed.
pub proof fn every_operation_keeps_the_table_sound(s: State, op: Op)
    requires
        is_sound(s),
    ensures
        is_sound(s.after(op)),
{
    let after = s.after(op);
    match op {
        Op::Key(tg, client, now) => {
            lemma_key_is_sound(s, tg, client, now);
        },
        Op::UnkeyAs(tg, client) => {
            lemma_giving_back_is_sound(s, s.to_release(tg, client), client);
        },
        Op::UnkeyEverybody(tg) => {
            lemma_presses_ended_is_sound(s, tg, s.talkers_on(tg));
        },
        _ => {
            let client = match op {
                Op::ForgetClient(c) => c,
                Op::Silence(c) => c,
                Op::Unbind(session) => s.clients[session],
                _ => arbitrary(),
            };
            let server = match op {
                Op::DropServer(server) => server,
                _ => 0,
            };
            assert forall|t: u32| #[trigger] after.routes.contains_key(t) implies (
            after.routes[t].also.len() > 0 ==> after.routes[t].conventional && after.routes[t].am)
                && nobody_twice(after.routes[t]) by {
                if s.routes.contains_key(t) {
                    lemma_leaving(s.routes[t], client, client, server);
                }
            }
        },
    }
}

/// The table is sound whatever was done to it.
pub proof fn the_table_is_always_sound(ops: Seq<Op>)
    ensures
        is_sound(State::empty().after_all(ops)),
    decreases ops.len(),
{
    if ops.len() > 0 {
        the_table_is_always_sound(ops.drop_last());
        every_operation_keeps_the_table_sound(
            State::empty().after_all(ops.drop_last()),
            ops.last(),
        );
    }
}

proof fn lemma_talkers_once(s: State, tg: u32)
    requires
        s.lists_once(),
    ensures
        s.talkers_on(tg).no_duplicates(),
{
    if s.routes.contains_key(tg) {
        let route = s.routes[tg];
        assert(nobody_twice(route));
        if let Some(holder) = route.keyed {
            let talkers = route.talkers();
            assert forall|i: int, j: int|
                0 <= i < talkers.len() && 0 <= j < talkers.len() && i != j implies talkers[i]
                != talkers[j] by {
                if i > 0 {
                    assert(talkers[i] == route.also[i - 1]);
                    assert(route.also.contains(talkers[i]));
                }
                if j > 0 {
                    assert(talkers[j] == route.also[j - 1]);
                    assert(route.also.contains(talkers[j]));
                }
            }
        }
    }
}

/// Nobody is listed twice among those transmitting on a route, whatever was
/// done before.
pub proof fn nobody_is_listed_twice(ops: Seq<Op>, tg: u32)
    ensures
        State::empty().after_all(ops).talkers_on(tg).no_duplicates(),
{
    the_table_is_always_sound(ops);
    lemma_talkers_once(State::empty().after_all(ops), tg);
}

/// Digital cannot double, whatever was done before: two who transmit on one
/// talkgroup are one and the same.
pub proof fn digital_never_doubles(ops: Seq<Op>, tg: u32, a: ClientId, b: ClientId)
    requires
        State::empty().after_all(ops).is_talkgroup(tg),
        State::empty().after_all(ops).holds(tg, a),
        State::empty().after_all(ops).holds(tg, b),
    ensures
        a == b,
{
    the_table_is_always_sound(ops);
    a_talkgroup_has_one_talker(State::empty().after_all(ops), tg, a, b);
}

// -- who is on the air ------------------------------------------------------

/// A press of `tg` took `t`, and is on record.
pub open spec fn took_by(s: State, tg: u32, client: ClientId, t: u32) -> bool {
    s.took.contains_key(Press { client, tg }) && s.took[Press { client, tg }].contains(t)
}

proof fn lemma_presses_ended(s: State, tg: u32, clients: Seq<ClientId>, t: u32, c: ClientId)
    ensures
        ({
            let after = s.presses_ended(tg, clients);
            &&& after.holds(t, c) <==> s.holds(t, c) && !(clients.contains(c) && took_by(
                s,
                tg,
                c,
                t,
            ))
            &&& after.routes.contains_key(t) == s.routes.contains_key(t)
            &&& after.keyed_by == s.keyed_by
            &&& forall|p: Press| #[trigger]
                after.took.get(p) == if p.tg == tg && clients.contains(p.client) {
                    None
                } else {
                    s.took.get(p)
                }
        }),
    decreases clients.len(),
{
    if clients.len() > 0 {
        let rest = clients.drop_last();
        let last = clients.last();
        let before = s.presses_ended(tg, rest);
        let after = s.presses_ended(tg, clients);
        let press = Press { client: last, tg };
        assert(clients =~= rest.push(last));
        lemma_push_contains(rest, last);
        lemma_presses_ended(s, tg, rest, t, c);
        assert(before.took.get(press) == if rest.contains(last) {
            None
        } else {
            s.took.get(press)
        });
        if before.routes.contains_key(t) {
            lemma_dropping(before.routes[t].also, last);
        }
        assert forall|p: Press| #[trigger]
            after.took.get(p) == if p.tg == tg && clients.contains(p.client) {
                None
            } else {
                s.took.get(p)
            } by {
            assert(before.took.get(p) == if p.tg == tg && rest.contains(p.client) {
                None
            } else {
                s.took.get(p)
            });
            assert(p == press <==> p.tg == tg && p.client == last);
        }
    } else {
        assert forall|p: Press| #[trigger]
            s.presses_ended(tg, clients).took.get(p) == if p.tg == tg && clients.contains(
                p.client,
            ) {
                None
            } else {
                s.took.get(p)
            } by {}
    }
}

/// Routed nowhere by default: whatever is done, somebody who was not on the air
/// is put there only by pressing a button.
pub proof fn only_a_key_puts_anybody_on_the_air(s: State, op: Op, t: u32, c: ClientId)
    requires
        !s.holds(t, c),
        s.after(op).holds(t, c),
    ensures
        op is Key && op->Key_1 == c,
{
    if s.routes.contains_key(t) {
        let also = s.routes[t].also;
        match op {
            Op::Unbind(session) => lemma_dropping(also, s.clients[session]),
            Op::ForgetClient(client) => lemma_dropping(also, client),
            Op::Silence(client) => lemma_dropping(also, client),
            Op::UnkeyAs(_, client) => lemma_dropping(also, client),
            Op::DropServer(server) => lemma_filter_contains(also, not_from(server)),
            _ => {},
        }
    }
    match op {
        Op::UnkeyEverybody(tg) => lemma_presses_ended(s, tg, s.talkers_on(tg), t, c),
        Op::Key(tg, client, now) => {
            if client != c {
                a_press_puts_nobody_else_on_the_air(s, tg, client, now, t, c);
            }
        },
        _ => {},
    }
}

/// Somebody who has pressed nothing is on no route, whatever the others did.
pub proof fn who_never_keyed_is_silent(ops: Seq<Op>, c: ClientId)
    requires
        forall|i: int| 0 <= i < ops.len() ==> !(#[trigger] ops[i] is Key && ops[i]->Key_1 == c),
    ensures
        State::empty().after_all(ops).silent(c),
    decreases ops.len(),
{
    if ops.len() > 0 {
        let before = State::empty().after_all(ops.drop_last());
        who_never_keyed_is_silent(ops.drop_last(), c);
        assert forall|t: u32| !#[trigger] before.after(ops.last()).holds(t, c) by {
            if before.after(ops.last()).holds(t, c) {
                only_a_key_puts_anybody_on_the_air(before, ops.last(), t, c);
                assert(ops[ops.len() - 1] is Key);
            }
        }
    }
}

/// Going off the air is of one client and of every route: it holds nothing any
/// more, everybody else holds what they held, and all hear what they heard.
pub proof fn silencing_is_of_one_client(s: State, client: ClientId, t: u32, c: ClientId)
    ensures
        s.silenced(client).holds(t, c) == (c != client && s.holds(t, c)),
        s.silenced(client).listens(t, c) == s.listens(t, c),
        s.silenced(client).clients == s.clients,
        s.silenced(client).sessions == s.sessions,
{
    if s.routes.contains_key(t) {
        lemma_dropping(s.routes[t].also, client);
    }
}

/// When everybody is taken off a route, it is nobody's; whoever was on it is off
/// everything that their press of it took; and nobody, they or others, is taken
/// off anything else.
pub proof fn taking_everybody_off_frees_what_they_took(s: State, tg: u32, t: u32, c: ClientId)
    ensures
        s.all_unkeyed(tg).talkers_on(tg) == Seq::<ClientId>::empty(),
        s.all_unkeyed(tg).holds(t, c) <==> s.holds(t, c) && t != tg && !(s.holds(tg, c) && took_by(
            s,
            tg,
            c,
            t,
        )),
        s.all_unkeyed(tg).keyed_by == s.keyed_by,
{
    let talkers = s.talkers_on(tg);
    lemma_presses_ended(s, tg, talkers, tg, c);
    lemma_presses_ended(s, tg, talkers, t, c);
    lemma_talkers(s, tg, c);
}

proof fn lemma_talkers(s: State, tg: u32, c: ClientId)
    ensures
        s.holds(tg, c) <==> s.talkers_on(tg).contains(c),
{
    if s.routes.contains_key(tg) {
        let route = s.routes[tg];
        let talkers = route.talkers();
        match route.keyed {
            Some(holder) => {
                assert(talkers[0] == holder);
                if route.also.contains(c) {
                    let i = choose|i: int| 0 <= i < route.also.len() && route.also[i] == c;
                    assert(talkers[i + 1] == c);
                }
                if talkers.contains(c) {
                    let i = choose|i: int| 0 <= i < talkers.len() && talkers[i] == c;
                    if i > 0 {
                        assert(route.also[i - 1] == c);
                    }
                }
            },
            None => {},
        }
    }
}

// -- where a transmission is headed -----------------------------------------

/// The route a client pressed last, if it has not let go since.
pub open spec fn last_press(ops: Seq<Op>, c: ClientId) -> Option<u32>
    decreases ops.len(),
{
    if ops.len() == 0 {
        None
    } else {
        let s = State::empty().after_all(ops.drop_last());
        let earlier = last_press(ops.drop_last(), c);
        match ops.last() {
            Op::Key(tg, client, now) => if client == c && s.keyed_at(tg, client, now).1 is Ok {
                Some(tg)
            } else {
                earlier
            },
            _ => if lets_go(s, ops.last(), c) {
                None
            } else {
                earlier
            },
        }
    }
}

/// Whether an operation is a client letting go of its button, of its own accord
/// or by leaving.
pub open spec fn lets_go(s: State, op: Op, c: ClientId) -> bool {
    match op {
        Op::UnkeyAs(_, client) => client == c,
        Op::ForgetClient(client) => client == c,
        Op::Silence(client) => client == c,
        Op::Unbind(session) => s.clients.contains_key(session) && s.clients[session] == c,
        Op::DropServer(server) => server == c.server,
        _ => false,
    }
}

proof fn lemma_a_key_is_remembered(s: State, tg: u32, client: ClientId, now: u64, c: ClientId)
    ensures
        s.keyed_at(tg, client, now).0.keyed_by.get(c) == if client == c && s.keyed_at(
            tg,
            client,
            now,
        ).1 is Ok {
            Some(tg)
        } else {
            s.keyed_by.get(c)
        },
{
    let (pressed, outcome) = s.keyed_one(tg, client, now);
    if let Ok(keyed) = outcome {
        let others = s.patched_to(tg);
        let shared = match keyed {
            Keyed::Preempted(holder) => pressed.handed_over(others, holder, client),
            _ => pressed,
        };
        lemma_presses_change_routes_alone(shared, others, client, now);
    }
}

/// A transmission is on the route its speaker pressed LAST, for as long as the
/// speaker holds that one; else on the lowest that they hold.
pub proof fn a_transmission_is_where_the_last_press_was(ops: Seq<Op>, c: ClientId, t: u32)
    ensures
        State::empty().after_all(ops).keyed_by.get(c) == last_press(ops, c),
        ({
            let s = State::empty().after_all(ops);
            match last_press(ops, c) {
                Some(tg) if s.holds(tg, c) => s.on_air(c, t) <==> t == tg,
                _ => s.on_air(c, t) <==> s.holds(t, c) && forall|u: u32| #[trigger]
                    s.holds(u, c) ==> t <= u,
            }
        }),
    decreases ops.len(),
{
    if ops.len() > 0 {
        let before = State::empty().after_all(ops.drop_last());
        a_transmission_is_where_the_last_press_was(ops.drop_last(), c, t);
        match ops.last() {
            Op::Key(tg, client, now) => lemma_a_key_is_remembered(before, tg, client, now, c),
            Op::UnkeyEverybody(tg) => lemma_presses_ended(
                before,
                tg,
                before.talkers_on(tg),
                t,
                c,
            ),
            _ => {},
        }
    }
}

// -- what a release gives back ----------------------------------------------

/// Whether an operation is the end of one press: its release, or the client
/// going away.
pub open spec fn ends_press(s: State, op: Op, press: Press) -> bool {
    match op {
        Op::UnkeyAs(tg, client) => Press { client, tg } == press,
        // Everybody was taken off the route.
        Op::UnkeyEverybody(tg) => tg == press.tg && s.holds(tg, press.client),
        _ => lets_go(s, op, press.client),
    }
}

/// Whether an operation is one press, granted.
pub open spec fn is_press(s: State, op: Op, press: Press) -> bool {
    match op {
        Op::Key(tg, client, now) => Press { client, tg } == press && s.keyed_at(
            tg,
            client,
            now,
        ).1 is Ok,
        _ => false,
    }
}

/// Whether an operation leaves alone what is recorded of one press.
pub open spec fn leaves_alone(s: State, op: Op, press: Press) -> bool {
    !ends_press(s, op, press) && !is_press(s, op, press)
}

/// What a client has taken by pressing since it last let go: the routes that
/// were one channel with the one it pressed.
pub open spec fn taken_since(ops: Seq<Op>, press: Press) -> Option<Seq<u32>>
    decreases ops.len(),
{
    if ops.len() == 0 {
        None
    } else {
        let s = State::empty().after_all(ops.drop_last());
        let earlier = taken_since(ops.drop_last(), press);
        if is_press(s, ops.last(), press) {
            Some(
                match earlier {
                    Some(taken) => with_members(taken, s.joined(press.tg)),
                    None => s.joined(press.tg),
                },
            )
        } else if ends_press(s, ops.last(), press) {
            None
        } else {
            earlier
        }
    }
}

/// Whether each of several operations, one after another, leaves it alone.
pub open spec fn all_leave_alone(s: State, ops: Seq<Op>, press: Press) -> bool
    decreases ops.len(),
{
    ops.len() == 0 || all_leave_alone(s, ops.drop_last(), press) && leaves_alone(
        s.after_all(ops.drop_last()),
        ops.last(),
        press,
    )
}

proof fn lemma_a_record_stays(s: State, op: Op, press: Press)
    requires
        leaves_alone(s, op, press),
    ensures
        s.after(op).took.get(press) == s.took.get(press),
{
    match op {
        Op::Key(tg, client, now) => {
            let (pressed, outcome) = s.keyed_one(tg, client, now);
            if let Ok(keyed) = outcome {
                let others = s.patched_to(tg);
                let shared = match keyed {
                    Keyed::Preempted(holder) => pressed.handed_over(others, holder, client),
                    _ => pressed,
                };
                lemma_presses_change_routes_alone(shared, others, client, now);
            }
        },
        Op::UnkeyEverybody(tg) => {
            lemma_presses_ended(s, tg, s.talkers_on(tg), tg, press.client);
            lemma_talkers(s, tg, press.client);
            assert(s.presses_ended(tg, s.talkers_on(tg)).took.get(press) == s.took.get(press));
        },
        _ => {},
    }
}

proof fn lemma_a_record_goes(s: State, op: Op, press: Press)
    requires
        ends_press(s, op, press),
    ensures
        s.after(op).took.get(press) is None,
{
    if let Op::UnkeyEverybody(tg) = op {
        lemma_presses_ended(s, tg, s.talkers_on(tg), tg, press.client);
        lemma_talkers(s, tg, press.client);
        assert(s.presses_ended(tg, s.talkers_on(tg)).took.get(press) is None);
    }
}

proof fn lemma_records(ops: Seq<Op>, press: Press)
    ensures
        State::empty().after_all(ops).took.get(press) == taken_since(ops, press),
    decreases ops.len(),
{
    if ops.len() > 0 {
        let s = State::empty().after_all(ops.drop_last());
        let op = ops.last();
        lemma_records(ops.drop_last(), press);
        if is_press(s, op, press) {
            assert(s.after(op).took.get(press) == Some(s.recorded(press.tg, press.client)));
        } else if ends_press(s, op, press) {
            lemma_a_record_goes(s, op, press);
        } else {
            lemma_a_record_stays(s, op, press);
        }
    }
}

proof fn lemma_records_stay(s: State, ops: Seq<Op>, press: Press)
    requires
        all_leave_alone(s, ops, press),
    ensures
        s.after_all(ops).took.get(press) == s.took.get(press),
    decreases ops.len(),
{
    if ops.len() > 0 {
        lemma_records_stay(s, ops.drop_last(), press);
        lemma_a_record_stays(s.after_all(ops.drop_last()), ops.last(), press);
    }
}

/// What letting go of `tg` does where `tgs` are the routes to give back: the
/// client is off each of them, nobody else is off anything, no other route is
/// touched, and whoever heard something hears it still.
pub open spec fn gives_back(s: State, tg: u32, client: ClientId, tgs: Seq<u32>) -> bool {
    let after = s.unkeyed_as(tg, client);
    &&& s.releases(tg, client) <==> exists|t: u32| #[trigger]
        tgs.contains(t) && s.holds(t, client)
    &&& after.routes.dom() == s.routes.dom()
    &&& forall|t: u32| #[trigger]
        s.routes.contains_key(t) ==> after.routes[t] == if tgs.contains(t) {
            s.routes[t].released_by(client)
        } else {
            s.routes[t]
        }
    &&& forall|t: u32, c: ClientId| #[trigger]
        after.holds(t, c) <==> s.holds(t, c) && !(c == client && tgs.contains(t))
    &&& forall|t: u32, c: ClientId| #[trigger] after.listens(t, c) == s.listens(t, c)
}

proof fn lemma_gives_back(s: State, tg: u32, client: ClientId)
    ensures
        gives_back(s, tg, client, s.to_release(tg, client)),
{
    let after = s.unkeyed_as(tg, client);
    let tgs = s.to_release(tg, client);
    assert(after.routes.dom() =~= s.routes.dom());
    assert forall|t: u32, c: ClientId| #[trigger]
        after.holds(t, c) <==> s.holds(t, c) && !(c == client && tgs.contains(t)) by {
        if s.routes.contains_key(t) {
            lemma_dropping(s.routes[t].also, client);
        }
    }
}

/// A release gives back what the press took: the routes that were one channel
/// when the button went down, whatever was done in between, even where the
/// patch has been torn down or redrawn, and no others.
pub proof fn a_release_gives_back_what_the_press_took(
    s: State,
    tg: u32,
    client: ClientId,
    now: u64,
    ops: Seq<Op>,
)
    requires
        s.keyed_at(tg, client, now).1 is Ok,
        all_leave_alone(s.keyed_at(tg, client, now).0, ops, Press { client, tg }),
    ensures
        gives_back(
            s.keyed_at(tg, client, now).0.after_all(ops),
            tg,
            client,
            s.recorded(tg, client),
        ),
        !s.took.contains_key(Press { client, tg }) ==> s.recorded(tg, client) == s.joined(tg),
{
    let press = Press { client, tg };
    let pressed = s.keyed_at(tg, client, now).0;
    assert(pressed.took.get(press) == Some(s.recorded(tg, client)));
    lemma_records_stay(pressed, ops, press);
    lemma_gives_back(pressed.after_all(ops), tg, client);
}

/// Whatever was done before, a release gives back what was taken since the
/// client last let go, and with nothing taken since, what is one channel now.
pub proof fn a_release_gives_back_what_was_taken(ops: Seq<Op>, tg: u32, client: ClientId)
    ensures
        ({
            let s = State::empty().after_all(ops);
            match taken_since(ops, Press { client, tg }) {
                Some(taken) => gives_back(s, tg, client, taken),
                None => gives_back(s, tg, client, s.joined(tg)),
            }
        }),
{
    lemma_records(ops, Press { client, tg });
    lemma_gives_back(State::empty().after_all(ops), tg, client);
}

/// With no press on record a release gives back what is one channel now.
pub proof fn a_release_without_a_press_goes_by_the_patches(s: State, tg: u32, client: ClientId)
    requires
        !s.took.contains_key(Press { client, tg }),
    ensures
        gives_back(s, tg, client, s.joined(tg)),
{
    lemma_gives_back(s, tg, client);
}

} // verus!

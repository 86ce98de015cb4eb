//! What holds of the routing table as a whole, whoever presses what.

use crate::clock::elapsed;
use crate::patches::{
    joined_is_the_connected_component, joined_talkgroups_are_one_channel, lemma_with_members,
};
use crate::dsp::Mode;
use crate::router::{ClientId, Keyed, Listener, Member, Press, SessionId, PREEMPT_WINDOW};
use crate::routing::{
    dropping, is_airband, is_frequency, lemma_dropping, not_from, other_route, Refusal, RouteState,
    State,
};
use crate::seqs::{lemma_filter_contains, lemma_filter_no_duplicates, lemma_push_contains};
use crate::text::decimal_of;
use vstd::prelude::*;

verus! {

impl State {
    /// Somebody is mixed in on top of a holder only where the band is AM.
    pub open spec fn mixes_only_on_am(self) -> bool {
        forall|t: u32| #[trigger]
            self.routes.contains_key(t) && self.routes[t].also.len() > 0
                ==> self.routes[t].conventional && self.routes[t].am
    }

    /// A talkgroup: a route on which a second key must be refused.
    pub open spec fn is_talkgroup(self, tg: u32) -> bool {
        self.routes.contains_key(tg) && !self.routes[tg].conventional
    }

    pub open spec fn held_by(self, tg: u32, client: ClientId) -> bool {
        self.routes.contains_key(tg) && self.routes[tg].keyed == Some(client)
    }
}

// -- routed nowhere by default ----------------------------------------------

proof fn lemma_lowest(s: State, client: ClientId, tg: u32) -> (low: u32)
    requires
        s.holds(tg, client),
    ensures
        s.holds(low, client),
        forall|t: u32| #[trigger] s.holds(t, client) ==> low <= t,
    decreases tg,
{
    if exists|t: u32| #[trigger] s.holds(t, client) && t < tg {
        let t = choose|t: u32| #[trigger] s.holds(t, client) && t < tg;
        lemma_lowest(s, client, t)
    } else {
        tg
    }
}

/// A speaker with no key in force reaches no route, and a speaker reaches one
/// only by holding it.
pub proof fn speech_goes_only_where_a_key_is_held(s: State, client: ClientId)
    ensures
        s.silent(client) <==> forall|t: u32| !#[trigger] s.on_air(client, t),
        forall|t: u32| #[trigger] s.on_air(client, t) ==> s.holds(t, client),
        forall|a: u32, b: u32|
            #[trigger] s.on_air(client, a) && #[trigger] s.on_air(client, b) ==> a == b,
        State::empty().silent(client),
{
    if !s.silent(client) {
        let t = choose|t: u32| s.holds(t, client);
        let low = lemma_lowest(s, client, t);
        if s.keyed_by.contains_key(client) && s.holds(s.keyed_by[client], client) {
            assert(s.on_air(client, s.keyed_by[client]));
        } else {
            assert(s.on_air(client, low));
        }
    }
}

// -- one key per route ------------------------------------------------------

/// A talkgroup takes one key at a time. A second press is refused and changes
/// nobody's hold on anything; the one exception is a console insisting against
/// a unit.
pub proof fn a_talkgroup_takes_one_key_at_a_time(
    s: State,
    tg: u32,
    holder: ClientId,
    client: ClientId,
    now: u64,
)
    requires
        s.is_talkgroup(tg),
        s.held_by(tg, holder),
        holder != client,
    ensures
        match s.keyed_at(tg, client, now).1 {
            Ok(keyed) => {
                &&& keyed == Keyed::Preempted(holder)
                &&& client.console() && !holder.console()
                &&& s.insisting(tg, client, now)
            },
            Err(why) => {
                &&& s.keyed_at(tg, client, now).0.routes == s.routes
                &&& why == if client.console() && !holder.console() {
                    Refusal::Busy
                } else if !client.console() && holder.console() {
                    Refusal::DispatchTransmitting
                } else {
                    Refusal::AlreadyKeyed
                }
            },
        },
{
}

/// Digital cannot double: at most one client ever transmits on a talkgroup.
pub proof fn a_talkgroup_has_one_talker(s: State, tg: u32, a: ClientId, b: ClientId)
    requires
        s.mixes_only_on_am(),
        s.is_talkgroup(tg),
        s.holds(tg, a),
        s.holds(tg, b),
    ensures
        a == b,
        s.talkers_on(tg) == seq![a],
{
    assert(s.routes[tg].also.len() == 0);
    assert(s.talkers_on(tg) =~= seq![a]);
}

/// Pressing again while already holding the channel is a reply, not a
/// collision: it is granted, and nothing about the route changes.
pub proof fn keying_twice_is_a_reply(s: State, tg: u32, client: ClientId, now: u64)
    requires
        s.held_by(tg, client),
    ensures
        s.keyed_at(tg, client, now).1 == Ok::<Keyed, Refusal>(Keyed::Granted),
        s.keyed_one(tg, client, now).0 == s,
{
}

// -- dispatch ---------------------------------------------------------------

/// Dispatch is refused before it may insist: the first press takes nothing, and
/// a second inside the window takes the channel from the unit that holds it.
pub proof fn dispatch_takes_a_channel_by_insisting(
    s: State,
    tg: u32,
    unit: ClientId,
    console: ClientId,
    first: u64,
    second: u64,
)
    requires
        s.is_talkgroup(tg),
        s.held_by(tg, unit),
        console.console(),
        !unit.console(),
        !s.insisting(tg, console, first),
    ensures
        s.keyed_at(tg, console, first).1 == Err::<Keyed, Refusal>(Refusal::Busy),
        s.keyed_at(tg, console, first).0.held_by(tg, unit),
        elapsed(first, second) <= PREEMPT_WINDOW ==> {
            let refused = s.keyed_at(tg, console, first).0;
            &&& refused.keyed_at(tg, console, second).1 == Ok::<Keyed, Refusal>(
                Keyed::Preempted(unit),
            )
            &&& refused.keyed_at(tg, console, second).0.held_by(tg, console)
        },
        elapsed(first, second) > PREEMPT_WINDOW ==> {
            let refused = s.keyed_at(tg, console, first).0;
            &&& refused.keyed_at(tg, console, second).1 == Err::<Keyed, Refusal>(Refusal::Busy)
            &&& refused.keyed_at(tg, console, second).0.held_by(tg, unit)
        },
{
    let refused = s.keyed_at(tg, console, first).0;
    let (pressed, outcome) = refused.keyed_one(tg, console, second);
    if elapsed(first, second) <= PREEMPT_WINDOW {
        let others = refused.patched_to(tg);
        lemma_filter_contains(refused.joined(tg), other_route(tg));
        assert(!others.contains(tg));
        let shared = pressed.handed_over(others, unit, console);
        assert(shared.held_by(tg, console));
        lemma_key_each_keeps(shared, others, console, second, tg, console);
    }
}

/// A unit never takes a channel from dispatch, and one console never takes it
/// from another, however often either presses.
pub proof fn dispatch_is_never_preempted(
    s: State,
    tg: u32,
    console: ClientId,
    other: ClientId,
    now: u64,
)
    requires
        s.is_talkgroup(tg),
        s.held_by(tg, console),
        console.console(),
        other != console,
    ensures
        s.keyed_at(tg, other, now) == (
            s,
            Err::<Keyed, Refusal>(
                if other.console() {
                    Refusal::AlreadyKeyed
                } else {
                    Refusal::DispatchTransmitting
                },
            ),
        ),
{
}

// -- what a key leaves alone ------------------------------------------------

proof fn lemma_key_one_adds_only_oneself(
    s: State,
    tg: u32,
    client: ClientId,
    now: u64,
    t: u32,
    c: ClientId,
)
    requires
        c != client,
        s.keyed_one(tg, client, now).0.holds(t, c),
    ensures
        s.holds(t, c),
{
    if s.routes.contains_key(tg) {
        lemma_push_contains(s.routes[tg].also, client);
        lemma_dropping(s.routes[tg].also, client);
    }
}

proof fn lemma_key_each_adds_only_oneself(
    s: State,
    others: Seq<u32>,
    client: ClientId,
    now: u64,
    t: u32,
    c: ClientId,
)
    requires
        c != client,
        s.keyed_each(others, client, now).holds(t, c),
    ensures
        s.holds(t, c),
    decreases others.len(),
{
    if others.len() > 0 {
        let before = s.keyed_each(others.drop_last(), client, now);
        lemma_key_one_adds_only_oneself(before, others.last(), client, now, t, c);
        lemma_key_each_adds_only_oneself(s, others.drop_last(), client, now, t, c);
    }
}

proof fn lemma_passed_on(route: RouteState, from: ClientId, to: ClientId)
    ensures
        forall|c: ClientId| #[trigger]
            route.passed_on(from, to).also.contains(c) <==> route.also.contains(c) && c != from && !(
            c == to && route.keyed == Some(from)),
{
    lemma_dropping(route.also, from);
    lemma_dropping(dropping(route.also, from), to);
}

proof fn lemma_key_one_keeps_oneself(
    s: State,
    tg: u32,
    client: ClientId,
    now: u64,
    t: u32,
)
    ensures
        s.holds(t, client) ==> s.keyed_one(tg, client, now).0.holds(t, client),
        s.held_by(t, client) ==> s.keyed_one(tg, client, now).0.held_by(t, client),
{
    if s.routes.contains_key(tg) {
        lemma_push_contains(s.routes[tg].also, client);
    }
}

proof fn lemma_key_each_keeps(
    s: State,
    others: Seq<u32>,
    client: ClientId,
    now: u64,
    t: u32,
    c: ClientId,
)
    requires
        c == client || !others.contains(t),
    ensures
        s.holds(t, c) ==> s.keyed_each(others, client, now).holds(t, c),
        s.held_by(t, c) ==> s.keyed_each(others, client, now).held_by(t, c),
    decreases others.len(),
{
    if others.len() > 0 {
        let before = s.keyed_each(others.drop_last(), client, now);
        assert(others =~= others.drop_last().push(others.last()));
        lemma_push_contains(others.drop_last(), others.last());
        lemma_key_each_keeps(s, others.drop_last(), client, now, t, c);
        if c == client {
            lemma_key_one_keeps_oneself(before, others.last(), client, now, t);
        }
    }
}

/// A press never puts anybody on the air but the one who pressed.
pub proof fn a_press_puts_nobody_else_on_the_air(
    s: State,
    tg: u32,
    client: ClientId,
    now: u64,
    t: u32,
    c: ClientId,
)
    requires
        c != client,
        !s.holds(t, c),
    ensures
        !s.keyed_at(tg, client, now).0.holds(t, c),
{
    let (pressed, outcome) = s.keyed_one(tg, client, now);
    if pressed.holds(t, c) {
        lemma_key_one_adds_only_oneself(s, tg, client, now, t, c);
    }
    if let Ok(keyed) = outcome {
        let others = s.patched_to(tg);
        let shared = match keyed {
            Keyed::Preempted(holder) => pressed.handed_over(others, holder, client),
            _ => pressed,
        };
        if let Keyed::Preempted(holder) = keyed {
            if pressed.routes.contains_key(t) {
                lemma_passed_on(pressed.routes[t], holder, client);
            }
        }
        assert(!shared.holds(t, c));
        if shared.keyed_each(others, client, now).holds(t, c) {
            lemma_key_each_adds_only_oneself(shared, others, client, now, t, c);
        }
    }
}

// -- patches ----------------------------------------------------------------

/// A preemption is of the whole channel: the unit cut off transmits on no
/// member of the patch any more, and what it held passes to dispatch.
pub proof fn preempting_takes_every_member_of_a_patch(
    s: State,
    tg: u32,
    console: ClientId,
    unit: ClientId,
    now: u64,
    t: u32,
)
    requires
        s.mixes_only_on_am(),
        s.keyed_at(tg, console, now).1 == Ok::<Keyed, Refusal>(Keyed::Preempted(unit)),
        s.joined(tg).contains(t),
    ensures
        !s.keyed_at(tg, console, now).0.holds(t, unit),
        s.held_by(t, unit) ==> s.keyed_at(tg, console, now).0.held_by(t, console),
{
    let pressed = s.keyed_one(tg, console, now).0;
    let others = s.patched_to(tg);
    let shared = pressed.handed_over(others, unit, console);
    let all = shared.keyed_each(others, console, now);
    lemma_filter_contains(s.joined(tg), other_route(tg));
    assert(others.contains(t) <==> t != tg);
    if s.routes.contains_key(t) {
        lemma_passed_on(pressed.routes[t], unit, console);
    }
    assert(s.routes[tg].also.len() == 0);
    lemma_dropping(s.routes[tg].also, console);
    assert(!shared.holds(t, unit));
    if all.holds(t, unit) {
        lemma_key_each_adds_only_oneself(shared, others, console, now, t, unit);
    }
    if s.held_by(t, unit) {
        assert(shared.held_by(t, console));
        lemma_key_each_keeps(shared, others, console, now, t, console);
    }
}

proof fn lemma_key_each_cleared(
    s: State,
    others: Seq<u32>,
    client: ClientId,
    now: u64,
    t: u32,
    c: ClientId,
)
    requires
        others.no_duplicates(),
        forall|x: u32| #[trigger]
            others.contains(x) ==> !s.pending.contains_key(Press { client, tg: x }),
    ensures
        s.holds(t, c) ==> s.keyed_each(others, client, now).holds(t, c),
        forall|x: u32|
            !others.contains(x) ==> s.keyed_each(others, client, now).pending.contains_key(
                Press { client, tg: x },
            ) == #[trigger] s.pending.contains_key(Press { client, tg: x }),
    decreases others.len(),
{
    if others.len() > 0 {
        let rest = others.drop_last();
        let last = others.last();
        let before = s.keyed_each(rest, client, now);
        assert(others =~= rest.push(last));
        lemma_push_contains(rest, last);
        assert(!rest.contains(last)) by {
            if rest.contains(last) {
                let j = choose|j: int| 0 <= j < rest.len() && rest[j] == last;
                assert(others[j] == others[others.len() - 1]);
            }
        }
        assert forall|x: u32| #[trigger] rest.contains(x) implies !s.pending.contains_key(
            Press { client, tg: x },
        ) by {
            assert(others.contains(x));
        }
        assert(others.contains(last));
        lemma_key_each_cleared(s, rest, client, now, t, c);
        assert(!s.pending.contains_key(Press { client, tg: last }));
        assert(!before.pending.contains_key(Press { client, tg: last }));
        if before.routes.contains_key(last) {
            lemma_push_contains(before.routes[last].also, client);
        }
    }
}

/// A preemption cuts off nobody but the unit it names.
pub proof fn preempting_cuts_off_nobody_else(
    s: State,
    tg: u32,
    console: ClientId,
    unit: ClientId,
    now: u64,
    t: u32,
    c: ClientId,
)
    requires
        s.mixes_only_on_am(),
        s.keyed_at(tg, console, now).1 == Ok::<Keyed, Refusal>(Keyed::Preempted(unit)),
        c != unit,
        s.holds(t, c),
    ensures
        s.keyed_at(tg, console, now).0.holds(t, c),
{
    let pressed = s.keyed_one(tg, console, now).0;
    let others = s.patched_to(tg);
    let shared = pressed.handed_over(others, unit, console);
    assert(s.routes[tg].also.len() == 0);
    lemma_dropping(s.routes[tg].also, console);
    assert(pressed.holds(t, c));
    lemma_passed_on(pressed.routes[t], unit, console);
    assert(shared.holds(t, c));
    joined_is_the_connected_component(s.patches, tg);
    lemma_filter_no_duplicates(s.joined(tg), other_route(tg));
    lemma_key_each_cleared(shared, others, console, now, t, c);
}

proof fn lemma_key_each_takes_idle(
    s: State,
    others: Seq<u32>,
    client: ClientId,
    now: u64,
    t: u32,
)
    requires
        others.contains(t),
        s.routes.contains_key(t),
        s.routes[t].keyed is None || s.routes[t].keyed == Some(client),
    ensures
        s.keyed_each(others, client, now).held_by(t, client),
    decreases others.len(),
{
    let rest = others.drop_last();
    let last = others.last();
    let before = s.keyed_each(rest, client, now);
    assert(others =~= rest.push(last));
    lemma_push_contains(rest, last);
    if rest.contains(t) {
        lemma_key_each_takes_idle(s, rest, client, now, t);
        lemma_key_one_keeps_oneself(before, last, client, now, t);
    } else {
        assert(t == last);
        lemma_key_each_leaves_others(s, rest, client, now, t);
    }
}

proof fn lemma_key_each_leaves_others(
    s: State,
    others: Seq<u32>,
    client: ClientId,
    now: u64,
    t: u32,
)
    requires
        !others.contains(t),
    ensures
        s.keyed_each(others, client, now).routes.contains_key(t) == s.routes.contains_key(t),
        s.routes.contains_key(t) ==> s.keyed_each(others, client, now).routes[t] == s.routes[t],
    decreases others.len(),
{
    if others.len() > 0 {
        assert(others =~= others.drop_last().push(others.last()));
        lemma_push_contains(others.drop_last(), others.last());
        lemma_key_each_leaves_others(s, others.drop_last(), client, now, t);
    }
}

/// Keying one side of a patch takes every side that nobody holds, so the patch
/// is busy on each of them: another unit's press on any member is refused.
pub proof fn a_patch_is_busy_on_every_member(
    s: State,
    tg: u32,
    unit: ClientId,
    now: u64,
    t: u32,
    other: ClientId,
    later: u64,
)
    requires
        s.routes.contains_key(tg) && s.routes[tg].keyed is None,
        s.joined(tg).contains(t),
        s.routes.contains_key(t) && s.routes[t].keyed is None,
        other != unit,
    ensures
        s.keyed_at(tg, unit, now).1 == Ok::<Keyed, Refusal>(Keyed::Granted),
        s.keyed_at(tg, unit, now).0.held_by(t, unit),
        !s.routes[t].conventional && other.console() == unit.console() ==> s.keyed_at(
            tg,
            unit,
            now,
        ).0.keyed_at(t, other, later).1 == Err::<Keyed, Refusal>(Refusal::AlreadyKeyed),
{
    let pressed = s.keyed_one(tg, unit, now).0;
    let others = s.patched_to(tg);
    lemma_filter_contains(s.joined(tg), other_route(tg));
    if t == tg {
        lemma_key_each_keeps(pressed, others, unit, now, t, unit);
    } else {
        assert(others.contains(t));
        lemma_key_each_takes_idle(pressed, others, unit, now, t);
    }
    lemma_key_each_classifies(pressed, others, unit, now, t);
}

proof fn lemma_key_each_classifies(
    s: State,
    others: Seq<u32>,
    client: ClientId,
    now: u64,
    t: u32,
)
    ensures
        s.keyed_each(others, client, now).routes.contains_key(t) == s.routes.contains_key(t),
        s.routes.contains_key(t) ==> s.keyed_each(others, client, now).routes[t].conventional
            == s.routes[t].conventional,
    decreases others.len(),
{
    if others.len() > 0 {
        lemma_key_each_classifies(s, others.drop_last(), client, now, t);
    }
}

/// A reply adds to the record of what there is to give back, and forgets
/// nothing that an earlier press took.
pub proof fn a_reply_forgets_nothing(s: State, tg: u32, client: ClientId, now: u64, t: u32)
    requires
        s.keyed_at(tg, client, now).1 is Ok,
        s.joined(tg).contains(t) || s.took.contains_key(Press { client, tg }) && s.took[Press {
            client,
            tg,
        }].contains(t),
    ensures
        s.keyed_at(tg, client, now).0.to_release(tg, client).contains(t),
{
    if s.took.contains_key(Press { client, tg }) {
        lemma_with_members(s.took[Press { client, tg }], s.joined(tg));
    }
}

/// A release takes nobody off the air but the one who releases. So a unit that
/// was cut off and lets go of its button does not end dispatch's transmission.
pub proof fn a_release_ends_nobody_else(s: State, tg: u32, client: ClientId, t: u32, c: ClientId)
    requires
        c != client,
    ensures
        s.unkeyed_as(tg, client).holds(t, c) == s.holds(t, c),
        s.unkeyed_as(tg, client).held_by(t, c) == s.held_by(t, c),
{
    if s.routes.contains_key(t) {
        lemma_dropping(s.routes[t].also, client);
    }
}

// -- who hears it -----------------------------------------------------------

proof fn lemma_hears_best(s: State, tg: u32, group: Seq<u32>, client: ClientId)
    ensures
        s.hears_best(tg, group, client) is Some <==> exists|t: u32| #[trigger]
            group.contains(t) && s.listens(t, client),
        s.hears_best(tg, group, client) matches Some(l) ==> {
            &&& l.client == client
            &&& exists|t: u32| #[trigger]
                group.contains(t) && s.hears_on(tg, t, client) == Some(l)
            &&& forall|t: u32| #[trigger]
                group.contains(t) && s.listens(t, client)
                    ==> s.routes[t].members[client].quality <= l.quality
        },
    decreases group.len(),
{
    if group.len() > 0 {
        let rest = group.drop_last();
        let last = group.last();
        lemma_hears_best(s, tg, rest, client);
        assert(group =~= rest.push(last));
        lemma_push_contains(rest, last);
        assert(s.listens(last, client) <==> s.hears_on(tg, last, client) is Some);
        if s.listens(last, client) {
            assert(group.contains(last));
        }
        if s.hears_best(tg, rest, client) is Some {
            let t = choose|t: u32| #[trigger]
                rest.contains(t) && s.hears_on(tg, t, client) == s.hears_best(tg, rest, client);
            assert(group.contains(t));
        }
        if exists|t: u32| #[trigger] rest.contains(t) && s.listens(t, client) {
            let t = choose|t: u32| #[trigger] rest.contains(t) && s.listens(t, client);
            assert(group.contains(t));
        }
    }
}

/// Who hears a transmission: everybody listening on the route or on anything
/// patched to it, but never the speaker. `listen: false` is never sent
/// anything. Somebody who could hear it on several routes is served on the
/// best link of them.
pub proof fn everybody_listening_hears_it_and_nobody_else(
    s: State,
    tg: u32,
    except: Option<ClientId>,
    client: ClientId,
)
    ensures
        s.hears(tg, except, client) is Some <==> except != Some(client) && exists|t: u32| #[trigger]
            s.joined(tg).contains(t) && s.listens(t, client),
        s.hears(tg, except, client) matches Some(l) ==> {
            &&& l.client == client
            &&& exists|t: u32| #[trigger]
                s.joined(tg).contains(t) && s.hears_on(tg, t, client) == Some(l)
            &&& forall|t: u32| #[trigger]
                s.joined(tg).contains(t) && s.listens(t, client)
                    ==> s.routes[t].members[client].quality <= l.quality
        },
{
    lemma_hears_best(s, tg, s.joined(tg), client);
}

/// A patch is heard the same way round: whichever member is keyed, the same
/// clients hear it.
pub proof fn a_patch_is_heard_whichever_side_is_keyed(
    s: State,
    a: u32,
    b: u32,
    except: Option<ClientId>,
    client: ClientId,
)
    requires
        s.joined(a).contains(b),
    ensures
        s.hears(a, except, client) is Some <==> s.hears(b, except, client) is Some,
{
    everybody_listening_hears_it_and_nobody_else(s, a, except, client);
    everybody_listening_hears_it_and_nobody_else(s, b, except, client);
    joined_talkgroups_are_one_channel(s.patches, a, b);
    assert forall|t: u32| #[trigger] s.joined(a).contains(t) <==> s.joined(b).contains(t) by {
        assert(s.joined(a).to_set().contains(t) <==> s.joined(b).to_set().contains(t));
    }
    if s.hears(a, except, client) is Some {
        let t = choose|t: u32| #[trigger] s.joined(a).contains(t) && s.listens(t, client);
        assert(s.joined(b).contains(t));
    }
    if s.hears(b, except, client) is Some {
        let t = choose|t: u32| #[trigger] s.joined(b).contains(t) && s.listens(t, client);
        assert(s.joined(a).contains(t));
    }
}

// -- doubling ---------------------------------------------------------------

/// FM captures: the second radio is accepted, and is not on the air.
pub proof fn fm_captures(s: State, tg: u32, first: ClientId, second: ClientId, now: u64)
    requires
        s.held_by(tg, first),
        s.routes[tg].conventional && !s.routes[tg].am,
        first != second,
        s.mixes_only_on_am(),
        s.joined(tg) == seq![tg],
    ensures
        s.keyed_at(tg, second, now).1 == Ok::<Keyed, Refusal>(Keyed::Doubled),
        s.keyed_at(tg, second, now).0.routes == s.routes,
        !s.keyed_at(tg, second, now).0.holds(tg, second),
{
    lemma_filter_contains(s.joined(tg), other_route(tg));
    assert(s.patched_to(tg).len() == 0) by {
        if s.patched_to(tg).len() > 0 {
            assert(s.patched_to(tg).contains(s.patched_to(tg)[0]));
        }
    }
}

/// AM does not capture: both radios are on the air, and that is a collision
/// for as long as both stay up.
pub proof fn am_mixes(s: State, tg: u32, first: ClientId, second: ClientId, now: u64)
    requires
        s.held_by(tg, first),
        s.routes[tg].conventional && s.routes[tg].am,
        first != second,
    ensures
        s.keyed_at(tg, second, now).1 == Ok::<Keyed, Refusal>(Keyed::Mixed),
        s.keyed_at(tg, second, now).0.holds(tg, first),
        s.keyed_at(tg, second, now).0.holds(tg, second),
        s.keyed_at(tg, second, now).0.am_collision(tg),
{
    let pressed = s.keyed_one(tg, second, now).0;
    let others = s.patched_to(tg);
    let after = s.keyed_at(tg, second, now).0;
    lemma_push_contains(s.routes[tg].also, second);
    lemma_filter_contains(s.joined(tg), other_route(tg));
    assert(!others.contains(tg));
    lemma_key_each_leaves_others(pressed, others, second, now, tg);
    lemma_key_each_same_patches(pressed, others, second, now);
    joined_is_the_connected_component(s.patches, tg);
    assert(after.joined(tg)[0] == tg);
    assert(after.joined(tg).contains(tg));
    assert(after.transmits_on(after.joined(tg), first));
    assert(after.transmits_on(after.joined(tg), second));
}

proof fn lemma_key_each_same_patches(s: State, others: Seq<u32>, client: ClientId, now: u64)
    ensures
        s.keyed_each(others, client, now).patches == s.patches,
    decreases others.len(),
{
    if others.len() > 0 {
        lemma_key_each_same_patches(s, others.drop_last(), client, now);
    }
}

/// A channel is clear when nobody transmits anywhere on it, and only then; a
/// route that went away has nobody on it.
pub proof fn clear_means_nobody_is_up(s: State, tg: u32)
    ensures
        s.is_clear(tg) <==> forall|t: u32, c: ClientId| #[trigger]
            s.joined(tg).contains(t) ==> !#[trigger] s.holds(t, c),
{
    assert forall|t: u32| (s.talkers_on(t).len() == 0) == (forall|c: ClientId|
        !#[trigger] s.holds(t, c)) by {
        if s.talkers_on(t).len() > 0 {
            let c = s.talkers_on(t)[0];
            let route = s.routes[t];
            if route.keyed is None {
                assert(route.also[0] == c);
            }
            assert(s.holds(t, c));
        }
    }
    if s.is_clear(tg) {
        assert forall|t: u32, c: ClientId| #[trigger]
            s.joined(tg).contains(t) implies !#[trigger] s.holds(t, c) by {
            assert(s.talkers_on(t).len() == 0);
        }
    } else {
        let t = choose|t: u32| #[trigger] s.joined(tg).contains(t) && s.talkers_on(t).len() != 0;
        let c = choose|c: ClientId| s.holds(t, c);
        assert(s.joined(tg).contains(t) && s.holds(t, c));
    }
}

// -- leaving ----------------------------------------------------------------

/// Losing a server takes everything of that server off, and touches nothing of
/// any other: player ids are unique only within one server.
pub proof fn losing_one_server_leaves_the_others_alone(
    s: State,
    server: u32,
    t: u32,
    c: ClientId,
    session: SessionId,
)
    ensures
        s.server_dropped(server).holds(t, c) == (c.server != server && s.holds(t, c)),
        s.server_dropped(server).listens(t, c) == (c.server != server && s.listens(t, c)),
        s.server_dropped(server).clients.get(session) == if session.server == server {
            None
        } else {
            s.clients.get(session)
        },
        s.server_dropped(server).sessions.get(c) == if c.server == server {
            None
        } else {
            s.sessions.get(c)
        },
        s.server_dropped(server).patches == s.patches,
{
    if s.routes.contains_key(t) {
        lemma_filter_contains(s.routes[t].also, not_from(server));
    }
}

/// A player who drops stops transmitting everywhere, as the holder or mixed in
/// on top of one, hears nothing more, and takes nobody else off anything.
pub proof fn a_dropped_player_releases_the_channel(
    s: State,
    session: SessionId,
    t: u32,
    c: ClientId,
)
    requires
        s.clients.contains_key(session),
    ensures
        s.unbound(session).holds(t, c) == (c != s.clients[session] && s.holds(t, c)),
        s.unbound(session).listens(t, c) == (c != s.clients[session] && s.listens(t, c)),
        !s.unbound(session).clients.contains_key(session),
{
    if s.routes.contains_key(t) {
        lemma_dropping(s.routes[t].also, s.clients[session]);
    }
}

/// A client that detaches is gone from every route; one that only changes its
/// board keeps what it is transmitting on.
pub proof fn detaching_releases_and_resubscribing_does_not(
    s: State,
    client: ClientId,
    t: u32,
    c: ClientId,
)
    ensures
        s.forgotten(client).holds(t, c) == (c != client && s.holds(t, c)),
        s.forgotten(client).listens(t, c) == (c != client && s.listens(t, c)),
        s.membership_forgotten(client).holds(t, c) == s.holds(t, c),
        s.membership_forgotten(client).listens(t, c) == (c != client && s.listens(t, c)),
        s.membership_forgotten(client).keyed_by == s.keyed_by,
        s.membership_forgotten(client).took == s.took,
{
    if s.routes.contains_key(t) {
        lemma_dropping(s.routes[t].also, client);
    }
}

// -- classification ---------------------------------------------------------

/// A subscription classifies a route by its id, but only a route nobody knew;
/// opening a frequency says what it is, before a subscription or after one.
pub proof fn opening_wins_over_guessing(
    s: State,
    id: u32,
    am: bool,
    client: ClientId,
    member: Member,
)
    ensures
        !s.routes.contains_key(id) ==> {
            let route = s.with_member(id, client, member).routes[id];
            route.conventional == is_frequency(id) && route.am == is_airband(id)
        },
        ({
            let after = s.opened_conventional(id, am).with_member(id, client, member).routes[id];
            after.conventional && after.am == am
        }),
        ({
            let after = s.with_member(id, client, member).opened_conventional(id, am).routes[id];
            after.conventional && after.am == am
        }),
{
}

/// Identity is a player on a server: a session's player is the one named in
/// front of its username, on the session's own server.
pub proof fn a_binding_names_a_player_of_its_own_server(
    s: State,
    session: SessionId,
    player: u32,
    other: SessionId,
)
    requires
        other != session,
    ensures
        s.bound(session, player).clients[session] == (ClientId { server: session.server, player }),
        s.bound(session, player).sessions[ClientId { server: session.server, player }] == session,
        s.bound(session, player).clients.get(other) == s.clients.get(other),
{
}

// -- who is on a route, and on what link ------------------------------------

/// A report of a client's link on a route is what stands from then on, whatever
/// was there before: exactly that it listens or not, and exactly that quality.
/// Everybody else on the route, every other route, and who transmits where are
/// as they were.
pub proof fn the_latest_report_of_a_link_stands(
    s: State,
    tg: u32,
    client: ClientId,
    listen: bool,
    quality: u8,
    t: u32,
    c: ClientId,
)
    ensures
        ({
            let after = s.with_member(tg, client, Member { listen, quality });
            &&& after.routes.contains_key(tg)
            &&& after.routes[tg].members.contains_key(client)
            &&& after.routes[tg].members[client].listen == listen
            &&& after.routes[tg].members[client].quality == quality
            &&& after.listens(tg, client) == listen
            &&& s.routes.contains_key(tg) && c != client ==> after.routes[tg].members.get(c)
                == s.routes[tg].members.get(c)
            &&& !s.routes.contains_key(tg) && c != client ==> !after.routes[tg].members.contains_key(
                c,
            )
            &&& t != tg ==> after.routes.get(t) == s.routes.get(t)
            &&& after.holds(t, c) == s.holds(t, c)
            &&& after == (State { routes: after.routes, ..s })
            &&& s.routes.contains_key(tg) ==> after.routes[tg] == (RouteState {
                members: after.routes[tg].members,
                ..s.routes[tg]
            })
        }),
{
}

/// Two reports of one link: the second stands alone.
pub proof fn a_later_report_replaces_an_earlier_one(
    s: State,
    tg: u32,
    client: ClientId,
    first: Member,
    second: Member,
)
    ensures
        s.with_member(tg, client, first).with_member(tg, client, second) == s.with_member(
            tg,
            client,
            second,
        ),
{
    let a = s.with_member(tg, client, first).with_member(tg, client, second);
    let b = s.with_member(tg, client, second);
    assert(a.routes[tg].members =~= b.routes[tg].members);
    assert(a.routes =~= b.routes);
}

proof fn lemma_hears_alone(s: State, tg: u32, group: Seq<u32>, client: ClientId)
    requires
        forall|t: u32| #[trigger] group.contains(t) && t != tg ==> !s.listens(t, client),
        group.contains(tg),
    ensures
        s.hears_best(tg, group, client) == s.hears_on(tg, tg, client),
    decreases group.len(),
{
    let rest = group.drop_last();
    let last = group.last();
    assert(group =~= rest.push(last));
    lemma_push_contains(rest, last);
    if rest.contains(tg) {
        assert forall|t: u32| #[trigger] rest.contains(t) && t != tg implies !s.listens(
            t,
            client,
        ) by {
            assert(group.contains(t));
        }
        lemma_hears_alone(s, tg, rest, client);
        assert(group.contains(last));
    } else {
        lemma_hears_best(s, tg, rest, client);
        assert(last == tg);
        if s.hears_best(tg, rest, client) is Some {
            let t = choose|t: u32| #[trigger] rest.contains(t) && s.listens(t, client);
            assert(group.contains(t));
            assert(false);
        }
    }
}

/// A listener reported on the route that is keyed, and listening on nothing
/// patched to it, is in the audience, once, on exactly the link reported: not
/// across a patch, and in the sound of that route.
pub proof fn a_reported_link_is_the_one_heard(
    s: State,
    tg: u32,
    client: ClientId,
    quality: u8,
    speaker: ClientId,
    audience: Seq<Listener>,
)
    requires
        client != speaker,
        forall|t: u32| #[trigger] s.joined(tg).contains(t) && t != tg ==> !s.listens(t, client),
        s.with_member(tg, client, Member { listen: true, quality }).is_audience(
            tg,
            Some(speaker),
            audience,
        ),
    ensures
        exists|i: int|
            {
                &&& 0 <= i < audience.len()
                &&& (#[trigger] audience[i]).client == client
                &&& audience[i].quality == quality
                &&& !audience[i].bridged
            },
        forall|i: int|
            0 <= i < audience.len() && (#[trigger] audience[i]).client == client
                ==> audience[i].quality == quality,
{
    let after = s.with_member(tg, client, Member { listen: true, quality });
    the_latest_report_of_a_link_stands(s, tg, client, true, quality, tg, client);
    joined_is_the_connected_component(after.patches, tg);
    assert(after.joined(tg).contains(tg));
    assert forall|t: u32| #[trigger] after.joined(tg).contains(t) && t != tg implies !after.listens(
        t,
        client,
    ) by {
        assert(s.joined(tg).contains(t));
        the_latest_report_of_a_link_stands(s, tg, client, true, quality, t, client);
    }
    lemma_hears_alone(after, tg, after.joined(tg), client);
    let l = after.hears(tg, Some(speaker), client)->0;
    assert(after.hears(tg, Some(speaker), l.client) == Some(l));
    assert(audience.contains(l));
    let i = choose|i: int| 0 <= i < audience.len() && audience[i] == l;
    assert(audience[i].client == client);
    assert forall|j: int| 0 <= j < audience.len() && (#[trigger] audience[j]).client
        == client implies audience[j].quality == quality by {
        if j < i {
            assert(audience[j].client != audience[i].client);
        } else if i < j {
            assert(audience[i].client != audience[j].client);
        }
    }
}

/// One who does not listen on anything that is one channel with the route keyed
/// is in no audience, and neither is the speaker; and one who listens somewhere on
/// it is.
pub proof fn the_audience_is_who_listens(
    s: State,
    tg: u32,
    speaker: ClientId,
    audience: Seq<Listener>,
    client: ClientId,
)
    requires
        s.is_audience(tg, Some(speaker), audience),
    ensures
        (exists|i: int| 0 <= i < audience.len() && (#[trigger] audience[i]).client == client)
            <==> client != speaker && exists|t: u32| #[trigger]
            s.joined(tg).contains(t) && s.routes.contains_key(t)
                && s.routes[t].members.contains_key(client) && s.routes[t].members[client].listen,
{
    everybody_listening_hears_it_and_nobody_else(s, tg, Some(speaker), client);
    if exists|i: int| 0 <= i < audience.len() && (#[trigger] audience[i]).client == client {
        let i = choose|i: int| 0 <= i < audience.len() && (#[trigger] audience[i]).client == client;
        assert(audience.contains(audience[i]));
        assert(s.hears(tg, Some(speaker), client) == Some(audience[i]));
        let t = choose|t: u32| #[trigger] s.joined(tg).contains(t) && s.listens(t, client);
        assert(s.joined(tg).contains(t) && s.routes[t].members[client].listen);
    }
    if client != speaker && exists|t: u32| #[trigger]
        s.joined(tg).contains(t) && s.routes.contains_key(t)
            && s.routes[t].members.contains_key(client) && s.routes[t].members[client].listen {
        let t = choose|t: u32| #[trigger]
            s.joined(tg).contains(t) && s.routes.contains_key(t)
                && s.routes[t].members.contains_key(client) && s.routes[t].members[client].listen;
        assert(s.joined(tg).contains(t) && s.listens(t, client));
        let l = s.hears(tg, Some(speaker), client)->0;
        assert(s.hears(tg, Some(speaker), l.client) == Some(l));
        assert(audience.contains(l));
        let i = choose|i: int| 0 <= i < audience.len() && audience[i] == l;
        assert(audience[i].client == client);
    }
}

/// How a route sounds: an AM frequency like AM, any other frequency like FM, and a
/// talkgroup like P25.
pub open spec fn sounds(route: RouteState, mode: Mode) -> bool {
    match mode {
        Mode::Am => route.conventional && route.am,
        Mode::Fm => route.conventional && !route.am,
        Mode::P25 => !route.conventional,
    }
}

/// A listener is served on one of the routes it listens on: with its own link
/// there and no better one elsewhere on the channel, in the sound of that route,
/// and across a patch exactly where it is not the route that was keyed. Of links
/// as good as each other the keyed route's own comes first.
pub proof fn a_listener_is_served_on_its_best_link(
    s: State,
    tg: u32,
    except: Option<ClientId>,
    client: ClientId,
    l: Listener,
)
    requires
        s.hears(tg, except, client) == Some(l),
    ensures
        exists|t: u32|
            {
                &&& #[trigger] s.joined(tg).contains(t)
                &&& s.listens(t, client)
                &&& l.quality == s.routes[t].members[client].quality
                &&& sounds(s.routes[t], l.mode)
                &&& l.bridged == (t != tg)
            },
        forall|t: u32| #[trigger]
            s.joined(tg).contains(t) && s.listens(t, client)
                ==> s.routes[t].members[client].quality <= l.quality,
        l.client == client,
        s.listens(tg, client) && s.routes[tg].members[client].quality == l.quality ==> !l.bridged,
{
    everybody_listening_hears_it_and_nobody_else(s, tg, except, client);
    let t = choose|t: u32| #[trigger]
        s.joined(tg).contains(t) && s.hears_on(tg, t, client) == Some(l);
    assert(s.listens(t, client));
    if s.listens(tg, client) && s.routes[tg].members[client].quality == l.quality {
        joined_is_the_connected_component(s.patches, tg);
        lemma_the_keyed_route_first(s, tg, s.joined(tg), client);
    }
}

proof fn lemma_the_keyed_route_first(s: State, tg: u32, group: Seq<u32>, client: ClientId)
    requires
        group.len() > 0,
        group[0] == tg,
        s.listens(tg, client),
    ensures
        s.hears_best(tg, group, client) matches Some(l) && l.quality
            >= s.routes[tg].members[client].quality && (l.bridged ==> l.quality
            > s.routes[tg].members[client].quality),
    decreases group.len(),
{
    let rest = group.drop_last();
    if rest.len() > 0 {
        assert(rest[0] == tg);
        lemma_the_keyed_route_first(s, tg, rest, client);
    } else {
        assert(s.hears_best(tg, rest, client) is None);
    }
}

/// A speaker's own hop is the route they keyed: its sound, and their own link on
/// it, or full quieting where it does not list them.
pub proof fn a_speakers_own_hop_is_the_route_they_keyed(s: State, tg: u32, speaker: ClientId)
    ensures
        ({
            let sink = s.source_sink(tg, speaker);
            &&& !sink.bridged
            &&& s.routes.contains_key(tg) ==> sounds(s.routes[tg], sink.mode)
            &&& s.routes.contains_key(tg) && s.routes[tg].members.contains_key(speaker)
                ==> sink.quality == s.routes[tg].members[speaker].quality
            &&& !(s.routes.contains_key(tg) && s.routes[tg].members.contains_key(speaker))
                ==> sink.quality == 100
        }),
{
}

// -- opening and closing ----------------------------------------------------

/// Opening a talkgroup says whether it is encrypted, and changes nothing else of
/// one that was known; a new one has nobody on it, and is no frequency. Opening a
/// frequency keeps who is on it and who holds it.
pub proof fn opening_keeps_who_is_there(s: State, tg: u32, encrypted: bool, am: bool, t: u32)
    ensures
        ({
            let after = s.opened(tg, encrypted);
            &&& after.routes.contains_key(tg)
            &&& after.routes[tg].encrypted == encrypted
            &&& s.routes.contains_key(tg) ==> after.routes[tg] == (RouteState {
                encrypted,
                ..s.routes[tg]
            })
            &&& !s.routes.contains_key(tg) ==> {
                &&& after.routes[tg].members.dom() == Set::<ClientId>::empty()
                &&& after.routes[tg].keyed is None
                &&& after.routes[tg].also.len() == 0
                &&& !after.routes[tg].conventional
            }
            &&& t != tg ==> after.routes.get(t) == s.routes.get(t)
            &&& after == (State { routes: after.routes, ..s })
        }),
        ({
            let after = s.opened_conventional(tg, am);
            &&& after.routes.contains_key(tg)
            &&& after.routes[tg].conventional && after.routes[tg].am == am
            &&& s.routes.contains_key(tg) ==> {
                &&& after.routes[tg].members == s.routes[tg].members
                &&& after.routes[tg].keyed == s.routes[tg].keyed
                &&& after.routes[tg].encrypted == s.routes[tg].encrypted
                &&& am ==> after.routes[tg].also == s.routes[tg].also
                &&& !am ==> after.routes[tg].also.len() == 0
            }
            &&& !s.routes.contains_key(tg) ==> {
                &&& after.routes[tg].members.dom() == Set::<ClientId>::empty()
                &&& after.routes[tg].keyed is None
                &&& !after.routes[tg].encrypted
            }
            &&& t != tg ==> after.routes.get(t) == s.routes.get(t)
            &&& after == (State { routes: after.routes, ..s })
        }),
        ({
            let after = s.closed(tg);
            &&& !after.routes.contains_key(tg)
            &&& t != tg ==> after.routes.get(t) == s.routes.get(t)
            &&& after == (State { routes: after.routes, ..s })
        }),
{
}

/// A route id with its top bit set is a frequency, in steps of 100 Hz; civil
/// airband, 108 up to 137 MHz, is AM. Nothing else is.
pub proof fn a_route_says_its_band(id: u32, steps: u32)
    requires
        steps < 0x8000_0000,
    ensures
        is_frequency(id) <==> id >= 0x8000_0000,
        is_airband((0x8000_0000 + steps) as u32) <==> 108_0000 <= steps < 137_0000,
        id < 0x8000_0000 ==> !is_airband(id),
{
}

// -- identities -------------------------------------------------------------

/// A name that begins with a number in brackets is that player's, and what
/// follows the brackets makes no difference; a name that does not is nobody's.
pub proof fn a_name_begins_with_its_players_number(n: u32, rest: Seq<char>)
    ensures
        crate::router::player_in(seq!['['] + crate::text::decimal_of(n as nat) + seq![']'] + rest)
            == Some(n as nat),
        rest.len() == 0 || rest[0] != '[' ==> crate::router::player_in(rest) is None,
{
    let digits = crate::text::decimal_of(n as nat);
    let name = seq!['['] + digits + seq![']'] + rest;
    crate::text::lemma_decimal_is_digits(n as nat);
    crate::text::decimal_reads_back(n as nat, u32::MAX as nat);
    let end = digits.len() as int + 1;
    assert(name[end] == ']');
    assert(name.contains(']'));
    name.index_of_first_ensures(']');
    let first = name.index_of_first(']')->0;
    assert(first == end) by {
        if first < end && first > 0 {
            assert(name[first] == digits[first - 1]);
            assert(crate::text::is_digit(digits[first - 1]));
        }
    }
    assert(name.subrange(1, end) =~= digits);
}

/// Binding a session says who it is, of its own server, and nothing else: every
/// other session and client is as it was, and so is every route.
pub proof fn binding_is_of_one_session(
    s: State,
    session: SessionId,
    player: u32,
    other: SessionId,
    c: ClientId,
)
    ensures
        ({
            let after = s.bound(session, player);
            let client = ClientId { server: session.server, player };
            &&& after.clients.get(session) == Some(client)
            &&& after.sessions.get(client) == Some(session)
            &&& other != session ==> after.clients.get(other) == s.clients.get(other)
            &&& c != client ==> after.sessions.get(c) == s.sessions.get(c)
            &&& after == (State { clients: after.clients, sessions: after.sessions, ..s })
        }),
        !s.clients.contains_key(session) ==> s.unbound(session) == s,
        s.clients.contains_key(session) ==> {
            let after = s.unbound(session);
            &&& !after.clients.contains_key(session)
            &&& !after.sessions.contains_key(s.clients[session])
            &&& other != session ==> after.clients.get(other) == s.clients.get(other)
            &&& c != s.clients[session] ==> after.sessions.get(c) == s.sessions.get(c)
            &&& after.patches == s.patches
        },
{
}

/// Consoles are the clients of server 0, and nobody else is one.
pub proof fn consoles_live_on_server_0(c: ClientId)
    ensures
        c.console() <==> c.server == 0,
{
}

// -- presses, in time -------------------------------------------------------

/// A dispatcher has four seconds to insist: a second press up to then takes the
/// channel from a unit, one later is refused again.
pub proof fn a_dispatcher_has_four_seconds_to_insist(
    s: State,
    tg: u32,
    unit: ClientId,
    console: ClientId,
    first: u64,
    second: u64,
)
    requires
        s.is_talkgroup(tg),
        s.held_by(tg, unit),
        console.server == 0,
        unit.server != 0,
        !s.pending.contains_key(Press { client: console, tg }),
        first <= second,
    ensures
        ({
            let refused = s.keyed_at(tg, console, first).0;
            &&& s.keyed_at(tg, console, first).1 is Err
            &&& refused.keyed_at(tg, console, second).1 is Ok <==> second - first <= 4_000_000_000
            &&& second - first <= 4_000_000_000 ==> refused.keyed_at(
                tg,
                console,
                second,
            ).0.held_by(tg, console)
            &&& second - first > 4_000_000_000 ==> refused.keyed_at(
                tg,
                console,
                second,
            ).0.held_by(tg, unit)
        }),
{
    dispatch_takes_a_channel_by_insisting(s, tg, unit, console, first, second);
}

/// A press on a route that nobody holds is granted and takes it; one on a route
/// that does not exist is refused, and changes nothing.
pub proof fn a_free_route_is_anybodys(s: State, tg: u32, client: ClientId, now: u64)
    ensures
        s.routes.contains_key(tg) && s.routes[tg].keyed is None ==> s.keyed_at(tg, client, now).1
            == Ok::<Keyed, Refusal>(Keyed::Granted) && s.keyed_at(tg, client, now).0.held_by(
            tg,
            client,
        ),
        !s.routes.contains_key(tg) ==> s.keyed_at(tg, client, now) == (
            s,
            Err::<Keyed, Refusal>(Refusal::NoSuchRoute),
        ),
{
    if s.routes.contains_key(tg) && s.routes[tg].keyed is None {
        let pressed = s.keyed_one(tg, client, now).0;
        lemma_key_each_keeps(pressed, s.patched_to(tg), client, now, tg, client);
    }
}

/// Clearing a route takes everybody off it, and touches nothing else: not who
/// listens, not another route.
pub proof fn clearing_is_of_one_route(s: State, tg: u32, t: u32, c: ClientId)
    ensures
        !s.unkeyed(tg).holds(tg, c),
        s.unkeyed(tg).talkers_on(tg).len() == 0,
        t != tg ==> s.unkeyed(tg).routes.get(t) == s.routes.get(t),
        s.unkeyed(tg).listens(t, c) == s.listens(t, c),
        s.unkeyed(tg) == (State { routes: s.unkeyed(tg).routes, ..s }),
{
}

/// There is a collision where two different clients transmit on one channel and
/// some member of it is AM, and nowhere else.
pub proof fn a_collision_takes_two_and_am(s: State, tg: u32)
    ensures
        s.am_collision(tg) <==> {
            &&& exists|t: u32| #[trigger]
                s.joined(tg).contains(t) && s.routes.contains_key(t) && s.routes[t].am
            &&& exists|a: ClientId, b: ClientId, t: u32, u: u32|
                a != b && #[trigger] s.joined(tg).contains(t) && #[trigger] s.joined(
                    tg,
                ).contains(u) && #[trigger] s.holds(t, a) && #[trigger] s.holds(u, b)
        },
{
    let group = s.joined(tg);
    if exists|a: ClientId, b: ClientId|
        a != b && #[trigger] s.transmits_on(group, a) && #[trigger] s.transmits_on(group, b) {
        let (a, b) = choose|a: ClientId, b: ClientId|
            a != b && #[trigger] s.transmits_on(group, a) && #[trigger] s.transmits_on(group, b);
        let t = choose|t: u32| #[trigger] group.contains(t) && s.holds(t, a);
        let u = choose|u: u32| #[trigger] group.contains(u) && s.holds(u, b);
        assert(s.joined(tg).contains(t) && s.joined(tg).contains(u) && s.holds(t, a) && s.holds(
            u,
            b,
        ));
    }
    if exists|a: ClientId, b: ClientId, t: u32, u: u32|
        a != b && #[trigger] s.joined(tg).contains(t) && #[trigger] s.joined(tg).contains(u)
            && #[trigger] s.holds(t, a) && #[trigger] s.holds(u, b) {
        let (a, b, t, u) = choose|a: ClientId, b: ClientId, t: u32, u: u32|
            a != b && #[trigger] s.joined(tg).contains(t) && #[trigger] s.joined(tg).contains(u)
                && #[trigger] s.holds(t, a) && #[trigger] s.holds(u, b);
        assert(group.contains(t) && s.holds(t, a));
        assert(group.contains(u) && s.holds(u, b));
        assert(s.transmits_on(group, a) && s.transmits_on(group, b));
    }
}

/// Who transmits on a route: the holder first, then whoever is mixed in, in the
/// order they came; and a client transmits there exactly where it is listed.
pub proof fn the_holder_is_listed_first(s: State, tg: u32, c: ClientId)
    ensures
        s.routes.contains_key(tg) && s.routes[tg].keyed is Some ==> s.talkers_on(tg)
            == seq![s.routes[tg].keyed->0] + s.routes[tg].also,
        s.routes.contains_key(tg) && s.routes[tg].keyed is None ==> s.talkers_on(tg)
            == s.routes[tg].also,
        !s.routes.contains_key(tg) ==> s.talkers_on(tg).len() == 0 && !s.holds(tg, c),
        s.routes.contains_key(tg) ==> (s.holds(tg, c) <==> s.routes[tg].keyed == Some(c)
            || s.routes[tg].also.contains(c)),
{
}

// -- what is counted --------------------------------------------------------

/// What a server is counted as: the sessions bound to its players, its clients on
/// any route, listening or not, and the routes its clients hold; of each, how
/// many.
pub proof fn a_server_is_counted_by_its_own(
    s: State,
    server: u32,
    session: SessionId,
    c: ClientId,
    t: u32,
)
    ensures
        s.bound_on(server).contains(session) <==> s.clients.contains_key(session)
            && s.clients[session].server == server,
        s.affiliated_on(server).contains(c) <==> c.server == server && exists|t: u32| #[trigger]
            s.routes.contains_key(t) && s.routes[t].members.contains_key(c),
        s.keying_on(server).contains(t) <==> s.routes.contains_key(t) && s.routes[t].keyed is Some
            && s.routes[t].keyed->0.server == server,
        s.counts_of(server).0 == s.bound_on(server).len(),
        s.counts_of(server).1 == s.affiliated_on(server).len(),
        s.counts_of(server).2 == s.keying_on(server).len(),
        s.keyed_routes().contains(t) <==> s.routes.contains_key(t) && s.routes[t].keyed is Some,
{
}

/// What is said of a node in one line: how many routes it has, how many of them
/// somebody holds, and how many voice connections have a name.
pub proof fn a_node_is_summed_up_in_one_line(s: State)
    ensures
        ({
            let held = Set::new(
                |t: u32| s.routes.contains_key(t) && s.routes[t].keyed is Some,
            );
            s.summary() == decimal_of(s.routes.dom().len()) + " routes ("@ + decimal_of(held.len())
                + " keyed), "@ + decimal_of(s.clients.dom().len()) + " identities bound"@
        }),
{
    let held = Set::new(|t: u32| s.routes.contains_key(t) && s.routes[t].keyed is Some);
    assert(held =~= s.keyed_routes());
}

/// The words a press is refused in.
pub proof fn a_refusal_is_in_plain_words()
    ensures
        Refusal::NoSuchRoute.text() == "no such route"@,
        Refusal::Busy.text() == "busy - key again to take the channel"@,
        Refusal::DispatchTransmitting.text() == "dispatch is transmitting"@,
        Refusal::AlreadyKeyed.text() == "route already keyed"@,
{
}

/// A session that says a player's number in front of its name is that player's,
/// of its own server, and is found by them from then on. One that does not is
/// nobody's.
pub proof fn a_session_is_whose_name_it_bears(
    s: State,
    session: SessionId,
    player: u32,
    rest: Seq<char>,
)
    ensures
        ({
            let name = seq!['['] + decimal_of(player as nat) + seq![']'] + rest;
            let client = ClientId { server: session.server, player };
            let (after, whose) = crate::router::introduced(s, session, name);
            &&& whose == Some(client)
            &&& after.clients.get(session) == Some(client)
            &&& after.sessions.get(client) == Some(session)
            &&& after.routes == s.routes
        }),
        rest.len() == 0 || rest[0] != '[' ==> crate::router::introduced(s, session, rest) == (
            s,
            None::<ClientId>,
        ),
{
    a_name_begins_with_its_players_number(player, rest);
}

/// A release says that it released something if there was a route the client
/// was up on and is not any more, and that it did not if there was none.
pub proof fn a_release_says_whether_it_released(s: State, tg: u32, client: ClientId)
    ensures
        s.releases(tg, client) <==> exists|t: u32|
            s.holds(t, client) && !#[trigger] s.unkeyed_as(tg, client).holds(t, client),
{
    let after = s.unkeyed_as(tg, client);
    assert forall|t: u32| #[trigger] after.holds(t, client) == (s.holds(t, client) && !s.to_release(
        tg,
        client,
    ).contains(t)) by {
        if s.routes.contains_key(t) {
            lemma_dropping(s.routes[t].also, client);
        }
    }
    if s.releases(tg, client) {
        let t = choose|t: u32| #[trigger]
            s.to_release(tg, client).contains(t) && s.holds(t, client);
        assert(s.holds(t, client) && !after.holds(t, client));
    }
    if exists|t: u32| s.holds(t, client) && !#[trigger] after.holds(t, client) {
        let t = choose|t: u32| s.holds(t, client) && !#[trigger] after.holds(t, client);
        assert(s.to_release(tg, client).contains(t) && s.holds(t, client));
    }
}

/// What a press is answered is what was decided: the same outcome, or the
/// refusal in its own words.
pub proof fn an_answer_is_what_was_decided(
    r: Result<Keyed, &'static str>,
    decided: Result<Keyed, Refusal>,
)
    requires
        crate::router::answers(r, decided),
    ensures
        decided is Ok ==> r is Ok && r->Ok_0 == decided->Ok_0,
        decided is Err ==> r is Err,
        decided == Err::<Keyed, Refusal>(Refusal::NoSuchRoute) ==> r->Err_0@ == "no such route"@,
        decided == Err::<Keyed, Refusal>(Refusal::Busy) ==> r->Err_0@
            == "busy - key again to take the channel"@,
        decided == Err::<Keyed, Refusal>(Refusal::DispatchTransmitting) ==> r->Err_0@
            == "dispatch is transmitting"@,
        decided == Err::<Keyed, Refusal>(Refusal::AlreadyKeyed) ==> r->Err_0@
            == "route already keyed"@,
{
}

/// A name without a number in brackets in front is no player's, and neither is
/// one whose brackets are not closed or hold something else.
pub proof fn a_name_without_a_number_is_nobodys(inside: Seq<char>, rest: Seq<char>)
    requires
        !inside.contains(']'),
    ensures
        crate::router::player_in(seq!['['] + inside) is None,
        crate::text::number_in(inside, 4294967295) is None ==> crate::router::player_in(
            seq!['['] + inside + seq![']'] + rest,
        ) is None,
{
    let open = seq!['['] + inside;
    let closed = open + seq![']'] + rest;
    assert(!open.contains(']')) by {
        if open.contains(']') {
            let i = choose|i: int| 0 <= i < open.len() && open[i] == ']';
            assert(inside[i - 1] == ']');
        }
    }
    let end = inside.len() as int + 1;
    assert(closed[end] == ']');
    assert(closed.contains(']'));
    closed.index_of_first_ensures(']');
    let first = closed.index_of_first(']')->0;
    assert(first == end) by {
        if 0 < first < end {
            assert(closed[first] == inside[first - 1]);
            assert(inside.contains(inside[first - 1]));
        }
    }
    assert(closed.subrange(1, end) =~= inside);
}

/// A client is written as its server and its player, so that no two are written
/// the same.
pub proof fn a_client_is_written_as_server_and_player(a: ClientId, b: ClientId)
    ensures
        a.words() == seq!['s'] + decimal_of(a.server as nat) + seq!['/', 'p'] + decimal_of(
            a.player as nat,
        ),
        a.words() == b.words() ==> a == b,
{
    reveal_strlit("s");
    reveal_strlit("/p");
    assert("s"@ =~= seq!['s']);
    assert("/p"@ =~= seq!['/', 'p']);
    if a.words() == b.words() {
        let sa = decimal_of(a.server as nat);
        let sb = decimal_of(b.server as nat);
        let pa = decimal_of(a.player as nat);
        let pb = decimal_of(b.player as nat);
        crate::text::lemma_decimal_is_digits(a.server as nat);
        crate::text::lemma_decimal_is_digits(b.server as nat);
        crate::text::lemma_decimal_is_digits(a.player as nat);
        crate::text::lemma_decimal_is_digits(b.player as nat);
        let w = a.words();
        if sa.len() < sb.len() {
            assert(w[1 + sa.len() as int] == '/');
            assert(w[1 + sa.len() as int] == sb[sa.len() as int]);
            assert(crate::text::is_digit(sb[sa.len() as int]));
        } else if sb.len() < sa.len() {
            assert(w[1 + sb.len() as int] == '/');
            assert(w[1 + sb.len() as int] == sa[sb.len() as int]);
            assert(crate::text::is_digit(sa[sb.len() as int]));
        }
        let n = sa.len() as int;
        assert(sa =~= w.subrange(1, 1 + n));
        assert(sb =~= w.subrange(1, 1 + n));
        assert(pa =~= w.skip(3 + n));
        assert(pb =~= w.skip(3 + n));
    }
}

// -- what stays as it was ---------------------------------------------------

/// A route is there in both states or in neither, of the same kind and with the
/// same members.
pub open spec fn same_but_for_talkers(a: State, b: State, t: u32) -> bool {
    &&& a.routes.contains_key(t) <==> b.routes.contains_key(t)
    &&& a.routes.contains_key(t) ==> a.routes[t] == (RouteState {
        keyed: a.routes[t].keyed,
        also: a.routes[t].also,
        ..b.routes[t]
    })
}

/// Identities, patches and the clock are the same in both states.
pub open spec fn same_surroundings(a: State, b: State) -> bool {
    a.clients == b.clients && a.sessions == b.sessions && a.patches == b.patches && a.latest
        == b.latest
}

proof fn lemma_keyed_one_is_of_one_route(s: State, tg: u32, client: ClientId, now: u64, t: u32, p: Press)
    ensures
        ({
            let after = s.keyed_one(tg, client, now).0;
            &&& same_but_for_talkers(after, s, t)
            &&& t != tg ==> after.routes.get(t) == s.routes.get(t)
            &&& p != (Press { client, tg }) ==> after.pending.get(p) == s.pending.get(p)
        }),
{
}

proof fn lemma_keyed_each_is_of_those_routes(
    s: State,
    others: Seq<u32>,
    client: ClientId,
    now: u64,
    t: u32,
    p: Press,
)
    ensures
        ({
            let after = s.keyed_each(others, client, now);
            &&& same_but_for_talkers(after, s, t)
            &&& !others.contains(t) ==> after.routes.get(t) == s.routes.get(t)
            &&& p.client != client || !others.contains(p.tg) ==> after.pending.get(p)
                == s.pending.get(p)
        }),
    decreases others.len(),
{
    if others.len() > 0 {
        let rest = others.drop_last();
        lemma_keyed_each_is_of_those_routes(s, rest, client, now, t, p);
        lemma_keyed_one_is_of_one_route(
            s.keyed_each(rest, client, now),
            others.last(),
            client,
            now,
            t,
            p,
        );
        assert(others =~= rest.push(others.last()));
        lemma_push_contains(rest, others.last());
    }
}

/// A press is about the channel that is pressed and about who presses: routes
/// that are not patched to it keep whoever is up on them, and no route changes
/// in kind or in members. What others keyed, took or were refused stays.
pub proof fn a_press_is_about_one_channel(
    s: State,
    tg: u32,
    client: ClientId,
    now: u64,
    t: u32,
    c: ClientId,
    p: Press,
)
    ensures
        ({
            let after = s.keyed_at(tg, client, now).0;
            &&& same_surroundings(after, s)
            &&& same_but_for_talkers(after, s, t)
            &&& !s.joined(tg).contains(t) ==> after.routes.get(t) == s.routes.get(t)
            &&& c != client ==> after.keyed_by.get(c) == s.keyed_by.get(c)
            &&& p != (Press { client, tg }) ==> after.took.get(p) == s.took.get(p)
            &&& p.client != client || !s.joined(tg).contains(p.tg) ==> after.pending.get(p)
                == s.pending.get(p)
        }),
{
    let others = s.patched_to(tg);
    joined_is_the_connected_component(s.patches, tg);
    lemma_filter_contains(s.joined(tg), other_route(tg));
    assert(s.joined(tg).contains(tg));
    let (pressed, outcome) = s.keyed_one(tg, client, now);
    lemma_keyed_one_is_of_one_route(s, tg, client, now, t, p);
    if let Ok(keyed) = outcome {
        let shared = match keyed {
            Keyed::Preempted(holder) => pressed.handed_over(others, holder, client),
            _ => pressed,
        };
        assert(same_but_for_talkers(shared, pressed, t));
        lemma_keyed_each_is_of_those_routes(shared, others, client, now, t, p);
        crate::routing::lemma_presses_change_routes_alone(shared, others, client, now);
    }
}

/// A release is about what the client took with that press, and about nobody
/// else's key.
pub proof fn a_release_is_about_one_press(
    s: State,
    tg: u32,
    client: ClientId,
    t: u32,
    c: ClientId,
    p: Press,
)
    ensures
        ({
            let after = s.unkeyed_as(tg, client);
            &&& same_surroundings(after, s)
            &&& after.pending == s.pending
            &&& same_but_for_talkers(after, s, t)
            &&& !s.to_release(tg, client).contains(t) ==> after.routes.get(t) == s.routes.get(t)
            &&& after.keyed_by.get(c) == (if c == client {
                None
            } else {
                s.keyed_by.get(c)
            })
            &&& after.took.get(p) == (if p == (Press { client, tg }) {
                None
            } else {
                s.took.get(p)
            })
        }),
        s.took.contains_key(Press { client, tg }) ==> s.to_release(tg, client) == s.took[Press {
            client,
            tg,
        }],
        !s.took.contains_key(Press { client, tg }) ==> s.to_release(tg, client) == s.joined(tg),
{
}

/// Taking everybody off a route ends their presses on it, and gives back what
/// each took with it. No other press is ended, and nobody else is taken off
/// anything.
pub proof fn taking_everybody_off_ends_their_presses(
    s: State,
    tg: u32,
    t: u32,
    c: ClientId,
    p: Press,
)
    ensures
        ({
            let after = s.all_unkeyed(tg);
            &&& same_surroundings(after, s)
            &&& after.pending == s.pending
            &&& same_but_for_talkers(after, s, t)
            &&& !after.holds(tg, c)
            &&& p.tg == tg && s.holds(tg, p.client) ==> !after.took.contains_key(p)
            &&& p.tg != tg || !s.holds(tg, p.client) ==> after.took.get(p) == s.took.get(p)
            &&& t != tg && !s.holds(tg, c) ==> after.holds(t, c) == s.holds(t, c)
            &&& t != tg && s.took.contains_key(Press { client: c, tg }) && s.holds(tg, c)
                && s.took[Press { client: c, tg }].contains(t) ==> !after.holds(t, c)
        }),
{
    let talkers = s.talkers_on(tg);
    lemma_talkers_hold(s, tg, c);
    lemma_talkers_hold(s, tg, p.client);
    lemma_presses_ended_frame(s, tg, talkers, t, c, p);
    let mid = s.presses_ended(tg, talkers);
    lemma_presses_ended_frame(s, tg, talkers, tg, c, p);
    assert(mid.routes.contains_key(tg) == s.routes.contains_key(tg));
}

proof fn lemma_talkers_hold(s: State, tg: u32, c: ClientId)
    ensures
        s.talkers_on(tg).contains(c) <==> s.holds(tg, c),
{
    if s.routes.contains_key(tg) {
        let route = s.routes[tg];
        if let Some(holder) = route.keyed {
            let list = seq![holder] + route.also;
            if route.also.contains(c) {
                let i = choose|i: int| 0 <= i < route.also.len() && route.also[i] == c;
                assert(list[i + 1] == c);
            }
            if list.contains(c) && c != holder {
                let i = choose|i: int| 0 <= i < list.len() && list[i] == c;
                assert(route.also[i - 1] == c);
            }
            assert(list[0] == holder);
        }
    }
}

proof fn lemma_presses_ended_frame(
    s: State,
    tg: u32,
    clients: Seq<ClientId>,
    t: u32,
    c: ClientId,
    p: Press,
)
    ensures
        ({
            let after = s.presses_ended(tg, clients);
            let press = Press { client: c, tg };
            &&& same_surroundings(after, s)
            &&& after.pending == s.pending
            &&& after.keyed_by == s.keyed_by
            &&& same_but_for_talkers(after, s, t)
            &&& p.tg == tg && clients.contains(p.client) ==> !after.took.contains_key(p)
            &&& p.tg != tg || !clients.contains(p.client) ==> after.took.get(p) == s.took.get(p)
            &&& !clients.contains(c) ==> after.holds(t, c) == s.holds(t, c)
            &&& clients.contains(c) && s.took.contains_key(press) && s.took[press].contains(t)
                ==> !after.holds(t, c)
            &&& !s.holds(t, c) ==> !after.holds(t, c)
        }),
    decreases clients.len(),
{
    if clients.len() > 0 {
        let rest = clients.drop_last();
        let last = clients.last();
        assert(clients =~= rest.push(last));
        lemma_push_contains(rest, last);
        lemma_presses_ended_frame(s, tg, rest, t, c, p);
        lemma_presses_ended_frame(s, tg, rest, t, c, Press { client: c, tg });
        let mid = s.presses_ended(tg, rest);
        if mid.routes.contains_key(t) {
            lemma_dropping(mid.routes[t].also, last);
        }
    }
}

/// Somebody who leaves takes nothing but their own along: their places, their
/// keys and what they took. Re-subscribing takes their places alone, and a lost
/// connection their keys alone.
pub proof fn leaving_is_about_one_client(
    s: State,
    client: ClientId,
    t: u32,
    c: ClientId,
    p: Press,
)
    ensures
        ({
            let gone = s.forgotten(client);
            let quiet = s.silenced(client);
            let off = s.membership_forgotten(client);
            &&& same_surroundings(gone, s) && same_surroundings(quiet, s) && same_surroundings(
                off,
                s,
            )
            &&& gone.pending == s.pending && quiet.pending == s.pending
            &&& off == (State { routes: off.routes, ..s })
            &&& same_but_for_talkers(quiet, s, t)
            &&& gone.routes.dom() == s.routes.dom() && off.routes.dom() == s.routes.dom()
            &&& s.routes.contains_key(t) ==> {
                &&& gone.routes[t].encrypted == s.routes[t].encrypted
                &&& gone.routes[t].conventional == s.routes[t].conventional
                &&& gone.routes[t].am == s.routes[t].am
                &&& gone.routes[t].members.get(c) == (if c == client {
                    None
                } else {
                    s.routes[t].members.get(c)
                })
                &&& off.routes[t] == (RouteState { members: off.routes[t].members, ..s.routes[t] })
                &&& off.routes[t].members == gone.routes[t].members
            }
            &&& gone.keyed_by.get(c) == (if c == client {
                None
            } else {
                s.keyed_by.get(c)
            })
            &&& quiet.keyed_by == gone.keyed_by
            &&& gone.took.get(p) == (if p.client == client {
                None
            } else {
                s.took.get(p)
            })
            &&& quiet.took == gone.took
        }),
{
    let gone = s.forgotten(client);
    assert(gone.routes.dom() =~= s.routes.dom());
    assert(s.membership_forgotten(client).routes.dom() =~= s.routes.dom());
    assert(s.silenced(client).took =~= gone.took);
}

/// A server that goes takes nothing but its own along.
pub proof fn a_server_takes_its_own_along(
    s: State,
    server: u32,
    t: u32,
    c: ClientId,
    session: SessionId,
    p: Press,
)
    ensures
        ({
            let after = s.server_dropped(server);
            &&& after.patches == s.patches && after.latest == s.latest && after.pending == s.pending
            &&& after.routes.dom() == s.routes.dom()
            &&& s.routes.contains_key(t) ==> {
                &&& after.routes[t].encrypted == s.routes[t].encrypted
                &&& after.routes[t].conventional == s.routes[t].conventional
                &&& after.routes[t].am == s.routes[t].am
                &&& after.routes[t].members.get(c) == (if c.server == server {
                    None
                } else {
                    s.routes[t].members.get(c)
                })
            }
            &&& after.clients.get(session) == (if session.server == server {
                None
            } else {
                s.clients.get(session)
            })
            &&& after.sessions.get(c) == (if c.server == server {
                None
            } else {
                s.sessions.get(c)
            })
            &&& after.keyed_by.get(c) == (if c.server == server {
                None
            } else {
                s.keyed_by.get(c)
            })
            &&& after.took.get(p) == (if p.client.server == server {
                None
            } else {
                s.took.get(p)
            })
        }),
{
    assert(s.server_dropped(server).routes.dom() =~= s.routes.dom());
}

} // verus!

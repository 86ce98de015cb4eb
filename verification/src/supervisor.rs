//! Keeping the taps in step with the server list.
//!
//! The server list is not read once at boot. Servers are added and removed
//! while a node runs, and every pass attaches what is new and detaches what is
//! gone. A server whose host or port CHANGED counts as gone and then new:
//! reconnecting forever to an address that no longer serves it is the failure
//! that looks most like working.

use crate::seqs::lemma_push_contains;
use crate::servers::{servers_of, Server, ServerState};
use crate::table::Table;
use crate::text::same_text;
use vstd::prelude::*;

verus! {

/// Where a tap connects.
pub struct Address {
    pub host: String,
    pub port: u16,
}

impl Address {
    pub open spec fn view(&self) -> (Seq<char>, u16) {
        (self.host@, self.port)
    }

    fn same(&self, other: &Address) -> (b: bool)
        ensures
            b == (self.view() == other.view()),
    {
        same_text(self.host.as_str(), other.host.as_str()) && self.port == other.port
    }

    fn copy(&self) -> (a: Address)
        ensures
            a.view() == self.view(),
    {
        Address { host: self.host.clone(), port: self.port }
    }
}

/// Where each listed server is: of two with one id, the later.
pub open spec fn wanted(list: Seq<ServerState>) -> Map<u32, (Seq<char>, u16)>
    decreases list.len(),
{
    if list.len() == 0 {
        Map::empty()
    } else {
        let s = list.last();
        wanted(list.drop_last()).insert(s.id, (s.host, s.port))
    }
}

pub open spec fn addresses(m: Map<u32, Address>) -> Map<u32, (Seq<char>, u16)> {
    m.map_values(|a: Address| a.view())
}

/// A tap to bring up.
pub struct Attach {
    pub id: u32,
    pub address: Address,
}

/// One pass: what to take down, and then what to bring up.
pub struct Pass {
    pub detach: Vec<u32>,
    pub attach: Vec<Attach>,
}

/// A tap is stale when its server is gone, or moved.
pub open spec fn is_stale(
    known: Map<u32, (Seq<char>, u16)>,
    want: Map<u32, (Seq<char>, u16)>,
    id: u32,
) -> bool {
    known.contains_key(id) && want.get(id) != known.get(id)
}

/// A server needs a tap when it has none, or the one it has is stale.
pub open spec fn needs_tap(
    known: Map<u32, (Seq<char>, u16)>,
    want: Map<u32, (Seq<char>, u16)>,
    id: u32,
) -> bool {
    want.contains_key(id) && want.get(id) != known.get(id)
}

/// What a pass does to the taps: it takes down what is stale and brings up what
/// is missing, each once, and from then on the taps are where the list says.
pub open spec fn is_pass(
    known: Map<u32, (Seq<char>, u16)>,
    want: Map<u32, (Seq<char>, u16)>,
    pass: Pass,
    after: Map<u32, (Seq<char>, u16)>,
) -> bool {
    &&& after == want
    &&& pass.detach@.no_duplicates()
    &&& forall|id: u32| #[trigger] pass.detach@.contains(id) <==> is_stale(known, want, id)
    &&& forall|i: int, j: int|
        0 <= i < j < pass.attach@.len() ==> (#[trigger] pass.attach@[i]).id != (
        #[trigger] pass.attach@[j]).id
    &&& forall|i: int|
        0 <= i < pass.attach@.len() ==> needs_tap(known, want, (#[trigger] pass.attach@[i]).id)
            && pass.attach@[i].address.view() == want[pass.attach@[i].id]
    &&& forall|id: u32| #[trigger]
        needs_tap(known, want, id) ==> exists|i: int|
            0 <= i < pass.attach@.len() && (#[trigger] pass.attach@[i]).id == id
}

/// A pass leaves a tap to every listed server, where the last word on it says,
/// and to nobody else: taking down what it says to and bringing up what it says
/// to, from where the taps were, comes to that.
pub proof fn a_pass_leaves_what_is_listed(
    known: Map<u32, (Seq<char>, u16)>,
    list: Seq<ServerState>,
    pass: Pass,
    after: Map<u32, (Seq<char>, u16)>,
    id: u32,
    i: int,
)
    requires
        is_pass(known, wanted(list), pass, after),
    ensures
        after == wanted(list),
        pass.detach@.contains(id) ==> known.contains_key(id),
        // What was up and is not taken down stays up where it was.
        known.contains_key(id) && !pass.detach@.contains(id) ==> after.get(id) == known.get(id),
        // What is taken down and not brought up is not listed.
        pass.detach@.contains(id) && (forall|j: int|
            0 <= j < pass.attach@.len() ==> (#[trigger] pass.attach@[j]).id != id)
            ==> !after.contains_key(id),
        // What is brought up is where the list says, and was not up, or was taken
        // down.
        0 <= i < pass.attach@.len() ==> after.get(pass.attach@[i].id) == Some(
            (pass.attach@[i].address.host@, pass.attach@[i].address.port),
        ) && (!known.contains_key(pass.attach@[i].id) || pass.detach@.contains(
            pass.attach@[i].id,
        )),
        // What is listed and was not up is brought up.
        after.contains_key(id) && !known.contains_key(id) ==> exists|j: int|
            0 <= j < pass.attach@.len() && (#[trigger] pass.attach@[j]).id == id,
{
    let want = wanted(list);
    if known.contains_key(id) && !pass.detach@.contains(id) {
        assert(!is_stale(known, want, id));
    }
    if pass.detach@.contains(id) {
        assert(is_stale(known, want, id));
    }
    if want.contains_key(id) && want.get(id) != known.get(id) {
        assert(needs_tap(known, want, id));
    }
    if 0 <= i < pass.attach@.len() {
        let at = pass.attach@[i].id;
        assert(needs_tap(known, want, at));
        if known.contains_key(at) {
            assert(is_stale(known, want, at));
        }
    }
}

/// The taps that are up, and where each was pointed.
pub struct Supervisor {
    known: Table<u32, Address>,
}

impl View for Supervisor {
    type V = Map<u32, (Seq<char>, u16)>;

    closed spec fn view(&self) -> Map<u32, (Seq<char>, u16)> {
        addresses(self.known@)
    }
}

impl Default for Supervisor {
    fn default() -> (s: Self)
        ensures
            s@ == Map::<u32, (Seq<char>, u16)>::empty(),
    {
        let s = Supervisor { known: Table::new() };
        assert(s@ =~= Map::<u32, (Seq<char>, u16)>::empty());
        s
    }
}

fn want_of(list: &Vec<Server>) -> (out: Table<u32, Address>)
    ensures
        addresses(out@) == wanted(servers_of(list@)),
{
    let ghost all = servers_of(list@);
    let mut out: Table<u32, Address> = Table::new();
    let mut i: usize = 0;
    assert(addresses(out@) =~= Map::empty());
    while i < list.len()
        invariant
            i <= list.len(),
            all == servers_of(list@),
            addresses(out@) == wanted(all.take(i as int)),
        decreases list.len() - i,
    {
        assert(all.take(i as int + 1).drop_last() =~= all.take(i as int));
        let ghost before = out@;
        let address = Address { host: list[i].host.clone(), port: list[i].port };
        out.insert(list[i].id, address);
        assert(addresses(out@) =~= addresses(before).insert(list@[i as int].id, address.view()));
        i += 1;
    }
    assert(all.take(i as int) =~= all);
    out
}

impl Supervisor {
    /// The ids that have a tap, each once.
    pub fn attached(&self) -> (ids: Vec<u32>)
        ensures
            ids@.no_duplicates(),
            forall|id: u32| #[trigger] ids@.contains(id) <==> self@.contains_key(id),
    {
        let ids = self.known.keys();
        assert forall|id: u32| #[trigger] ids@.contains(id) <==> self@.contains_key(id) by {
        }
        ids
    }

    /// Reconciles the taps against a server list.
    pub fn reconcile(&mut self, list: &Vec<Server>) -> (pass: Pass)
        ensures
            is_pass(old(self)@, wanted(servers_of(list@)), pass, final(self)@),
            final(self)@ == wanted(servers_of(list@)),
            pass.detach@.no_duplicates(),
            forall|id: u32| #[trigger]
                pass.detach@.contains(id) <==> is_stale(
                    old(self)@,
                    wanted(servers_of(list@)),
                    id,
                ),
            forall|i: int, j: int|
                0 <= i < j < pass.attach@.len() ==> (#[trigger] pass.attach@[i]).id != (
                #[trigger] pass.attach@[j]).id,
            forall|i: int|
                0 <= i < pass.attach@.len() ==> {
                    &&& needs_tap(
                        old(self)@,
                        wanted(servers_of(list@)),
                        (#[trigger] pass.attach@[i]).id,
                    )
                    &&& pass.attach@[i].address.view() == wanted(
                        servers_of(list@),
                    )[pass.attach@[i].id]
                },
            forall|id: u32| #[trigger]
                needs_tap(old(self)@, wanted(servers_of(list@)), id) ==> exists|i: int|
                    0 <= i < pass.attach@.len() && (#[trigger] pass.attach@[i]).id == id,
    {
        let want = want_of(list);
        let ghost wish = addresses(want@);
        let ghost had = self@;
        let detach = self.stale(&want);
        let ids = want.keys();
        let mut attach: Vec<Attach> = Vec::new();
        let mut i: usize = 0;
        while i < ids.len()
            invariant
                i <= ids.len(),
                self@ == had,
                wish == addresses(want@),
                ids@.no_duplicates(),
                forall|id: u32| #[trigger] ids@.contains(id) <==> want@.contains_key(id),
                forall|a: int, b: int|
                    0 <= a < b < attach@.len() ==> (#[trigger] attach@[a]).id != (
                    #[trigger] attach@[b]).id,
                forall|a: int|
                    0 <= a < attach@.len() ==> {
                        &&& needs_tap(had, wish, (#[trigger] attach@[a]).id)
                        &&& attach@[a].address.view() == wish[attach@[a].id]
                        &&& ids@.take(i as int).contains(attach@[a].id)
                    },
                forall|j: int|
                    0 <= j < i && needs_tap(had, wish, #[trigger] ids@[j]) ==> exists|a: int|
                        0 <= a < attach@.len() && (#[trigger] attach@[a]).id == ids@[j],
            decreases ids.len() - i,
        {
            let id: u32 = ids[i];
            let ghost before = attach@;
            proof {
                let upto = ids@.take(i as int);
                assert(ids@.take(i as int + 1) =~= upto.push(id));
                lemma_push_contains(upto, id);
                assert(ids@.contains(id));
                assert(!upto.contains(id)) by {
                    if upto.contains(id) {
                        let j = choose|j: int| 0 <= j < upto.len() && upto[j] == id;
                        assert(ids@[j] == ids@[i as int]);
                    }
                }
            }
            if let Some(address) = want.get(&id) {
                let same = match self.known.get(&id) {
                    Some(have) => have.same(address),
                    None => false,
                };
                assert(same == !needs_tap(had, wish, id));
                if !same {
                    attach.push(Attach { id, address: address.copy() });
                    assert(attach@[before.len() as int].id == id);
                }
            }
            proof {
                assert forall|j: int| 0 <= j < i + 1 && needs_tap(had, wish, #[trigger] ids@[j])
                    implies exists|a: int|
                    0 <= a < attach@.len() && (#[trigger] attach@[a]).id == ids@[j] by {
                    if j < i {
                        let a = choose|a: int|
                            0 <= a < before.len() && (#[trigger] before[a]).id == ids@[j];
                        assert(attach@[a].id == ids@[j]);
                    }
                }
            }
            i += 1;
        }
        proof {
            assert forall|id: u32| #[trigger] needs_tap(had, wish, id) implies exists|a: int|
                0 <= a < attach@.len() && (#[trigger] attach@[a]).id == id by {
                assert(ids@.contains(id));
                let j = choose|j: int| 0 <= j < ids@.len() && ids@[j] == id;
                assert(needs_tap(had, wish, ids@[j]));
            }
        }
        self.known = want;
        let ghost up = attach@;
        let pass = Pass { detach, attach };
        proof {
            assert forall|id: u32| #[trigger] needs_tap(old(self)@, wanted(servers_of(list@)), id)
                implies exists|a: int|
                0 <= a < pass.attach@.len() && (#[trigger] pass.attach@[a]).id == id by {
                assert(needs_tap(had, wish, id));
                let a = choose|a: int| 0 <= a < up.len() && (#[trigger] up[a]).id == id;
                assert(pass.attach@[a].id == id);
            }
        }
        pass
    }

    fn stale(&self, want: &Table<u32, Address>) -> (out: Vec<u32>)
        ensures
            out@.no_duplicates(),
            forall|id: u32| #[trigger]
                out@.contains(id) <==> is_stale(self@, addresses(want@), id),
    {
        let ids = self.known.keys();
        let mut out: Vec<u32> = Vec::new();
        let mut i: usize = 0;
        while i < ids.len()
            invariant
                i <= ids.len(),
                ids@.no_duplicates(),
                forall|id: u32| #[trigger] ids@.contains(id) <==> self.known@.contains_key(id),
                out@.no_duplicates(),
                forall|id: u32| #[trigger]
                    out@.contains(id) <==> ids@.take(i as int).contains(id) && is_stale(
                        self@,
                        addresses(want@),
                        id,
                    ),
            decreases ids.len() - i,
        {
            let id: u32 = ids[i];
            proof {
                let upto = ids@.take(i as int);
                assert(ids@.take(i as int + 1) =~= upto.push(id));
                lemma_push_contains(upto, id);
                lemma_push_contains(out@, id);
                assert(ids@.contains(id));
                assert(!upto.contains(id)) by {
                    if upto.contains(id) {
                        let j = choose|j: int| 0 <= j < upto.len() && upto[j] == id;
                        assert(ids@[j] == ids@[i as int]);
                    }
                }
                assert(!out@.contains(id));
            }
            let same = match (self.known.get(&id), want.get(&id)) {
                (Some(have), Some(wanted)) => have.same(wanted),
                _ => false,
            };
            assert(same == !is_stale(self@, addresses(want@), id));
            if !same {
                out.push(id);
                assert(out@.no_duplicates());
            }
            i += 1;
        }
        assert(ids@.take(i as int) =~= ids@);
        out
    }
}

/// A server that neither moved nor went away keeps its tap: a pass takes down
/// and brings up nothing of it.
pub proof fn an_unchanged_server_keeps_its_tap(
    known: Map<u32, (Seq<char>, u16)>,
    want: Map<u32, (Seq<char>, u16)>,
    id: u32,
)
    requires
        known.contains_key(id),
        want.get(id) == known.get(id),
    ensures
        !is_stale(known, want, id),
        !needs_tap(known, want, id),
{
}

/// A server that moved is gone and then new.
pub proof fn a_server_that_moved_is_detached_and_attached(
    known: Map<u32, (Seq<char>, u16)>,
    want: Map<u32, (Seq<char>, u16)>,
    id: u32,
)
    requires
        known.contains_key(id),
        want.contains_key(id),
        known[id] != want[id],
    ensures
        is_stale(known, want, id),
        needs_tap(known, want, id),
{
}

/// A pass against the list already in force detaches nobody and attaches
/// nobody.
pub proof fn the_same_list_changes_nothing(list: Seq<ServerState>, id: u32)
    ensures
        !is_stale(wanted(list), wanted(list), id),
        !needs_tap(wanted(list), wanted(list), id),
{
}

/// A listed server is where the last word on it says, and one that is not listed
/// is nowhere.
pub proof fn the_last_word_on_a_server_counts(list: Seq<ServerState>, i: int, id: u32)
    ensures
        0 <= i < list.len() && list[i].id == id && (forall|j: int|
            i < j < list.len() ==> (#[trigger] list[j]).id != id) ==> wanted(list).get(id) == Some(
            (list[i].host, list[i].port),
        ),
        (forall|j: int| 0 <= j < list.len() ==> (#[trigger] list[j]).id != id) ==> wanted(
            list,
        ).get(id) is None,
    decreases list.len(),
{
    if list.len() > 0 {
        let rest = list.drop_last();
        the_last_word_on_a_server_counts(rest, i, id);
        assert(list[list.len() - 1] == list.last());
        if 0 <= i {
            assert((forall|j: int| i < j < list.len() ==> (#[trigger] list[j]).id != id)
                ==> (forall|j: int| i < j < rest.len() ==> (#[trigger] rest[j]).id != id)) by {
                assert(forall|j: int| 0 <= j < rest.len() ==> #[trigger] rest[j] == list[j]);
            }
        }
        assert((forall|j: int| 0 <= j < list.len() ==> (#[trigger] list[j]).id != id) ==> (forall|
            j: int,
        |
            0 <= j < rest.len() ==> (#[trigger] rest[j]).id != id)) by {
            assert(forall|j: int| 0 <= j < rest.len() ==> #[trigger] rest[j] == list[j]);
        }
    }
}

/// A server that went away is taken down and not brought up, and one that came
/// is brought up and not taken down. Of one that was never there neither is
/// heard of.
pub proof fn servers_come_and_go(
    known: Map<u32, (Seq<char>, u16)>,
    want: Map<u32, (Seq<char>, u16)>,
    id: u32,
)
    ensures
        known.contains_key(id) && !want.contains_key(id) ==> is_stale(known, want, id)
            && !needs_tap(known, want, id),
        !known.contains_key(id) && want.contains_key(id) ==> !is_stale(known, want, id)
            && needs_tap(known, want, id),
        !known.contains_key(id) && !want.contains_key(id) ==> !is_stale(known, want, id)
            && !needs_tap(known, want, id),
{
}

} // verus!

//! The platform's word on which servers exist, and what to run without it.
//!
//! Three layers, in order of preference:
//!
//!   1. A live pull from the platform.
//!   2. The last good pull. The dashboard being down must degrade the platform
//!      rather than stop it.
//!   3. A hand-written store, for a node with no platform at all.
//!
//! The node receives key HASHES, never keys, so a compromised node cannot
//! impersonate the servers it serves.

use crate::patches::groups_of;
use crate::servers::{is_enabled, servers_of, Server, ServerState, Store};
use crate::supervisor::{is_stale, needs_tap, the_same_list_changes_nothing, wanted};
use crate::table::Table;
use vstd::prelude::*;

verus! {

#[derive(Debug)]
pub struct PlatformServer {
    pub id: u32,
    pub name: String,
    pub host: String,
    pub port: u16,
    pub key_hash: String,
}

/// What the platform answers with.
#[derive(Debug)]
pub struct ServerList {
    pub servers: Vec<PlatformServer>,
    /// Talkgroups cross-connected across the network.
    pub patches: Vec<Vec<u32>>,
}

/// A server as the platform describes it: enabled, found by its hash, and
/// without a key.
pub open spec fn described(s: PlatformServer) -> ServerState {
    ServerState {
        id: s.id,
        name: s.name@,
        host: s.host@,
        port: s.port,
        key: Seq::empty(),
        key_hash: Some(s.key_hash@),
        enabled: true,
    }
}

pub open spec fn described_each(list: Seq<PlatformServer>) -> Seq<ServerState> {
    list.map_values(|s: PlatformServer| described(s))
}

pub fn convert(list: &ServerList) -> (out: Vec<Server>)
    ensures
        servers_of(out@) == described_each(list.servers@),
{
    let mut out: Vec<Server> = Vec::new();
    let mut i: usize = 0;
    while i < list.servers.len()
        invariant
            i <= list.servers.len(),
            servers_of(out@) =~= described_each(list.servers@.take(i as int)),
        decreases list.servers.len() - i,
    {
        let s = &list.servers[i];
        let ghost had = out@;
        let server = Server {
            id: s.id,
            name: s.name.clone(),
            host: s.host.clone(),
            port: s.port,
            key: String::new(),
            key_hash: Some(s.key_hash.clone()),
            enabled: true,
        };
        assert(server@ == described(*s)) by {
            assert(server@.key =~= Seq::empty());
        }
        out.push(server);
        assert(servers_of(out@) =~= servers_of(had).push(described(*s)));
        i += 1;
    }
    assert(list.servers@.take(i as int) =~= list.servers@);
    out
}

/// Where a server list came from.
#[derive(Debug, Clone, Copy, PartialEq, Eq, Structural)]
pub enum Source {
    Platform,
    Cache,
    Store,
}

impl Source {
    pub open spec fn word(self) -> Seq<char> {
        match self {
            Source::Platform => "platform"@,
            Source::Cache => "cache"@,
            Source::Store => "servers.json"@,
        }
    }

    pub fn text(&self) -> (s: &'static str)
        ensures
            s@ == self.word(),
    {
        match self {
            Source::Platform => "platform",
            Source::Cache => "cache",
            Source::Store => "servers.json",
        }
    }
}

/// What a node runs with.
pub struct Resolved {
    pub servers: Vec<Server>,
    pub patches: Vec<Vec<u32>>,
    pub source: Source,
}

/// What one list says.
pub open spec fn told(list: ServerList, source: Source) -> (Seq<ServerState>, Seq<Seq<u32>>, Source) {
    (described_each(list.servers@), groups_of(list.patches), source)
}

/// The last good answer, and whether it could be written down.
#[derive(Debug)]
pub struct LastGood {
    pub list: ServerList,
    pub saved: bool,
}

/// What there is to run with: the servers, the patches, and where they came
/// from. The live answer if there was one, else the last good one, else the
/// servers of the local store. The last good answer is what was written down of
/// it; where it could not be written, or cannot be read, it is the one in
/// memory.
pub open spec fn resolution(
    live: Option<ServerList>,
    last: Option<LastGood>,
    cached: Option<ServerList>,
    store: Seq<ServerState>,
) -> (Seq<ServerState>, Seq<Seq<u32>>, Source) {
    match (live, last, cached) {
        (Some(list), _, _) => told(list, Source::Platform),
        (None, Some(last), None) => told(last.list, Source::Cache),
        (None, Some(last), Some(list)) => told(
            if last.saved {
                list
            } else {
                last.list
            },
            Source::Cache,
        ),
        (None, None, Some(list)) => told(list, Source::Cache),
        (None, None, None) => (store.filter(is_enabled()), Seq::empty(), Source::Store),
    }
}

fn run_with(list: &ServerList, source: Source) -> (r: Resolved)
    ensures
        (servers_of(r.servers@), groups_of(r.patches), r.source) == told(*list, source),
{
    Resolved { servers: convert(list), patches: copy_groups(&list.patches), source }
}

fn copy_groups(groups: &Vec<Vec<u32>>) -> (out: Vec<Vec<u32>>)
    ensures
        groups_of(out) == groups_of(*groups),
{
    let mut out: Vec<Vec<u32>> = Vec::new();
    let mut i: usize = 0;
    while i < groups.len()
        invariant
            i <= groups.len(),
            out@.len() == i,
            forall|k: int| 0 <= k < i ==> (#[trigger] out@[k])@ == groups@[k]@,
        decreases groups.len() - i,
    {
        let group = groups[i].clone();
        assert(group@ =~= groups@[i as int]@);
        out.push(group);
        i += 1;
    }
    assert(groups_of(out) =~= groups_of(*groups));
    out
}

/// The server list to run with, whichever layer it comes from.
pub fn resolve(
    live: &Option<ServerList>,
    last: &Option<LastGood>,
    cached: &Option<ServerList>,
    store: &Store,
) -> (r: Resolved)
    ensures
        (servers_of(r.servers@), groups_of(r.patches), r.source) == resolution(
            *live,
            *last,
            *cached,
            store@,
        ),
{
    if let Some(list) = live {
        return run_with(list, Source::Platform);
    }
    if let Some(last) = last {
        if !last.saved || cached.is_none() {
            return run_with(&last.list, Source::Cache);
        }
    }
    if let Some(list) = cached {
        return run_with(list, Source::Cache);
    }
    let r = Resolved { servers: local_servers(store), patches: Vec::new(), source: Source::Store };
    assert(groups_of(r.patches) =~= Seq::empty());
    r
}

/// The servers of a hand-written store.
pub fn local_servers(store: &Store) -> (out: Vec<Server>)
    ensures
        servers_of(out@) == store@.filter(is_enabled()),
{
    store.enabled()
}

/// The node never holds a key that came from the platform: whatever the
/// platform says, every server it lists is found by a hash alone.
pub proof fn the_platform_never_hands_over_a_key(list: Seq<PlatformServer>, i: int)
    requires
        0 <= i < list.len(),
    ensures
        described_each(list)[i].key.len() == 0,
        described_each(list)[i].key_hash == Some(list[i].key_hash@),
        described_each(list)[i].enabled,
{
}

/// A failed poll keeps the last good list rather than emptying it: the node runs
/// with the same servers and patches, and every tap stays as it is. So it is
/// with the list written down and still there to be read, with one that could
/// not be written, and with one that cannot be read.
pub proof fn a_failed_poll_keeps_the_last_good_list(
    list: ServerList,
    saved: bool,
    older: Option<LastGood>,
    cached: Option<ServerList>,
    store: Seq<ServerState>,
    id: u32,
)
    requires
        saved && cached is Some ==> cached == Some(list),
    ensures
        ({
            let good = resolution(Some(list), older, cached, store);
            let failed = resolution(None, Some(LastGood { list, saved }), cached, store);
            &&& failed.0 == good.0
            &&& failed.1 == good.1
            &&& !is_stale(wanted(good.0), wanted(failed.0), id)
            &&& !needs_tap(wanted(good.0), wanted(failed.0), id)
        }),
{
    the_same_list_changes_nothing(described_each(list.servers@), id);
}

/// A node that never heard from the platform runs with what was written down of
/// an earlier run, and with that missing too, with the local store.
pub proof fn a_node_without_a_platform_runs_on_what_it_has(
    cached: Option<ServerList>,
    store: Seq<ServerState>,
)
    ensures
        match cached {
            Some(list) => resolution(None, None, cached, store) == told(list, Source::Cache),
            None => resolution(None, None, cached, store).0 == store.filter(is_enabled()),
        },
{
}

// -- the heartbeat ----------------------------------------------------------

/// One server's line in a heartbeat: its id, players, radios and talkers.
pub open spec fn row(stats: Map<u32, (u32, u32, u32)>, id: u32) -> (u32, u32, u32, u32) {
    if stats.contains_key(id) {
        let (players, radios, talkers) = stats[id];
        (id, players, radios, talkers)
    } else {
        (id, 0, 0, 0)
    }
}

/// A line for every server the node is ATTACHED to, not only the ones with
/// activity: an idle server is still online.
pub fn heartbeat_rows(stats: &Table<u32, (u32, u32, u32)>, attached: &Vec<u32>) -> (rows: Vec<
    (u32, u32, u32, u32),
>)
    ensures
        rows@ == attached@.map_values(|id: u32| row(stats@, id)),
{
    let mut rows: Vec<(u32, u32, u32, u32)> = Vec::new();
    let mut i: usize = 0;
    while i < attached.len()
        invariant
            i <= attached.len(),
            rows@ =~= attached@.take(i as int).map_values(|id: u32| row(stats@, id)),
        decreases attached.len() - i,
    {
        let id: u32 = attached[i];
        match stats.get(&id) {
            Some(counts) => {
                rows.push((id, counts.0, counts.1, counts.2));
            },
            None => {
                rows.push((id, 0, 0, 0));
            },
        }
        i += 1;
    }
    assert(attached@.take(i as int) =~= attached@);
    rows
}

// -- laws -------------------------------------------------------------------

/// While the platform answers, the node runs with what it says: every server in
/// order, each as described, and the patches as they are.
pub proof fn a_live_answer_is_what_is_run(
    list: ServerList,
    last: Option<LastGood>,
    cached: Option<ServerList>,
    store: Seq<ServerState>,
    i: int,
)
    ensures
        ({
            let run = resolution(Some(list), last, cached, store);
            &&& run.0.len() == list.servers@.len()
            &&& run.1 == groups_of(list.patches)
            &&& run.2 == Source::Platform
            &&& 0 <= i < list.servers@.len() ==> run.0[i] == (ServerState {
                id: list.servers@[i].id,
                name: list.servers@[i].name@,
                host: list.servers@[i].host@,
                port: list.servers@[i].port,
                key: Seq::empty(),
                key_hash: Some(list.servers@[i].key_hash@),
                enabled: true,
            })
        }),
{
}

/// Without a live answer the node runs with what was written down of the last,
/// or with the last itself where it could not be written. Without any answer it
/// runs with the servers of its own store that are switched on, and nothing is
/// patched.
pub proof fn without_an_answer_the_node_runs_on_the_last(
    list: ServerList,
    written: ServerList,
    older: Option<LastGood>,
    store: Seq<ServerState>,
    s: ServerState,
)
    ensures
        resolution(None, Some(LastGood { list, saved: true }), Some(written), store)
            == resolution(None, None, Some(written), store),
        resolution(None, Some(LastGood { list, saved: false }), Some(written), store).0
            == resolution(Some(list), older, Some(written), store).0,
        resolution(None, None, Some(written), store).0 == resolution(
            Some(written),
            older,
            None,
            store,
        ).0,
        resolution(None, None, Some(written), store).1 == groups_of(written.patches),
        resolution(None, None, Some(written), store).2 == Source::Cache,
        resolution(None, None, None, store).0.contains(s) <==> store.contains(s) && s.enabled,
        resolution(None, None, None, store).1.len() == 0,
        resolution(None, None, None, store).2 == Source::Store,
        Source::Platform.word() == "platform"@,
        Source::Cache.word() == "cache"@,
        Source::Store.word() == "servers.json"@,
{
    crate::seqs::lemma_filter_contains(store, is_enabled());
}

/// A server's line in a heartbeat begins with its id. Its counts are its own,
/// and an idle server's are none.
pub proof fn a_heartbeat_line_is_a_servers_own(
    stats: Map<u32, (u32, u32, u32)>,
    id: u32,
    players: u32,
    radios: u32,
    talkers: u32,
)
    ensures
        row(stats.insert(id, (players, radios, talkers)), id) == (id, players, radios, talkers),
        row(stats.remove(id), id) == (id, 0u32, 0u32, 0u32),
{
}

} // verus!

//! Enrolled servers, and the keys that identify them.
//!
//! A server does not get to say which server it is. It presents a key, and the
//! key determines the id. Without that, any process that can reach the control
//! port could post as another server and poison that world's audio routing.

use crate::names::Names;
use crate::seqs::{lemma_filter_contains, lemma_push_contains};
use crate::text::{ascii_lower, ascii_lowered, string_of};
use ring::digest;
use ring::error::Unspecified;
use ring::rand::SecureRandom;
use ring::rand::SystemRandom;
use vstd::prelude::*;
use vstd::utf8::{encode_utf8, is_ascii_chars, is_ascii_chars_encode_utf8};

verus! {

// -- hashing and chance -----------------------------------------------------

/// The failure of a cryptographic operation, of which nothing more is said.
#[verifier::external_type_specification]
#[verifier::external_body]
pub struct ExUnspecified(Unspecified);

/// SHA-256 of some bytes.
pub uninterp spec fn sha256(data: Seq<u8>) -> Seq<u8>;

/// More bytes than this SHA-256 is not defined for.
pub const HASH_LIMIT: u64 = 0x1fff_ffff_ffff_ffff;

/// `ring::digest::digest` with SHA-256: 32 bytes, the same for the same input.
#[verifier::external_body]
fn ring_sha256(data: &[u8]) -> (out: Vec<u8>)
    requires
        data@.len() <= HASH_LIMIT,
    ensures
        out@ == sha256(data@),
        out@.len() == 32,
{
    digest::digest(&digest::SHA256, data).as_ref().to_vec()
}

/// `SystemRandom::fill`, over 32 bytes. Which bytes come, and whether any do,
/// is left open.
#[verifier::external_body]
fn ring_random() -> (r: Result<Vec<u8>, Unspecified>)
    ensures
        r matches Ok(bytes) ==> bytes@.len() == 32,
{
    let mut bytes = vec![0u8; 32];
    SystemRandom::new().fill(&mut bytes)?;
    Ok(bytes)
}

/// A text in lower case, as Unicode has it.
pub uninterp spec fn lowercase(text: Seq<char>) -> Seq<char>;

/// `str::to_lowercase`. ASCII text is lowered letter by letter.
#[verifier::external_body]
fn str_to_lowercase(text: &str) -> (out: String)
    ensures
        out@ == lowercase(text@),
        is_ascii_chars(text@) ==> out@ == ascii_lowered(text@),
{
    text.to_lowercase()
}

/// System randomness is unavailable.
#[derive(Debug, Clone, Copy, PartialEq, Eq, Structural)]
pub struct NoRandomness;

impl NoRandomness {
    pub fn text(&self) -> (s: &'static str)
        ensures
            s@ == "system randomness unavailable"@,
    {
        "system randomness unavailable"
    }
}

pub open spec fn hex_digit(n: int) -> char {
    if n < 10 {
        (n + '0' as int) as char
    } else {
        (n - 10 + 'a' as int) as char
    }
}

/// Bytes written as hexadecimal digits, two for each.
pub open spec fn hex(bytes: Seq<u8>) -> Seq<char>
    decreases bytes.len(),
{
    if bytes.len() == 0 {
        Seq::empty()
    } else {
        let b = bytes.last() as int;
        hex(bytes.drop_last()).push(hex_digit(b / 16)).push(hex_digit(b % 16))
    }
}

pub proof fn lemma_hex_len(bytes: Seq<u8>)
    ensures
        hex(bytes).len() == 2 * bytes.len(),
    decreases bytes.len(),
{
    if bytes.len() > 0 {
        lemma_hex_len(bytes.drop_last());
    }
}

/// Different bytes are written differently.
pub proof fn hex_is_unambiguous(a: Seq<u8>, b: Seq<u8>)
    requires
        hex(a) == hex(b),
    ensures
        a == b,
    decreases a.len(),
{
    lemma_hex_len(a);
    lemma_hex_len(b);
    if a.len() > 0 {
        let x = a.last() as int;
        let y = b.last() as int;
        let n = hex(a).len();
        assert(hex(a)[n - 1] == hex_digit(x % 16) && hex(b)[n - 1] == hex_digit(y % 16));
        assert(hex(a)[n - 2] == hex_digit(x / 16) && hex(b)[n - 2] == hex_digit(y / 16));
        assert(hex(a.drop_last()) =~= hex(a).take(n - 2));
        assert(hex(b.drop_last()) =~= hex(b).take(n - 2));
        hex_is_unambiguous(a.drop_last(), b.drop_last());
        assert(a =~= a.drop_last().push(a.last()));
        assert(b =~= b.drop_last().push(b.last()));
    } else {
        assert(a =~= b);
    }
}

fn digit(n: u8) -> (c: char)
    requires
        n < 16,
    ensures
        c == hex_digit(n as int),
{
    if n < 10 {
        (48 + n) as char
    } else {
        (97 + (n - 10)) as char
    }
}

pub fn to_hex(bytes: &Vec<u8>) -> (s: String)
    ensures
        s@ == hex(bytes@),
{
    let mut out: Vec<char> = Vec::new();
    let mut i: usize = 0;
    while i < bytes.len()
        invariant
            i <= bytes.len(),
            out@ == hex(bytes@.take(i as int)),
        decreases bytes.len() - i,
    {
        let b: u8 = bytes[i];
        assert(bytes@.take(i as int + 1).drop_last() =~= bytes@.take(i as int));
        out.push(digit(b / 16));
        out.push(digit(b % 16));
        i += 1;
    }
    assert(bytes@.take(i as int) =~= bytes@);
    string_of(&out)
}

/// The hash of a key, as it is stored and compared.
pub open spec fn key_digest(key: Seq<char>) -> Seq<char> {
    hex(sha256(encode_utf8(key)))
}

pub open spec fn hashable(key: Seq<char>) -> bool {
    encode_utf8(key).len() <= HASH_LIMIT
}

pub fn sha256_hex(input: &str) -> (s: String)
    requires
        hashable(input@),
    ensures
        s@ == key_digest(input@),
        s@.len() == 64,
{
    let out = ring_sha256(input.as_bytes());
    proof {
        lemma_hex_len(out@);
    }
    to_hex(&out)
}

/// A key: 256 bits in hexadecimal.
pub open spec fn is_key(key: Seq<char>) -> bool {
    exists|bits: Seq<u8>| bits.len() == 32 && key == #[trigger] hex(bits)
}

/// 256 bits of system randomness, hex encoded.
pub fn mint_key() -> (r: Result<String, NoRandomness>)
    ensures
        r matches Ok(key) ==> is_key(key@) && key@.len() == 64,
{
    key_from(ring_random())
}

/// The key that some random bytes make, if there were any.
pub fn key_from(random: Result<Vec<u8>, Unspecified>) -> (r: Result<String, NoRandomness>)
    ensures
        match (random, r) {
            (Ok(bytes), Ok(key)) => {
                &&& key@ == hex(bytes@)
                &&& bytes@.len() == 32 ==> is_key(key@) && key@.len() == 64
            },
            (Err(_), Err(_)) => true,
            _ => false,
        },
{
    match random {
        Ok(bytes) => {
            proof {
                lemma_hex_len(bytes@);
            }
            Ok(to_hex(&bytes))
        },
        Err(_) => Err(NoRandomness),
    }
}

/// Whether two runs of bytes are the same, looking at all of both whatever
/// they hold.
pub fn constant_time_eq(a: &[u8], b: &[u8]) -> (same: bool)
    ensures
        same == (a@ == b@),
{
    if a.len() != b.len() {
        return false;
    }
    let mut diff: u8 = 0;
    let mut i: usize = 0;
    while i < a.len()
        invariant
            i <= a@.len(),
            a@.len() == b@.len(),
            diff == 0 <==> forall|j: int| 0 <= j < i ==> a@[j] == b@[j],
        decreases a@.len() - i,
    {
        let x: u8 = a[i];
        let y: u8 = b[i];
        assert((diff | (x ^ y)) == 0 <==> diff == 0 && x == y) by (bit_vector);
        diff = diff | (x ^ y);
        i += 1;
    }
    if diff == 0 {
        assert(a@ =~= b@);
    }
    diff == 0
}

// -- servers ----------------------------------------------------------------

#[verifier::ext_equal]
pub struct ServerState {
    pub id: u32,
    pub name: Seq<char>,
    pub host: Seq<char>,
    pub port: u16,
    pub key: Seq<char>,
    pub key_hash: Option<Seq<char>>,
    pub enabled: bool,
}

#[derive(Debug)]
pub struct Server {
    pub id: u32,
    pub name: String,
    /// Where the tap connects: the game port, because that is where the voice
    /// server listens.
    pub host: String,
    pub port: u16,
    /// The shared secret, for locally enrolled servers. Empty when the server
    /// came from the platform, which sends a hash and never a key.
    pub key: String,
    /// SHA-256 of the key, as the platform stores it.
    pub key_hash: Option<String>,
    pub enabled: bool,
}

pub open spec fn text_of(s: Option<String>) -> Option<Seq<char>> {
    match s {
        Some(t) => Some(t@),
        None => None,
    }
}

impl View for Server {
    type V = ServerState;

    open spec fn view(&self) -> ServerState {
        ServerState {
            id: self.id,
            name: self.name@,
            host: self.host@,
            port: self.port,
            key: self.key@,
            key_hash: text_of(self.key_hash),
            enabled: self.enabled,
        }
    }
}

impl Clone for Server {
    fn clone(&self) -> (s: Self)
        ensures
            s@ == self@,
    {
        Server {
            id: self.id,
            name: self.name.clone(),
            host: self.host.clone(),
            port: self.port,
            key: self.key.clone(),
            key_hash: match &self.key_hash {
                Some(h) => Some(h.clone()),
                None => None,
            },
            enabled: self.enabled,
        }
    }
}

pub open spec fn servers_of(list: Seq<Server>) -> Seq<ServerState> {
    list.map_values(|s: Server| s@)
}

/// Where nothing says so, a server is enabled.
pub fn yes() -> (b: bool)
    ensures
        b,
{
    true
}

pub struct Store {
    pub servers: Vec<Server>,
}

impl View for Store {
    type V = Seq<ServerState>;

    open spec fn view(&self) -> Seq<ServerState> {
        servers_of(self.servers@)
    }
}

impl Default for Store {
    fn default() -> (s: Self)
        ensures
            s@ == Seq::<ServerState>::empty(),
    {
        let s = Store { servers: Vec::new() };
        assert(s@ =~= Seq::<ServerState>::empty());
        s
    }
}

/// The highest id in use, or none.
pub open spec fn highest_id(servers: Seq<ServerState>) -> int
    decreases servers.len(),
{
    if servers.len() == 0 {
        0
    } else {
        let rest = highest_id(servers.drop_last());
        if servers.last().id > rest {
            servers.last().id as int
        } else {
            rest
        }
    }
}

/// A newly enrolled server.
pub open spec fn enrolled(
    id: u32,
    name: Seq<char>,
    host: Seq<char>,
    port: u16,
    key: Seq<char>,
) -> ServerState {
    ServerState { id, name, host, port, key, key_hash: None, enabled: true }
}

/// The servers with one more enrolled: it is given the id after the highest.
pub open spec fn with_enrolled(
    servers: Seq<ServerState>,
    name: Seq<char>,
    host: Seq<char>,
    port: u16,
    key: Seq<char>,
) -> Seq<ServerState> {
    servers.push(enrolled((highest_id(servers) + 1) as u32, name, host, port, key))
}

/// Enrolling adds one server behind the others, with the id after the highest in
/// use: the first is server 1, and two that enrol one after the other have ids
/// one after the other.
pub proof fn ids_are_given_in_turn(
    servers: Seq<ServerState>,
    name: Seq<char>,
    host: Seq<char>,
    port: u16,
    key: Seq<char>,
    i: int,
)
    requires
        highest_id(servers) < u32::MAX,
    ensures
        ({
            let after = with_enrolled(servers, name, host, port, key);
            &&& after.drop_last() == servers
            &&& after.last().name == name && after.last().host == host && after.last().port == port
            &&& after.last().key == key
            &&& servers.len() == 0 ==> after.last().id == 1
            &&& highest_id(after) == after.last().id
            &&& highest_id(after) == highest_id(servers) + 1
            &&& 0 <= i < servers.len() ==> servers[i].id < after.last().id
        }),
{
    let after = with_enrolled(servers, name, host, port, key);
    assert(after.drop_last() =~= servers);
    if 0 <= i < servers.len() {
        lemma_highest(servers, i);
    }
    the_highest_id_is_somebodys(servers);
}

pub open spec fn other_server(id: u32) -> spec_fn(ServerState) -> bool {
    |s: ServerState| s.id != id
}

pub open spec fn is_enabled() -> spec_fn(ServerState) -> bool {
    |s: ServerState| s.enabled
}

/// The first server with an id.
pub open spec fn position_of(servers: Seq<ServerState>, id: u32, i: int) -> bool {
    &&& 0 <= i < servers.len()
    &&& servers[i].id == id
    &&& forall|j: int| 0 <= j < i ==> (#[trigger] servers[j]).id != id
}

pub open spec fn has_server(servers: Seq<ServerState>, id: u32) -> bool {
    exists|i: int| #[trigger] position_of(servers, id, i)
}

/// The first server with an id was given another key, which is all it is found
/// by from here on, and is otherwise as it was; so is every other server.
pub open spec fn rekeyed(
    before: Seq<ServerState>,
    id: u32,
    key: Seq<char>,
    server: ServerState,
    after: Seq<ServerState>,
) -> bool {
    exists|i: int| #[trigger]
        position_of(before, id, i) && server == (ServerState { key, key_hash: None, ..before[i] })
            && after == before.update(i, server)
}

impl Store {
    /// Ids are assigned, never chosen by the server.
    pub fn next_id(&self) -> (id: u32)
        requires
            highest_id(self@) < u32::MAX,
        ensures
            id == highest_id(self@) + 1,
    {
        let mut highest: u32 = 0;
        let mut i: usize = 0;
        while i < self.servers.len()
            invariant
                i <= self.servers.len(),
                highest == highest_id(self@.take(i as int)),
            decreases self.servers.len() - i,
        {
            assert(self@.take(i as int + 1).drop_last() =~= self@.take(i as int));
            if self.servers[i].id > highest {
                highest = self.servers[i].id;
            }
            i += 1;
        }
        assert(self@.take(i as int) =~= self@);
        highest + 1
    }

    pub fn enroll(&mut self, name: &str, host: &str, port: u16) -> (r: Result<
        Server,
        NoRandomness,
    >)
        requires
            highest_id(old(self)@) < u32::MAX,
        ensures
            match r {
                Ok(s) => {
                    &&& is_key(s@.key)
                    &&& s@ == enrolled(
                        (highest_id(old(self)@) + 1) as u32,
                        name@,
                        host@,
                        port,
                        s@.key,
                    )
                    &&& final(self)@ == old(self)@.push(s@)
                },
                Err(_) => final(self)@ == old(self)@,
            },
    {
        match mint_key() {
            Ok(key) => Ok(self.enroll_with(name, host, port, key)),
            Err(e) => Err(e),
        }
    }

    /// Enrolment with a key in hand.
    pub fn enroll_with(&mut self, name: &str, host: &str, port: u16, key: String) -> (s: Server)
        requires
            highest_id(old(self)@) < u32::MAX,
        ensures
            s@ == enrolled((highest_id(old(self)@) + 1) as u32, name@, host@, port, key@),
            final(self)@ == old(self)@.push(s@),
            final(self)@ == with_enrolled(old(self)@, name@, host@, port, key@),
    {
        let server = Server {
            id: self.next_id(),
            name: name.to_owned(),
            host: host.to_owned(),
            port,
            key,
            key_hash: None,
            enabled: true,
        };
        let kept = server.clone();
        self.servers.push(kept);
        assert(self@ =~= old(self)@.push(server@));
        server
    }

    pub fn revoke(&mut self, id: u32) -> (gone: bool)
        ensures
            final(self)@ == old(self)@.filter(other_server(id)),
            gone == exists|i: int| 0 <= i < old(self)@.len() && (#[trigger] old(self)@[i]).id == id,
    {
        let mut kept: Vec<Server> = Vec::new();
        let mut gone = false;
        let mut i: usize = 0;
        let ghost all = self@;
        while i < self.servers.len()
            invariant
                i <= self.servers.len(),
                self@ == all,
                all == old(self)@,
                servers_of(kept@) == all.take(i as int).filter(other_server(id)),
                gone == exists|j: int| 0 <= j < i && (#[trigger] all[j]).id == id,
            decreases self.servers.len() - i,
        {
            proof {
                reveal(Seq::filter);
                assert(all.take(i as int + 1).drop_last() =~= all.take(i as int));
                assert(all[i as int] == self.servers@[i as int]@);
            }
            if self.servers[i].id != id {
                let ghost had = kept@;
                let s = self.servers[i].clone();
                kept.push(s);
                assert(servers_of(kept@) =~= servers_of(had).push(all[i as int]));
            } else {
                gone = true;
                assert(all[i as int].id == id);
            }
            i += 1;
        }
        assert(all.take(i as int) =~= all);
        self.servers = kept;
        gone
    }

    /// Re-issues a key for a server, invalidating the old one, and the hash the
    /// platform knew that one by. For when a key has leaked.
    pub fn rotate(&mut self, id: u32) -> (r: Result<Option<Server>, NoRandomness>)
        ensures
            match r {
                Ok(Some(s)) => is_key(s@.key) && rekeyed(
                    old(self)@,
                    id,
                    s@.key,
                    s@,
                    final(self)@,
                ),
                Ok(None) => !has_server(old(self)@, id) && final(self)@ == old(self)@,
                Err(_) => final(self)@ == old(self)@,
            },
    {
        match mint_key() {
            Ok(key) => Ok(self.rotate_with(id, key)),
            Err(e) => Err(e),
        }
    }

    /// Rotation with a key in hand.
    pub fn rotate_with(&mut self, id: u32, key: String) -> (r: Option<Server>)
        ensures
            match r {
                Some(s) => rekeyed(old(self)@, id, key@, s@, final(self)@),
                None => !has_server(old(self)@, id) && final(self)@ == old(self)@,
            },
    {
        let ghost all = self@;
        let mut i: usize = 0;
        while i < self.servers.len()
            invariant
                i <= self.servers.len(),
                self@ == all,
                all == old(self)@,
                forall|j: int| 0 <= j < i ==> (#[trigger] all[j]).id != id,
            decreases self.servers.len() - i,
        {
            assert(all[i as int] == self.servers@[i as int]@);
            if self.servers[i].id == id {
                let mut s = self.servers[i].clone();
                s.key = key;
                s.key_hash = None;
                let kept = s.clone();
                self.servers.set(i, kept);
                proof {
                    assert(position_of(all, id, i as int));
                    assert(self@ =~= all.update(i as int, s@));
                }
                return Some(s);
            }
            i += 1;
        }
        None
    }

    /// The servers that are switched on, in order.
    pub fn enabled(&self) -> (out: Vec<Server>)
        ensures
            servers_of(out@) == self@.filter(is_enabled()),
    {
        let mut out: Vec<Server> = Vec::new();
        let mut i: usize = 0;
        assert(servers_of(out@) =~= Seq::empty());
        proof {
            reveal(Seq::filter);
        }
        while i < self.servers.len()
            invariant
                i <= self.servers.len(),
                servers_of(out@) == self@.take(i as int).filter(is_enabled()),
            decreases self.servers.len() - i,
        {
            proof {
                reveal(Seq::filter);
                assert(self@.take(i as int + 1).drop_last() =~= self@.take(i as int));
                assert(self@[i as int] == self.servers@[i as int]@);
            }
            if self.servers[i].enabled {
                let ghost had = out@;
                let s = self.servers[i].clone();
                out.push(s);
                assert(servers_of(out@) =~= servers_of(had).push(self@[i as int]));
            }
            i += 1;
        }
        assert(self@.take(i as int) =~= self@);
        out
    }
}

// -- which server a key is --------------------------------------------------

/// A hash as it is compared: in lower case.
pub open spec fn lowered(hash: Seq<char>) -> Seq<char> {
    if is_ascii_chars(hash) {
        ascii_lowered(hash)
    } else {
        lowercase(hash)
    }
}

/// What a server's key is found by. A hash that came from the platform is
/// preferred; a server with neither hash nor key is found by nothing.
pub open spec fn hash_of(server: ServerState) -> Option<Seq<char>> {
    match server.key_hash {
        Some(h) => Some(lowered(h)),
        None => if server.key.len() > 0 && hashable(server.key) {
            Some(key_digest(server.key))
        } else {
            None
        },
    }
}

/// Every hash, and the server it stands for: of two with one hash, the later.
pub open spec fn index_of(servers: Seq<ServerState>) -> Map<Seq<char>, u32>
    decreases servers.len(),
{
    if servers.len() == 0 {
        Map::empty()
    } else {
        let earlier = index_of(servers.drop_last());
        match hash_of(servers.last()) {
            Some(h) => earlier.insert(h, servers.last().id),
            None => earlier,
        }
    }
}

/// Hashes, not keys: a node that holds no key cannot leak one.
pub struct KeyIndex {
    by_hash: Names<u32>,
}

impl View for KeyIndex {
    type V = Map<Seq<char>, u32>;

    closed spec fn view(&self) -> Map<Seq<char>, u32> {
        self.by_hash@
    }
}

impl Default for KeyIndex {
    fn default() -> (k: Self)
        ensures
            k@ == Map::<Seq<char>, u32>::empty(),
    {
        KeyIndex { by_hash: Names::new() }
    }
}

impl KeyIndex {
    pub fn build(servers: &Vec<Server>) -> (k: Self)
        ensures
            k@ == index_of(servers_of(servers@)),
    {
        let ghost all = servers_of(servers@);
        let mut by_hash: Names<u32> = Names::new();
        let mut i: usize = 0;
        while i < servers.len()
            invariant
                i <= servers.len(),
                all == servers_of(servers@),
                by_hash@ == index_of(all.take(i as int)),
            decreases servers.len() - i,
        {
            assert(all.take(i as int + 1).drop_last() =~= all.take(i as int));
            assert(all[i as int] == servers@[i as int]@);
            let s = &servers[i];
            match &s.key_hash {
                Some(h) => {
                    by_hash.insert(str_to_lowercase(h.as_str()), s.id);
                },
                None => if !s.key.as_str().is_empty() && s.key.as_str().as_bytes().len() as u64
                    <= HASH_LIMIT {
                    by_hash.insert(sha256_hex(s.key.as_str()), s.id);
                },
            }
            i += 1;
        }
        assert(all.take(i as int) =~= all);
        KeyIndex { by_hash }
    }

    /// Resolves a presented key to the server it identifies.
    pub fn resolve(&self, presented: &str) -> (r: Option<u32>)
        ensures
            r == (if hashable(presented@) {
                self@.get(key_digest(presented@))
            } else {
                None
            }),
    {
        if presented.as_bytes().len() as u64 > HASH_LIMIT {
            return None;
        }
        let wanted = sha256_hex(presented);
        let ghost hash = wanted@;
        let n: usize = self.by_hash.slots();
        let mut found: Option<u32> = None;
        let mut i: usize = 0;
        proof {
            self.by_hash.slots_are_the_map(hash);
        }
        while i < n
            invariant
                i <= n,
                n == self.by_hash.slot_count(),
                hash == wanted@,
                match found {
                    Some(id) => exists|j: int|
                        0 <= j < i && #[trigger] self.by_hash.slot(j) == (hash, id) && forall|
                            k: int,
                        |
                            0 <= k < j ==> (#[trigger] self.by_hash.slot(k)).0 != hash,
                    None => forall|j: int|
                        0 <= j < i ==> (#[trigger] self.by_hash.slot(j)).0 != hash,
                },
            decreases n - i,
        {
            let (have, id) = self.by_hash.at(i);
            let same = constant_time_eq(have.as_str().as_bytes(), wanted.as_str().as_bytes());
            proof {
                vstd::utf8::encode_utf8_decode_utf8(have@);
                vstd::utf8::encode_utf8_decode_utf8(wanted@);
                assert(same == (have@ == hash));
            }
            if same && found.is_none() {
                found = Some(id);
                assert(self.by_hash.slot(i as int) == (hash, id));
            }
            i += 1;
        }
        found
    }
}

// -- laws -------------------------------------------------------------------

/// A key identifies its server, as long as no server after it in the list is
/// found by the same hash.
pub proof fn a_key_resolves_to_its_server(servers: Seq<ServerState>, i: int)
    requires
        0 <= i < servers.len(),
        hash_of(servers[i]) is Some,
        forall|j: int| i < j < servers.len() ==> hash_of(#[trigger] servers[j]) != hash_of(servers[i]),
    ensures
        index_of(servers).get(hash_of(servers[i])->0) == Some(servers[i].id),
    decreases servers.len(),
{
    let rest = servers.drop_last();
    if i < rest.len() {
        assert(rest[i] == servers[i]);
        assert forall|j: int| i < j < rest.len() implies hash_of(#[trigger] rest[j]) != hash_of(
            rest[i],
        ) by {
            assert(servers[j] == rest[j]);
        }
        a_key_resolves_to_its_server(rest, i);
        assert(hash_of(servers[servers.len() - 1]) != hash_of(servers[i]));
    }
}

/// A server that the platform knows by the hash of its key, in either case of
/// letters, is found by that key.
pub proof fn a_hash_is_as_good_as_the_key_it_is_of(server: ServerState, key: Seq<char>)
    requires
        server.key_hash matches Some(h) && is_ascii_chars(h) && ascii_lowered(h) == key_digest(key),
    ensures
        hash_of(server) == Some(key_digest(key)),
{
}

/// The hash of a key is in lower case already.
pub proof fn a_digest_is_in_lower_case(key: Seq<char>)
    ensures
        lowered(key_digest(key)) == key_digest(key),
{
    lemma_hex_is_lower(sha256(encode_utf8(key)));
    let digest = key_digest(key);
    assert(ascii_lowered(digest) =~= digest);
}

proof fn lemma_hex_is_lower(bytes: Seq<u8>)
    ensures
        is_ascii_chars(hex(bytes)),
        forall|i: int| 0 <= i < hex(bytes).len() ==> ascii_lower(#[trigger] hex(bytes)[i]) == hex(
            bytes,
        )[i],
    decreases bytes.len(),
{
    if bytes.len() > 0 {
        lemma_hex_is_lower(bytes.drop_last());
    }
}

/// A key that was minted can be presented: it is not empty, and short enough to
/// be hashed.
pub proof fn a_minted_key_can_be_presented(key: Seq<char>)
    requires
        is_key(key),
    ensures
        key.len() == 64,
        hashable(key),
{
    let bits = choose|bits: Seq<u8>| bits.len() == 32 && key == #[trigger] hex(bits);
    lemma_hex_len(bits);
    lemma_hex_is_lower(bits);
    is_ascii_chars_encode_utf8(key);
}

/// A hash that no server is found by identifies none: the key of a server that
/// was revoked, switched off or given another key is dead.
pub proof fn an_unknown_key_resolves_to_nothing(servers: Seq<ServerState>, hash: Seq<char>)
    requires
        forall|j: int| 0 <= j < servers.len() ==> hash_of(#[trigger] servers[j]) != Some(hash),
    ensures
        index_of(servers).get(hash) is None,
    decreases servers.len(),
{
    if servers.len() > 0 {
        let rest = servers.drop_last();
        assert forall|j: int| 0 <= j < rest.len() implies hash_of(#[trigger] rest[j]) != Some(
            hash,
        ) by {
            assert(servers[j] == rest[j]);
        }
        an_unknown_key_resolves_to_nothing(rest, hash);
        assert(hash_of(servers[servers.len() - 1]) != Some(hash));
    }
}

/// A hash resolves to nobody but a server that is found by it.
pub proof fn a_key_resolves_to_nobody_else(servers: Seq<ServerState>, hash: Seq<char>, id: u32)
    requires
        index_of(servers).get(hash) == Some(id),
    ensures
        exists|s: ServerState| #[trigger]
            servers.contains(s) && s.id == id && hash_of(s) == Some(hash),
    decreases servers.len(),
{
    if servers.len() > 0 {
        let rest = servers.drop_last();
        let last = servers.last();
        assert(servers =~= rest.push(last));
        lemma_push_contains(rest, last);
        if hash_of(last) == Some(hash) {
            assert(servers.contains(last) && last.id == id && hash_of(last) == Some(hash));
        } else {
            a_key_resolves_to_nobody_else(rest, hash, id);
            let s = choose|s: ServerState| #[trigger]
                rest.contains(s) && s.id == id && hash_of(s) == Some(hash);
            assert(servers.contains(s) && s.id == id && hash_of(s) == Some(hash));
        }
    }
}

/// A switched-off server cannot authenticate: what a key resolves to is a
/// server that is switched on.
pub proof fn a_server_switched_off_cannot_authenticate(
    servers: Seq<ServerState>,
    hash: Seq<char>,
    id: u32,
)
    requires
        forall|s: ServerState| #[trigger] servers.contains(s) && s.id == id ==> !s.enabled,
    ensures
        index_of(servers.filter(is_enabled())).get(hash) != Some(id),
{
    let on = servers.filter(is_enabled());
    lemma_filter_contains(servers, is_enabled());
    if index_of(on).get(hash) == Some(id) {
        a_key_resolves_to_nobody_else(on, hash, id);
        let s = choose|s: ServerState| #[trigger]
            on.contains(s) && s.id == id && hash_of(s) == Some(hash);
        assert(servers.contains(s) && s.enabled);
    }
}

/// A revoked server cannot authenticate: no key resolves to it, whether the
/// others are switched on or not.
pub proof fn a_revoked_server_cannot_authenticate(
    servers: Seq<ServerState>,
    id: u32,
    hash: Seq<char>,
)
    ensures
        index_of(servers.filter(other_server(id)).filter(is_enabled())).get(hash) != Some(id),
{
    let left = servers.filter(other_server(id));
    lemma_filter_contains(servers, other_server(id));
    assert forall|s: ServerState| #[trigger] left.contains(s) && s.id == id implies !s.enabled by {
        assert(servers.contains(s));
    }
    a_server_switched_off_cannot_authenticate(left, hash, id);
}

/// No server but the first with an id is found by a hash.
pub open spec fn no_other_has(servers: Seq<ServerState>, id: u32, hash: Seq<char>) -> bool {
    forall|j: int|
        0 <= j < servers.len() && !position_of(servers, id, j) ==> hash_of(#[trigger] servers[j])
            != Some(hash)
}

proof fn lemma_found(servers: Seq<ServerState>, server: ServerState)
    requires
        servers.contains(server),
        hash_of(server) is Some,
    ensures
        index_of(servers).get(hash_of(server)->0) is Some,
    decreases servers.len(),
{
    let rest = servers.drop_last();
    assert(servers =~= rest.push(servers.last()));
    lemma_push_contains(rest, servers.last());
    if rest.contains(server) {
        lemma_found(rest, server);
    }
}

/// A key that was rotated away is dead, whether the server was found by the key
/// or by a hash of it, as long as no other server is found by it too; and the
/// key it was given instead identifies it, while it is switched on.
pub proof fn a_rotated_key_is_dead(
    before: Seq<ServerState>,
    id: u32,
    key: Seq<char>,
    server: ServerState,
    after: Seq<ServerState>,
    dead: Seq<char>,
)
    requires
        rekeyed(before, id, key, server, after),
        is_key(key),
        key_digest(key) != dead,
    ensures
        no_other_has(before, id, dead) ==> index_of(after.filter(is_enabled())).get(dead) is None,
        no_other_has(before, id, key_digest(key)) && server.enabled ==> index_of(
            after.filter(is_enabled()),
        ).get(key_digest(key)) == Some(id),
{
    let i = choose|i: int| #[trigger]
        position_of(before, id, i) && server == (ServerState { key, key_hash: None, ..before[i] })
            && after == before.update(i, server);
    let on = after.filter(is_enabled());
    let new = key_digest(key);
    a_minted_key_can_be_presented(key);
    lemma_filter_contains(after, is_enabled());
    assert forall|s: ServerState, hash: Seq<char>|
        #[trigger] on.contains(s) && s != server && #[trigger] no_other_has(before, id, hash) implies
        hash_of(s) != Some(hash) by {
        let j = choose|j: int| 0 <= j < after.len() && after[j] == s;
        assert(after[j] == before[j]);
        assert(!position_of(before, id, j));
    }
    if no_other_has(before, id, dead) && index_of(on).get(dead) is Some {
        a_key_resolves_to_nobody_else(on, dead, index_of(on).get(dead)->0);
    }
    if no_other_has(before, id, new) && server.enabled {
        assert(after[i] == server);
        assert(on.contains(server));
        lemma_found(on, server);
        a_key_resolves_to_nobody_else(on, new, index_of(on).get(new)->0);
    }
}

proof fn lemma_highest(servers: Seq<ServerState>, i: int)
    requires
        0 <= i < servers.len(),
    ensures
        servers[i].id <= highest_id(servers),
    decreases servers.len(),
{
    if i < servers.len() - 1 {
        lemma_highest(servers.drop_last(), i);
    }
}

/// A newly assigned id is nobody else's, and is never the one consoles live on.
pub proof fn an_assigned_id_is_new(servers: Seq<ServerState>, i: int)
    requires
        0 <= i < servers.len(),
    ensures
        servers[i].id != highest_id(servers) + 1,
        highest_id(servers) + 1 >= 1,
{
    lemma_highest(servers, i);
}

/// Each byte is two digits, the high one first, from 0 to 9 and on from a to f.
pub proof fn a_byte_is_two_digits(bytes: Seq<u8>, i: int)
    requires
        0 <= i < bytes.len(),
    ensures
        hex(bytes).len() == 2 * bytes.len(),
        ({
            let high = bytes[i] as int / 16;
            let low = bytes[i] as int % 16;
            &&& hex(bytes)[2 * i] as int == if high < 10 {
                48 + high
            } else {
                87 + high
            }
            &&& hex(bytes)[2 * i + 1] as int == if low < 10 {
                48 + low
            } else {
                87 + low
            }
        }),
    decreases bytes.len(),
{
    lemma_hex_len(bytes);
    let rest = bytes.drop_last();
    lemma_hex_len(rest);
    if i < rest.len() {
        a_byte_is_two_digits(rest, i);
        assert(hex(bytes)[2 * i] == hex(rest)[2 * i]);
        assert(hex(bytes)[2 * i + 1] == hex(rest)[2 * i + 1]);
    }
}

/// The highest id in use is somebody's, or none is in use at all.
pub proof fn the_highest_id_is_somebodys(servers: Seq<ServerState>)
    ensures
        servers.len() == 0 ==> highest_id(servers) == 0,
        highest_id(servers) >= 0,
        highest_id(servers) > 0 ==> exists|i: int|
            0 <= i < servers.len() && (#[trigger] servers[i]).id == highest_id(servers),
        forall|i: int| 0 <= i < servers.len() ==> (#[trigger] servers[i]).id <= highest_id(servers),
    decreases servers.len(),
{
    assert forall|i: int| 0 <= i < servers.len() implies (#[trigger] servers[i]).id <= highest_id(
        servers,
    ) by {
        lemma_highest(servers, i);
    }
    if servers.len() > 0 {
        let rest = servers.drop_last();
        the_highest_id_is_somebodys(rest);
        if highest_id(servers) > 0 {
            if servers.last().id == highest_id(servers) {
                assert(servers[servers.len() - 1].id == highest_id(servers));
            } else {
                let i = choose|i: int|
                    0 <= i < rest.len() && (#[trigger] rest[i]).id == highest_id(rest);
                assert(servers[i].id == highest_id(servers));
            }
        }
    }
}

/// A server that enrols keeps the name and the address it was given, and is
/// switched on, with a key and no hash.
pub proof fn an_enrolled_server_is_switched_on(
    id: u32,
    name: Seq<char>,
    host: Seq<char>,
    port: u16,
    key: Seq<char>,
)
    ensures
        enrolled(id, name, host, port, key) == (ServerState {
            id,
            name,
            host,
            port,
            key,
            key_hash: None,
            enabled: true,
        }),
        key.len() > 0 && encode_utf8(key).len() <= 0x1fff_ffff_ffff_ffff ==> hash_of(
            enrolled(id, name, host, port, key),
        ) == Some(hex(sha256(encode_utf8(key)))),
{
}

/// A server with a hash is found by the hash, whatever its key. One without is
/// found by the hash of its key, and one with neither by nothing.
pub proof fn a_hash_goes_before_a_key(s: ServerState, hash: Seq<char>)
    ensures
        s.key_hash == Some(hash) && is_ascii_chars(hash) ==> hash_of(s) == Some(
            ascii_lowered(hash),
        ),
        s.key_hash is None && s.key.len() == 0 ==> hash_of(s) is None,
        s.key_hash is None && s.key.len() > 0 && hashable(s.key) ==> hash_of(s) == Some(
            hex(sha256(encode_utf8(s.key))),
        ),
{
}

/// Rotation changes one server, the first of the id: its key is the new one and
/// it has no hash, and its name, address and switch are as they were. Every
/// other server is as it was, and in its place.
pub proof fn rotation_changes_one_server(
    before: Seq<ServerState>,
    id: u32,
    key: Seq<char>,
    server: ServerState,
    after: Seq<ServerState>,
    i: int,
)
    requires
        rekeyed(before, id, key, server, after),
        0 <= i < before.len(),
    ensures
        after.len() == before.len(),
        server.id == id && server.key == key && server.key_hash is None,
        before[i].id != id ==> after[i] == before[i],
        before[i].id == id && (exists|j: int| 0 <= j < i && (#[trigger] before[j]).id == id)
            ==> after[i] == before[i],
        before[i].id == id && (forall|j: int| 0 <= j < i ==> (#[trigger] before[j]).id != id)
            ==> after[i] == server && server.name == before[i].name && server.host
            == before[i].host && server.port == before[i].port && server.enabled
            == before[i].enabled,
{
    let k = choose|k: int| #[trigger]
        position_of(before, id, k) && server == (ServerState { key, key_hash: None, ..before[k] })
            && after == before.update(k, server);
    assert(position_of(before, id, k));
    if before[i].id == id && i != k {
        if i < k {
            assert(before[i].id != id);
        } else {
            assert(before[k].id == id);
        }
    }
}

/// A revocation takes every server of the id, and no other.
pub proof fn revocation_takes_one_id(servers: Seq<ServerState>, id: u32, s: ServerState)
    ensures
        servers.filter(other_server(id)).contains(s) <==> servers.contains(s) && s.id != id,
        servers.filter(is_enabled()).contains(s) <==> servers.contains(s) && s.enabled,
        has_server(servers, s.id) <== servers.contains(s),
{
    lemma_filter_contains(servers, other_server(id));
    lemma_filter_contains(servers, is_enabled());
    if servers.contains(s) {
        let i = choose|i: int| 0 <= i < servers.len() && servers[i] == s;
        lemma_first_of(servers, s.id, i);
    }
}

proof fn lemma_first_of(servers: Seq<ServerState>, id: u32, i: int)
    requires
        0 <= i < servers.len(),
        servers[i].id == id,
    ensures
        has_server(servers, id),
    decreases i,
{
    if exists|j: int| 0 <= j < i && (#[trigger] servers[j]).id == id {
        let j = choose|j: int| 0 <= j < i && (#[trigger] servers[j]).id == id;
        lemma_first_of(servers, id, j);
    } else {
        assert(position_of(servers, id, i));
    }
}

} // verus!

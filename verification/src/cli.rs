//! Enrolment and administration, before any of the runtime starts.
//!
//! A server does not choose its own id: enrolment assigns one and mints a key,
//! and the key is what identifies that server from then on.

use crate::servers::{
    enrolled, has_server, highest_id, is_key, other_server, position_of, rekeyed, Server,
    ServerState, Store,
};
use crate::text::{
    chars_of, decimal, decimal_of, number_in, parse_number, part, same_text, string_of, write_chars,
    write_str,
};
use vstd::prelude::*;
use vstd::utf8::{
    decode_utf8, decode_utf8_encode_utf8, encode_utf8, encode_utf8_decode_utf8,
    encode_utf8_valid_utf8, is_char_boundary, is_char_boundary_start_end_of_seq, valid_utf8_split,
};

verus! {

/// What the command line asks for.
pub enum Asked {
    Enroll { name: Seq<char>, host: Seq<char>, port: u16 },
    List,
    Rotate(Option<nat>),
    Revoke(Option<nat>),
    Version,
    Help,
    /// Nothing in particular: run the node.
    Run,
}

/// The arguments as texts.
pub open spec fn words(args: Seq<String>) -> Seq<Seq<char>> {
    args.map_values(|a: String| a@)
}

pub open spec fn word_or(args: Seq<Seq<char>>, i: int, default: Seq<char>) -> Seq<char> {
    if 0 <= i < args.len() {
        args[i]
    } else {
        default
    }
}

/// The port a tap connects to unless told otherwise.
pub const DEFAULT_PORT: u16 = 30120;

/// An address is a host and, after the last colon, a port. A port that is no
/// number is the default one.
pub open spec fn address(addr: Seq<char>) -> (Seq<char>, u16) {
    match addr.index_of_last(':') {
        Some(colon) => (
            addr.take(colon),
            match number_in(addr.skip(colon + 1), u16::MAX as nat) {
                Some(port) => port as u16,
                None => DEFAULT_PORT,
            },
        ),
        None => (addr, DEFAULT_PORT),
    }
}

pub open spec fn number_at(args: Seq<Seq<char>>, i: int) -> Option<nat> {
    if 0 <= i < args.len() {
        number_in(args[i], u32::MAX as nat)
    } else {
        None
    }
}

pub open spec fn asked(args: Seq<Seq<char>>) -> Asked {
    if args.len() == 0 {
        Asked::Run
    } else if args[0] == "enroll"@ {
        let (host, port) = address(word_or(args, 2, "127.0.0.1:30120"@));
        Asked::Enroll { name: word_or(args, 1, "unnamed"@), host, port }
    } else if args[0] == "list"@ {
        Asked::List
    } else if args[0] == "rotate"@ {
        Asked::Rotate(number_at(args, 1))
    } else if args[0] == "revoke"@ {
        Asked::Revoke(number_at(args, 1))
    } else if args[0] == "version"@ || args[0] == "--version"@ || args[0] == "-V"@ {
        Asked::Version
    } else if args[0] == "help"@ || args[0] == "--help"@ || args[0] == "-h"@ {
        Asked::Help
    } else {
        Asked::Run
    }
}

/// Splits an address into a host and a port.
pub fn split_address(addr: &str) -> (r: (String, u16))
    ensures
        (r.0@, r.1) == address(addr@),
{
    let chars = chars_of(addr);
    let mut n: usize = chars.len();
    while n > 0 && chars[n - 1] != ':'
        invariant
            n <= chars.len(),
            forall|j: int| n <= j < chars@.len() ==> chars@[j] != ':',
        decreases n,
    {
        n -= 1;
    }
    proof {
        lemma_last_colon(chars@, n as int);
    }
    if n == 0 {
        return (addr.to_owned(), DEFAULT_PORT);
    }
    let host = part(&chars, 0, n - 1);
    let rest = part(&chars, n, chars.len());
    assert(host@ =~= chars@.take(n - 1));
    assert(rest@ =~= chars@.skip(n as int));
    let port: u16 = match parse_number(&rest, u16::MAX as u64) {
        Some(p) => p as u16,
        None => DEFAULT_PORT,
    };
    (string_of(&host), port)
}

proof fn lemma_last_colon(s: Seq<char>, n: int)
    requires
        0 <= n <= s.len(),
        n > 0 ==> s[n - 1] == ':',
        forall|j: int| n <= j < s.len() ==> s[j] != ':',
    ensures
        n == 0 ==> s.index_of_last(':') is None,
        n > 0 ==> s.index_of_last(':') == Some(n - 1),
{
    s.index_of_last_ensures(':');
    if n == 0 {
        assert(!s.contains(':'));
    } else {
        assert(s.contains(':'));
        let i = s.index_of_last(':')->0;
        assert(s[i] == ':');
    }
}

/// What came of a command.
pub enum Done {
    /// A server was enrolled; the store is to be saved.
    Enrolled(Server),
    /// The store as it stands is to be shown.
    List,
    /// A server has a new key; the store is to be saved.
    Rotated(Server),
    /// A server is gone; the store is to be saved.
    Revoked(u32),
    NoServer(u32),
    Version,
    Help,
    /// Nothing was asked for: run the node.
    Run,
}

#[derive(Debug, Clone, Copy, PartialEq, Eq, Structural)]
pub enum CliError {
    RotateUsage,
    RevokeUsage,
    NoRandomness,
}

impl CliError {
    pub open spec fn words(self) -> Seq<char> {
        match self {
            CliError::RotateUsage => "usage: rotate <server id>"@,
            CliError::RevokeUsage => "usage: revoke <server id>"@,
            CliError::NoRandomness => "system randomness unavailable"@,
        }
    }

    pub fn text(&self) -> (s: &'static str)
        ensures
            s@ == self.words(),
    {
        match self {
            CliError::RotateUsage => "usage: rotate <server id>",
            CliError::RevokeUsage => "usage: revoke <server id>",
            CliError::NoRandomness => "system randomness unavailable",
        }
    }
}

/// What a command does to the store, and what comes of it.
pub open spec fn performed(
    asked: Asked,
    before: Seq<ServerState>,
    after: Seq<ServerState>,
    r: Result<Done, CliError>,
) -> bool {
    match asked {
        Asked::Enroll { name, host, port } => match r {
            Ok(Done::Enrolled(s)) => {
                &&& is_key(s@.key)
                &&& s@ == enrolled((highest_id(before) + 1) as u32, name, host, port, s@.key)
                &&& after == before.push(s@)
            },
            Err(CliError::NoRandomness) => after == before,
            _ => false,
        },
        Asked::List => r matches Ok(Done::List) && after == before,
        Asked::Rotate(None) => r == Err::<Done, CliError>(CliError::RotateUsage) && after == before,
        Asked::Rotate(Some(id)) => match r {
            Ok(Done::Rotated(s)) => is_key(s@.key) && rekeyed(before, id as u32, s@.key, s@, after),
            Ok(Done::NoServer(n)) => n == id && !has_server(before, id as u32) && after == before,
            Err(CliError::NoRandomness) => after == before,
            _ => false,
        },
        Asked::Revoke(None) => r == Err::<Done, CliError>(CliError::RevokeUsage) && after == before,
        Asked::Revoke(Some(id)) => {
            &&& after == before.filter(other_server(id as u32))
            &&& match r {
                Ok(Done::Revoked(n)) => n == id && has_server(before, id as u32),
                Ok(Done::NoServer(n)) => n == id && !has_server(before, id as u32),
                _ => false,
            }
        },
        Asked::Version => r matches Ok(Done::Version) && after == before,
        Asked::Help => r matches Ok(Done::Help) && after == before,
        Asked::Run => r matches Ok(Done::Run) && after == before,
    }
}

/// Carries out what the command line asks for.
pub fn cli(args: &Vec<String>, store: &mut Store) -> (r: Result<Done, CliError>)
    requires
        asked(words(args@)) is Enroll ==> highest_id(old(store)@) < u32::MAX,
    ensures
        performed(asked(words(args@)), old(store)@, final(store)@, r),
{
    if args.len() == 0 {
        return Ok(Done::Run);
    }
    let ghost texts = words(args@);
    assert(texts[0] == args@[0]@);
    let first = args[0].as_str();
    if same_text(first, "enroll") {
        let name: &str = if args.len() > 1 {
            args[1].as_str()
        } else {
            "unnamed"
        };
        let addr: &str = if args.len() > 2 {
            args[2].as_str()
        } else {
            "127.0.0.1:30120"
        };
        let (host, port) = split_address(addr);
        return match store.enroll(name, host.as_str(), port) {
            Ok(s) => Ok(Done::Enrolled(s)),
            Err(_) => Err(CliError::NoRandomness),
        };
    }
    if same_text(first, "list") {
        return Ok(Done::List);
    }
    if same_text(first, "rotate") {
        return rotate(store, id_at(args, 1));
    }
    if same_text(first, "revoke") {
        return revoke(store, id_at(args, 1));
    }
    if same_text(first, "version") || same_text(first, "--version") || same_text(first, "-V") {
        return Ok(Done::Version);
    }
    if same_text(first, "help") || same_text(first, "--help") || same_text(first, "-h") {
        return Ok(Done::Help);
    }
    Ok(Done::Run)
}

pub open spec fn as_number(id: Option<u32>) -> Option<nat> {
    match id {
        Some(n) => Some(n as nat),
        None => None,
    }
}

fn rotate(store: &mut Store, id: Option<u32>) -> (r: Result<Done, CliError>)
    ensures
        performed(Asked::Rotate(as_number(id)), old(store)@, final(store)@, r),
{
    match id {
        Some(id) => match store.rotate(id) {
            Ok(Some(s)) => Ok(Done::Rotated(s)),
            Ok(None) => Ok(Done::NoServer(id)),
            Err(_) => Err(CliError::NoRandomness),
        },
        None => Err(CliError::RotateUsage),
    }
}

fn revoke(store: &mut Store, id: Option<u32>) -> (r: Result<Done, CliError>)
    ensures
        performed(Asked::Revoke(as_number(id)), old(store)@, final(store)@, r),
{
    match id {
        Some(id) => {
            let gone = store.revoke(id);
            proof {
                lemma_has_server(old(store)@, id);
            }
            if gone {
                Ok(Done::Revoked(id))
            } else {
                Ok(Done::NoServer(id))
            }
        },
        None => Err(CliError::RevokeUsage),
    }
}

proof fn lemma_has_server(servers: Seq<ServerState>, id: u32)
    ensures
        has_server(servers, id) <==> exists|i: int|
            0 <= i < servers.len() && (#[trigger] servers[i]).id == id,
{
    if exists|i: int| 0 <= i < servers.len() && (#[trigger] servers[i]).id == id {
        let i = choose|i: int| 0 <= i < servers.len() && (#[trigger] servers[i]).id == id;
        let first = lemma_first_server(servers, id, i);
        assert(position_of(servers, id, first));
    }
    if has_server(servers, id) {
        let i = choose|i: int| #[trigger] position_of(servers, id, i);
        assert(servers[i].id == id);
    }
}

proof fn lemma_first_server(servers: Seq<ServerState>, id: u32, i: int) -> (first: int)
    requires
        0 <= i < servers.len(),
        servers[i].id == id,
    ensures
        position_of(servers, id, first),
    decreases i,
{
    if exists|j: int| 0 <= j < i && (#[trigger] servers[j]).id == id {
        let j = choose|j: int| 0 <= j < i && (#[trigger] servers[j]).id == id;
        lemma_first_server(servers, id, j)
    } else {
        i
    }
}

fn id_at(args: &Vec<String>, i: usize) -> (r: Option<u32>)
    ensures
        as_number(r) == number_at(words(args@), i as int),
{
    if i < args.len() {
        assert(words(args@)[i as int] == args@[i as int]@);
        match parse_number(&chars_of(args[i].as_str()), u32::MAX as u64) {
            Some(n) => Some(n as u32),
            None => None,
        }
    } else {
        None
    }
}

// -- the list of servers ----------------------------------------------------

/// The spaces that bring a text up to a width, none where it is as wide.
pub open spec fn padding(width: nat, len: nat) -> Seq<char> {
    Seq::new(
        if len < width {
            (width - len) as nat
        } else {
            0
        },
        |i: int| ' ',
    )
}

/// The last place up to `n` where text, as bytes, can be cut.
pub open spec fn cut_up_to(bytes: Seq<u8>, n: nat) -> nat
    decreases n,
{
    if n == 0 || is_char_boundary(bytes, n as int) {
        n
    } else {
        cut_up_to(bytes, (n - 1) as nat)
    }
}

/// The first place from `n` on where text, as bytes, can be cut.
pub open spec fn cut_from(bytes: Seq<u8>, n: nat) -> nat
    decreases bytes.len() - n,
{
    if n >= bytes.len() || is_char_boundary(bytes, n as int) {
        n
    } else {
        cut_from(bytes, n + 1)
    }
}

/// The first 8 bytes of a key, all of a shorter one. A character that the cut
/// would go through is left out.
pub open spec fn key_head(key: Seq<char>) -> Seq<char> {
    let bytes = encode_utf8(key);
    let n = if bytes.len() < 8 {
        bytes.len()
    } else {
        8
    };
    decode_utf8(bytes.subrange(0, cut_up_to(bytes, n) as int))
}

/// The last 4 bytes of a key, all of a shorter one. A character that the cut
/// would go through is left out.
pub open spec fn key_tail(key: Seq<char>) -> Seq<char> {
    let bytes = encode_utf8(key);
    let n = if bytes.len() < 4 {
        0
    } else {
        (bytes.len() - 4) as nat
    };
    decode_utf8(bytes.subrange(cut_from(bytes, n) as int, bytes.len() as int))
}

/// How a server is shown: its id, its name and its address in columns, whether
/// it is switched on, and enough of its key to tell it from another.
pub open spec fn shown_line(s: ServerState) -> Seq<char> {
    let id = decimal_of(s.id as nat);
    let port = decimal_of(s.port as nat);
    padding(3, id.len()) + id + "  "@ + s.name + padding(24, s.name.len()) + " "@ + s.host + ":"@
        + port + padding(6, port.len()) + " "@ + (if s.enabled {
        "enabled "@
    } else {
        "DISABLED"@
    }) + "  key "@ + key_head(s.key) + "..."@ + key_tail(s.key)
}

/// A key is cut by bytes: where the 8th byte ends a character, and the last 4
/// begin with one, what is shown are those very bytes.
pub proof fn a_key_is_cut_by_bytes(key: Seq<char>)
    ensures
        ({
            let bytes = encode_utf8(key);
            let n = bytes.len() as int;
            &&& n >= 8 && is_char_boundary(bytes, 8) ==> encode_utf8(key_head(key))
                == bytes.subrange(0, 8)
            &&& n >= 4 && is_char_boundary(bytes, n - 4) ==> encode_utf8(key_tail(key))
                == bytes.subrange(n - 4, n)
        }),
{
    let bytes = encode_utf8(key);
    let n = bytes.len() as int;
    encode_utf8_valid_utf8(key);
    if n >= 8 && is_char_boundary(bytes, 8) {
        valid_utf8_split(bytes, 8);
        decode_utf8_encode_utf8(bytes.subrange(0, 8));
    }
    if n >= 4 && is_char_boundary(bytes, n - 4) {
        valid_utf8_split(bytes, n - 4);
        decode_utf8_encode_utf8(bytes.subrange(n - 4, n));
    }
}

fn pad(out: &mut String, width: usize, len: usize)
    ensures
        final(out)@ == old(out)@ + padding(width as nat, len as nat),
{
    let mut n: usize = len;
    while n < width
        invariant
            len <= n,
            n <= width || n == len,
            out@ =~= old(out)@ + padding(n as nat, len as nat),
        decreases width - n,
    {
        out.push(' ');
        n += 1;
    }
    assert(padding(n as nat, len as nat) =~= padding(width as nat, len as nat));
}

fn head_of(key: &str) -> (head: &str)
    ensures
        head@ == key_head(key@),
{
    let ghost bytes = encode_utf8(key@);
    let len: usize = key.as_bytes().len();
    let mut n: usize = if len < 8 {
        len
    } else {
        8
    };
    let ghost wanted = cut_up_to(bytes, n as nat);
    while n > 0 && !key.is_char_boundary(n)
        invariant
            bytes == encode_utf8(key@),
            wanted == cut_up_to(bytes, n as nat),
        decreases n,
    {
        n -= 1;
    }
    proof {
        encode_utf8_valid_utf8(key@);
        is_char_boundary_start_end_of_seq(bytes);
    }
    let (head, _) = key.split_at(n);
    proof {
        encode_utf8_decode_utf8(head@);
    }
    head
}

fn tail_of(key: &str) -> (tail: &str)
    ensures
        tail@ == key_tail(key@),
{
    let ghost bytes = encode_utf8(key@);
    let len: usize = key.as_bytes().len();
    let mut n: usize = if len < 4 {
        0
    } else {
        len - 4
    };
    let ghost wanted = cut_from(bytes, n as nat);
    while n < len && !key.is_char_boundary(n)
        invariant
            bytes == encode_utf8(key@),
            len == bytes.len(),
            n <= len,
            wanted == cut_from(bytes, n as nat),
        decreases len - n,
    {
        n += 1;
    }
    proof {
        encode_utf8_valid_utf8(key@);
        is_char_boundary_start_end_of_seq(bytes);
    }
    let (_, tail) = key.split_at(n);
    proof {
        encode_utf8_decode_utf8(tail@);
    }
    tail
}

/// One line of the list of servers. A key that is too short to be cut is shown
/// whole.
pub fn listing_line(s: &Server) -> (line: String)
    ensures
        line@ == shown_line(s@),
{
    let id = decimal(s.id as u64);
    let name = chars_of(s.name.as_str());
    let port = decimal(s.port as u64);
    let mut out = String::new();
    pad(&mut out, 3, id.len());
    write_chars(&mut out, &id);
    write_str(&mut out, "  ");
    write_chars(&mut out, &name);
    pad(&mut out, 24, name.len());
    write_str(&mut out, " ");
    write_str(&mut out, s.host.as_str());
    write_str(&mut out, ":");
    write_chars(&mut out, &port);
    pad(&mut out, 6, port.len());
    write_str(&mut out, " ");
    write_str(&mut out, if s.enabled {
        "enabled "
    } else {
        "DISABLED"
    });
    write_str(&mut out, "  key ");
    write_str(&mut out, head_of(s.key.as_str()));
    write_str(&mut out, "...");
    write_str(&mut out, tail_of(s.key.as_str()));
    assert(out@ =~= shown_line(s@));
    out
}

// -- laws -------------------------------------------------------------------

/// An address is a host, a colon and a port, whatever colons the host holds
/// itself. Without a port, or with one that is no port, it is port 30120.
pub proof fn an_address_is_a_host_and_a_port(host: Seq<char>, port: u16, rest: Seq<char>)
    ensures
        address(host + seq![':'] + decimal_of(port as nat)) == (host, port),
        !host.contains(':') ==> address(host) == (host, 30120u16),
        !rest.contains(':') && number_in(rest, 65535) is None ==> address(host + seq![':'] + rest)
            == (host, 30120u16),
{
    let digits = decimal_of(port as nat);
    crate::text::decimal_reads_back(port as nat, 65535);
    crate::text::lemma_decimal_is_digits(port as nat);
    assert(!digits.contains(':')) by {
        if digits.contains(':') {
            let i = choose|i: int| 0 <= i < digits.len() && digits[i] == ':';
            assert(crate::text::is_digit(digits[i]));
        }
    }
    lemma_address(host, digits);
    if !rest.contains(':') {
        lemma_address(host, rest);
    }
    if !host.contains(':') {
        assert forall|j: int| 0 <= j < host.len() implies host[j] != ':' by {
            assert(host.contains(host[j]));
        }
        lemma_last_colon(host, 0);
    }
}

proof fn lemma_address(host: Seq<char>, rest: Seq<char>)
    requires
        !rest.contains(':'),
    ensures
        address(host + seq![':'] + rest).0 == host,
        address(host + seq![':'] + rest).1 == match number_in(rest, u16::MAX as nat) {
            Some(port) => port as u16,
            None => DEFAULT_PORT,
        },
{
    let addr = host + seq![':'] + rest;
    let n = host.len() as int;
    assert(addr[n] == ':');
    assert forall|j: int| n + 1 <= j < addr.len() implies addr[j] != ':' by {
        assert(addr[j] == rest[j - n - 1]);
        assert(rest.contains(rest[j - n - 1]));
    }
    lemma_last_colon(addr, n + 1);
    assert(addr.take(n) =~= host);
    assert(addr.skip(n + 1) =~= rest);
}

proof fn lemma_commands_differ()
    ensures
        "enroll"@ != "list"@,
        "enroll"@ != "rotate"@,
        "enroll"@ != "revoke"@,
        "enroll"@.len() == 6,
        "list"@.len() == 4,
        "rotate"@.len() == 6,
        "revoke"@.len() == 6,
        "rotate"@ != "revoke"@,
        "version"@.len() == 7,
        "--version"@.len() == 9,
        "-V"@.len() == 2,
        "help"@.len() == 4,
        "--help"@.len() == 6,
        "-h"@.len() == 2,
        "list"@ != "help"@,
        "enroll"@ != "--help"@,
        "rotate"@ != "--help"@,
        "revoke"@ != "--help"@,
        "-V"@ != "-h"@,
{
    reveal_strlit("enroll");
    reveal_strlit("list");
    reveal_strlit("rotate");
    reveal_strlit("revoke");
    reveal_strlit("version");
    reveal_strlit("--version");
    reveal_strlit("-V");
    reveal_strlit("help");
    reveal_strlit("--help");
    reveal_strlit("-h");
    assert("enroll"@[0] != "rotate"@[0]);
    assert("enroll"@[0] != "revoke"@[0]);
    assert("rotate"@[1] != "revoke"@[1]);
    assert("list"@[0] != "help"@[0]);
    assert("enroll"@[0] != "--help"@[0]);
    assert("rotate"@[0] != "--help"@[0]);
    assert("revoke"@[0] != "--help"@[0]);
    assert("-V"@[1] != "-h"@[1]);
}

/// Each command is known by its first word, and words that are no command run
/// the node. A server that enrols without a name is called unnamed, and without
/// an address it is on this machine.
pub proof fn a_command_is_its_first_word(args: Seq<Seq<char>>)
    ensures
        args.len() == 0 ==> asked(args) is Run,
        args.len() > 0 ==> {
            let second = if args.len() > 1 {
                number_in(args[1], 4294967295)
            } else {
                None
            };
            let a = args[0];
            &&& a == "enroll"@ <==> asked(args) is Enroll
            &&& a == "enroll"@ ==> asked(args)->name == (if args.len() > 1 {
                args[1]
            } else {
                "unnamed"@
            }) && (asked(args)->host, asked(args)->port) == address(
                if args.len() > 2 {
                    args[2]
                } else {
                    "127.0.0.1:30120"@
                },
            )
            &&& a == "list"@ <==> asked(args) is List
            &&& a == "rotate"@ <==> asked(args) is Rotate
            &&& a == "rotate"@ ==> asked(args)->Rotate_0 == second
            &&& a == "revoke"@ <==> asked(args) is Revoke
            &&& a == "revoke"@ ==> asked(args)->Revoke_0 == second
            &&& a == "version"@ || a == "--version"@ || a == "-V"@ <==> asked(args) is Version
            &&& a == "help"@ || a == "--help"@ || a == "-h"@ <==> asked(args) is Help
        },
{
    lemma_commands_differ();
}

/// What a command leaves of the store. Enrolling adds one server at the end, of
/// the name and the address asked for, with an id above every other's.
/// Revoking takes the servers of one id, and says whether there was one. All
/// other commands leave every server but a rotated one as it was, and those
/// that miss their id change nothing.
pub proof fn a_command_does_what_it_says(
    asked: Asked,
    before: Seq<ServerState>,
    after: Seq<ServerState>,
    r: Result<Done, CliError>,
    i: int,
    s: ServerState,
    id: nat,
)
    requires
        performed(asked, before, after, r),
        highest_id(before) < u32::MAX,
        id <= u32::MAX,
    ensures
        asked is Enroll && r is Ok ==> {
            &&& after.len() == before.len() + 1
            &&& after.drop_last() == before
            &&& after.last().name == asked->name
            &&& after.last().host == asked->host
            &&& after.last().port == asked->port
            &&& after.last().enabled
            &&& after.last().key_hash is None
            &&& after.last().key.len() == 64
            &&& 0 <= i < before.len() ==> before[i].id < after.last().id
            &&& after.last().id == highest_id(before) + 1
            &&& r->Ok_0 is Enrolled && r->Ok_0->Enrolled_0@ == after.last()
        },
        r is Err ==> after == before,
        asked is List || asked is Version || asked is Help || asked is Run ==> r is Ok && after
            == before,
        asked == Asked::Rotate(None) ==> r == Err::<Done, CliError>(CliError::RotateUsage),
        asked == Asked::Revoke(None) ==> r == Err::<Done, CliError>(CliError::RevokeUsage),
        asked == Asked::Revoke(Some(id)) ==> {
            &&& after.contains(s) <==> before.contains(s) && s.id != id
            &&& r is Ok
            &&& before.contains(s) && s.id == id ==> r->Ok_0 is Revoked && r->Ok_0->Revoked_0 == id
        },
        asked == Asked::Rotate(Some(id)) ==> {
            &&& after.len() == before.len()
            &&& 0 <= i < before.len() && before[i].id != id ==> after[i] == before[i]
            &&& before.contains(s) && s.id == id && r is Ok ==> r->Ok_0 is Rotated
        },
{
    if asked is Enroll && r is Ok {
        let made = r->Ok_0->Enrolled_0@;
        crate::servers::a_minted_key_can_be_presented(made.key);
        crate::servers::the_highest_id_is_somebodys(before);
        assert(after.drop_last() =~= before);
    }
    crate::servers::revocation_takes_one_id(before, id as u32, s);
    if asked == Asked::Rotate(Some(id)) {
        if let Ok(Done::Rotated(made)) = r {
            if 0 <= i < before.len() {
                crate::servers::rotation_changes_one_server(
                    before,
                    id as u32,
                    made@.key,
                    made@,
                    after,
                    i,
                );
            }
        }
    }
}

/// The width of a column: as wide as what stands in it, if that is wider.
pub open spec fn width_of(least: int, text: Seq<char>) -> int {
    if text.len() < least {
        least
    } else {
        text.len() as int
    }
}

/// A server is shown in columns: the id up against the right of three, the name
/// in twenty-four, and the port in six behind the host. Whether the server is
/// switched on follows, and the two ends of its key. A column gives way to what
/// is too wide for it, and nothing is cut but the key.
#[verifier::spinoff_prover]
#[verifier::rlimit(100)]
pub proof fn a_server_is_shown_in_columns(s: ServerState)
    ensures
        ({
            let line = shown_line(s);
            let id = decimal_of(s.id as nat);
            let port = decimal_of(s.port as nat);
            let a = width_of(3, id);
            let b = a + 2;
            let c = b + width_of(24, s.name) + 1;
            let d = c + s.host.len();
            let e = d + 1 + width_of(6, port);
            let head = key_head(s.key);
            let tail = key_tail(s.key);
            &&& line.subrange(a - id.len(), a) == id
            &&& forall|i: int| 0 <= i < a - id.len() ==> #[trigger] line[i] == ' '
            &&& line[a] == ' ' && line[a + 1] == ' '
            &&& line.subrange(b, b + s.name.len()) == s.name
            &&& forall|i: int| b + s.name.len() <= i < c ==> #[trigger] line[i] == ' '
            &&& line.subrange(c, d) == s.host
            &&& line[d] == ':'
            &&& line.subrange(d + 1, d + 1 + port.len()) == port
            &&& forall|i: int| d + 1 + port.len() <= i < e + 1 ==> #[trigger] line[i] == ' '
            &&& line.subrange(e + 1, e + 9) == (if s.enabled {
                seq!['e', 'n', 'a', 'b', 'l', 'e', 'd', ' ']
            } else {
                seq!['D', 'I', 'S', 'A', 'B', 'L', 'E', 'D']
            })
            &&& line.subrange(e + 9, e + 15) == seq![' ', ' ', 'k', 'e', 'y', ' ']
            &&& line.subrange(e + 15, e + 15 + head.len()) == head
            &&& line.subrange(e + 15 + head.len(), e + 18 + head.len()) == seq!['.', '.', '.']
            &&& line.skip(e + 18 + head.len()) == tail
        }),
{
    reveal_strlit("  ");
    reveal_strlit(" ");
    reveal_strlit(":");
    reveal_strlit("enabled ");
    reveal_strlit("DISABLED");
    reveal_strlit("  key ");
    reveal_strlit("...");
    let line = shown_line(s);
    let id = decimal_of(s.id as nat);
    let port = decimal_of(s.port as nat);
    let a = width_of(3, id);
    let b = a + 2;
    let c = b + width_of(24, s.name) + 1;
    let d = c + s.host.len();
    let e = d + 1 + width_of(6, port);
    let head = key_head(s.key);
    let tail = key_tail(s.key);
    assert(line.subrange(a - id.len(), a) =~= id);
    assert(line.subrange(b, b + s.name.len()) =~= s.name);
    assert(line.subrange(c, d) =~= s.host);
    assert(line.subrange(d + 1, d + 1 + port.len()) =~= port);
    assert(line.subrange(e + 1, e + 9) =~= (if s.enabled {
        "enabled "@
    } else {
        "DISABLED"@
    }));
    assert("enabled "@ =~= seq!['e', 'n', 'a', 'b', 'l', 'e', 'd', ' ']);
    assert("DISABLED"@ =~= seq!['D', 'I', 'S', 'A', 'B', 'L', 'E', 'D']);
    assert(line.subrange(e + 9, e + 15) =~= "  key "@);
    assert("  key "@ =~= seq![' ', ' ', 'k', 'e', 'y', ' ']);
    assert(line.subrange(e + 15, e + 15 + head.len()) =~= head);
    assert(line.subrange(e + 15 + head.len(), e + 18 + head.len()) =~= "..."@);
    assert("..."@ =~= seq!['.', '.', '.']);
    assert(line.skip(e + 18 + head.len()) =~= tail);
}

} // verus!

//! Just enough HTTP/1.1 for small JSON posts from a known client.

use crate::bytes::{append_text, piece};
use crate::json::{says_all, serde_to_string, written, Reply};
use crate::text::{
    ascii_lowered, chars_of, decimal_of, lemma_split_some, number_in, parse_number, part,
    same_chars, split, split_at_each, string_of, texts_of, what_was_joined_comes_apart,
    write_number, write_str,
};
use vstd::prelude::*;
use vstd::utf8::{decode_utf8, encode_utf8, valid_utf8};

verus! {

// -- finding the end of the head --------------------------------------------

pub open spec fn occurs_at(haystack: Seq<u8>, needle: Seq<u8>, i: int) -> bool {
    0 <= i && i + needle.len() <= haystack.len() && haystack.subrange(i, i + needle.len()) == needle
}

/// Where some bytes first occur in others.
pub fn find(haystack: &[u8], needle: &[u8]) -> (r: Option<usize>)
    requires
        needle@.len() > 0,
    ensures
        match r {
            Some(p) => {
                &&& occurs_at(haystack@, needle@, p as int)
                &&& forall|i: int| 0 <= i < p ==> !#[trigger] occurs_at(haystack@, needle@, i)
            },
            None => forall|i: int| !#[trigger] occurs_at(haystack@, needle@, i),
        },
{
    if haystack.len() < needle.len() {
        return None;
    }
    let all: usize = haystack.len();
    let last: usize = all - needle.len();
    let mut i: usize = 0;
    while i <= last
        invariant
            needle@.len() > 0,
            all == haystack@.len(),
            last == haystack@.len() - needle@.len(),
            i <= last + 1,
            last < usize::MAX,
            forall|j: int| 0 <= j < i ==> !#[trigger] occurs_at(haystack@, needle@, j),
        decreases last + 1 - i,
    {
        let mut k: usize = 0;
        while k < needle.len() && haystack[i + k] == needle[k]
            invariant
                k <= needle@.len(),
                i <= last,
                last == haystack@.len() - needle@.len(),
                all == haystack@.len(),
                forall|j: int| 0 <= j < k ==> haystack@[i + j] == #[trigger] needle@[j],
            decreases needle@.len() - k,
        {
            k += 1;
        }
        if k == needle.len() {
            assert(haystack@.subrange(i as int, i + needle@.len()) =~= needle@);
            return Some(i);
        }
        assert(!occurs_at(haystack@, needle@, i as int)) by {
            if occurs_at(haystack@, needle@, i as int) {
                assert(haystack@.subrange(i as int, i + needle@.len())[k as int]
                    == haystack@[i + k]);
            }
        }
        i += 1;
    }
    None
}

/// The blank line that ends a head.
pub open spec fn head_mark() -> Seq<u8> {
    seq![13u8, 10, 13, 10]
}

/// A head may be this long, in bytes.
pub const HEAD_LIMIT: usize = 65_536;

#[derive(Debug, Clone, Copy, PartialEq, Eq, Structural)]
pub enum Reading {
    /// The head is not whole yet.
    More,
    /// The head is whole, and this long.
    Whole(usize),
    /// The head is longer than anybody needs.
    TooLarge,
}

pub open spec fn is_head_end(buf: Seq<u8>, end: int) -> bool {
    &&& occurs_at(buf, head_mark(), end - 4)
    &&& forall|i: int| 0 <= i < end - 4 ==> !#[trigger] occurs_at(buf, head_mark(), i)
}

/// Holds a blank line, from some place on.
pub open spec fn has_blank_line(buf: Seq<u8>, i: int) -> bool {
    0 <= i && i + 4 <= buf.len() && buf[i] == 13 && buf[i + 1] == 10 && buf[i + 2] == 13 && buf[i
        + 3] == 10
}

/// How far the reading of a head has come, by what was read of it.
pub open spec fn is_read_so_far(buf: Seq<u8>, r: Reading) -> bool {
    match r {
        Reading::Whole(end) => has_blank_line(buf, end - 4) && forall|i: int|
            i < end - 4 ==> !#[trigger] has_blank_line(buf, i),
        Reading::TooLarge => buf.len() > 65536 && forall|i: int| !#[trigger] has_blank_line(buf, i),
        Reading::More => buf.len() <= 65536 && forall|i: int| !#[trigger] has_blank_line(buf, i),
    }
}

proof fn lemma_blank_line(buf: Seq<u8>, i: int)
    ensures
        occurs_at(buf, head_mark(), i) <==> has_blank_line(buf, i),
{
    if 0 <= i && i + 4 <= buf.len() {
        let piece = buf.subrange(i, i + 4);
        assert(piece[0] == buf[i] && piece[1] == buf[i + 1] && piece[2] == buf[i + 2] && piece[3]
            == buf[i + 3]);
        if has_blank_line(buf, i) {
            assert(piece =~= head_mark());
        }
    }
}

/// A head is whole as soon as its blank line is there, however much follows. Two
/// readings of the same bytes come to the same, and a reading that has more to
/// come has not seen the blank line yet.
pub proof fn a_head_is_whole_at_its_blank_line(
    head: Seq<u8>,
    body: Seq<u8>,
    r: Reading,
)
    requires
        is_read_so_far(head + seq![13u8, 10u8, 13u8, 10u8] + body, r),
        forall|i: int| 0 <= i < head.len() ==> #[trigger] head[i] != 13,
    ensures
        r == Reading::Whole((head.len() + 4) as usize),
{
    let buf = head + seq![13u8, 10u8, 13u8, 10u8] + body;
    let n = head.len() as int;
    assert(has_blank_line(buf, n));
    if let Reading::Whole(end) = r {
        if end - 4 < n {
            assert(buf[end - 4] == head[end - 4]);
        }
    }
}

/// How far the reading of a head has come.
pub fn head_status(buf: &[u8]) -> (r: Reading)
    ensures
        is_read_so_far(buf@, r),
        match r {
            Reading::Whole(end) => is_head_end(buf@, end as int) && 4 <= end <= buf@.len(),
            Reading::TooLarge => buf@.len() > HEAD_LIMIT && forall|i: int| !#[trigger]
                occurs_at(buf@, head_mark(), i),
            Reading::More => buf@.len() <= HEAD_LIMIT && forall|i: int| !#[trigger]
                occurs_at(buf@, head_mark(), i),
        },
{
    let mark: [u8; 4] = [13, 10, 13, 10];
    assert(mark@ =~= head_mark());
    let n: usize = buf.len();
    proof {
        assert forall|i: int| occurs_at(buf@, head_mark(), i) <==> #[trigger] has_blank_line(
            buf@,
            i,
        ) by {
            lemma_blank_line(buf@, i);
        }
        assert forall|i: int| #[trigger] occurs_at(buf@, head_mark(), i) <==> has_blank_line(
            buf@,
            i,
        ) by {
            lemma_blank_line(buf@, i);
        }
    }
    match find(buf, &mark) {
        Some(p) => Reading::Whole(p + 4),
        None => if n > HEAD_LIMIT {
            Reading::TooLarge
        } else {
            Reading::More
        },
    }
}

// -- white space ------------------------------------------------------------

/// White space, as Unicode has it.
pub open spec fn is_space(c: char) -> bool {
    let n = c as u32;
    9 <= n <= 13 || n == 0x20 || n == 0x85 || n == 0xa0 || n == 0x1680 || 0x2000 <= n <= 0x200a || n
        == 0x2028 || n == 0x2029 || n == 0x202f || n == 0x205f || n == 0x3000
}

fn space(c: char) -> (b: bool)
    ensures
        b == is_space(c),
{
    let n: u32 = c as u32;
    (9 <= n && n <= 13) || n == 0x20 || n == 0x85 || n == 0xa0 || n == 0x1680 || (0x2000 <= n && n
        <= 0x200a) || n == 0x2028 || n == 0x2029 || n == 0x202f || n == 0x205f || n == 0x3000
}

/// A text without the white space it begins with.
pub open spec fn unspaced_start(s: Seq<char>) -> Seq<char>
    decreases s.len(),
{
    if s.len() > 0 && is_space(s[0]) {
        unspaced_start(s.skip(1))
    } else {
        s
    }
}

/// A text without the white space it ends with.
pub open spec fn unspaced_end(s: Seq<char>) -> Seq<char>
    decreases s.len(),
{
    if s.len() > 0 && is_space(s.last()) {
        unspaced_end(s.drop_last())
    } else {
        s
    }
}

/// A text without the white space around it.
pub open spec fn trimmed(s: Seq<char>) -> Seq<char> {
    unspaced_end(unspaced_start(s))
}

/// What a text begins with up to white space.
pub open spec fn word(s: Seq<char>) -> Seq<char>
    decreases s.len(),
{
    if s.len() > 0 && !is_space(s[0]) {
        seq![s[0]] + word(s.skip(1))
    } else {
        Seq::empty()
    }
}

fn first_solid(s: &Vec<char>, from: usize) -> (i: usize)
    requires
        from <= s.len(),
    ensures
        from <= i <= s.len(),
        unspaced_start(s@.skip(from as int)) == s@.skip(i as int),
{
    let mut i: usize = from;
    while i < s.len() && space(s[i])
        invariant
            from <= i <= s.len(),
            unspaced_start(s@.skip(from as int)) == unspaced_start(s@.skip(i as int)),
        decreases s.len() - i,
    {
        assert(s@.skip(i as int).skip(1) =~= s@.skip(i as int + 1));
        i += 1;
    }
    i
}

fn trim(s: &Vec<char>) -> (out: Vec<char>)
    ensures
        out@ == trimmed(s@),
{
    let from = first_solid(s, 0);
    assert(s@.skip(0) =~= s@);
    let ghost rest = s@.skip(from as int);
    let mut to: usize = s.len();
    assert(rest.take(to - from) =~= rest);
    while to > from && space(s[to - 1])
        invariant
            from <= to <= s.len(),
            rest == s@.skip(from as int),
            unspaced_end(rest) == unspaced_end(rest.take(to - from)),
        decreases to - from,
    {
        assert(rest.take(to - from).drop_last() =~= rest.take(to - from - 1));
        assert(rest.take(to - from).last() == s@[to - 1]);
        to -= 1;
    }
    proof {
        if to > from {
            assert(rest.take(to - from).last() == s@[to - 1]);
        }
        assert(s@.subrange(from as int, to as int) =~= rest.take(to - from));
    }
    part(s, from, to)
}

/// The end of the word that starts somewhere.
fn word_end(s: &Vec<char>, from: usize) -> (to: usize)
    requires
        from <= s.len(),
    ensures
        from <= to <= s.len(),
        word(s@.skip(from as int)) == s@.subrange(from as int, to as int),
{
    let mut to: usize = from;
    while to < s.len() && !space(s[to])
        invariant
            from <= to <= s.len(),
            word(s@.skip(from as int)) == s@.subrange(from as int, to as int) + word(
                s@.skip(to as int),
            ),
        decreases s.len() - to,
    {
        assert(s@.skip(to as int).skip(1) =~= s@.skip(to as int + 1));
        assert(s@.subrange(from as int, to as int) + (seq![s@[to as int]] + word(
            s@.skip(to as int + 1),
        )) =~= s@.subrange(from as int, to as int + 1) + word(s@.skip(to as int + 1)));
        to += 1;
    }
    assert(word(s@.skip(to as int)) =~= Seq::empty());
    assert(s@.subrange(from as int, to as int) + Seq::empty() =~= s@.subrange(
        from as int,
        to as int,
    ));
    to
}

// -- the head ---------------------------------------------------------------

/// Bytes as text, with something in place of whatever is not UTF-8.
pub uninterp spec fn lossy(bytes: Seq<u8>) -> Seq<char>;

/// `String::from_utf8_lossy`: valid UTF-8 comes out as the text it is, and in
/// anything else the invalid parts are replaced.
#[verifier::external_body]
fn string_from_utf8_lossy(bytes: &[u8]) -> (s: String)
    ensures
        s@ == lossy(bytes@),
        valid_utf8(bytes@) ==> s@ == decode_utf8(bytes@),
{
    String::from_utf8_lossy(bytes).into_owned()
}

/// A line without the carriage return it ends with.
pub open spec fn without_return(line: Seq<char>) -> Seq<char> {
    if line.len() > 0 && line.last() == '\r' {
        line.drop_last()
    } else {
        line
    }
}

/// The lines of a text. What follows the last line feed is a line only if there
/// is anything there.
pub open spec fn lines(text: Seq<char>) -> Seq<Seq<char>> {
    let pieces = split(text, '\n');
    let ended = pieces.drop_last().map_values(|l: Seq<char>| without_return(l));
    if pieces.last().len() == 0 {
        ended
    } else {
        ended.push(pieces.last())
    }
}

fn lines_of(text: &Vec<char>) -> (out: Vec<Vec<char>>)
    ensures
        texts_of(out@) == lines(text@),
{
    let pieces = split_at_each(text, '\n');
    let ghost all = texts_of(pieces@);
    let ghost ended = all.drop_last().map_values(|l: Seq<char>| without_return(l));
    let mut out: Vec<Vec<char>> = Vec::new();
    let n: usize = pieces.len() - 1;
    let mut i: usize = 0;
    while i < n
        invariant
            i <= n,
            n == pieces@.len() - 1,
            all == texts_of(pieces@),
            ended == all.drop_last().map_values(|l: Seq<char>| without_return(l)),
            texts_of(out@) =~= ended.take(i as int),
        decreases n - i,
    {
        let p = &pieces[i];
        let to: usize = if p.len() > 0 && p[p.len() - 1] == '\r' {
            p.len() - 1
        } else {
            p.len()
        };
        let line = part(p, 0, to);
        let ghost had = out@;
        assert(all[i as int] == p@);
        assert(line@ =~= without_return(p@));
        assert(ended[i as int] == line@);
        out.push(line);
        assert(texts_of(out@) =~= texts_of(had).push(line@));
        i += 1;
    }
    assert(ended.take(i as int) =~= ended);
    assert(all.last() == pieces@[n as int]@);
    if pieces[n].len() > 0 {
        let last = part(&pieces[n], 0, pieces[n].len());
        let ghost had = out@;
        assert(last@ =~= pieces@[n as int]@);
        out.push(last);
        assert(texts_of(out@) =~= texts_of(had).push(last@));
    }
    out
}

fn lower(s: &Vec<char>) -> (out: Vec<char>)
    ensures
        out@ == ascii_lowered(s@),
{
    let mut out: Vec<char> = Vec::new();
    let mut i: usize = 0;
    while i < s.len()
        invariant
            i <= s.len(),
            out@ =~= ascii_lowered(s@.take(i as int)),
        decreases s.len() - i,
    {
        let c = s[i];
        if 'A' <= c && c <= 'Z' {
            let n: u32 = c as u32 + 32;
            out.push((n as u8) as char);
        } else {
            out.push(c);
        }
        i += 1;
    }
    assert(s@.take(i as int) =~= s@);
    out
}

/// The name and the value of a header line: what stands before the first colon
/// and after it, without white space around either.
pub open spec fn header_of(line: Seq<char>) -> Option<(Seq<char>, Seq<char>)> {
    match line.index_of_first(':') {
        Some(colon) => Some(
            (ascii_lowered(trimmed(line.take(colon))), trimmed(line.skip(colon + 1))),
        ),
        None => None,
    }
}

/// The lines after the first.
pub open spec fn headers_of(lines: Seq<Seq<char>>) -> Seq<Seq<char>> {
    if lines.len() == 0 {
        Seq::empty()
    } else {
        lines.skip(1)
    }
}

/// The value of a header, the last if it is there more than once.
pub open spec fn header_value(lines: Seq<Seq<char>>, name: Seq<char>) -> Option<Seq<char>>
    decreases lines.len(),
{
    if lines.len() == 0 {
        None
    } else {
        match header_of(lines.last()) {
            Some((n, v)) => if n == name {
                Some(v)
            } else {
                header_value(lines.drop_last(), name)
            },
            None => header_value(lines.drop_last(), name),
        }
    }
}

fn split_header(line: &Vec<char>) -> (r: Option<(Vec<char>, Vec<char>)>)
    ensures
        match r {
            Some((n, v)) => header_of(line@) == Some((n@, v@)),
            None => header_of(line@) is None,
        },
{
    let mut i: usize = 0;
    while i < line.len() && line[i] != ':'
        invariant
            i <= line.len(),
            forall|j: int| 0 <= j < i ==> line@[j] != ':',
        decreases line.len() - i,
    {
        i += 1;
    }
    proof {
        line@.index_of_first_ensures(':');
        if i < line.len() {
            assert(line@[i as int] == ':');
            assert(line@.contains(':'));
            let first = line@.index_of_first(':')->0;
            assert(first == i);
        } else {
            assert(!line@.contains(':'));
        }
    }
    if i == line.len() {
        return None;
    }
    let before = part(line, 0, i);
    let after = part(line, i + 1, line.len());
    assert(before@ =~= line@.take(i as int));
    assert(after@ =~= line@.skip(i as int + 1));
    Some((lower(&trim(&before)), trim(&after)))
}

fn find_header(lines: &Vec<Vec<char>>, name: &str) -> (r: Option<Vec<char>>)
    ensures
        match r {
            Some(v) => header_value(headers_of(texts_of(lines@)), name@) == Some(v@),
            None => header_value(headers_of(texts_of(lines@)), name@) is None,
        },
{
    let wanted = chars_of(name);
    let ghost all = headers_of(texts_of(lines@));
    if lines.len() == 0 {
        return None;
    }
    let mut n: usize = lines.len();
    assert(all.take(n - 1) =~= all);
    while n > 1
        invariant
            1 <= n <= lines.len(),
            wanted@ == name@,
            all == headers_of(texts_of(lines@)),
            header_value(all, name@) == header_value(all.take(n - 1), name@),
        decreases n,
    {
        assert(all.take(n - 1).last() == lines@[n - 1]@);
        assert(all.take(n - 1).drop_last() =~= all.take(n - 2));
        if let Some((have, value)) = split_header(&lines[n - 1]) {
            if same_chars(&have, &wanted) {
                return Some(value);
            }
        }
        n -= 1;
    }
    assert(all.take(0) =~= Seq::empty());
    None
}

/// What a head says.
#[verifier::ext_equal]
pub struct HeadState {
    /// The last segment of the path: the name of the message.
    pub path: Seq<char>,
    /// How long the body is said to be.
    pub length: nat,
    /// The server key, if one is presented in a header.
    pub key: Option<Seq<char>>,
    /// The node key, or nothing.
    pub node_key: Seq<char>,
}

/// The word after the method, or `/`.
pub open spec fn target(request_line: Seq<char>) -> Seq<char> {
    let rest = unspaced_start(request_line);
    let after = unspaced_start(rest.skip(word(rest).len() as int));
    if word(after).len() == 0 {
        "/"@
    } else {
        word(after)
    }
}

/// The LAST path segment is the message name, not the whole path: whatever is
/// to the left of the final slash is a proxy's doing.
pub open spec fn message_name(request_line: Seq<char>) -> Seq<char> {
    split(split(target(request_line), '?')[0], '/').last()
}

pub open spec fn head_of(text: Seq<char>) -> HeadState {
    let all = lines(text);
    let headers = headers_of(all);
    HeadState {
        path: message_name(
            if all.len() > 0 {
                all[0]
            } else {
                Seq::empty()
            },
        ),
        length: match header_value(headers, "content-length"@) {
            Some(v) => match number_in(v, usize::MAX as nat) {
                Some(n) => n,
                None => 0,
            },
            None => 0,
        },
        key: header_value(headers, "x-rfx-key"@),
        node_key: match header_value(headers, "x-node-key"@) {
            Some(v) => v,
            None => Seq::empty(),
        },
    }
}

pub struct Head {
    pub path: String,
    pub length: usize,
    pub key: Option<String>,
    pub node_key: String,
}

impl View for Head {
    type V = HeadState;

    open spec fn view(&self) -> HeadState {
        HeadState {
            path: self.path@,
            length: self.length as nat,
            key: match self.key {
                Some(k) => Some(k@),
                None => None,
            },
            node_key: self.node_key@,
        }
    }
}

fn message_name_of(line: &Vec<char>) -> (name: String)
    ensures
        name@ == message_name(line@),
{
    let a = first_solid(line, 0);
    assert(line@.skip(0) =~= line@);
    let b = word_end(line, a);
    let c = first_solid(line, b);
    let d = word_end(line, c);
    proof {
        let rest = unspaced_start(line@);
        assert(rest == line@.skip(a as int));
        assert(word(rest).len() == b - a);
        assert(rest.skip(b - a) =~= line@.skip(b as int));
    }
    let found = if c == d {
        chars_of("/")
    } else {
        part(line, c, d)
    };
    assert(found@ == target(line@));
    let pieces = split_at_each(&found, '?');
    assert(texts_of(pieces@)[0] == pieces@[0]@);
    let segments = split_at_each(&pieces[0], '/');
    let n: usize = segments.len() - 1;
    assert(texts_of(segments@).last() == segments@[n as int]@);
    string_of(&segments[n])
}

/// Reads a head.
pub fn read_head(head: &[u8]) -> (h: Head)
    ensures
        h@ == head_of(lossy(head@)),
{
    let text = string_from_utf8_lossy(head);
    let chars = chars_of(text.as_str());
    let all = lines_of(&chars);
    let ghost texts = texts_of(all@);
    let path = if all.len() > 0 {
        assert(texts[0] == all@[0]@);
        message_name_of(&all[0])
    } else {
        let none: Vec<char> = Vec::new();
        assert(none@ =~= Seq::empty());
        message_name_of(&none)
    };
    let length: usize = match find_header(&all, "content-length") {
        Some(v) => match parse_number(&v, usize::MAX as u64) {
            Some(n) => n as usize,
            None => 0,
        },
        None => 0,
    };
    let key = match find_header(&all, "x-rfx-key") {
        Some(v) => Some(string_of(&v)),
        None => None,
    };
    let node_key = match find_header(&all, "x-node-key") {
        Some(v) => string_of(&v),
        None => String::new(),
    };
    let h = Head { path, length, key, node_key };
    assert(h@.node_key =~= head_of(lossy(head@)).node_key);
    h
}

/// A proxy's prefix makes no difference: whatever path stands before the last
/// slash, the message is the same.
pub proof fn a_path_prefix_makes_no_difference(prefix: Seq<char>, name: Seq<char>)
    requires
        !name.contains('/'),
    ensures
        split(prefix + seq!['/'] + name, '/').last() == name,
        split(name, '/').last() == name,
    decreases name.len(),
{
    let s = prefix + seq!['/'] + name;
    if name.len() == 0 {
        assert(s.last() == '/');
        assert(name =~= Seq::empty());
        assert(s.drop_last() =~= prefix);
    } else {
        let rest = name.drop_last();
        let c = name.last();
        assert(name[name.len() - 1] == c);
        assert(!rest.contains('/')) by {
            if rest.contains('/') {
                let i = choose|i: int| 0 <= i < rest.len() && rest[i] == '/';
                assert(name[i] == '/');
            }
        }
        a_path_prefix_makes_no_difference(prefix, rest);
        assert(s.drop_last() =~= prefix + seq!['/'] + rest);
        assert(rest.push(c) =~= name);
    }
}

// -- the answer -------------------------------------------------------------

pub open spec fn reason(code: u16) -> Seq<char> {
    if code == 200 {
        "OK"@
    } else if code == 400 {
        "Bad Request"@
    } else if code == 401 {
        "Unauthorized"@
    } else if code == 404 {
        "Not Found"@
    } else if code == 409 {
        "Conflict"@
    } else if code == 431 {
        "Request Header Fields Too Large"@
    } else {
        "Error"@
    }
}

fn reason_of(code: u16) -> (s: &'static str)
    ensures
        s@ == reason(code),
{
    if code == 200 {
        "OK"
    } else if code == 400 {
        "Bad Request"
    } else if code == 401 {
        "Unauthorized"
    } else if code == 404 {
        "Not Found"
    } else if code == 409 {
        "Conflict"
    } else if code == 431 {
        "Request Header Fields Too Large"
    } else {
        "Error"
    }
}

/// The head of an answer whose body is this long.
pub open spec fn answer_head(code: u16, length: nat) -> Seq<char> {
    "HTTP/1.1 "@ + decimal_of(code as nat) + " "@ + reason(code)
        + "\r\nContent-Type: application/json\r\nContent-Length: "@ + decimal_of(length)
        + "\r\nConnection: close\r\n\r\n"@
}

/// An answer, head and body.
pub open spec fn answer_bytes(code: u16, text: Seq<char>) -> Seq<u8> {
    encode_utf8(answer_head(code, encode_utf8(text).len())) + encode_utf8(text)
}

/// An answer with a body that is already written.
pub fn respond_with(code: u16, text: &str) -> (out: Vec<u8>)
    ensures
        out@ == answer_bytes(code, text@),
{
    let length: usize = text.as_bytes().len();
    let mut head = String::new();
    write_str(&mut head, "HTTP/1.1 ");
    write_number(&mut head, code as u64);
    write_str(&mut head, " ");
    write_str(&mut head, reason_of(code));
    write_str(&mut head, "\r\nContent-Type: application/json\r\nContent-Length: ");
    write_number(&mut head, length as u64);
    write_str(&mut head, "\r\nConnection: close\r\n\r\n");
    assert(head@ =~= answer_head(code, encode_utf8(text@).len()));
    let mut out: Vec<u8> = Vec::new();
    append_text(&mut out, head.as_str());
    append_text(&mut out, text);
    assert(out@ =~= answer_bytes(code, text@));
    out
}

/// An answer. Its body reads back as what is replied.
pub fn respond(code: u16, reply: &Reply) -> (out: Vec<u8>)
    ensures
        out@ == answer_bytes(code, written(reply@)),
        says_all(written(reply@), reply@),
{
    let text = serde_to_string(reply);
    respond_with(code, text.as_str())
}

/// The body that came along with the head.
pub fn body_so_far(buf: &[u8], head_end: usize) -> (body: Vec<u8>)
    requires
        head_end <= buf@.len(),
    ensures
        body@ == buf@.skip(head_end as int),
{
    let body = piece(buf, head_end, buf.len());
    assert(body@ =~= buf@.skip(head_end as int));
    body
}

// -- base64 -----------------------------------------------------------------

/// The character of six bits.
pub open spec fn sextet(n: int) -> char {
    if n < 26 {
        (n + 'A' as int) as char
    } else if n < 52 {
        (n - 26 + 'a' as int) as char
    } else if n < 62 {
        (n - 52 + '0' as int) as char
    } else if n == 62 {
        '+'
    } else {
        '/'
    }
}

/// Three bytes as one number.
pub open spec fn triple(a: u8, b: u8, c: u8) -> int {
    a * 0x1_0000 + b * 0x100 + c
}

/// Bytes in base64.
pub open spec fn base64(data: Seq<u8>) -> Seq<char>
    decreases data.len(),
{
    if data.len() == 0 {
        Seq::empty()
    } else if data.len() == 1 {
        let n = triple(data[0], 0, 0);
        seq![sextet(n / 0x4_0000), sextet(n / 0x1000 % 64), '=', '=']
    } else if data.len() == 2 {
        let n = triple(data[0], data[1], 0);
        seq![sextet(n / 0x4_0000), sextet(n / 0x1000 % 64), sextet(n / 64 % 64), '=']
    } else {
        let n = triple(data[0], data[1], data[2]);
        seq![
            sextet(n / 0x4_0000),
            sextet(n / 0x1000 % 64),
            sextet(n / 64 % 64),
            sextet(n % 64),
        ] + base64(data.skip(3))
    }
}

fn sextet_of(n: u32) -> (c: char)
    requires
        n < 64,
    ensures
        c == sextet(n as int),
{
    let b: u8 = n as u8;
    if b < 26 {
        (65 + b) as char
    } else if b < 52 {
        (97 + (b - 26)) as char
    } else if b < 62 {
        (48 + (b - 52)) as char
    } else if b == 62 {
        '+'
    } else {
        '/'
    }
}

pub fn b64(data: &[u8]) -> (out: String)
    ensures
        out@ == base64(data@),
{
    let mut out = String::new();
    let all: usize = data.len();
    let mut i: usize = 0;
    assert(data@.skip(0) =~= data@);
    assert(out@ + base64(data@) =~= base64(data@));
    while i < all
        invariant
            i <= all,
            all == data@.len(),
            out@ + base64(data@.skip(i as int)) == base64(data@),
        decreases data@.len() - i,
    {
        let ghost rest = data@.skip(i as int);
        let ghost before = out@;
        let left: usize = all - i;
        let a: u32 = data[i] as u32;
        let b: u32 = if left > 1 {
            data[i + 1] as u32
        } else {
            0
        };
        let c: u32 = if left > 2 {
            data[i + 2] as u32
        } else {
            0
        };
        let n: u32 = a * 0x1_0000 + b * 0x100 + c;
        out.push(sextet_of(n / 0x4_0000));
        out.push(sextet_of(n / 0x1000 % 64));
        out.push(
            if left > 1 {
                sextet_of(n / 64 % 64)
            } else {
                '='
            },
        );
        out.push(
            if left > 2 {
                sextet_of(n % 64)
            } else {
                '='
            },
        );
        let step: usize = if left > 3 {
            3
        } else {
            left
        };
        proof {
            assert(data@.skip(i + step) =~= rest.skip(step as int));
            if left <= 3 {
                assert(rest.skip(step as int) =~= Seq::empty());
            }
            assert(out@ + base64(rest.skip(step as int)) =~= before + base64(rest));
        }
        i += step;
    }
    assert(data@.skip(i as int) =~= Seq::empty());
    assert(out@ + Seq::<char>::empty() =~= out@);
    out
}

/// The six bits of a character.
pub open spec fn six_bits(c: char) -> int {
    if 'A' <= c <= 'Z' {
        c as int - 'A' as int
    } else if 'a' <= c <= 'z' {
        c as int - 'a' as int + 26
    } else if '0' <= c <= '9' {
        c as int - '0' as int + 52
    } else if c == '+' {
        62
    } else {
        63
    }
}

/// The bytes that base64 stands for.
pub open spec fn unbase64(text: Seq<char>) -> Seq<u8>
    decreases text.len(),
{
    if text.len() < 4 {
        Seq::empty()
    } else {
        let a = six_bits(text[0]);
        let b = six_bits(text[1]);
        let c = six_bits(text[2]);
        let d = six_bits(text[3]);
        let first = (a * 4 + b / 16) as u8;
        let second = (b % 16 * 16 + c / 4) as u8;
        let third = (c % 4 * 64 + d) as u8;
        if text[2] == '=' {
            seq![first]
        } else if text[3] == '=' {
            seq![first, second]
        } else {
            seq![first, second, third] + unbase64(text.skip(4))
        }
    }
}

proof fn lemma_sextet(n: int)
    requires
        0 <= n < 64,
    ensures
        six_bits(sextet(n)) == n,
        sextet(n) != '=',
{
}

/// Four groups of six bits, taken apart again.
proof fn lemma_groups(w: int, x: int, y: int, z: int, n: int)
    requires
        0 <= w < 64,
        0 <= x < 64,
        0 <= y < 64,
        0 <= z < 64,
        n == w * 0x4_0000 + x * 0x1000 + y * 64 + z,
    ensures
        n / 0x4_0000 == w,
        n / 0x1000 % 64 == x,
        n / 64 % 64 == y,
        n % 64 == z,
{
    assert(n / 0x1000 == w * 64 + x);
    assert(n / 64 == w * 0x1000 + x * 64 + y);
}

proof fn lemma_triple(a: u8, b: u8, c: u8)
    ensures
        triple(a, b, c) / 0x4_0000 == a / 4,
        triple(a, b, c) / 0x1000 % 64 == a % 4 * 16 + b / 16,
        triple(a, b, c) / 64 % 64 == b % 16 * 4 + c / 64,
        triple(a, b, c) % 64 == c % 64,
{
    let n = triple(a, b, c);
    assert(a == a / 4 * 4 + a % 4);
    assert(b == b / 16 * 16 + b % 16);
    assert(c == c / 64 * 64 + c % 64);
    lemma_groups(
        (a / 4) as int,
        a % 4 * 16 + b / 16,
        b % 16 * 4 + c / 64,
        (c % 64) as int,
        n,
    );
}

/// What is written in base64 reads back.
pub proof fn base64_reads_back(data: Seq<u8>)
    ensures
        unbase64(base64(data)) == data,
    decreases data.len(),
{
    if data.len() > 0 {
        let b = if data.len() > 1 {
            data[1]
        } else {
            0
        };
        let c = if data.len() > 2 {
            data[2]
        } else {
            0
        };
        let n = triple(data[0], b, c);
        lemma_triple(data[0], b, c);
        lemma_sextet(n / 0x4_0000);
        lemma_sextet(n / 0x1000 % 64);
        lemma_sextet(n / 64 % 64);
        lemma_sextet(n % 64);
        if data.len() > 2 {
            base64_reads_back(data.skip(3));
            assert(base64(data).skip(4) =~= base64(data.skip(3)));
            assert(seq![data[0], data[1], data[2]] + data.skip(3) =~= data);
        } else if data.len() == 2 {
            assert(seq![data[0], data[1]] =~= data);
        } else {
            assert(seq![data[0]] =~= data);
        }
    } else {
        assert(data =~= Seq::empty());
    }
}

// -- laws -------------------------------------------------------------------

/// The head ends behind the first blank line there is, and no head is longer
/// than 65536 bytes.
pub proof fn a_head_ends_at_the_first_blank_line(buf: Seq<u8>, end: int)
    requires
        is_head_end(buf, end),
    ensures
        4 <= end <= buf.len(),
        buf[end - 4] == 13 && buf[end - 3] == 10 && buf[end - 2] == 13 && buf[end - 1] == 10,
        forall|i: int|
            0 <= i < end - 4 ==> !(#[trigger] buf[i] == 13 && buf[i + 1] == 10 && buf[i + 2] == 13
                && buf[i + 3] == 10),
        HEAD_LIMIT == 65536,
{
    let found = buf.subrange(end - 4, end);
    assert(found[0] == buf[end - 4] && found[1] == buf[end - 3] && found[2] == buf[end - 2]
        && found[3] == buf[end - 1]);
    assert forall|i: int| 0 <= i < end - 4 implies !(#[trigger] buf[i] == 13 && buf[i + 1] == 10
        && buf[i + 2] == 13 && buf[i + 3] == 10) by {
        assert(!occurs_at(buf, head_mark(), i));
        assert(buf.subrange(i, i + 4).len() == 4);
        if buf[i] == 13 && buf[i + 1] == 10 && buf[i + 2] == 13 && buf[i + 3] == 10 {
            assert(buf.subrange(i, i + 4) =~= head_mark());
        }
    }
}

/// Nothing but white space.
pub open spec fn is_blank(s: Seq<char>) -> bool {
    forall|i: int| 0 <= i < s.len() ==> is_space(#[trigger] s[i])
}

/// Begins and ends with something to see, or holds nothing at all.
pub open spec fn is_solid(s: Seq<char>) -> bool {
    s.len() > 0 ==> !is_space(s[0]) && !is_space(s.last())
}

/// Blanks, tabs and line ends are white space, and letters, digits and the
/// other characters that can be seen are not.
pub proof fn a_blank_is_white_space(c: char)
    ensures
        c as int == 32 || 9 <= c as int <= 13 ==> is_space(c),
        32 < c as int <= 126 ==> !is_space(c),
        (c as int) < 9 || 13 < c as int <= 31 ==> !is_space(c),
        c as int > 126 ==> (is_space(c) <==> set![
            133int,
            160int,
            5760int,
            8192int,
            8193int,
            8194int,
            8195int,
            8196int,
            8197int,
            8198int,
            8199int,
            8200int,
            8201int,
            8202int,
            8232int,
            8233int,
            8239int,
            8287int,
            12288int,
        ].contains(c as int)),
{
}

/// White space around a text makes no difference to it.
pub proof fn white_space_around_makes_no_difference(a: Seq<char>, s: Seq<char>, b: Seq<char>)
    requires
        is_blank(a),
        is_solid(s),
        is_blank(b),
    ensures
        trimmed(a + s + b) == s,
    decreases a.len() + b.len(),
{
    if a.len() > 0 {
        let rest = a.skip(1);
        let all = a + s + b;
        assert(all[0] == a[0]);
        assert(all.skip(1) =~= rest + s + b);
        assert forall|i: int| 0 <= i < rest.len() implies is_space(#[trigger] rest[i]) by {
            assert(rest[i] == a[i + 1]);
        }
        white_space_around_makes_no_difference(rest, s, b);
    } else if s.len() == 0 {
        lemma_blank_start(b);
        assert(a + s + b =~= b);
        assert(s =~= Seq::empty());
    } else {
        let all = a + s + b;
        assert(all[0] == s[0]);
        assert(unspaced_start(all) == all);
        lemma_solid_end(s, b);
        assert(all =~= s + b);
    }
}

proof fn lemma_blank_start(b: Seq<char>)
    requires
        is_blank(b),
    ensures
        unspaced_start(b) == Seq::<char>::empty(),
    decreases b.len(),
{
    if b.len() > 0 {
        let rest = b.skip(1);
        assert forall|i: int| 0 <= i < rest.len() implies is_space(#[trigger] rest[i]) by {
            assert(rest[i] == b[i + 1]);
        }
        lemma_blank_start(rest);
    } else {
        assert(b =~= Seq::empty());
    }
}

proof fn lemma_solid_end(s: Seq<char>, b: Seq<char>)
    requires
        s.len() > 0,
        !is_space(s.last()),
        is_blank(b),
    ensures
        unspaced_end(s + b) == s,
    decreases b.len(),
{
    if b.len() > 0 {
        let rest = b.drop_last();
        lemma_solid_end(s, rest);
        assert((s + b).last() == b[b.len() - 1]);
        assert((s + b).drop_last() =~= s + rest);
    } else {
        assert(s + b =~= s);
    }
}

/// A header is a name and a value around its first colon, with white space
/// around either or none. Its name is the same in capitals.
pub proof fn a_header_is_a_name_and_a_value(
    name: Seq<char>,
    before: Seq<char>,
    after: Seq<char>,
    value: Seq<char>,
    end: Seq<char>,
)
    requires
        !name.contains(':'),
        is_solid(name),
        is_blank(before),
        !before.contains(':'),
        is_blank(after),
        is_solid(value),
        is_blank(end),
    ensures
        header_of(name + before + seq![':'] + (after + value + end)) == Some(
            (ascii_lowered(name), value),
        ),
        header_of(name) is None,
{
    let line = name + before + seq![':'] + (after + value + end);
    let n = (name.len() + before.len()) as int;
    assert(line[n] == ':');
    assert forall|j: int| 0 <= j < n implies line[j] != ':' by {
        if j < name.len() {
            assert(line[j] == name[j]);
            assert(name.contains(name[j]));
        } else {
            assert(line[j] == before[j - name.len()]);
            assert(before.contains(before[j - name.len()]));
        }
    }
    line.index_of_first_ensures(':');
    assert(line.contains(':'));
    let first = line.index_of_first(':')->0;
    assert(first == n);
    assert(line.take(n) =~= Seq::<char>::empty() + name + before);
    assert(line.skip(n + 1) =~= after + value + end);
    white_space_around_makes_no_difference(Seq::empty(), name, before);
    white_space_around_makes_no_difference(after, value, end);
    name.index_of_first_ensures(':');
}

/// Of a header that stands there twice the last counts, and one that does not
/// stand there has no value.
pub proof fn the_last_header_of_a_name_counts(
    lines: Seq<Seq<char>>,
    line: Seq<char>,
    name: Seq<char>,
    other: Seq<char>,
    value: Seq<char>,
)
    ensures
        header_value(Seq::empty(), name) is None,
        header_of(line) == Some((name, value)) ==> header_value(lines.push(line), name) == Some(
            value,
        ),
        header_of(line) == Some((other, value)) && other != name ==> header_value(
            lines.push(line),
            name,
        ) == header_value(lines, name),
        header_of(line) is None ==> header_value(lines.push(line), name) == header_value(
            lines,
            name,
        ),
{
    assert(lines.push(line).drop_last() =~= lines);
}

/// A line ends at a line feed, with or without a carriage return before it.
pub proof fn a_line_ends_at_its_line_feed(line: Seq<char>, rest: Seq<char>)
    requires
        !line.contains('\n'),
        line.len() > 0 ==> line.last() != '\r',
    ensures
        lines(line + seq!['\r'] + seq!['\n'] + rest) == seq![line] + lines(rest),
        lines(line + seq!['\n'] + rest) == seq![line] + lines(rest),
        lines(Seq::empty()).len() == 0,
        line.len() > 0 ==> lines(line) == seq![line],
{
    let returned = line + seq!['\r'];
    assert(!returned.contains('\n')) by {
        if returned.contains('\n') {
            let i = choose|i: int| 0 <= i < returned.len() && returned[i] == '\n';
            assert(line[i] == '\n');
        }
    }
    lemma_line(line, rest);
    lemma_line(returned, rest);
    assert(returned.drop_last() =~= line);
    assert(returned.last() == '\r');
    what_was_joined_comes_apart(Seq::empty(), line, '\n');
    assert(lines(Seq::empty()) =~= Seq::empty());
    if line.len() > 0 {
        assert(lines(line) =~= seq![line]);
    }
}

proof fn lemma_line(line: Seq<char>, rest: Seq<char>)
    requires
        !line.contains('\n'),
    ensures
        lines(line + seq!['\n'] + rest) == seq![without_return(line)] + lines(rest),
{
    what_was_joined_comes_apart(line, rest, '\n');
    what_was_joined_comes_apart(Seq::empty(), line, '\n');
    lemma_split_some(rest, '\n');
    let pieces = split(line + seq!['\n'] + rest, '\n');
    let later = split(rest, '\n');
    assert(pieces == seq![line] + later);
    assert(pieces.last() == later.last());
    assert(pieces.drop_last() =~= seq![line] + later.drop_last());
    assert(lines(line + seq!['\n'] + rest) =~= seq![without_return(line)] + lines(rest));
}

/// A message is the last segment of the path in the request line, whatever
/// stands before it and whatever is asked behind it.
pub proof fn a_message_is_named_by_its_path(
    method: Seq<char>,
    prefix: Seq<char>,
    name: Seq<char>,
    query: Seq<char>,
    version: Seq<char>,
)
    requires
        forall|i: int| 0 <= i < method.len() ==> !is_space(#[trigger] method[i]),
        method.len() > 0,
        forall|i: int| 0 <= i < prefix.len() ==> !is_space(#[trigger] prefix[i]) && prefix[i] != '?',
        forall|i: int|
            0 <= i < name.len() ==> !is_space(#[trigger] name[i]) && name[i] != '?' && name[i]
                != '/',
        forall|i: int| 0 <= i < query.len() ==> !is_space(#[trigger] query[i]),
    ensures
        message_name(
            method + seq![' '] + (prefix + seq!['/'] + name) + seq![' '] + version,
        ) == name,
        message_name(
            method + seq![' '] + (prefix + seq!['/'] + name + seq!['?'] + query) + seq![' ']
                + version,
        ) == name,
{
    let path = prefix + seq!['/'] + name;
    let asked = path + seq!['?'] + query;
    assert(!path.contains('?')) by {
        if path.contains('?') {
            let i = choose|i: int| 0 <= i < path.len() && path[i] == '?';
            if i < prefix.len() {
                assert(prefix[i] == '?');
            } else if i > prefix.len() {
                assert(name[i - prefix.len() - 1] == '?');
            }
        }
    }
    assert(!name.contains('/')) by {
        if name.contains('/') {
            let i = choose|i: int| 0 <= i < name.len() && name[i] == '/';
            assert(name[i] == '/');
        }
    }
    assert forall|i: int| 0 <= i < path.len() implies !is_space(#[trigger] path[i]) by {
        if i < prefix.len() {
            assert(path[i] == prefix[i]);
        } else if i > prefix.len() {
            assert(path[i] == name[i - prefix.len() - 1]);
        }
    }
    assert forall|i: int| 0 <= i < asked.len() implies !is_space(#[trigger] asked[i]) by {
        if i < path.len() {
            assert(asked[i] == path[i]);
        } else if i > path.len() {
            assert(asked[i] == query[i - path.len() - 1]);
        }
    }
    lemma_target(method, path, version);
    lemma_target(method, asked, version);
    a_path_prefix_makes_no_difference(prefix, name);
    what_was_joined_comes_apart(Seq::empty(), path, '?');
    what_was_joined_comes_apart(path, query, '?');
    assert(split(asked, '?')[0] == path);
}

proof fn lemma_target(method: Seq<char>, path: Seq<char>, version: Seq<char>)
    requires
        forall|i: int| 0 <= i < method.len() ==> !is_space(#[trigger] method[i]),
        method.len() > 0,
        forall|i: int| 0 <= i < path.len() ==> !is_space(#[trigger] path[i]),
        path.len() > 0,
    ensures
        target(method + seq![' '] + path + seq![' '] + version) == path,
{
    let line = method + seq![' '] + path + seq![' '] + version;
    assert(line[0] == method[0]);
    assert(unspaced_start(line) == line);
    assert(line =~= method + (seq![' '] + path + seq![' '] + version));
    lemma_word(method, seq![' '] + path + seq![' '] + version);
    let rest = line.skip(method.len() as int);
    assert(rest =~= seq![' '] + path + seq![' '] + version);
    assert(rest[0] == ' ');
    let after = path + (seq![' '] + version);
    assert(rest.skip(1) =~= after);
    assert(after[0] == path[0]);
    assert(unspaced_start(rest) == unspaced_start(after));
    assert(unspaced_start(after) == after);
    lemma_word(path, seq![' '] + version);
}

proof fn lemma_word(w: Seq<char>, rest: Seq<char>)
    requires
        forall|i: int| 0 <= i < w.len() ==> !is_space(#[trigger] w[i]),
        rest.len() > 0,
        rest[0] == ' ',
    ensures
        word(w + rest) == w,
    decreases w.len(),
{
    if w.len() == 0 {
        assert(w + rest =~= rest);
        assert(w =~= Seq::empty());
    } else {
        let tail = w.skip(1);
        assert forall|i: int| 0 <= i < tail.len() implies !is_space(#[trigger] tail[i]) by {
            assert(tail[i] == w[i + 1]);
        }
        lemma_word(tail, rest);
        assert((w + rest)[0] == w[0]);
        assert((w + rest).skip(1) =~= tail + rest);
        assert(seq![w[0]] + tail =~= w);
    }
}

/// A head says its message in its first line and the rest in its headers: the
/// length of the body in decimal, none if it is not said or is no number, and
/// the keys as they are.
pub proof fn a_head_is_its_first_line_and_its_headers(
    text: Seq<char>,
    first: Seq<char>,
    headers: Seq<Seq<char>>,
    n: nat,
)
    requires
        lines(text) == seq![first] + headers,
    ensures
        head_of(text).path == message_name(first),
        header_value(headers, "content-length"@) == Some(decimal_of(n)) && n <= usize::MAX
            ==> head_of(text).length == n,
        header_value(headers, "content-length"@) is None ==> head_of(text).length == 0,
        header_value(headers, "content-length"@) matches Some(v) && number_in(
            v,
            usize::MAX as nat,
        ) is None ==> head_of(text).length == 0,
        head_of(text).key == header_value(headers, "x-rfx-key"@),
        header_value(headers, "x-node-key"@) matches Some(v) ==> head_of(text).node_key == v,
        header_value(headers, "x-node-key"@) is None ==> head_of(text).node_key.len() == 0,
{
    assert(lines(text).skip(1) =~= headers);
    if n <= usize::MAX {
        crate::text::decimal_reads_back(n, usize::MAX as nat);
    }
}

/// The status line an answer begins with.
pub proof fn an_answer_begins_with_its_status(n: nat)
    ensures
        ({
            let more = "\r\nContent-Type: application/json\r\nContent-Length: "@ + decimal_of(n)
                + "\r\nConnection: close\r\n\r\n"@;
            &&& answer_head(200, n) == "HTTP/1.1 200 OK"@ + more
            &&& answer_head(400, n) == "HTTP/1.1 400 Bad Request"@ + more
            &&& answer_head(401, n) == "HTTP/1.1 401 Unauthorized"@ + more
            &&& answer_head(404, n) == "HTTP/1.1 404 Not Found"@ + more
            &&& answer_head(409, n) == "HTTP/1.1 409 Conflict"@ + more
            &&& answer_head(431, n) == "HTTP/1.1 431 Request Header Fields Too Large"@ + more
            &&& answer_head(500, n) == "HTTP/1.1 500 Error"@ + more
        }),
{
    reveal_strlit("HTTP/1.1 ");
    reveal_strlit(" ");
    lemma_status(200, n, '2', '0', '0');
    lemma_status(400, n, '4', '0', '0');
    lemma_status(401, n, '4', '0', '1');
    lemma_status(404, n, '4', '0', '4');
    lemma_status(409, n, '4', '0', '9');
    lemma_status(431, n, '4', '3', '1');
    lemma_status(500, n, '5', '0', '0');
    assert("HTTP/1.1 200 OK"@ =~= "HTTP/1.1 "@ + seq!['2', '0', '0'] + " "@ + "OK"@) by {
        reveal_strlit("HTTP/1.1 200 OK");
        reveal_strlit("OK");
    }
    assert("HTTP/1.1 400 Bad Request"@ =~= "HTTP/1.1 "@ + seq!['4', '0', '0'] + " "@
        + "Bad Request"@) by {
        reveal_strlit("HTTP/1.1 400 Bad Request");
        reveal_strlit("Bad Request");
    }
    assert("HTTP/1.1 401 Unauthorized"@ =~= "HTTP/1.1 "@ + seq!['4', '0', '1'] + " "@
        + "Unauthorized"@) by {
        reveal_strlit("HTTP/1.1 401 Unauthorized");
        reveal_strlit("Unauthorized");
    }
    assert("HTTP/1.1 404 Not Found"@ =~= "HTTP/1.1 "@ + seq!['4', '0', '4'] + " "@ + "Not Found"@)
        by {
        reveal_strlit("HTTP/1.1 404 Not Found");
        reveal_strlit("Not Found");
    }
    assert("HTTP/1.1 409 Conflict"@ =~= "HTTP/1.1 "@ + seq!['4', '0', '9'] + " "@ + "Conflict"@)
        by {
        reveal_strlit("HTTP/1.1 409 Conflict");
        reveal_strlit("Conflict");
    }
    assert("HTTP/1.1 431 Request Header Fields Too Large"@ =~= "HTTP/1.1 "@ + seq!['4', '3', '1']
        + " "@ + "Request Header Fields Too Large"@) by {
        reveal_strlit("HTTP/1.1 431 Request Header Fields Too Large");
        reveal_strlit("Request Header Fields Too Large");
    }
    assert("HTTP/1.1 500 Error"@ =~= "HTTP/1.1 "@ + seq!['5', '0', '0'] + " "@ + "Error"@) by {
        reveal_strlit("HTTP/1.1 500 Error");
        reveal_strlit("Error");
    }
}

proof fn lemma_status(code: u16, n: nat, a: char, b: char, c: char)
    requires
        100 <= code < 1000,
        a == (48 + code / 100) as char,
        b == (48 + code / 10 % 10) as char,
        c == (48 + code % 10) as char,
    ensures
        answer_head(code, n) == "HTTP/1.1 "@ + seq![a, b, c] + " "@ + reason(code) + (
        "\r\nContent-Type: application/json\r\nContent-Length: "@ + decimal_of(n)
            + "\r\nConnection: close\r\n\r\n"@),
{
    reveal_with_fuel(decimal_of, 3);
    assert(code / 10 / 10 == code / 100);
    assert(decimal_of(code as nat) =~= seq![a, b, c]);
    assert(answer_head(code, n) =~= "HTTP/1.1 "@ + seq![a, b, c] + " "@ + reason(code) + (
    "\r\nContent-Type: application/json\r\nContent-Length: "@ + decimal_of(n)
        + "\r\nConnection: close\r\n\r\n"@));
}

/// An answer is its head and, behind it, its body and nothing else, and the head
/// says how many bytes the body has.
pub proof fn an_answer_is_a_head_and_a_body(code: u16, text: Seq<char>)
    ensures
        ({
            let n = encode_utf8(text).len();
            let head = encode_utf8(answer_head(code, n));
            &&& answer_bytes(code, text).take(head.len() as int) == head
            &&& answer_bytes(code, text).skip(head.len() as int) == encode_utf8(text)
        }),
{
    let n = encode_utf8(text).len();
    let head = encode_utf8(answer_head(code, n));
    assert(answer_bytes(code, text).take(head.len() as int) =~= head);
    assert(answer_bytes(code, text).skip(head.len() as int) =~= encode_utf8(text));
}

/// The character of six bits: capital letters, small letters, digits, and a
/// plus sign and a slash.
pub proof fn sixty_four_characters(n: int)
    ensures
        0 <= n < 26 ==> sextet(n) as int == 65 + n,
        26 <= n < 52 ==> sextet(n) as int == 97 + (n - 26),
        52 <= n < 62 ==> sextet(n) as int == 48 + (n - 52),
        sextet(62) == '+',
        sextet(63) == '/',
{
}

/// Three bytes are four characters, six bits each, and what is left at the end
/// is filled up with equals signs.
pub proof fn three_bytes_are_four_characters(a: u8, b: u8, c: u8, rest: Seq<u8>)
    ensures
        base64(Seq::empty()).len() == 0,
        base64(seq![a]) == seq![sextet(a as int / 4), sextet(a % 4 * 16), '=', '='],
        base64(seq![a, b]) == seq![
            sextet(a as int / 4),
            sextet(a % 4 * 16 + b as int / 16),
            sextet(b % 16 * 4),
            '=',
        ],
        base64(seq![a, b, c] + rest) == seq![
            sextet(a as int / 4),
            sextet(a % 4 * 16 + b as int / 16),
            sextet(b % 16 * 4 + c as int / 64),
            sextet(c as int % 64),
        ] + base64(rest),
{
    lemma_triple(a, 0, 0);
    lemma_triple(a, b, 0);
    lemma_triple(a, b, c);
    assert((seq![a, b, c] + rest).skip(3) =~= rest);
}

/// A request line without a path names no message.
pub proof fn a_request_without_a_path_names_nothing(method: Seq<char>)
    requires
        forall|i: int| 0 <= i < method.len() ==> !is_space(#[trigger] method[i]),
    ensures
        message_name(method).len() == 0,
{
    lemma_whole_word(method);
    assert(unspaced_start(method) == method);
    let after = method.skip(method.len() as int);
    assert(after =~= Seq::empty());
    assert(unspaced_start(after) == after);
    assert(word(after).len() == 0);
    reveal_strlit("/");
    assert("/"@ =~= seq!['/']);
    assert(!seq!['/'].contains('?')) by {
        assert(seq!['/'].len() == 1 && seq!['/'][0] == '/');
    }
    what_was_joined_comes_apart(Seq::empty(), seq!['/'], '?');
    assert(split("/"@, '?')[0] == seq!['/']);
    a_path_prefix_makes_no_difference(Seq::empty(), Seq::empty());
    assert(Seq::<char>::empty() + seq!['/'] + Seq::<char>::empty() =~= seq!['/']);
}

proof fn lemma_whole_word(w: Seq<char>)
    requires
        forall|i: int| 0 <= i < w.len() ==> !is_space(#[trigger] w[i]),
    ensures
        word(w) == w,
    decreases w.len(),
{
    if w.len() == 0 {
        assert(w =~= Seq::empty());
    } else {
        let tail = w.skip(1);
        assert forall|i: int| 0 <= i < tail.len() implies !is_space(#[trigger] tail[i]) by {
            assert(tail[i] == w[i + 1]);
        }
        lemma_whole_word(tail);
        assert(seq![w[0]] + tail =~= w);
    }
}

} // verus!

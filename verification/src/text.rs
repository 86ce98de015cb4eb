//! Text, a character at a time: numbers in it, and pieces of it.

use vstd::prelude::*;

verus! {

/// `String::push` puts the character at the end.
pub assume_specification[ String::push ](s: &mut String, c: char)
    ensures
        final(s)@ == old(s)@.push(c),
;

pub open spec fn is_digit(c: char) -> bool {
    '0' <= c <= '9'
}

/// A letter in lower case, if it is an ASCII letter.
pub open spec fn ascii_lower(c: char) -> char {
    if 'A' <= c <= 'Z' {
        ((c as u32 + 32) as u8) as char
    } else {
        c
    }
}

pub open spec fn ascii_lowered(s: Seq<char>) -> Seq<char> {
    s.map_values(|c: char| ascii_lower(c))
}

pub open spec fn all_digits(s: Seq<char>) -> bool {
    forall|i: int| 0 <= i < s.len() ==> is_digit(#[trigger] s[i])
}

pub open spec fn digit_value(c: char) -> nat {
    (c as nat - '0' as nat) as nat
}

/// What a run of decimal digits stands for.
pub open spec fn value_of(s: Seq<char>) -> nat
    decreases s.len(),
{
    if s.len() == 0 {
        0
    } else {
        10 * value_of(s.drop_last()) + digit_value(s.last())
    }
}

/// A whole number written in decimal, no larger than `max`: one plus sign at
/// most, then at least one digit and nothing else.
pub open spec fn number_in(s: Seq<char>, max: nat) -> Option<nat> {
    let digits = if s.len() > 0 && s[0] == '+' {
        s.skip(1)
    } else {
        s
    };
    if digits.len() > 0 && all_digits(digits) && value_of(digits) <= max {
        Some(value_of(digits))
    } else {
        None
    }
}

pub open spec fn digit_char(d: nat) -> char {
    (d + '0' as nat) as char
}

/// A number written in decimal.
pub open spec fn decimal_of(n: nat) -> Seq<char>
    decreases n,
{
    if n < 10 {
        seq![digit_char(n)]
    } else {
        decimal_of(n / 10).push(digit_char(n % 10))
    }
}

proof fn lemma_value_grows(s: Seq<char>, n: int)
    requires
        0 <= n <= s.len(),
    ensures
        value_of(s.take(n)) <= value_of(s),
    decreases s.len() - n,
{
    if n == s.len() {
        assert(s.take(n) =~= s);
    } else {
        lemma_value_grows(s, n + 1);
        assert(s.take(n + 1).drop_last() =~= s.take(n));
    }
}

/// What is written in decimal reads back as the same number.
pub proof fn decimal_reads_back(n: nat, max: nat)
    requires
        n <= max,
    ensures
        number_in(decimal_of(n), max) == Some(n),
{
    lemma_decimal_is_digits(n);
    assert(decimal_of(n)[0] != '+') by {
        assert(is_digit(decimal_of(n)[0]));
    }
}

pub proof fn lemma_decimal_is_digits(n: nat)
    ensures
        decimal_of(n).len() > 0,
        all_digits(decimal_of(n)),
        value_of(decimal_of(n)) == n,
    decreases n,
{
    reveal_with_fuel(value_of, 2);
    if n >= 10 {
        lemma_decimal_is_digits(n / 10);
        assert(decimal_of(n).drop_last() =~= decimal_of(n / 10));
    }
}

/// The characters of a string.
pub fn chars_of(s: &str) -> (out: Vec<char>)
    ensures
        out@ == s@,
{
    let mut out: Vec<char> = Vec::new();
    for c in it: s.chars()
        invariant
            it.seq() == s@,
            out@ =~= s@.take(it.index() as int),
    {
        out.push(c);
    }
    out
}

/// A string of given characters.
pub fn string_of(chars: &[char]) -> (s: String)
    ensures
        s@ == chars@,
{
    let mut s = String::new();
    let mut i: usize = 0;
    while i < chars.len()
        invariant
            i <= chars.len(),
            s@ =~= chars@.take(i as int),
        decreases chars.len() - i,
    {
        s.push(chars[i]);
        i += 1;
    }
    s
}

/// Reads a whole number no larger than `max`.
pub fn parse_number(s: &[char], max: u64) -> (r: Option<u64>)
    ensures
        match r {
            Some(n) => number_in(s@, max as nat) == Some(n as nat),
            None => number_in(s@, max as nat) is None,
        },
{
    let start: usize = if s.len() > 0 && s[0] == '+' {
        1
    } else {
        0
    };
    let ghost digits = s@.skip(start as int);
    assert(start == 0 ==> digits =~= s@);
    if s.len() == start {
        return None;
    }
    let mut n: u64 = 0;
    let mut i: usize = start;
    while i < s.len()
        invariant
            start <= i <= s.len(),
            start < s.len(),
            digits == s@.skip(start as int),
            start == (if s@[0] == '+' {
                1int
            } else {
                0int
            }),
            start == 0 ==> digits == s@,
            all_digits(digits.take(i - start)),
            n == value_of(digits.take(i - start)),
            n <= max,
        decreases s.len() - i,
    {
        let c = s[i];
        proof {
            assert(digits[i - start] == c);
            assert(digits.take(i - start + 1).drop_last() =~= digits.take(i - start));
            assert(digits.take(i - start + 1).last() == c);
        }
        if c < '0' || c > '9' {
            return None;
        }
        let d: u64 = (c as u32 - '0' as u32) as u64;
        if n > (u64::MAX - d) / 10 || 10 * n + d > max {
            proof {
                lemma_value_grows(digits, i - start + 1);
            }
            return None;
        }
        n = 10 * n + d;
        i += 1;
    }
    assert(digits.take(digits.len() as int) =~= digits);
    Some(n)
}

/// Writes a number in decimal.
pub fn decimal(n: u64) -> (s: Vec<char>)
    ensures
        s@ == decimal_of(n as nat),
    decreases n,
{
    let mut s: Vec<char> = if n < 10 {
        Vec::new()
    } else {
        decimal(n / 10)
    };
    let d: u8 = (n % 10) as u8;
    s.push((48 + d) as char);
    assert(s@ =~= decimal_of(n as nat));
    s
}

/// Writes text at the end of a string.
pub fn write_str(out: &mut String, s: &str)
    ensures
        final(out)@ == old(out)@ + s@,
{
    let chars = chars_of(s);
    write_chars(out, &chars);
}

/// Writes characters at the end of a string.
pub fn write_chars(out: &mut String, chars: &Vec<char>)
    ensures
        final(out)@ == old(out)@ + chars@,
{
    let mut i: usize = 0;
    while i < chars.len()
        invariant
            i <= chars.len(),
            out@ =~= old(out)@ + chars@.take(i as int),
        decreases chars.len() - i,
    {
        out.push(chars[i]);
        i += 1;
    }
    assert(chars@.take(i as int) =~= chars@);
}

/// Writes a number at the end of a string, in decimal.
pub fn write_number(out: &mut String, n: u64)
    ensures
        final(out)@ == old(out)@ + decimal_of(n as nat),
{
    let digits = decimal(n);
    write_chars(out, &digits);
}

/// Whether two texts are the same.
pub fn same_text(a: &str, b: &str) -> (same: bool)
    ensures
        same == (a@ == b@),
{
    same_chars(&chars_of(a), &chars_of(b))
}

pub fn same_chars(a: &Vec<char>, b: &Vec<char>) -> (same: bool)
    ensures
        same == (a@ == b@),
{
    if a.len() != b.len() {
        return false;
    }
    let mut i: usize = 0;
    while i < a.len()
        invariant
            i <= a.len(),
            a.len() == b.len(),
            forall|j: int| 0 <= j < i ==> a@[j] == b@[j],
        decreases a.len() - i,
    {
        if a[i] != b[i] {
            return false;
        }
        i += 1;
    }
    assert(a@ =~= b@);
    true
}

// -- pieces -----------------------------------------------------------------

/// The pieces of a text between the places where a character stands.
pub open spec fn split(s: Seq<char>, at: char) -> Seq<Seq<char>>
    decreases s.len(),
{
    if s.len() == 0 {
        seq![Seq::empty()]
    } else {
        let earlier = split(s.drop_last(), at);
        if s.last() == at {
            earlier.push(Seq::empty())
        } else {
            earlier.drop_last().push(earlier.last().push(s.last()))
        }
    }
}

pub proof fn lemma_split_some(s: Seq<char>, at: char)
    ensures
        split(s, at).len() > 0,
    decreases s.len(),
{
    if s.len() > 0 {
        lemma_split_some(s.drop_last(), at);
    }
}

/// A list of pieces of text.
pub open spec fn texts_of(pieces: Seq<Vec<char>>) -> Seq<Seq<char>> {
    pieces.map_values(|p: Vec<char>| p@)
}

/// Splits a text.
pub fn split_at_each(s: &Vec<char>, at: char) -> (out: Vec<Vec<char>>)
    ensures
        texts_of(out@) == split(s@, at),
        out@.len() > 0,
{
    let mut done: Vec<Vec<char>> = Vec::new();
    let mut current: Vec<char> = Vec::new();
    let mut i: usize = 0;
    proof {
        reveal_with_fuel(split, 1);
        assert(split(s@.take(0), at) =~= seq![Seq::empty()]);
        assert(texts_of(done@).push(current@) =~= seq![Seq::empty()]);
    }
    while i < s.len()
        invariant
            i <= s.len(),
            texts_of(done@).push(current@) == split(s@.take(i as int), at),
        decreases s.len() - i,
    {
        let c = s[i];
        let ghost so_far = split(s@.take(i as int), at);
        proof {
            assert(s@.take(i as int + 1).drop_last() =~= s@.take(i as int));
            assert(so_far.drop_last() =~= texts_of(done@));
            assert(so_far.last() == current@);
        }
        if c == at {
            let ghost had = done@;
            let ghost piece = current@;
            done.push(current);
            current = Vec::new();
            assert(texts_of(done@) =~= texts_of(had).push(piece));
            assert(current@ =~= Seq::empty());
        } else {
            current.push(c);
        }
        i += 1;
    }
    let ghost had = done@;
    let ghost piece = current@;
    done.push(current);
    assert(texts_of(done@) =~= texts_of(had).push(piece));
    assert(s@.take(i as int) =~= s@);
    done
}

/// A piece of some text.
pub fn part(s: &Vec<char>, from: usize, to: usize) -> (out: Vec<char>)
    requires
        from <= to <= s.len(),
    ensures
        out@ == s@.subrange(from as int, to as int),
{
    let mut out: Vec<char> = Vec::new();
    let mut i: usize = from;
    while i < to
        invariant
            from <= i <= to <= s.len(),
            out@ =~= s@.subrange(from as int, i as int),
        decreases to - i,
    {
        out.push(s[i]);
        i += 1;
    }
    out
}

/// What follows a prefix, if a text has that prefix.
pub open spec fn after_prefix(s: Seq<char>, prefix: Seq<char>) -> Option<Seq<char>> {
    if prefix.len() <= s.len() && s.take(prefix.len() as int) == prefix {
        Some(s.skip(prefix.len() as int))
    } else {
        None
    }
}

pub fn strip_prefix(s: &Vec<char>, prefix: &Vec<char>) -> (r: Option<Vec<char>>)
    ensures
        match r {
            Some(rest) => after_prefix(s@, prefix@) == Some(rest@),
            None => after_prefix(s@, prefix@) is None,
        },
{
    if prefix.len() > s.len() {
        return None;
    }
    let head = part(s, 0, prefix.len());
    assert(head@ =~= s@.take(prefix@.len() as int));
    if same_chars(&head, prefix) {
        let rest = part(s, prefix.len(), s.len());
        assert(rest@ =~= s@.skip(prefix@.len() as int));
        Some(rest)
    } else {
        None
    }
}

// -- laws -------------------------------------------------------------------

/// Text joined with a character comes apart at it again, and text without it
/// stays in one piece.
pub proof fn what_was_joined_comes_apart(a: Seq<char>, b: Seq<char>, at: char)
    ensures
        split(a + seq![at] + b, at) == split(a, at) + split(b, at),
        !b.contains(at) ==> split(b, at) == seq![b],
    decreases b.len(),
{
    lemma_split_some(a, at);
    lemma_split_some(b, at);
    let s = a + seq![at] + b;
    if b.len() == 0 {
        assert(s.last() == at);
        assert(s.drop_last() =~= a);
        assert(split(s, at) =~= split(a, at) + split(b, at));
        assert(b =~= Seq::empty());
    } else {
        let rest = b.drop_last();
        what_was_joined_comes_apart(a, rest, at);
        lemma_split_some(rest, at);
        assert(s.drop_last() =~= a + seq![at] + rest);
        assert(s.last() == b.last());
        assert(split(s, at) =~= split(a, at) + split(b, at));
        if !b.contains(at) {
            assert(b[b.len() - 1] == b.last());
            assert(!rest.contains(at)) by {
                if rest.contains(at) {
                    let i = choose|i: int| 0 <= i < rest.len() && rest[i] == at;
                    assert(b[i] == at);
                }
            }
            assert(rest.push(b.last()) =~= b);
            assert(split(b, at) =~= seq![b]);
        }
    }
}

/// The pieces of a text, joined again with the character they were parted at.
pub open spec fn joined_with(pieces: Seq<Seq<char>>, at: char) -> Seq<char>
    decreases pieces.len(),
{
    if pieces.len() == 0 {
        Seq::empty()
    } else if pieces.len() == 1 {
        pieces[0]
    } else {
        joined_with(pieces.drop_last(), at) + seq![at] + pieces.last()
    }
}

/// Nothing is lost in parting a text, and no piece holds the character it was
/// parted at.
pub proof fn what_comes_apart_goes_together(s: Seq<char>, at: char)
    ensures
        joined_with(split(s, at), at) == s,
        forall|i: int| 0 <= i < split(s, at).len() ==> !(#[trigger] split(s, at)[i]).contains(at),
    decreases s.len(),
{
    reveal_with_fuel(joined_with, 2);
    lemma_split_some(s, at);
    if s.len() == 0 {
        assert(joined_with(split(s, at), at) =~= s);
    } else {
        let rest = s.drop_last();
        let c = s.last();
        what_comes_apart_goes_together(rest, at);
        lemma_split_some(rest, at);
        let earlier = split(rest, at);
        let all = split(s, at);
        if c == at {
            assert(all.drop_last() =~= earlier);
            assert(joined_with(all, at) =~= s);
        } else {
            assert(all.drop_last() =~= earlier.drop_last());
            assert(earlier[earlier.len() - 1] == earlier.last());
            let piece = earlier.last().push(c);
            assert(!piece.contains(at)) by {
                if piece.contains(at) {
                    let j = choose|j: int| 0 <= j < piece.len() && piece[j] == at;
                    assert(earlier.last()[j] == at);
                }
            }
            assert(joined_with(all, at) =~= joined_with(earlier, at).push(c));
            assert(s =~= rest.push(c));
            assert forall|i: int| 0 <= i < all.len() implies !(#[trigger] all[i]).contains(at) by {
                if i < all.len() - 1 {
                    assert(all[i] == earlier[i]);
                }
            }
        }
    }
}

/// A number grows by a digit on its right as numbers in decimal do, and is
/// written with the ten digits from 0.
pub proof fn a_digit_on_the_right_is_worth_itself(s: Seq<char>, c: char, d: nat)
    ensures
        '0' <= c <= '9' ==> value_of(s.push(c)) == 10 * value_of(s) + (c as int - 48),
        value_of(Seq::empty()) == 0,
        d < 10 ==> decimal_of(d) == seq![(48 + d) as char],
{
    assert(s.push(c).drop_last() =~= s);
}

/// Text is a number if it is digits, behind one plus sign at most, and the
/// number is not too large. Any other text is none.
pub proof fn a_number_is_digits(s: Seq<char>, max: nat)
    ensures
        s.len() > 0 && (forall|i: int| 0 <= i < s.len() ==> '0' <= #[trigger] s[i] <= '9')
            && value_of(s) <= max ==> number_in(s, max) == Some(value_of(s)) && number_in(
            seq!['+'] + s,
            max,
        ) == Some(value_of(s)),
        value_of(s) > max && (forall|i: int| 0 <= i < s.len() ==> '0' <= #[trigger] s[i] <= '9')
            ==> number_in(s, max) is None && number_in(seq!['+'] + s, max) is None,
        s.len() == 0 ==> number_in(s, max) is None && number_in(seq!['+'] + s, max) is None,
        (exists|i: int| 0 <= i < s.len() && !('0' <= #[trigger] s[i] <= '9')) ==> number_in(
            seq!['+'] + s,
            max,
        ) is None,
        (exists|i: int| 1 <= i < s.len() && !('0' <= #[trigger] s[i] <= '9')) ==> number_in(
            s,
            max,
        ) is None,
        s.len() > 0 && s[0] != '+' && !('0' <= s[0] <= '9') ==> number_in(s, max) is None,
{
    let signed = seq!['+'] + s;
    assert(signed.skip(1) =~= s);
    if exists|i: int| 0 <= i < s.len() && !('0' <= #[trigger] s[i] <= '9') {
        let i = choose|i: int| 0 <= i < s.len() && !('0' <= #[trigger] s[i] <= '9');
        assert(!is_digit(s[i]));
    }
    if exists|i: int| 1 <= i < s.len() && !('0' <= #[trigger] s[i] <= '9') {
        let i = choose|i: int| 1 <= i < s.len() && !('0' <= #[trigger] s[i] <= '9');
        assert(!is_digit(s[i]));
        if s[0] == '+' {
            assert(s.skip(1)[i - 1] == s[i]);
        }
    }
    if s.len() > 0 && s[0] != '+' {
        if !('0' <= s[0] <= '9') {
            assert(!is_digit(s[0]));
        }
    }
}

/// The letters A to Z become a to z, and nothing else changes.
pub proof fn only_capital_letters_are_lowered(s: Seq<char>, i: int)
    requires
        0 <= i < s.len(),
    ensures
        ascii_lowered(s).len() == s.len(),
        65 <= s[i] as int <= 90 ==> ascii_lowered(s)[i] as int == s[i] as int + 32,
        !(65 <= s[i] as int <= 90) ==> ascii_lowered(s)[i] == s[i],
{
}

/// What follows a prefix is what was put behind it, and text that does not
/// begin with it has nothing behind it.
pub proof fn what_follows_a_prefix(prefix: Seq<char>, rest: Seq<char>, s: Seq<char>)
    ensures
        after_prefix(prefix + rest, prefix) == Some(rest),
        after_prefix(s, prefix) matches Some(r) ==> s == prefix + r,
        after_prefix(s, prefix) is None ==> s != prefix + rest,
{
    let all = prefix + rest;
    assert(all.take(prefix.len() as int) =~= prefix);
    assert(all.skip(prefix.len() as int) =~= rest);
    if after_prefix(s, prefix) is Some {
        assert(s =~= s.take(prefix.len() as int) + s.skip(prefix.len() as int));
    }
}

} // verus!

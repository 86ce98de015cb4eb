//! Numbers and text as bytes.

use vstd::prelude::*;
use vstd::utf8::encode_utf8;

verus! {

/// Bytes read as one number, the most significant first.
pub open spec fn big_endian(bytes: Seq<u8>) -> nat
    decreases bytes.len(),
{
    if bytes.len() == 0 {
        0
    } else {
        big_endian(bytes.drop_last()) * 0x100 + bytes.last() as nat
    }
}

/// One byte of a number, counted from the least significant.
pub open spec fn byte_of(value: u64, i: nat) -> u8
    decreases i,
{
    if i == 0 {
        (value % 0x100) as u8
    } else {
        byte_of(value / 0x100, (i - 1) as nat)
    }
}

/// The low bytes of a number, the most significant first.
pub open spec fn low_bytes(value: u64, n: nat) -> Seq<u8> {
    Seq::new(n, |i: int| byte_of(value, (n - 1 - i) as nat))
}

pub proof fn lemma_big_endian_push(bytes: Seq<u8>, b: u8)
    ensures
        big_endian(bytes.push(b)) == big_endian(bytes) * 0x100 + b as nat,
{
    assert(bytes.push(b).drop_last() =~= bytes);
}

pub proof fn lemma_big_endian_bound(bytes: Seq<u8>)
    requires
        bytes.len() <= 8,
    ensures
        bytes.len() <= 1 ==> big_endian(bytes) < 0x100,
        bytes.len() <= 2 ==> big_endian(bytes) < 0x1_0000,
        bytes.len() <= 3 ==> big_endian(bytes) < 0x100_0000,
        bytes.len() <= 4 ==> big_endian(bytes) < 0x1_0000_0000,
        bytes.len() <= 5 ==> big_endian(bytes) < 0x100_0000_0000,
        bytes.len() <= 6 ==> big_endian(bytes) < 0x1_0000_0000_0000,
        bytes.len() <= 7 ==> big_endian(bytes) < 0x100_0000_0000_0000,
        big_endian(bytes) < 0x1_0000_0000_0000_0000,
    decreases bytes.len(),
{
    if bytes.len() > 0 {
        lemma_big_endian_bound(bytes.drop_last());
    }
}

pub proof fn lemma_low_bytes(value: u64, n: nat)
    requires
        n <= 8,
    ensures
        n == 0 ==> big_endian(low_bytes(value, n)) == 0,
        n == 1 ==> big_endian(low_bytes(value, n)) == value % 0x100,
        n == 2 ==> big_endian(low_bytes(value, n)) == value % 0x1_0000,
        n == 3 ==> big_endian(low_bytes(value, n)) == value % 0x100_0000,
        n == 4 ==> big_endian(low_bytes(value, n)) == value % 0x1_0000_0000,
        n == 5 ==> big_endian(low_bytes(value, n)) == value % 0x100_0000_0000,
        n == 6 ==> big_endian(low_bytes(value, n)) == value % 0x1_0000_0000_0000,
        n == 7 ==> big_endian(low_bytes(value, n)) == value % 0x100_0000_0000_0000,
        n == 8 ==> big_endian(low_bytes(value, n)) == value,
    decreases n,
{
    if n > 0 {
        let m = (n - 1) as nat;
        lemma_low_bytes(value / 0x100, m);
        lemma_big_endian_push(low_bytes(value / 0x100, m), (value % 0x100) as u8);
        assert(low_bytes(value, n) =~= low_bytes(value / 0x100, m).push((value % 0x100) as u8));
    }
}

/// The low `n` bytes of a number, the most significant first.
pub fn push_low(out: &mut Vec<u8>, value: u64, n: usize)
    requires
        n <= 8,
    ensures
        final(out)@ == old(out)@ + low_bytes(value, n as nat),
    decreases n,
{
    if n > 0 {
        push_low(out, value / 0x100, n - 1);
        out.push((value % 0x100) as u8);
    }
    assert(out@ =~= old(out)@ + low_bytes(value, n as nat));
}

/// Bytes added at the end.
pub fn append(out: &mut Vec<u8>, more: &[u8])
    ensures
        final(out)@ == old(out)@ + more@,
{
    let mut i: usize = 0;
    while i < more.len()
        invariant
            i <= more.len(),
            out@ =~= old(out)@ + more@.take(i as int),
        decreases more.len() - i,
    {
        out.push(more[i]);
        i += 1;
    }
    assert(more@.take(i as int) =~= more@);
}

/// Text added at the end, as UTF-8.
pub fn append_text(out: &mut Vec<u8>, text: &str)
    ensures
        final(out)@ == old(out)@ + encode_utf8(text@),
{
    append(out, text.as_bytes());
}

/// A piece of some bytes.
pub fn piece(bytes: &[u8], from: usize, to: usize) -> (out: Vec<u8>)
    requires
        from <= to <= bytes@.len(),
    ensures
        out@ == bytes@.subrange(from as int, to as int),
{
    let mut out: Vec<u8> = Vec::new();
    let mut i: usize = from;
    while i < to
        invariant
            from <= i <= to <= bytes@.len(),
            out@ =~= bytes@.subrange(from as int, i as int),
        decreases to - i,
    {
        out.push(bytes[i]);
        i += 1;
    }
    out
}

/// Samples as bytes, each the least significant first.
pub open spec fn samples_bytes(pcm: Seq<i16>) -> Seq<u8>
    decreases pcm.len(),
{
    if pcm.len() == 0 {
        Seq::empty()
    } else {
        let s = pcm.last();
        samples_bytes(pcm.drop_last()).push(low_of(s)).push(high_of(s))
    }
}

/// The two's complement bits of a sample.
pub open spec fn bits_of(s: i16) -> int {
    if s >= 0 {
        s as int
    } else {
        s + 0x1_0000
    }
}

pub open spec fn low_of(s: i16) -> u8 {
    (bits_of(s) % 0x100) as u8
}

pub open spec fn high_of(s: i16) -> u8 {
    (bits_of(s) / 0x100) as u8
}

pub fn append_samples(out: &mut Vec<u8>, pcm: &[i16])
    ensures
        final(out)@ == old(out)@ + samples_bytes(pcm@),
{
    let mut i: usize = 0;
    assert(old(out)@ + samples_bytes(pcm@.take(0)) =~= old(out)@);
    while i < pcm.len()
        invariant
            i <= pcm.len(),
            out@ == old(out)@ + samples_bytes(pcm@.take(i as int)),
        decreases pcm.len() - i,
    {
        let s: i16 = pcm[i];
        let bits: u32 = if s >= 0 {
            s as u32
        } else {
            (s as i32 + 0x1_0000) as u32
        };
        assert(pcm@.take(i as int + 1).drop_last() =~= pcm@.take(i as int));
        out.push((bits % 0x100) as u8);
        out.push((bits / 0x100) as u8);
        assert(out@ =~= old(out)@ + samples_bytes(pcm@.take(i as int + 1)));
        i += 1;
    }
    assert(pcm@.take(i as int) =~= pcm@);
}

/// A sample from its two bytes.
pub open spec fn sample_of(low: u8, high: u8) -> i16 {
    let bits = low + high * 0x100;
    if bits < 0x8000 {
        bits as i16
    } else {
        (bits - 0x1_0000) as i16
    }
}

/// Bytes read as samples, each the least significant byte first. An odd byte
/// at the end is no sample.
pub open spec fn bytes_samples(bytes: Seq<u8>) -> Seq<i16> {
    Seq::new(bytes.len() / 2, |i: int| sample_of(bytes[2 * i], bytes[2 * i + 1]))
}

pub fn samples_of(bytes: &[u8]) -> (pcm: Vec<i16>)
    ensures
        pcm@ == bytes_samples(bytes@),
{
    let n: usize = bytes.len() / 2;
    let mut pcm: Vec<i16> = Vec::new();
    let mut i: usize = 0;
    while i < n
        invariant
            i <= n,
            n == bytes@.len() / 2,
            2 * n <= usize::MAX,
            pcm@ =~= bytes_samples(bytes@).take(i as int),
        decreases n - i,
    {
        let bits: i32 = bytes[2 * i] as i32 + bytes[2 * i + 1] as i32 * 0x100;
        let s: i16 = if bits < 0x8000 {
            bits as i16
        } else {
            (bits - 0x1_0000) as i16
        };
        pcm.push(s);
        i += 1;
    }
    assert(bytes_samples(bytes@).take(i as int) =~= bytes_samples(bytes@));
    pcm
}

/// Samples written as bytes read back as the same samples.
pub proof fn samples_read_back(pcm: Seq<i16>)
    ensures
        bytes_samples(samples_bytes(pcm)) == pcm,
        samples_bytes(pcm).len() == 2 * pcm.len(),
    decreases pcm.len(),
{
    if pcm.len() > 0 {
        let rest = pcm.drop_last();
        samples_read_back(rest);
        let bytes = samples_bytes(pcm);
        assert forall|i: int| 0 <= i < pcm.len() implies bytes_samples(bytes)[i] == pcm[i] by {
            if i < rest.len() {
                assert(bytes_samples(samples_bytes(rest))[i] == rest[i]);
                assert(bytes[2 * i] == samples_bytes(rest)[2 * i]);
                assert(bytes[2 * i + 1] == samples_bytes(rest)[2 * i + 1]);
            }
        }
        assert(bytes_samples(bytes) =~= pcm);
    } else {
        assert(bytes_samples(samples_bytes(pcm)) =~= pcm);
    }
}

/// A number of four bytes, byte by byte, and what four bytes are worth.
pub proof fn four_bytes_are_a_number(value: u32, b: Seq<u8>)
    requires
        b.len() == 4,
    ensures
        low_bytes(value as u64, 4) == seq![
            (value as int / 16777216) as u8,
            (value as int / 65536 % 256) as u8,
            (value as int / 256 % 256) as u8,
            (value as int % 256) as u8,
        ],
        big_endian(b) == b[0] * 16777216 + b[1] * 65536 + b[2] * 256 + b[3],
        big_endian(b) <= u32::MAX,
{
    reveal_with_fuel(big_endian, 5);
    reveal_with_fuel(byte_of, 4);
    let one = b.drop_last();
    let two = one.drop_last();
    let three = two.drop_last();
    assert(one[0] == b[0] && two[0] == b[0] && three[0] == b[0]);
    assert(one[1] == b[1] && two[1] == b[1]);
    assert(one[2] == b[2]);
    let v = value as int;
    assert(v / 256 / 256 == v / 65536);
    assert(v / 65536 / 256 == v / 16777216);
    let l = low_bytes(value as u64, 4);
    assert(l[0] == byte_of(value as u64, 3));
    assert(l[1] == byte_of(value as u64, 2));
    assert(l[2] == byte_of(value as u64, 1));
    assert(l[3] == byte_of(value as u64, 0));
    assert(l =~= seq![
        (v / 16777216) as u8,
        (v / 65536 % 256) as u8,
        (v / 256 % 256) as u8,
        (v % 256) as u8,
    ]);
}

/// Each sample is two bytes, the low one first, in two's complement.
pub proof fn a_sample_is_two_bytes_low_first(pcm: Seq<i16>, bytes: Seq<u8>, i: int)
    ensures
        samples_bytes(pcm).len() == pcm.len() * 2,
        0 <= i < pcm.len() ==> (samples_bytes(pcm)[2 * i] + samples_bytes(pcm)[2 * i + 1] * 256)
            % 65536 == pcm[i] as int % 65536,
        bytes_samples(bytes).len() == bytes.len() / 2,
        0 <= i < bytes.len() / 2 ==> (bytes_samples(bytes)[i] - bytes[2 * i] - bytes[2 * i + 1]
            * 256) % 65536 == 0,
    decreases pcm.len(),
{
    if pcm.len() > 0 {
        let rest = pcm.drop_last();
        a_sample_is_two_bytes_low_first(rest, bytes, i);
        if 0 <= i < rest.len() {
            assert(samples_bytes(pcm)[2 * i] == samples_bytes(rest)[2 * i]);
            assert(samples_bytes(pcm)[2 * i + 1] == samples_bytes(rest)[2 * i + 1]);
        }
    }
}

} // verus!

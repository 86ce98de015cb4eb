//! Mumble's own variable-length integer encoding.
//!
//! This is NOT protobuf varint. Mumble's PDS format is big-endian and
//! prefix-coded, and it is used inside voice packets for the session id,
//! sequence number and payload length.
//!
//!   0xxxxxxx                     7-bit positive
//!   10xxxxxx +1                 14-bit
//!   110xxxxx +2                 21-bit
//!   1110xxxx +3                 28-bit
//!   111100__ +4                 32-bit
//!   111101__ +8                 64-bit
//!   111110__ +varint            negative, recursive
//!   111111xx                    negative, small

use crate::bytes::{
    big_endian, byte_of, lemma_big_endian_bound, lemma_big_endian_push, lemma_low_bytes, low_bytes,
    push_low,
};
use vstd::prelude::*;

verus! {

/// The two's complement reading of 64 bits.
pub open spec fn signed(n: nat) -> int {
    if n < 0x8000_0000_0000_0000 {
        n as int
    } else {
        n - 0x1_0000_0000_0000_0000
    }
}

/// The negative of a 64-bit value; the lowest one has none and stays.
pub open spec fn negated(n: int) -> int {
    if n == i64::MIN {
        n
    } else {
        -n
    }
}

/// The value that bytes begin with, and how many of them it takes.
pub open spec fn decoded(bytes: Seq<u8>) -> Option<(int, nat)>
    decreases bytes.len(),
{
    if bytes.len() == 0 {
        None
    } else {
        let first = bytes[0] as int;
        if first < 0x80 {
            Some((first, 1))
        } else if first < 0xc0 {
            following(bytes, 1, (first - 0x80) * 0x100)
        } else if first < 0xe0 {
            following(bytes, 2, (first - 0xc0) * 0x1_0000)
        } else if first < 0xf0 {
            following(bytes, 3, (first - 0xe0) * 0x100_0000)
        } else if first < 0xf4 {
            following(bytes, 4, 0)
        } else if first < 0xf8 {
            match following(bytes, 8, 0) {
                Some((value, used)) => Some((signed(value as nat), used)),
                None => None,
            }
        } else if first < 0xfc {
            match decoded(bytes.skip(1)) {
                Some((value, used)) => Some((negated(value), used + 1)),
                None => None,
            }
        } else {
            Some((-(first - 0xfc), 1))
        }
    }
}

/// A value whose low `n` bytes follow the first byte.
pub open spec fn following(bytes: Seq<u8>, n: nat, high: int) -> Option<(int, nat)> {
    if bytes.len() > n {
        Some((high + big_endian(bytes.subrange(1, n as int + 1)), n + 1))
    } else {
        None
    }
}

/// A number in its shortest form.
pub open spec fn encoded(value: u64) -> Seq<u8> {
    if value < 0x80 {
        seq![value as u8]
    } else if value < 0x4000 {
        seq![(0x80 + value / 0x100) as u8, byte_of(value, 0)]
    } else if value < 0x20_0000 {
        seq![(0xc0 + value / 0x1_0000) as u8, byte_of(value, 1), byte_of(value, 0)]
    } else if value < 0x1000_0000 {
        seq![
            (0xe0 + value / 0x100_0000) as u8,
            byte_of(value, 2),
            byte_of(value, 1),
            byte_of(value, 0),
        ]
    } else if value < 0x1_0000_0000 {
        seq![0xf0u8, byte_of(value, 3), byte_of(value, 2), byte_of(value, 1), byte_of(value, 0)]
    } else {
        seq![
            0xf4u8,
            byte_of(value, 7),
            byte_of(value, 6),
            byte_of(value, 5),
            byte_of(value, 4),
            byte_of(value, 3),
            byte_of(value, 2),
            byte_of(value, 1),
            byte_of(value, 0),
        ]
    }
}

proof fn lemma_decoded_range(bytes: Seq<u8>)
    ensures
        decoded(bytes) matches Some((value, used)) ==> i64::MIN <= value <= i64::MAX,
    decreases bytes.len(),
{
    if bytes.len() > 0 {
        lemma_decoded_range(bytes.skip(1));
        if bytes.len() > 1 {
            lemma_big_endian_bound(bytes.subrange(1, 2));
        }
        if bytes.len() > 2 {
            lemma_big_endian_bound(bytes.subrange(1, 3));
        }
        if bytes.len() > 3 {
            lemma_big_endian_bound(bytes.subrange(1, 4));
        }
        if bytes.len() > 4 {
            lemma_big_endian_bound(bytes.subrange(1, 5));
        }
        if bytes.len() > 8 {
            lemma_big_endian_bound(bytes.subrange(1, 9));
        }
    }
}

/// What is written reads back: whatever follows it, the same number comes out
/// and exactly its own bytes are used. A number too large for the signed value
/// that is read comes out as its two's complement.
pub proof fn written_numbers_read_back(value: u64, rest: Seq<u8>)
    ensures
        decoded(encoded(value) + rest) == Some((signed(value as nat), encoded(value).len())),
{
    let bytes = encoded(value) + rest;
    let low = encoded(value).skip(1);
    assert(low.len() < bytes.len());
    assert(bytes.subrange(1, low.len() as int + 1) =~= low);
    lemma_low_bytes(value, low.len());
    assert(low =~= low_bytes(value, low.len()));
}

/// Reads numbers off a packet, one after another.
pub struct Reader<'a> {
    buf: &'a [u8],
    pos: usize,
}

impl<'a> Reader<'a> {
    #[verifier::type_invariant]
    spec fn within(self) -> bool {
        self.pos <= self.buf@.len()
    }

    /// The whole packet.
    pub closed spec fn bytes(self) -> Seq<u8> {
        self.buf@
    }

    /// How much of it has been read.
    pub closed spec fn at(self) -> nat {
        self.pos as nat
    }

    pub fn new(buf: &'a [u8]) -> (r: Self)
        ensures
            r.bytes() == buf@,
            r.at() == 0,
    {
        Reader { buf, pos: 0 }
    }

    pub fn remaining(&self) -> (n: usize)
        ensures
            n == self.bytes().len() - self.at(),
    {
        proof {
            use_type_invariant(self);
        }
        self.buf.len() - self.pos
    }

    /// Bytes consumed so far: where the codec payload starts after the
    /// variable-length header fields.
    pub fn pos(&self) -> (n: usize)
        ensures
            n == self.at(),
            n <= self.bytes().len(),
    {
        proof {
            use_type_invariant(self);
        }
        self.pos
    }

    fn byte(&mut self) -> (r: Option<u8>)
        ensures
            final(self).bytes() == old(self).bytes(),
            old(self).at() < old(self).bytes().len() ==> r == Some(
                old(self).bytes()[old(self).at() as int],
            ) && final(self).at() == old(self).at() + 1,
            old(self).at() >= old(self).bytes().len() ==> r is None && final(self).at() == old(
                self,
            ).at(),
            old(self).at() <= old(self).bytes().len(),
    {
        proof {
            use_type_invariant(&*self);
        }
        if self.pos < self.buf.len() {
            let b = self.buf[self.pos];
            self.pos = self.pos + 1;
            Some(b)
        } else {
            None
        }
    }

    fn take(&mut self, n: usize) -> (r: Option<u64>)
        requires
            n <= 8,
        ensures
            final(self).bytes() == old(self).bytes(),
            old(self).at() + n <= old(self).bytes().len() ==> {
                &&& final(self).at() == old(self).at() + n
                &&& r matches Some(v) && v == big_endian(
                    old(self).bytes().subrange(old(self).at() as int, old(self).at() + n),
                )
            },
            old(self).at() + n > old(self).bytes().len() ==> r is None && final(self).at() == old(
                self,
            ).bytes().len(),
    {
        let ghost bytes = self.bytes();
        let ghost from = self.at() as int;
        proof {
            use_type_invariant(&*self);
        }
        let mut v: u64 = 0;
        let mut i: usize = 0;
        while i < n
            invariant
                i <= n <= 8,
                bytes == old(self).bytes(),
                from == old(self).at(),
                self.bytes() == bytes,
                self.at() == from + i,
                0 <= from,
                from + i <= bytes.len(),
                v == big_endian(bytes.subrange(from, from + i)),
            decreases n - i,
        {
            let b = match self.byte() {
                Some(b) => b,
                None => {
                    return None;
                },
            };
            proof {
                let so_far = bytes.subrange(from, from + i);
                lemma_big_endian_bound(so_far);
                lemma_big_endian_push(so_far, b);
                assert(bytes.subrange(from, from + i + 1) =~= so_far.push(b));
            }
            v = v * 0x100 + b as u64;
            i += 1;
        }
        Some(v)
    }

    /// A number whose low bytes follow its first byte.
    fn tail(&mut self, n: usize, high: u64) -> (r: Option<i64>)
        requires
            1 <= n <= 4,
            high <= 0x1fff_ffff,
            1 <= old(self).at(),
        ensures
            final(self).bytes() == old(self).bytes(),
            match following(old(self).bytes().skip(old(self).at() - 1), n as nat, high as int) {
                Some((value, used)) => r matches Some(v) && v == value && final(self).at() == old(
                    self,
                ).at() - 1 + used,
                None => r is None && final(self).at() == old(self).bytes().len(),
            },
    {
        proof {
            use_type_invariant(&*self);
            let here = self.bytes().skip(self.at() - 1);
            if self.at() + n <= self.bytes().len() {
                assert(here.subrange(1, n + 1) =~= self.bytes().subrange(
                    self.at() as int,
                    self.at() + n,
                ));
                lemma_big_endian_bound(here.subrange(1, n + 1));
            }
        }
        match self.take(n) {
            Some(low) => Some((high + low) as i64),
            None => None,
        }
    }

    /// The next number, if the packet holds all of it.
    pub fn varint(&mut self) -> (r: Option<i64>)
        ensures
            final(self).bytes() == old(self).bytes(),
            match decoded(old(self).bytes().skip(old(self).at() as int)) {
                Some((value, used)) => r matches Some(v) && v == value && final(self).at() == old(
                    self,
                ).at() + used,
                None => r is None && final(self).at() == old(self).bytes().len(),
            },
    {
        let ghost bytes = self.bytes();
        let ghost from = self.at() as int;
        let mut negative = false;
        // Every recursive sign turns the one after it round.
        loop
            invariant
                bytes == old(self).bytes(),
                from == old(self).at(),
                self.bytes() == bytes,
                0 <= from <= self.at(),
                ({
                    let here = decoded(bytes.skip(self.at() as int));
                    match decoded(bytes.skip(from)) {
                        Some((value, used)) => here matches Some((v, u)) && value == (if negative {
                            negated(v)
                        } else {
                            v
                        }) && from + used == self.at() + u,
                        None => here is None,
                    }
                }),
            decreases bytes.len() - self.at(),
        {
            let ghost at = self.at() as int;
            let ghost here = bytes.skip(at);
            proof {
                use_type_invariant(&*self);
            }
            let first = match self.byte() {
                Some(b) => b,
                None => {
                    return None;
                },
            };
            assert(here[0] == first);
            if first >= 0xf8 && first < 0xfc {
                negative = !negative;
                proof {
                    assert(here.skip(1) =~= bytes.skip(self.at() as int));
                    lemma_decoded_range(here.skip(1));
                }
                continue ;
            }
            let value = if first < 0x80 {
                Some(first as i64)
            } else if first < 0xc0 {
                self.tail(1, (first as u64 - 0x80) * 0x100)
            } else if first < 0xe0 {
                self.tail(2, (first as u64 - 0xc0) * 0x1_0000)
            } else if first < 0xf0 {
                self.tail(3, (first as u64 - 0xe0) * 0x100_0000)
            } else if first < 0xf4 {
                self.tail(4, 0)
            } else if first < 0xf8 {
                proof {
                    if at + 9 <= bytes.len() {
                        assert(here.subrange(1, 9) =~= bytes.subrange(at + 1, at + 9));
                    }
                }
                match self.take(8) {
                    Some(bits) => Some(as_signed(bits)),
                    None => None,
                }
            } else {
                Some(-(first as i64 - 0xfc))
            };
            return match value {
                Some(v) => Some(
                    if negative && v != i64::MIN {
                        -v
                    } else {
                        v
                    },
                ),
                None => None,
            };
        }
    }
}

fn as_signed(bits: u64) -> (v: i64)
    ensures
        v == signed(bits as nat),
{
    let v = bits as i64;
    assert(v == signed(bits as nat)) by {
        assert(bits < 0x8000_0000_0000_0000 ==> bits as i64 == bits) by (bit_vector);
        assert(bits >= 0x8000_0000_0000_0000 ==> bits as i64 == bits - 0x1_0000_0000_0000_0000)
            by (bit_vector);
    }
    v
}

/// Encodes a non-negative value. Only the positive cases are needed: a
/// negative sequence number is never sent.
pub fn write_varint(out: &mut Vec<u8>, value: u64)
    ensures
        final(out)@ == old(out)@ + encoded(value),
{
    proof {
        reveal_with_fuel(byte_of, 9);
    }
    if value < 0x80 {
        out.push(value as u8);
    } else if value < 0x4000 {
        out.push((0x80 + value / 0x100) as u8);
        push_low(out, value, 1);
    } else if value < 0x20_0000 {
        out.push((0xc0 + value / 0x1_0000) as u8);
        push_low(out, value, 2);
    } else if value < 0x1000_0000 {
        out.push((0xe0 + value / 0x100_0000) as u8);
        push_low(out, value, 3);
    } else if value < 0x1_0000_0000 {
        out.push(0xf0);
        push_low(out, value, 4);
    } else {
        out.push(0xf4);
        push_low(out, value, 8);
    }
    assert(out@ =~= old(out)@ + encoded(value));
}

// -- laws -------------------------------------------------------------------

/// A number is read by its first byte, which says how many bytes follow and
/// holds the top of it; the rest is big endian, and a number cut short is none.
pub proof fn a_number_is_read_by_its_first_byte(b: Seq<u8>)
    requires
        b.len() > 0,
    ensures
        b[0] < 0x80 ==> decoded(b) == Some((b[0] as int, 1nat)),
        0x80 <= b[0] < 0xc0 ==> decoded(b) == if b.len() >= 2 {
            Some(((b[0] - 0x80) * 0x100 + b[1], 2nat))
        } else {
            None
        },
        0xc0 <= b[0] < 0xe0 ==> decoded(b) == if b.len() >= 3 {
            Some(((b[0] - 0xc0) * 0x1_0000 + b[1] * 0x100 + b[2], 3nat))
        } else {
            None
        },
        0xe0 <= b[0] < 0xf0 ==> decoded(b) == if b.len() >= 4 {
            Some(((b[0] - 0xe0) * 0x100_0000 + b[1] * 0x1_0000 + b[2] * 0x100 + b[3], 4nat))
        } else {
            None
        },
        0xf0 <= b[0] < 0xf4 ==> decoded(b) == if b.len() >= 5 {
            Some((b[1] * 0x100_0000 + b[2] * 0x1_0000 + b[3] * 0x100 + b[4], 5nat))
        } else {
            None
        },
        0xf4 <= b[0] < 0xf8 && b.len() < 9 ==> decoded(b) is None,
        0xf4 <= b[0] < 0xf8 && b.len() >= 9 ==> {
            let high = b[1] * 0x100_0000 + b[2] * 0x1_0000 + b[3] * 0x100 + b[4];
            let low = b[5] * 0x100_0000 + b[6] * 0x1_0000 + b[7] * 0x100 + b[8];
            let whole = high * 0x1_0000_0000 + low;
            decoded(b) == Some(
                (
                    if b[1] < 0x80 {
                        whole
                    } else {
                        whole - 0x1_0000_0000_0000_0000
                    },
                    9nat,
                ),
            )
        },
        0xf8 <= b[0] < 0xfc ==> match decoded(b.skip(1)) {
            Some((value, used)) => decoded(b) == Some(
                (
                    if value == -0x8000_0000_0000_0000 {
                        value
                    } else {
                        -value
                    },
                    used + 1,
                ),
            ),
            None => decoded(b) is None,
        },
        0xfc <= b[0] ==> decoded(b) == Some((0xfc - b[0], 1nat)),
{
    reveal_with_fuel(big_endian, 9);
    let n = b.len() as int;
    if n >= 2 {
        assert(b.subrange(1, 2).drop_last() =~= Seq::empty());
    }
    if n >= 3 {
        assert(b.subrange(1, 3).drop_last() =~= b.subrange(1, 2));
    }
    if n >= 4 {
        assert(b.subrange(1, 4).drop_last() =~= b.subrange(1, 3));
    }
    if n >= 5 {
        assert(b.subrange(1, 5).drop_last() =~= b.subrange(1, 4));
    }
    if n >= 9 {
        assert(b.subrange(1, 6).drop_last() =~= b.subrange(1, 5));
        assert(b.subrange(1, 7).drop_last() =~= b.subrange(1, 6));
        assert(b.subrange(1, 8).drop_last() =~= b.subrange(1, 7));
        assert(b.subrange(1, 9).drop_last() =~= b.subrange(1, 8));
    }
}

/// A number is written in the fewest bytes that hold it.
pub proof fn a_number_is_written_in_the_fewest_bytes(value: u64)
    ensures
        encoded(value).len() == if value < 0x80 {
            1nat
        } else if value < 0x4000 {
            2
        } else if value < 0x20_0000 {
            3
        } else if value < 0x1000_0000 {
            4
        } else if value < 0x1_0000_0000 {
            5
        } else {
            9
        },
{
}

} // verus!

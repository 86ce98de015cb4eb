//! A digital hop: vocode, corrupt, decode.
//!
//! A corrupted vocoder frame changes decoder state and that divergence IS the
//! artifact, so every hop has a vocoder of its own.

use crate::bytes::append;
use crate::dsp::{drawn, rolled, stepped, Rng, FRAME};
use codec2::{Codec2, Codec2Mode};
use vstd::prelude::*;

verus! {

/// A vocoder, coding one way or the other. What is inside is its own affair.
#[verifier::external_type_specification]
#[verifier::external_body]
pub struct ExCodec2(Codec2);

/// The vocoder's bit rate. Both rates code frames of the same length.
#[derive(Debug, Clone, Copy, PartialEq, Eq, Structural)]
pub enum Rate {
    /// 3200 bps, the closer PERCEPTUAL match to what a P25 radio uses.
    Full,
    /// 2400 bps, the rate-matched choice, and audibly rougher.
    Matched,
}

/// The rate a setting asks for.
pub open spec fn rate_asked(setting: Option<&str>) -> Rate {
    match setting {
        Some(s) => if s@ == "2400"@ {
            Rate::Matched
        } else {
            Rate::Full
        },
        None => Rate::Full,
    }
}

/// Only a setting of 2400 asks for the matched rate. Any other, and none, is the
/// full one.
pub proof fn the_matched_rate_has_to_be_asked_for(setting: Option<&str>)
    ensures
        rate_asked(setting) is Matched <==> setting is Some && setting->0@ == seq![
            '2',
            '4',
            '0',
            '0',
        ],
{
    reveal_strlit("2400");
    assert("2400"@ =~= seq!['2', '4', '0', '0']);
}

impl Rate {
    /// The rate a setting asks for: `2400` is the one that has to be asked for.
    pub fn of_setting(setting: Option<&str>) -> (r: Rate)
        ensures
            r == rate_asked(setting),
            r == (if setting is Some && setting->0@ == "2400"@ {
                Rate::Matched
            } else {
                Rate::Full
            }),
    {
        match setting {
            Some(s) => if crate::text::same_text(s, "2400") {
                Rate::Matched
            } else {
                Rate::Full
            },
            None => Rate::Full,
        }
    }

    /// Bytes in one coded frame.
    pub open spec fn bytes(self) -> nat {
        match self {
            Rate::Full => 8,
            Rate::Matched => 6,
        }
    }
}

/// A vocoder at one of the two rates, and what it was handed and gave back, in
/// order. The items that call the codec make one, with a codec at that very
/// rate, and keep the record of what reached the codec; nothing else writes the
/// fields.
pub struct Vocoder {
    codec: Codec2,
    rate: Rate,
    encoded: Ghost<Seq<(Seq<i16>, Seq<u8>)>>,
    decoded: Ghost<Seq<(Seq<u8>, Seq<i16>)>>,
}

impl Vocoder {
    pub closed spec fn rate(self) -> Rate {
        self.rate
    }

    /// Every frame of speech it was handed, with what it made of it.
    pub closed spec fn encoded(self) -> Seq<(Seq<i16>, Seq<u8>)> {
        self.encoded@
    }

    /// Every coded frame it was handed, with the speech it made of it.
    pub closed spec fn decoded(self) -> Seq<(Seq<u8>, Seq<i16>)> {
        self.decoded@
    }

    pub fn new(rate: Rate) -> (v: Self)
        ensures
            v.rate() == rate,
            v.encoded() == Seq::<(Seq<i16>, Seq<u8>)>::empty(),
            v.decoded() == Seq::<(Seq<u8>, Seq<i16>)>::empty(),
    {
        codec2_new(rate)
    }

    /// Codes one frame of speech.
    pub fn encode(&mut self, speech: &[i16]) -> (bits: Vec<u8>)
        requires
            speech@.len() == FRAME,
        ensures
            final(self).rate() == old(self).rate(),
            bits@.len() == old(self).rate().bytes(),
            final(self).encoded() == old(self).encoded().push((speech@, bits@)),
            final(self).decoded() == old(self).decoded(),
    {
        codec2_encode(self, speech)
    }

    /// Decodes one frame.
    pub fn decode(&mut self, bits: &[u8]) -> (speech: Vec<i16>)
        requires
            bits@.len() == old(self).rate().bytes(),
        ensures
            final(self).rate() == old(self).rate(),
            speech@.len() == FRAME,
            final(self).decoded() == old(self).decoded().push((bits@, speech@)),
            final(self).encoded() == old(self).encoded(),
    {
        codec2_decode(self, bits)
    }
}

/// `Codec2::new`, at 3200 or at 2400 bps: a codec at the rate asked for, which
/// has been handed nothing. The rest of the state it starts in is left open.
#[verifier::external_body]
fn codec2_new(rate: Rate) -> (v: Vocoder)
    ensures
        v.rate() == rate,
        v.encoded() == Seq::<(Seq<i16>, Seq<u8>)>::empty(),
        v.decoded() == Seq::<(Seq<u8>, Seq<i16>)>::empty(),
{
    let codec = match rate {
        Rate::Full => Codec2::new(Codec2Mode::MODE_3200),
        Rate::Matched => Codec2::new(Codec2Mode::MODE_2400),
    };
    Vocoder { codec, rate, encoded: Ghost(Seq::empty()), decoded: Ghost(Seq::empty()) }
}

/// `Codec2::bits_per_frame`: 64 bits at 3200 bps and 48 at 2400.
#[verifier::external_body]
fn codec2_bits_per_frame(v: &Vocoder) -> (n: usize)
    ensures
        n == v.rate().bytes() * 8,
{
    v.codec.bits_per_frame()
}

/// `Codec2::samples_per_frame`: 160 samples at either rate.
#[verifier::external_body]
fn codec2_samples_per_frame(v: &Vocoder) -> (n: usize)
    ensures
        n == FRAME,
{
    v.codec.samples_per_frame()
}

/// `Codec2::encode`, into a buffer of one frame's bytes. The codec is handed this
/// very speech, and what it gives back goes on record beside it. Which bits come out is
/// left open: they are computed in floating point, from this frame and from
/// every frame before it, and may differ from one machine to the next.
#[verifier::external_body]
fn codec2_encode(v: &mut Vocoder, speech: &[i16]) -> (bits: Vec<u8>)
    requires
        speech@.len() == FRAME,
    ensures
        final(v).rate() == old(v).rate(),
        final(v).encoded() == old(v).encoded().push((speech@, bits@)),
        final(v).decoded() == old(v).decoded(),
        bits@.len() == old(v).rate().bytes(),
{
    let mut bits = vec![0u8; v.codec.bits_per_frame().div_ceil(8)];
    v.codec.encode(&mut bits, speech);
    bits
}

/// `Codec2::decode`, into a buffer of one frame's samples. The codec is handed
/// these very bits, and what it gives back goes on record beside them. Which
/// samples come out is left open: they are computed in floating point, from these bits, from
/// every frame before them, and from a random generator that all the decoders
/// of a process draw on.
#[verifier::external_body]
fn codec2_decode(v: &mut Vocoder, bits: &[u8]) -> (speech: Vec<i16>)
    requires
        bits@.len() == old(v).rate().bytes(),
    ensures
        final(v).rate() == old(v).rate(),
        final(v).encoded() == old(v).encoded(),
        final(v).decoded() == old(v).decoded().push((bits@, speech@)),
        speech@.len() == FRAME,
{
    let mut speech = vec![0i16; v.codec.samples_per_frame()];
    v.codec.decode(&mut speech, bits);
    speech
}

/// The frame size of a rate: samples, and bytes.
pub fn frame_size(rate: Rate) -> (r: (usize, usize))
    ensures
        r.0 == FRAME,
        r.1 == rate.bytes(),
{
    let probe = Vocoder::new(rate);
    (codec2_samples_per_frame(&probe), (codec2_bits_per_frame(&probe) + 7) / 8)
}

// -- what a bad link does to a frame ----------------------------------------

/// A frame with one bit turned over.
pub open spec fn flipped(frame: Seq<u8>, bit: int) -> Seq<u8> {
    frame.update(bit / 8, frame[bit / 8] ^ (1u8 << ((bit % 8) as u8)))
}

/// A frame with some bits turned over, picked by the generator one after
/// another, and the state that leaves the generator in.
pub open spec fn damaged(frame: Seq<u8>, rng: u64, errors: nat) -> (Seq<u8>, u64)
    decreases errors,
{
    if errors == 0 {
        (frame, rng)
    } else {
        let (earlier, state) = damaged(frame, rng, (errors - 1) as nat);
        let next = stepped(state);
        (flipped(earlier, drawn(next) as int % (frame.len() as int * 8)), next)
    }
}

/// A link that loses frames and turns bits over.
#[verifier::ext_equal]
pub struct LineState {
    /// The last frame that got through whole.
    pub previous: Seq<u8>,
    pub rng: u64,
    /// How likely a frame is to be lost, out of 2^53.
    pub erasure: u64,
    /// How many bits of a surviving frame are turned over.
    pub bit_errors: u32,
}

impl LineState {
    /// What becomes of a frame, and of the link. A lost frame is the previous
    /// one again: "the freeze", and it is a real P25 artifact.
    pub open spec fn crossed(self, frame: Seq<u8>) -> (LineState, Seq<u8>) {
        let (rng, lost) = rolled(self.rng, self.erasure);
        if lost {
            (LineState { rng, ..self }, self.previous)
        } else {
            let (out, after) = damaged(frame, rng, self.bit_errors as nat);
            (LineState { rng: after, previous: frame, ..self }, out)
        }
    }
}

pub struct Line {
    previous: Vec<u8>,
    rng: Rng,
    erasure: u64,
    bit_errors: u32,
}

impl View for Line {
    type V = LineState;

    closed spec fn view(&self) -> LineState {
        LineState {
            previous: self.previous@,
            rng: self.rng.state,
            erasure: self.erasure,
            bit_errors: self.bit_errors,
        }
    }
}

impl LineState {
    /// A link on which nothing has been sent yet.
    pub open spec fn fresh(frame_bytes: nat, seed: u64, erasure: u64, bit_errors: u32) -> LineState {
        LineState {
            previous: Seq::new(frame_bytes, |i: int| 0u8),
            rng: 0x9E37_79B9_7F4A_7C15u64 ^ seed,
            erasure,
            bit_errors,
        }
    }
}

/// A fresh link has the loss and the damage it was made with, repeats silence if
/// its first frame is lost, and two of different seeds are dealt different luck.
pub proof fn a_fresh_link_is_as_it_was_made(
    frame_bytes: nat,
    seed: u64,
    other: u64,
    erasure: u64,
    bit_errors: u32,
)
    ensures
        ({
            let line = LineState::fresh(frame_bytes, seed, erasure, bit_errors);
            &&& line.erasure == erasure
            &&& line.bit_errors == bit_errors
            &&& line.previous.len() == frame_bytes
            &&& forall|i: int| 0 <= i < frame_bytes ==> #[trigger] line.previous[i] == 0
            &&& line.rng ^ seed == 0x9E37_79B9_7F4A_7C15u64
            &&& other != seed ==> LineState::fresh(frame_bytes, other, erasure, bit_errors).rng
                != line.rng
        }),
{
    let k = 0x9E37_79B9_7F4A_7C15u64;
    assert((k ^ seed) ^ seed == k && (other != seed ==> k ^ other != k ^ seed)) by (bit_vector);
}

impl Line {
    /// A link on which nothing has been sent yet.
    pub fn new(frame_bytes: usize, seed: u64, erasure: u64, bit_errors: u32) -> (l: Self)
        ensures
            l@ == LineState::fresh(frame_bytes as nat, seed, erasure, bit_errors),
            l@ == (LineState {
                previous: Seq::new(frame_bytes as nat, |i: int| 0u8),
                rng: 0x9E37_79B9_7F4A_7C15u64 ^ seed,
                erasure,
                bit_errors,
            }),
    {
        let mut previous: Vec<u8> = Vec::new();
        let mut i: usize = 0;
        while i < frame_bytes
            invariant
                i <= frame_bytes,
                previous@ =~= Seq::new(i as nat, |j: int| 0u8),
            decreases frame_bytes - i,
        {
            previous.push(0);
            i += 1;
        }
        Line { previous, rng: Rng { state: 0x9E37_79B9_7F4A_7C15u64 ^ seed }, erasure, bit_errors }
    }

    /// Sends one frame across.
    pub fn cross(&mut self, frame: &Vec<u8>) -> (out: Vec<u8>)
        requires
            frame@.len() == old(self)@.previous.len(),
            0 < frame@.len() < 0x1000_0000,
        ensures
            final(self)@ == old(self)@.crossed(frame@).0,
            out@ == old(self)@.crossed(frame@).1,
            out@.len() == frame@.len(),
    {
        let mut out: Vec<u8> = Vec::new();
        if self.rng.chance(self.erasure) {
            append(&mut out, &self.previous);
            return out;
        }
        append(&mut out, frame);
        let ghost start = self.rng.state;
        let mut n: u32 = 0;
        while n < self.bit_errors
            invariant
                n <= self.bit_errors,
                self.erasure == old(self).erasure,
                self.bit_errors == old(self).bit_errors,
                self.previous@ == old(self).previous@,
                0 < frame@.len() < 0x1000_0000,
                out@.len() == frame@.len(),
                (out@, self.rng.state) == damaged(frame@, start, n as nat),
            decreases self.bit_errors - n,
        {
            let bit = self.rng.below((frame.len() * 8) as u32) as usize;
            let at: usize = bit / 8;
            let turned: u8 = out[at] ^ (1u8 << ((bit % 8) as u8));
            out.set(at, turned);
            n += 1;
        }
        let mut kept: Vec<u8> = Vec::new();
        append(&mut kept, frame);
        self.previous = kept;
        out
    }
}

/// A clean link: nothing is lost and nothing turned over, so a frame arrives as
/// it was sent.
pub proof fn a_clean_line_changes_nothing(line: LineState, frame: Seq<u8>)
    requires
        line.erasure == 0,
        line.bit_errors == 0,
    ensures
        line.crossed(frame).1 == frame,
        line.crossed(frame).0 == (LineState { previous: frame, ..line }),
{
}

/// Two losses in a row repeat the same frame: what was last heard whole is what
/// is heard until something gets through again.
pub proof fn a_lost_frame_repeats_the_last_one_heard(line: LineState, a: Seq<u8>, b: Seq<u8>)
    requires
        rolled(line.rng, line.erasure).1,
        rolled(line.crossed(a).0.rng, line.erasure).1,
    ensures
        line.crossed(a).1 == line.previous,
        line.crossed(a).0.crossed(b).1 == line.previous,
{
}

/// One digital hop.
pub struct DigitalLeg {
    encoder: Vocoder,
    decoder: Vocoder,
    line: Line,
}

impl DigitalLeg {
    pub closed spec fn line(self) -> LineState {
        self.line@
    }

    pub closed spec fn rate(self) -> Rate {
        self.encoder.rate()
    }

    /// Every frame it was handed, with what went onto the link for it.
    pub closed spec fn sent(self) -> Seq<(Seq<i16>, Seq<u8>)> {
        self.encoder.encoded()
    }

    /// Everything that came off the link, with what was heard of it.
    pub closed spec fn received(self) -> Seq<(Seq<u8>, Seq<i16>)> {
        self.decoder.decoded()
    }

    /// Both ends code at one rate, and the link carries frames of that rate.
    pub closed spec fn fits(self) -> bool {
        &&& self.decoder.rate() == self.encoder.rate()
        &&& self.line@.previous.len() == self.encoder.rate().bytes()
    }

    /// One frame crossed the hop: it was coded, what was coded was sent across
    /// the link, and what came off the link was decoded.
    pub open spec fn carried(self, frame: Seq<i16>, coded: Seq<u8>, out: Seq<i16>, after: Self) -> bool {
        let (line, arrived) = self.line().crossed(coded);
        &&& coded.len() == self.rate().bytes()
        &&& after.sent() == self.sent().push((frame, coded))
        &&& after.line() == line
        &&& after.received() == self.received().push((arrived, out))
    }

    pub fn new(rate: Rate, seed: u64, erasure: u64, bit_errors: u32) -> (leg: Self)
        ensures
            leg.fits(),
            leg.rate() == rate,
            leg.sent() == Seq::<(Seq<i16>, Seq<u8>)>::empty(),
            leg.received() == Seq::<(Seq<u8>, Seq<i16>)>::empty(),
            leg.line() == LineState::fresh(rate.bytes(), seed, erasure, bit_errors),
            leg.line() == (LineState {
                previous: Seq::new(rate.bytes(), |i: int| 0u8),
                rng: 0x9E37_79B9_7F4A_7C15u64 ^ seed,
                erasure,
                bit_errors,
            }),
    {
        let (_samples, frame_bytes) = frame_size(rate);
        DigitalLeg {
            encoder: Vocoder::new(rate),
            decoder: Vocoder::new(rate),
            line: Line::new(frame_bytes, seed, erasure, bit_errors),
        }
    }

    /// Crosses one hop: the frame is coded, sent across the link, and decoded.
    /// The same number of samples comes out.
    pub fn run(&mut self, frame: &[i16]) -> (out: Vec<i16>)
        requires
            old(self).fits(),
            frame@.len() == FRAME,
        ensures
            final(self).fits(),
            out@.len() == FRAME,
            final(self).rate() == old(self).rate(),
            exists|coded: Seq<u8>| #[trigger]
                old(self).carried(frame@, coded, out@, *final(self)),
    {
        let coded = self.encoder.encode(frame);
        let corrupted = self.line.cross(&coded);
        let out = self.decoder.decode(&corrupted);
        assert(old(self).carried(frame@, coded@, out@, *self));
        out
    }
}

// -- what a link does, bit by bit -------------------------------------------

/// Whether one bit of a frame is set, counted from the lowest of the first byte.
pub open spec fn bit(frame: Seq<u8>, p: int) -> bool {
    (frame[p / 8] >> ((p % 8) as u8)) & 1u8 == 1u8
}

/// The bits in which two frames differ.
pub open spec fn bits_apart(a: Seq<u8>, b: Seq<u8>) -> Set<int> {
    Set::new(|p: int| 0 <= p < 8 * a.len() && bit(a, p) != bit(b, p))
}

proof fn lemma_flipped(frame: Seq<u8>, at: int, p: int)
    requires
        0 <= at < 8 * frame.len(),
        0 <= p < 8 * frame.len(),
    ensures
        flipped(frame, at).len() == frame.len(),
        bit(flipped(frame, at), p) == if p == at {
            !bit(frame, p)
        } else {
            bit(frame, p)
        },
{
    if p / 8 == at / 8 {
        let x = frame[at / 8];
        let k = (at % 8) as u8;
        let j = (p % 8) as u8;
        assert(((x ^ (1u8 << k)) >> j) & 1u8 == if j == k {
            1u8 - ((x >> j) & 1u8)
        } else {
            ((x >> j) & 1u8) as int
        }) by (bit_vector)
            requires
                k < 8u8,
                j < 8u8,
        ;
        assert((x >> j) & 1u8 == 0u8 || (x >> j) & 1u8 == 1u8) by (bit_vector);
    }
}

proof fn lemma_damaged(frame: Seq<u8>, rng: u64, errors: nat)
    requires
        frame.len() > 0,
    ensures
        ({
            let out = damaged(frame, rng, errors).0;
            &&& out.len() == frame.len()
            &&& bits_apart(frame, out).finite()
            &&& bits_apart(frame, out).len() <= errors
            &&& (errors - bits_apart(frame, out).len()) % 2 == 0
        }),
    decreases errors,
{
    if errors == 0 {
        assert(bits_apart(frame, frame) =~= Set::empty());
    } else {
        let (earlier, state) = damaged(frame, rng, (errors - 1) as nat);
        let out = damaged(frame, rng, errors).0;
        lemma_damaged(frame, rng, (errors - 1) as nat);
        let at = drawn(stepped(state)) as int % (frame.len() as int * 8);
        assert(0 <= at < 8 * frame.len());
        assert(out == flipped(earlier, at));
        let had = bits_apart(frame, earlier);
        let has = bits_apart(frame, out);
        assert forall|p: int| #[trigger] has.contains(p) <==> if p == at {
            !had.contains(p)
        } else {
            had.contains(p)
        } by {
            if 0 <= p < 8 * frame.len() {
                lemma_flipped(earlier, at, p);
            }
        }
        lemma_flipped(earlier, at, at);
        if had.contains(at) {
            assert(has =~= had.remove(at));
        } else {
            assert(has =~= had.insert(at));
        }
    }
}

/// A frame that is not lost arrives, whatever the link: what arrives differs
/// from what was sent in as many bits as the link turns over, but for a bit
/// turned over twice, and what was sent is what a later loss repeats. Only a
/// lost one is replaced, by the last that was not.
pub proof fn a_frame_arrives_unless_it_is_lost(line: LineState, frame: Seq<u8>)
    requires
        frame.len() > 0,
    ensures
        ({
            let (after, out) = line.crossed(frame);
            let lost = rolled(line.rng, line.erasure).1;
            let apart = bits_apart(frame, out);
            &&& !lost ==> {
                &&& out.len() == frame.len()
                &&& apart.finite() && apart.len() <= line.bit_errors
                &&& (line.bit_errors - apart.len()) % 2 == 0
                &&& after.previous == frame
            }
            &&& lost ==> out == line.previous && after.previous == line.previous
            &&& after.erasure == line.erasure
            &&& after.bit_errors == line.bit_errors
        }),
{
    let rng = rolled(line.rng, line.erasure).0;
    lemma_damaged(frame, rng, line.bit_errors as nat);
}

/// How often a link loses a frame is up to its threshold, out of 2^53: never at
/// none, always at all, and in between where the draw falls below it.
pub proof fn a_link_loses_by_its_threshold(line: LineState, frame: Seq<u8>)
    requires
        frame.len() > 0,
        line.previous.len() == frame.len(),
        line.bit_errors == 0,
        line.previous != frame,
    ensures
        line.erasure == 0 ==> line.crossed(frame).1 == frame,
        line.erasure >= 0x20_0000_0000_0000 ==> line.crossed(frame).1 == line.previous,
        0 < line.erasure < 0x20_0000_0000_0000 ==> (line.crossed(frame).1 == line.previous
            <==> drawn(stepped(line.rng)) as int / 2048 < line.erasure),
{
    crate::dsp::a_chance_comes_up_below_its_threshold(line.rng, line.erasure, line.erasure);
}

/// What a loss repeats is the frame that was sent last and got through, as it
/// was sent.
pub proof fn a_loss_repeats_the_last_frame_that_got_through(
    line: LineState,
    a: Seq<u8>,
    b: Seq<u8>,
)
    requires
        a.len() > 0,
        b.len() > 0,
        !rolled(line.rng, line.erasure).1,
        rolled(line.crossed(a).0.rng, line.erasure).1,
    ensures
        line.crossed(a).0.crossed(b).1 == a,
{
    a_frame_arrives_unless_it_is_lost(line, a);
    a_frame_arrives_unless_it_is_lost(line.crossed(a).0, b);
}

/// A frame is 20 ms at its bit rate: 3200 or 2400 bits a second.
pub proof fn a_frame_is_20_ms_of_its_rate(rate: Rate)
    ensures
        rate.bytes() * 8 * 50 == match rate {
            Rate::Full => 3200nat,
            Rate::Matched => 2400nat,
        },
{
}

/// What a hop carries: speech goes in and is coded, what is coded crosses the
/// link, and what comes off the link is what is heard; nothing carried before
/// is touched.
pub proof fn a_hop_codes_crosses_and_decodes(
    leg: DigitalLeg,
    frame: Seq<i16>,
    coded: Seq<u8>,
    out: Seq<i16>,
    after: DigitalLeg,
)
    requires
        leg.carried(frame, coded, out, after),
    ensures
        after.sent().drop_last() == leg.sent(),
        after.sent().last() == (frame, coded),
        after.received().drop_last() == leg.received(),
        after.received().last().1 == out,
        after.received().last().0 == if rolled(leg.line().rng, leg.line().erasure).1 {
            leg.line().previous
        } else {
            damaged(
                coded,
                rolled(leg.line().rng, leg.line().erasure).0,
                leg.line().bit_errors as nat,
            ).0
        },
        coded.len() == leg.rate().bytes(),
{
    assert(after.sent().drop_last() =~= leg.sent());
    assert(after.received().drop_last() =~= leg.received());
}

} // verus!

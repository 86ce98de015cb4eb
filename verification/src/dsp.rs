//! How a transmission is rendered, and for whom.
//!
//! Everyone on a talkgroup hears the same speech, degraded by THEIR OWN link
//! quality: a 0..100 scale where 100 is full quieting and 0 is below the decode
//! threshold. Listeners are grouped to the nearest lane and each group shares
//! one rendering, so forty listeners cost a handful of decodes, not forty.

use vstd::prelude::*;

verus! {

/// Radio audio is 8 kHz, full stop.
pub const RATE: u32 = 8000;

/// 160 samples, 20 ms.
pub const FRAME: usize = 160;

/// Below this nothing decodes at all. SILENCE, never static: a receiver under
/// threshold produces nothing.
pub const DECODE_FLOOR: u8 = 5;

/// Lane granularity. Listeners are grouped to the nearest step.
pub const LANE_STEP: u8 = 5;

/// How audio SOUNDS coming out of a route.
///
/// The rendering belongs to the destination, not to the speaker. A patch
/// cross-connects a P25 talkgroup to a VHF channel, and those are not the same
/// radio system, so one transmission has to be rendered both ways at once.
#[derive(Debug, Clone, Copy, PartialEq, Eq, Structural, Hash, PartialOrd, Ord)]
pub enum Mode {
    /// Trunked digital: a vocoder, with bit errors and frame erasures.
    P25,
    /// Analogue FM: no vocoder, and noise that grows smoothly.
    Fm,
    /// Analogue AM, as on airband: noisier for the same link.
    Am,
}

impl Default for Mode {
    fn default() -> (m: Self)
        ensures
            m == Mode::P25,
    {
        Mode::P25
    }
}

impl Mode {
    /// Where a mode stands among the modes.
    pub open spec fn rank(self) -> u64 {
        match self {
            Mode::P25 => 0,
            Mode::Fm => 1,
            Mode::Am => 2,
        }
    }

    pub fn to_rank(self) -> (n: u64)
        ensures
            n == self.rank(),
    {
        match self {
            Mode::P25 => 0,
            Mode::Fm => 1,
            Mode::Am => 2,
        }
    }
}

/// One listener's link, and the rendering it should get.
#[derive(Debug, Clone, Copy, PartialEq, Eq, Structural)]
pub struct Sink {
    pub mode: Mode,
    /// 0..100, where 100 is full quieting.
    pub quality: u8,
    /// This listener is on the far side of a patch from the speaker.
    pub bridged: bool,
}

/// A stable key for one rendering. Two listeners sharing it hear byte-identical
/// audio and are served from one pass.
pub type LegKey = (Mode, u8, bool);

// -- lanes ------------------------------------------------------------------

/// The lane of a link: its quality to the nearest step, and none at all below
/// the decode floor.
pub open spec fn lane(quality: u8) -> u8 {
    let q = if quality > 100 {
        100
    } else {
        quality as int
    };
    if q <= DECODE_FLOOR {
        0
    } else {
        ((q + 2) / 5 * 5) as u8
    }
}

pub fn lane_of(quality: u8) -> (l: u8)
    ensures
        l == lane(quality),
{
    let q: u8 = if quality > 100 {
        100
    } else {
        quality
    };
    if q <= DECODE_FLOOR {
        return 0;
    }
    ((q + LANE_STEP / 2) / LANE_STEP) * LANE_STEP
}

/// A lane is a whole number of steps, within half a step of every quality it
/// stands for, and one lane stands for everything that is not above the floor.
/// A digital link is silent in that lane and in the one at the floor, which
/// stands for the two qualities next above it.
pub proof fn a_lane_stands_for_nearby_links(quality: u8)
    ensures
        lane(quality) % LANE_STEP == 0,
        lane(quality) <= 100,
        lane(quality) == 0 <==> quality <= DECODE_FLOOR,
        DECODE_FLOOR < quality <= 100 ==> -2 <= lane(quality) - quality <= 2,
        lane(quality) == DECODE_FLOOR <==> quality == 6 || quality == 7,
        muted(lane(quality)) <==> quality <= 7,
{
}

pub open spec fn key(sink: Sink) -> LegKey {
    (sink.mode, lane(sink.quality), sink.bridged)
}

pub fn key_of(sink: Sink) -> (k: LegKey)
    ensures
        k == key(sink),
{
    (sink.mode, lane_of(sink.quality), sink.bridged)
}

pub fn same_key(a: LegKey, b: LegKey) -> (same: bool)
    ensures
        same == (a == b),
{
    a.0 == b.0 && a.1 == b.1 && a.2 == b.2
}

/// Nothing is delivered at all on a link this bad, if the link is digital.
pub open spec fn muted(quality: u8) -> bool {
    quality <= DECODE_FLOOR
}

pub fn is_muted(quality: u8) -> (b: bool)
    ensures
        b == muted(quality),
{
    quality <= DECODE_FLOOR
}

/// Bit errors in a frame that survives: none at full quieting and none where
/// nothing decodes; in between, a line drawn through 1 at 90, 2 at 75, 3 at 55,
/// 6 at 30 and 8 at 10, to the nearest whole number.
pub open spec fn errors_at(quality: u8) -> int {
    let q = quality as int;
    if q <= DECODE_FLOOR || q >= 100 {
        0
    } else if q >= 90 {
        rounded(100 - q, 10)
    } else if q >= 75 {
        1 + rounded(90 - q, 15)
    } else if q >= 55 {
        2 + rounded(75 - q, 20)
    } else if q >= 30 {
        3 + rounded(3 * (55 - q), 25)
    } else if q >= 10 {
        6 + rounded(2 * (30 - q), 20)
    } else {
        8
    }
}

/// A fraction to the nearest whole number, a half up.
#[verifier::inline]
pub open spec fn rounded(n: int, d: int) -> int {
    (2 * n + d) / (2 * d)
}

/// Bit errors applied to a surviving frame on a link.
pub fn bit_errors(quality: u8) -> (n: u32)
    ensures
        n == errors_at(quality),
{
    let q: u32 = quality as u32;
    if q <= 5 || q >= 100 {
        0
    } else if q >= 90 {
        (2 * (100 - q) + 10) / 20
    } else if q >= 75 {
        1 + (2 * (90 - q) + 15) / 30
    } else if q >= 55 {
        2 + (2 * (75 - q) + 20) / 40
    } else if q >= 30 {
        3 + (6 * (55 - q) + 25) / 50
    } else if q >= 10 {
        6 + (4 * (30 - q) + 20) / 40
    } else {
        8
    }
}

/// A better link never has more bit errors, as long as both decode.
pub proof fn bit_errors_fall_with_quality(worse: u8, better: u8)
    requires
        DECODE_FLOOR < worse <= better,
    ensures
        errors_at(better) <= errors_at(worse) <= 8,
    decreases better - worse,
{
    if worse < better {
        let nearer = (better - 1) as u8;
        bit_errors_fall_with_quality(worse, nearer);
        assert(errors_at(better) <= errors_at(nearer));
    }
}

/// Bit errors are to the nearest whole number of a line through 0 at 100, 1 at
/// 90, 2 at 75, 3 at 55, 6 at 30 and 8 at 10, level below that; a link that does
/// not decode, or is at full quieting, has none.
pub proof fn bit_errors_follow_the_curve(quality: u8)
    ensures
        ({
            let q = quality as int;
            let e = errors_at(quality);
            &&& q <= 5 || q >= 100 ==> e == 0
            &&& 90 <= q < 100 ==> -10 <= 2 * (10 * e - (100 - q)) <= 10
            &&& 75 <= q < 90 ==> -15 <= 2 * (15 * (e - 1) - (90 - q)) <= 15
            &&& 55 <= q < 75 ==> -20 <= 2 * (20 * (e - 2) - (75 - q)) <= 20
            &&& 30 <= q < 55 ==> -25 <= 2 * (25 * (e - 3) - 3 * (55 - q)) <= 25
            &&& 10 <= q < 30 ==> -20 <= 2 * (20 * (e - 6) - 2 * (30 - q)) <= 20
            &&& 5 < q < 10 ==> e == 8
        }),
{
}

// -- which renderings -------------------------------------------------------

/// The renderings a set of listeners needs, each once and in the order first
/// needed. Only digital has a threshold below which nothing arrives.
pub open spec fn renderings(sinks: Seq<Sink>) -> Seq<LegKey>
    decreases sinks.len(),
{
    if sinks.len() == 0 {
        Seq::empty()
    } else {
        let earlier = renderings(sinks.drop_last());
        let s = sinks.last();
        if s.mode == Mode::P25 && muted(lane(s.quality)) || earlier.contains(key(s)) {
            earlier
        } else {
            earlier.push(key(s))
        }
    }
}

pub fn renderings_of(sinks: &[Sink]) -> (out: Vec<LegKey>)
    ensures
        out@ == renderings(sinks@),
{
    let mut out: Vec<LegKey> = Vec::new();
    let mut i: usize = 0;
    while i < sinks.len()
        invariant
            i <= sinks.len(),
            out@ == renderings(sinks@.take(i as int)),
        decreases sinks.len() - i,
    {
        let s = sinks[i];
        assert(sinks@.take(i as int + 1).drop_last() =~= sinks@.take(i as int));
        if !(s.mode == Mode::P25 && is_muted(lane_of(s.quality))) {
            let k = key_of(s);
            if !contains_key(&out, k) {
                out.push(k);
            }
        }
        i += 1;
    }
    assert(sinks@.take(i as int) =~= sinks@);
    out
}

fn contains_key(keys: &Vec<LegKey>, k: LegKey) -> (b: bool)
    ensures
        b == keys@.contains(k),
{
    let mut i: usize = 0;
    while i < keys.len()
        invariant
            i <= keys.len(),
            forall|j: int| 0 <= j < i ==> keys@[j] != k,
        decreases keys.len() - i,
    {
        if same_key(keys[i], k) {
            assert(keys@[i as int] == k);
            return true;
        }
        i += 1;
    }
    false
}

proof fn lemma_renderings_contain(sinks: Seq<Sink>, k: LegKey)
    ensures
        renderings(sinks).contains(k) <==> exists|i: int|
            0 <= i < sinks.len() && key(#[trigger] sinks[i]) == k && !(sinks[i].mode == Mode::P25
                && muted(lane(sinks[i].quality))),
    decreases sinks.len(),
{
    if sinks.len() > 0 {
        let rest = sinks.drop_last();
        let s = sinks.last();
        lemma_renderings_contain(rest, k);
        crate::seqs::lemma_push_contains(renderings(rest), key(s));
        if renderings(rest).contains(k) {
            let i = choose|i: int|
                0 <= i < rest.len() && key(#[trigger] rest[i]) == k && !(rest[i].mode == Mode::P25
                    && muted(lane(rest[i].quality)));
            assert(key(sinks[i]) == k);
        }
        if exists|i: int|
            0 <= i < sinks.len() && key(#[trigger] sinks[i]) == k && !(sinks[i].mode == Mode::P25
                && muted(lane(sinks[i].quality))) {
            let i = choose|i: int|
                0 <= i < sinks.len() && key(#[trigger] sinks[i]) == k && !(sinks[i].mode
                    == Mode::P25 && muted(lane(sinks[i].quality)));
            if i < rest.len() {
                assert(key(rest[i]) == k);
            }
        }
    }
}

/// Every listener is served by the rendering of its own key, unless its link is
/// digital and its lane is not above the floor: that one gets nothing at all.
/// An analogue listener always gets something.
pub proof fn every_listener_that_decodes_is_rendered(sinks: Seq<Sink>, i: int)
    requires
        0 <= i < sinks.len(),
    ensures
        renderings(sinks).contains(key(sinks[i])) <==> !(sinks[i].mode == Mode::P25
            && sinks[i].quality <= 7),
{
    lemma_renderings_contain(sinks, key(sinks[i]));
}

/// No rendering is made twice.
pub proof fn no_rendering_is_made_twice(sinks: Seq<Sink>)
    ensures
        renderings(sinks).no_duplicates(),
    decreases sinks.len(),
{
    if sinks.len() > 0 {
        no_rendering_is_made_twice(sinks.drop_last());
    }
}

/// Two listeners share a rendering exactly where they are on the same kind of
/// radio, in the same lane, and on the same side of a patch.
pub proof fn a_rendering_is_shared_by_like_links(a: Sink, b: Sink)
    ensures
        key(a) == key(b) <==> a.mode == b.mode && lane(a.quality) == lane(b.quality) && a.bridged
            == b.bridged,
        key(a).0 == a.mode,
        key(a).2 == a.bridged,
        5 < a.quality <= 100 ==> -2 <= key(a).1 - a.quality <= 2,
        a.quality > 100 ==> key(a).1 == 100,
        a.quality <= 5 ==> key(a).1 == 0,
{
}

/// Listeners who come later change nothing of the renderings wanted before
/// them: renderings come in the order they are first wanted.
pub proof fn renderings_come_in_the_order_first_wanted(first: Seq<Sink>, later: Seq<Sink>)
    ensures
        renderings(first).is_prefix_of(renderings(first + later)),
    decreases later.len(),
{
    if later.len() == 0 {
        assert(first + later =~= first);
    } else {
        let rest = later.drop_last();
        renderings_come_in_the_order_first_wanted(first, rest);
        assert((first + later).drop_last() =~= first + rest);
        assert((first + later).last() == later.last());
    }
}

// -- one talker -------------------------------------------------------------

/// The whole vocoder frames in a run of samples.
pub open spec fn whole_frames(samples: Seq<i16>) -> Seq<Seq<i16>> {
    Seq::new(
        samples.len() / FRAME as nat,
        |i: int| samples.subrange(i * FRAME, i * FRAME + FRAME),
    )
}

/// What is left of a run of samples after the whole frames.
pub open spec fn leftover(samples: Seq<i16>) -> Seq<i16> {
    samples.skip((samples.len() / FRAME as nat * FRAME) as int)
}

/// One talker's chain, as far as it decides anything.
#[verifier::ext_equal]
pub struct TalkerState {
    /// 8 kHz samples not yet consumed by a whole vocoder frame.
    pub pending: Seq<i16>,
    /// The speaker's own link that the shared first hop of a patch was built
    /// for.
    pub bridge: Option<Sink>,
    /// The renderings that have a hop of their own.
    pub legs: Seq<LegKey>,
}

/// What to render, and what has to be built first.
pub struct Plan {
    /// The renderings wanted.
    pub keys: Vec<LegKey>,
    /// The frames to render, each as long as a vocoder frame.
    pub frames: Vec<Vec<i16>>,
    /// Somebody is across a patch, so the speaker's own hop is needed.
    pub need_bridge: bool,
    /// The speaker's own hop has to be built anew, with this seed.
    pub rebuild: Option<u64>,
    /// Renderings whose hop has to be built, each with its seed.
    pub fresh: Vec<(LegKey, u64)>,
}

/// The frames of a plan.
pub open spec fn frames_of(frames: Vec<Vec<i16>>) -> Seq<Seq<i16>> {
    Seq::new(frames@.len(), |i: int| frames@[i]@)
}

pub open spec fn crosses_a_patch(keys: Seq<LegKey>) -> bool {
    exists|i: int| 0 <= i < keys.len() && (#[trigger] keys[i]).2
}

/// The renderings among `keys` without a hop yet, each with its seed.
pub open spec fn lacking(keys: Seq<LegKey>, legs: Seq<LegKey>) -> Seq<(LegKey, u64)>
    decreases keys.len(),
{
    if keys.len() == 0 {
        Seq::empty()
    } else {
        let earlier = lacking(keys.drop_last(), legs);
        let k = keys.last();
        if legs.contains(k) {
            earlier
        } else {
            earlier.push((k, leg_seed(k)))
        }
    }
}

pub open spec fn leg_seed(k: LegKey) -> u64 {
    seed(Sink { mode: k.0, quality: k.1, bridged: k.2 }, 2)
}

impl TalkerState {
    /// The hop of the speaker's own link is missing, or was built for another
    /// link.
    pub open spec fn bridge_is_stale(self, src: Sink) -> bool {
        match self.bridge {
            Some(have) => key(have) != key(src),
            None => true,
        }
    }

    /// More samples, for these listeners: what the chain becomes.
    pub open spec fn fed(self, samples: Seq<i16>, src: Sink, sinks: Seq<Sink>) -> TalkerState {
        let all = self.pending + samples;
        let keys = renderings(sinks);
        TalkerState {
            pending: leftover(all),
            bridge: if crosses_a_patch(keys) && self.bridge_is_stale(src) {
                Some(src)
            } else {
                self.bridge
            },
            legs: if all.len() >= FRAME {
                self.legs + lacking(keys, self.legs).map_values(|f: (LegKey, u64)| f.0)
            } else {
                self.legs
            },
        }
    }

    /// More samples, for these listeners: what there is to do.
    pub open spec fn planned(
        self,
        samples: Seq<i16>,
        src: Sink,
        sinks: Seq<Sink>,
        plan: Plan,
    ) -> bool {
        let all = self.pending + samples;
        let keys = renderings(sinks);
        &&& plan.keys@ == keys
        &&& frames_of(plan.frames) == if keys.len() == 0 {
            Seq::empty()
        } else {
            whole_frames(all)
        }
        &&& plan.need_bridge == crosses_a_patch(keys)
        &&& plan.rebuild == if crosses_a_patch(keys) && self.bridge_is_stale(src) {
            Some(seed(src, 1))
        } else {
            None
        }
        &&& plan.fresh@ == if all.len() >= FRAME {
            lacking(keys, self.legs)
        } else {
            Seq::empty()
        }
    }
}

pub struct Talker {
    pending: Vec<i16>,
    bridge: Option<Sink>,
    legs: Vec<LegKey>,
}

impl View for Talker {
    type V = TalkerState;

    closed spec fn view(&self) -> TalkerState {
        TalkerState { pending: self.pending@, bridge: self.bridge, legs: self.legs@ }
    }
}

impl Talker {
    pub fn new() -> (t: Self)
        ensures
            t@ == (TalkerState { pending: Seq::empty(), bridge: None, legs: Seq::empty() }),
    {
        Talker { pending: Vec::new(), bridge: None, legs: Vec::new() }
    }

    /// Takes 8 kHz samples and says what to render of them.
    ///
    /// `src` is the SPEAKER's own link and the mode of the route they keyed;
    /// `sinks` is one entry per listener. With nobody to serve, whole frames
    /// are still consumed, so the chain does not grow without bound.
    pub fn push_wide(&mut self, samples: &[i16], src: Sink, sinks: &[Sink]) -> (plan: Plan)
        ensures
            final(self)@ == old(self)@.fed(samples@, src, sinks@),
            old(self)@.planned(samples@, src, sinks@, plan),
    {
        let ghost before = self@;
        let ghost all = before.pending + samples@;
        let keys = renderings_of(sinks);
        extend(&mut self.pending, samples);
        let (frames, rest) = split_frames(&self.pending);
        self.pending = rest;
        if keys.len() == 0 {
            assert(lacking(keys@, before.legs) =~= Seq::empty());
            assert(before.legs + lacking(keys@, before.legs).map_values(|f: (LegKey, u64)| f.0)
                =~= before.legs);
            let none: Vec<Vec<i16>> = Vec::new();
            assert(frames_of(none) =~= Seq::empty());
            return Plan {
                keys,
                frames: none,
                need_bridge: false,
                rebuild: None,
                fresh: Vec::new(),
            };
        }
        let need_bridge = any_bridged(&keys);
        let mut rebuild: Option<u64> = None;
        if need_bridge {
            let stale = match self.bridge {
                Some(have) => !same_key(key_of(have), key_of(src)),
                None => true,
            };
            if stale {
                self.bridge = Some(src);
                rebuild = Some(seed_of(src, 1));
            }
        }
        let mut fresh: Vec<(LegKey, u64)> = Vec::new();
        assert(frames_of(frames).len() == all.len() / FRAME as nat);
        if frames.len() > 0 {
            fresh = self.build_missing(&keys);
        }
        Plan { keys, frames, need_bridge, rebuild, fresh }
    }

    fn build_missing(&mut self, keys: &Vec<LegKey>) -> (fresh: Vec<(LegKey, u64)>)
        ensures
            fresh@ == lacking(keys@, old(self)@.legs),
            final(self)@ == (TalkerState {
                legs: old(self)@.legs + fresh@.map_values(|f: (LegKey, u64)| f.0),
                ..old(self)@
            }),
    {
        let ghost had = self.legs@;
        let mut fresh: Vec<(LegKey, u64)> = Vec::new();
        let mut i: usize = 0;
        while i < keys.len()
            invariant
                i <= keys.len(),
                self.legs@ == had,
                self@ == old(self)@,
                had == old(self)@.legs,
                fresh@ == lacking(keys@.take(i as int), had),
            decreases keys.len() - i,
        {
            let k = keys[i];
            assert(keys@.take(i as int + 1).drop_last() =~= keys@.take(i as int));
            if !contains_key(&self.legs, k) {
                let seeded = seed_of(Sink { mode: k.0, quality: k.1, bridged: k.2 }, 2);
                fresh.push((k, seeded));
            }
            i += 1;
        }
        assert(keys@.take(i as int) =~= keys@);
        let mut j: usize = 0;
        while j < fresh.len()
            invariant
                j <= fresh.len(),
                self.pending@ == old(self)@.pending,
                self.bridge == old(self)@.bridge,
                self.legs@ =~= had + fresh@.take(j as int).map_values(|f: (LegKey, u64)| f.0),
            decreases fresh.len() - j,
        {
            self.legs.push(fresh[j].0);
            j += 1;
        }
        assert(fresh@.take(j as int) =~= fresh@);
        fresh
    }
}

impl Default for Talker {
    fn default() -> (t: Self)
        ensures
            t@ == (TalkerState { pending: Seq::empty(), bridge: None, legs: Seq::empty() }),
    {
        Talker::new()
    }
}

fn any_bridged(keys: &Vec<LegKey>) -> (b: bool)
    ensures
        b == crosses_a_patch(keys@),
{
    let mut i: usize = 0;
    while i < keys.len()
        invariant
            i <= keys.len(),
            forall|j: int| 0 <= j < i ==> !(#[trigger] keys@[j]).2,
        decreases keys.len() - i,
    {
        if keys[i].2 {
            return true;
        }
        i += 1;
    }
    false
}

pub fn extend(out: &mut Vec<i16>, more: &[i16])
    ensures
        final(out)@ == old(out)@ + more@,
{
    let mut i: usize = 0;
    while i < more.len()
        invariant
            i <= more.len(),
            out@ =~= old(out)@ + more@.take(i as int),
        decreases more.len() - i,
    {
        out.push(more[i]);
        i += 1;
    }
    assert(more@.take(i as int) =~= more@);
}

/// Splits samples into whole frames and what is left.
fn split_frames(samples: &Vec<i16>) -> (r: (Vec<Vec<i16>>, Vec<i16>))
    ensures
        frames_of(r.0) == whole_frames(samples@),
        r.1@ == leftover(samples@),
{
    let n: usize = samples.len() / FRAME;
    let mut frames: Vec<Vec<i16>> = Vec::new();
    let mut i: usize = 0;
    while i < n
        invariant
            i <= n,
            n == samples.len() / FRAME,
            frames@.len() == i,
            forall|j: int| 0 <= j < i ==> (#[trigger] frames@[j])@ == whole_frames(samples@)[j],
        decreases n - i,
    {
        assert(i * FRAME + FRAME <= samples.len()) by (nonlinear_arith)
            requires
                i < n,
                n == samples.len() / FRAME,
                FRAME == 160,
        ;
        let frame = piece(samples, i * FRAME, i * FRAME + FRAME);
        frames.push(frame);
        i += 1;
    }
    assert(n * FRAME <= samples.len());
    let rest = piece(samples, n * FRAME, samples.len());
    assert(frames_of(frames) =~= whole_frames(samples@));
    assert(rest@ =~= leftover(samples@));
    (frames, rest)
}

fn piece(samples: &Vec<i16>, from: usize, to: usize) -> (out: Vec<i16>)
    requires
        from <= to <= samples.len(),
    ensures
        out@ == samples@.subrange(from as int, to as int),
{
    let mut out: Vec<i16> = Vec::new();
    let mut i: usize = from;
    while i < to
        invariant
            from <= i <= to <= samples.len(),
            out@ =~= samples@.subrange(from as int, i as int),
        decreases to - i,
    {
        out.push(samples[i]);
        i += 1;
    }
    out
}

/// Nothing is lost between packets: the frames rendered and what is kept are
/// the samples that came in, in order.
pub proof fn frames_and_leftover_are_the_samples(samples: Seq<i16>)
    ensures
        whole_frames(samples).flatten() + leftover(samples) == samples,
        leftover(samples).len() < FRAME,
        forall|i: int|
            0 <= i < whole_frames(samples).len() ==> (#[trigger] whole_frames(samples)[i]).len()
                == FRAME,
{
    let n = samples.len() / FRAME as nat;
    lemma_flatten_frames(samples, n);
    assert(whole_frames(samples) =~= Seq::new(
        n,
        |i: int| samples.subrange(i * FRAME, i * FRAME + FRAME),
    ));
    assert(samples.take((n * FRAME) as int) + samples.skip((n * FRAME) as int) =~= samples);
}

proof fn lemma_flatten_frames(samples: Seq<i16>, n: nat)
    requires
        n * FRAME <= samples.len(),
    ensures
        Seq::new(n, |i: int| samples.subrange(i * FRAME, i * FRAME + FRAME)).flatten()
            == samples.take((n * FRAME) as int),
    decreases n,
{
    let frames = Seq::new(n, |i: int| samples.subrange(i * FRAME, i * FRAME + FRAME));
    if n == 0 {
        assert(frames =~= Seq::empty());
        assert(frames.flatten() =~= Seq::empty());
    } else {
        let m = (n - 1) as nat;
        lemma_flatten_frames(samples, m);
        let earlier = Seq::new(m, |i: int| samples.subrange(i * FRAME, i * FRAME + FRAME));
        assert(frames =~= earlier.push(frames[m as int]));
        earlier.lemma_flatten_push(frames[m as int]);
        assert(samples.take((n * FRAME) as int) =~= samples.take((m * FRAME) as int)
            + frames[m as int]);
    }
}

// -- chance -----------------------------------------------------------------

/// Seeds the noise and error streams: per rendering, so two links do not carry
/// bit-identical noise, and stable, so one listener's hiss does not restart
/// every frame.
pub open spec fn seed(sink: Sink, salt: u64) -> u64 {
    ((sink.quality * 0x1234_5678) as u64) ^ (sink.mode.rank() << 40) ^ ((if sink.bridged {
        1u64
    } else {
        0u64
    }) << 48) ^ salt.wrapping_mul(0x9E37_79B9)
}

pub fn seed_of(sink: Sink, salt: u64) -> (s: u64)
    ensures
        s == seed(sink, salt),
{
    let bridged: u64 = if sink.bridged {
        1
    } else {
        0
    };
    (sink.quality as u64 * 0x1234_5678) ^ (sink.mode.to_rank() << 40) ^ (bridged << 48)
        ^ salt.wrapping_mul(0x9E37_79B9)
}

/// The state that follows a state of the generator.
pub open spec fn stepped(x: u64) -> u64 {
    let a = x ^ (x >> 12);
    let b = a ^ (a << 25);
    b ^ (b >> 27)
}

/// The number drawn on reaching a state.
pub open spec fn drawn(x: u64) -> u64 {
    x.wrapping_mul(0x2545_F491_4F6C_DD1D)
}

/// A chance is given as a threshold out of 2^53.
pub const CERTAIN: u64 = 0x20_0000_0000_0000;

/// xorshift64*, so the error model is reproducible when seeded.
pub struct Rng {
    pub state: u64,
}

impl Rng {
    pub fn next(&mut self) -> (n: u64)
        ensures
            final(self).state == stepped(old(self).state),
            n == drawn(stepped(old(self).state)),
    {
        let mut x: u64 = self.state;
        x = x ^ (x >> 12);
        x = x ^ (x << 25);
        x = x ^ (x >> 27);
        self.state = x;
        x.wrapping_mul(0x2545_F491_4F6C_DD1D)
    }

    /// True that many times out of 2^53. What cannot happen and what must is
    /// not drawn for.
    pub fn chance(&mut self, threshold: u64) -> (b: bool)
        ensures
            final(self).state == rolled(old(self).state, threshold).0,
            b == rolled(old(self).state, threshold).1,
    {
        if threshold == 0 {
            return false;
        }
        if threshold >= CERTAIN {
            return true;
        }
        (self.next() >> 11) < threshold
    }

    pub fn below(&mut self, n: u32) -> (r: u32)
        requires
            n > 0,
        ensures
            final(self).state == stepped(old(self).state),
            r == drawn(stepped(old(self).state)) % (n as u64),
            r < n,
    {
        (self.next() % n as u64) as u32
    }
}

/// The generator's state after a chance was taken, and whether it came up.
pub open spec fn rolled(state: u64, threshold: u64) -> (u64, bool) {
    if threshold == 0 {
        (state, false)
    } else if threshold >= CERTAIN {
        (state, true)
    } else {
        (stepped(state), (drawn(stepped(state)) >> 11) < threshold)
    }
}

/// A chance comes up as often as its threshold says: never at none, always at
/// 2^53 and above, and in between where the top 53 bits of the draw fall below
/// it. So what comes up at a threshold comes up at every higher one.
pub proof fn a_chance_comes_up_below_its_threshold(state: u64, low: u64, high: u64)
    requires
        low <= high,
    ensures
        !rolled(state, 0).1,
        low >= 0x20_0000_0000_0000 ==> rolled(state, low).1,
        0 < low < 0x20_0000_0000_0000 ==> (rolled(state, low).1 <==> drawn(stepped(state)) as int
            / 2048 < low),
        rolled(state, low).1 ==> rolled(state, high).1,
        rolled(state, low).0 == if 0 < low < 0x20_0000_0000_0000 {
            stepped(state)
        } else {
            state
        },
{
    let n = drawn(stepped(state));
    assert(n >> 11u64 == n / 2048) by (bit_vector);
    assert(n / 2048 < 0x20_0000_0000_0000) by (bit_vector);
}

/// The generator is xorshift64*: shifts by 12, 25 and 27, and then a product,
/// of which the low 64 bits are drawn. It never gets stuck at nothing.
pub proof fn the_generator_is_xorshift(x: u64)
    ensures
        exists|a: u64, b: u64|
            a == x ^ (x >> 12u64) && b == a ^ (#[trigger] (a << 25u64)) && stepped(x) == b ^ (
            #[trigger] (b >> 27u64)),
        x != 0 ==> stepped(x) != 0,
        drawn(x) == x * 0x2545_F491_4F6C_DD1D % 0x1_0000_0000_0000_0000,
{
    let a = x ^ (x >> 12u64);
    let b = a ^ (a << 25u64);
    assert(stepped(x) == b ^ (b >> 27u64));
    assert(x != 0 ==> (x ^ (x >> 12u64)) != 0) by (bit_vector);
    assert(a != 0 ==> (a ^ (a << 25u64)) != 0) by (bit_vector);
    assert(b != 0 ==> (b ^ (b >> 27u64)) != 0) by (bit_vector);
}

/// No two renderings share a seed.
pub proof fn every_rendering_has_a_seed_of_its_own(a: Sink, b: Sink, salt: u64)
    requires
        seed(a, salt) == seed(b, salt),
    ensures
        a == b,
{
    let qa = a.quality as u64;
    let qb = b.quality as u64;
    let ma = a.mode.rank();
    let mb = b.mode.rank();
    let ba = if a.bridged {
        1u64
    } else {
        0u64
    };
    let bb = if b.bridged {
        1u64
    } else {
        0u64
    };
    let s = salt.wrapping_mul(0x9E37_79B9);
    let pa = (qa * 0x1234_5678) as u64;
    let pb = (qb * 0x1234_5678) as u64;
    assert(pa == pb && ma == mb && ba == bb) by (bit_vector)
        requires
            pa < 0x100_0000_0000u64,
            pb < 0x100_0000_0000u64,
            ma < 4u64,
            mb < 4u64,
            ba < 2u64,
            bb < 2u64,
            pa ^ (ma << 40u64) ^ (ba << 48u64) ^ s == pb ^ (mb << 40u64) ^ (bb << 48u64) ^ s,
    ;
}

// -- a whole transmission ---------------------------------------------------

/// Samples as they arrive, and for whom.
#[verifier::ext_equal]
pub struct Packet {
    pub samples: Seq<i16>,
    pub src: Sink,
    pub sinks: Seq<Sink>,
}

/// Everything that has arrived, behind what was kept from before.
pub open spec fn arrived(kept: Seq<i16>, packets: Seq<Packet>) -> Seq<i16>
    decreases packets.len(),
{
    if packets.len() == 0 {
        kept
    } else {
        arrived(kept, packets.drop_last()) + packets.last().samples
    }
}

impl TalkerState {
    /// What the chain becomes of several packets.
    pub open spec fn fed_all(self, packets: Seq<Packet>) -> TalkerState
        decreases packets.len(),
    {
        if packets.len() == 0 {
            self
        } else {
            let p = packets.last();
            self.fed_all(packets.drop_last()).fed(p.samples, p.src, p.sinks)
        }
    }

    /// The frames there are to render of several packets.
    pub open spec fn frames_planned(self, packets: Seq<Packet>) -> Seq<Seq<i16>>
        decreases packets.len(),
    {
        if packets.len() == 0 {
            Seq::empty()
        } else {
            let p = packets.last();
            let earlier = self.fed_all(packets.drop_last());
            self.frames_planned(packets.drop_last()) + if renderings(p.sinks).len() == 0 {
                Seq::empty()
            } else {
                whole_frames(earlier.pending + p.samples)
            }
        }
    }
}

proof fn lemma_frames_go_on(a: Seq<i16>, b: Seq<i16>)
    ensures
        whole_frames(a + b) == whole_frames(a) + whole_frames(leftover(a) + b),
        leftover(a + b) == leftover(leftover(a) + b),
{
    assert(FRAME == 160);
    let n = a.len() / 160;
    let rest = leftover(a) + b;
    assert((a + b).len() / 160 == n + rest.len() / 160);
    assert((a + b).skip(160 * n as int) =~= rest);
    assert forall|i: int| 0 <= i < (a + b).len() / 160 implies (#[trigger] whole_frames(a + b)[i])
        == (whole_frames(a) + whole_frames(rest))[i] by {
        if i < n {
            assert((a + b).subrange(i * 160, i * 160 + 160) =~= a.subrange(i * 160, i * 160 + 160));
        } else {
            let k = i - n;
            assert((a + b).subrange(i * 160, i * 160 + 160) =~= rest.subrange(
                k * 160,
                k * 160 + 160,
            ));
        }
    }
    assert(whole_frames(a + b) =~= whole_frames(a) + whole_frames(rest));
    assert(leftover(a + b) =~= leftover(rest));
}

/// Nothing is lost over a transmission, however it is cut into packets: what is
/// kept is what is left of everything that has arrived, and while there is
/// somebody to serve, what is rendered is every whole frame of it, in order.
pub proof fn a_transmission_is_rendered_whole(s: TalkerState, packets: Seq<Packet>)
    requires
        s.pending.len() < FRAME,
    ensures
        s.fed_all(packets).pending == leftover(arrived(s.pending, packets)),
        s.fed_all(packets).pending.len() < FRAME,
        (forall|i: int|
            0 <= i < packets.len() ==> renderings((#[trigger] packets[i]).sinks).len() > 0) ==> {
            let frames = s.frames_planned(packets);
            &&& frames == whole_frames(arrived(s.pending, packets))
            &&& frames.len() == arrived(s.pending, packets).len() / FRAME as nat
            &&& frames.flatten() + s.fed_all(packets).pending == arrived(s.pending, packets)
        },
    decreases packets.len(),
{
    let all = arrived(s.pending, packets);
    if packets.len() == 0 {
        assert(leftover(all) =~= all);
        assert(whole_frames(all) =~= Seq::empty());
    } else {
        let rest = packets.drop_last();
        let p = packets.last();
        let earlier = arrived(s.pending, rest);
        a_transmission_is_rendered_whole(s, rest);
        lemma_frames_go_on(earlier, p.samples);
        if forall|i: int|
            0 <= i < packets.len() ==> renderings((#[trigger] packets[i]).sinks).len() > 0 {
            assert forall|i: int| 0 <= i < rest.len() implies renderings(
                (#[trigger] rest[i]).sinks,
            ).len() > 0 by {
                assert(packets[i] == rest[i]);
            }
            assert(packets[packets.len() - 1] == p);
        }
    }
    frames_and_leftover_are_the_samples(all);
}

/// A rendering that is wanted of every packet is made of every whole frame: 160
/// samples for each 160 that have arrived.
pub proof fn a_rendering_wanted_throughout_misses_nothing(
    s: TalkerState,
    packets: Seq<Packet>,
    k: LegKey,
)
    requires
        s.pending.len() < FRAME,
        forall|i: int|
            0 <= i < packets.len() ==> renderings((#[trigger] packets[i]).sinks).contains(k),
    ensures
        s.frames_planned(packets).flatten().len() == arrived(s.pending, packets).len()
            / FRAME as nat * FRAME,
        s.frames_planned(packets).flatten() + s.fed_all(packets).pending == arrived(
            s.pending,
            packets,
        ),
{
    a_transmission_is_rendered_whole(s, packets);
    let all = arrived(s.pending, packets);
    assert((s.frames_planned(packets).flatten() + leftover(all)).len() == all.len());
}

// -- what a plan comes to ---------------------------------------------------

/// A plan for somebody renders every whole frame of what is at hand, in order,
/// and keeps the rest, less than a frame; nothing is lost and nothing added.
pub proof fn a_plan_renders_every_whole_frame(
    s: TalkerState,
    samples: Seq<i16>,
    src: Sink,
    sinks: Seq<Sink>,
    plan: Plan,
)
    requires
        s.planned(samples, src, sinks, plan),
    ensures
        plan.keys@ == renderings(sinks),
        s.fed(samples, src, sinks).pending.len() < 160,
        forall|i: int| 0 <= i < plan.frames@.len() ==> (#[trigger] plan.frames@[i])@.len() == 160,
        renderings(sinks).len() > 0 ==> frames_of(plan.frames).flatten() + s.fed(
            samples,
            src,
            sinks,
        ).pending == s.pending + samples,
        renderings(sinks).len() == 0 ==> plan.frames@.len() == 0,
{
    let all = s.pending + samples;
    frames_and_leftover_are_the_samples(all);
    assert(frames_of(plan.frames).len() == plan.frames@.len());
    assert forall|i: int| 0 <= i < plan.frames@.len() implies (#[trigger] plan.frames@[i])@.len()
        == 160 by {
        assert(frames_of(plan.frames)[i] == plan.frames@[i]@);
        assert(renderings(sinks).len() > 0);
        assert(frames_of(plan.frames)[i] == whole_frames(all)[i]);
    }
}

proof fn lemma_lacking(keys: Seq<LegKey>, legs: Seq<LegKey>)
    ensures
        forall|k: LegKey, v: u64| #[trigger]
            lacking(keys, legs).contains((k, v)) <==> keys.contains(k) && !legs.contains(k) && v
                == leg_seed(k),
    decreases keys.len(),
{
    if keys.len() > 0 {
        let rest = keys.drop_last();
        let last = keys.last();
        lemma_lacking(rest, legs);
        assert(keys =~= rest.push(last));
        crate::seqs::lemma_push_contains(rest, last);
        crate::seqs::lemma_push_contains(lacking(rest, legs), (last, leg_seed(last)));
    }
}

/// Once there is a frame to render, every rendering wanted has a hop: the one it
/// had, which is not built again, or a new one with a seed of its own. No hop is
/// torn down.
pub proof fn every_rendering_has_a_hop(
    s: TalkerState,
    samples: Seq<i16>,
    src: Sink,
    sinks: Seq<Sink>,
    plan: Plan,
    k: LegKey,
    v: u64,
)
    requires
        s.planned(samples, src, sinks, plan),
        s.pending.len() + samples.len() >= 160,
    ensures
        plan.fresh@.contains((k, v)) <==> renderings(sinks).contains(k) && !s.legs.contains(k) && v
            == seed(Sink { mode: k.0, quality: k.1, bridged: k.2 }, 2),
        s.fed(samples, src, sinks).legs.contains(k) <==> s.legs.contains(k) || renderings(
            sinks,
        ).contains(k),
{
    let keys = renderings(sinks);
    let new = lacking(keys, s.legs);
    let names = new.map_values(|f: (LegKey, u64)| f.0);
    let after = s.fed(samples, src, sinks).legs;
    lemma_lacking(keys, s.legs);
    assert(after == s.legs + names);
    if s.legs.contains(k) {
        let i = choose|i: int| 0 <= i < s.legs.len() && s.legs[i] == k;
        assert(after[i] == k);
    } else if keys.contains(k) {
        assert(new.contains((k, leg_seed(k))));
        let i = choose|i: int| 0 <= i < new.len() && new[i] == (k, leg_seed(k));
        assert(names[i] == k);
        assert(after[s.legs.len() + i] == k);
    }
    if after.contains(k) && !s.legs.contains(k) {
        let i = choose|i: int| 0 <= i < after.len() && after[i] == k;
        if i < s.legs.len() {
            assert(s.legs[i] == k);
        } else {
            assert(new[i - s.legs.len()].0 == k);
            assert(new.contains((k, new[i - s.legs.len()].1)));
        }
    }
}

/// The speaker's own hop is wanted exactly where somebody who decodes is across
/// a patch. It is built where there is none, or where the speaker's link is no
/// longer the one it was built for, and is then that of the speaker's link.
pub proof fn a_patch_hears_the_speakers_own_link(
    s: TalkerState,
    samples: Seq<i16>,
    src: Sink,
    sinks: Seq<Sink>,
    plan: Plan,
)
    requires
        s.planned(samples, src, sinks, plan),
    ensures
        plan.need_bridge <==> exists|i: int|
            0 <= i < sinks.len() && (#[trigger] sinks[i]).bridged && !(sinks[i].mode == Mode::P25
                && sinks[i].quality <= 7),
        plan.rebuild is Some <==> plan.need_bridge && !(s.bridge is Some && key(s.bridge->0) == key(
            src,
        )),
        plan.rebuild is Some ==> plan.rebuild == Some(seed(src, 1)),
        plan.need_bridge ==> {
            let hop = s.fed(samples, src, sinks).bridge;
            hop is Some && key(hop->0) == key(src)
        },
        !plan.need_bridge ==> s.fed(samples, src, sinks).bridge == s.bridge,
{
    let keys = renderings(sinks);
    if exists|i: int|
        0 <= i < sinks.len() && (#[trigger] sinks[i]).bridged && !(sinks[i].mode == Mode::P25
            && sinks[i].quality <= 7) {
        let i = choose|i: int|
            0 <= i < sinks.len() && (#[trigger] sinks[i]).bridged && !(sinks[i].mode == Mode::P25
                && sinks[i].quality <= 7);
        every_listener_that_decodes_is_rendered(sinks, i);
        let j = choose|j: int| 0 <= j < keys.len() && keys[j] == key(sinks[i]);
        assert(keys[j].2);
    }
    if crosses_a_patch(keys) {
        let j = choose|j: int| 0 <= j < keys.len() && (#[trigger] keys[j]).2;
        lemma_renderings_contain(sinks, keys[j]);
        assert(keys.contains(keys[j]));
        let i = choose|i: int|
            0 <= i < sinks.len() && key(#[trigger] sinks[i]) == keys[j] && !(sinks[i].mode
                == Mode::P25 && muted(lane(sinks[i].quality)));
        assert(sinks[i].bridged);
    }
}

/// The radio systems are numbered in order, digital first, and that number goes
/// into a rendering's seed from its forty-first bit on.
pub proof fn the_modes_are_numbered_in_order(quality: u8, bridged: bool, salt: u64)
    ensures
        Mode::P25.rank() == 0,
        Mode::Fm.rank() == 1,
        Mode::Am.rank() == 2,
        ({
            let at = |mode: Mode| seed(Sink { mode, quality, bridged }, salt);
            &&& at(Mode::P25) ^ at(Mode::Fm) == 0x100_0000_0000u64
            &&& at(Mode::P25) ^ at(Mode::Am) == 0x200_0000_0000u64
        }),
{
    let q = (quality * 0x1234_5678) as u64;
    let b = (if bridged {
        1u64
    } else {
        0u64
    }) << 48;
    let s = salt.wrapping_mul(0x9E37_79B9);
    assert((q ^ (0u64 << 40) ^ b ^ s) ^ (q ^ (1u64 << 40) ^ b ^ s) == 0x100_0000_0000u64)
        by (bit_vector);
    assert((q ^ (0u64 << 40) ^ b ^ s) ^ (q ^ (2u64 << 40) ^ b ^ s) == 0x200_0000_0000u64)
        by (bit_vector);
}

} // verus!

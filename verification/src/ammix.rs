//! Mixing concurrent transmissions on one AM frequency.
//!
//! FM captures and AM does not: on airband both carriers reach the receiver,
//! the envelope detector sums them, and their carriers beat together. The frames
//! of two talkers arriving at one listener would otherwise interleave into
//! alternating chunks of each, which sounds like neither, so they are summed
//! here and every receiver hears the same collision.

use crate::clock::{elapsed, elapsed_between};
use crate::dsp::{LegKey, Mode};
use crate::seqs::lemma_push_contains;
use crate::table::{Key, Table};
use vstd::prelude::*;

verus! {

/// Samples in one 20 ms frame at 8 kHz.
pub const AM_FRAME: usize = 160;

/// A talker is treated as gone once its queue has been dry this long, in
/// milliseconds: one radio unkeying must not stall everybody else.
pub const AM_GONE_MS: u64 = 120;

/// Where a rendering stands among the renderings.
pub open spec fn rank(lane: LegKey) -> int {
    lane.0.rank() * 512 + lane.1 * 2 + if lane.2 {
        1int
    } else {
        0
    }
}

fn rank_of(lane: LegKey) -> (n: u64)
    ensures
        n == rank(lane),
{
    lane.0.to_rank() * 512 + lane.1 as u64 * 2 + if lane.2 {
        1u64
    } else {
        0u64
    }
}

proof fn lemma_rank_is_unique(a: LegKey, b: LegKey)
    ensures
        rank(a) == rank(b) ==> a == b,
        0 <= rank(a) < 2048,
{
}

/// One talker's contribution to one rendering.
#[derive(Debug, Clone, Copy, PartialEq, Eq, Structural, Hash)]
pub struct Feed {
    pub mode: Mode,
    pub lane: u8,
    pub bridged: bool,
    pub talker: u32,
}

pub open spec fn feed(lane: LegKey, talker: u32) -> Feed {
    Feed { mode: lane.0, lane: lane.1, bridged: lane.2, talker }
}

impl Feed {
    pub open spec fn key(self) -> LegKey {
        (self.mode, self.lane, self.bridged)
    }
}

impl Key for Feed {
    open spec fn code(self) -> u128 {
        (rank(self.key()) * 0x1_0000_0000 + self.talker) as u128
    }

    fn to_code(self) -> (c: u128) {
        rank_of((self.mode, self.lane, self.bridged)) as u128 * 0x1_0000_0000 + self.talker as u128
    }

    fn same(self, other: Self) -> (b: bool) {
        self == other
    }

    proof fn code_is_injective(a: Self, b: Self) {
        lemma_rank_is_unique(a.key(), b.key());
        lemma_rank_is_unique(b.key(), a.key());
    }
}

// -- what a mix is ----------------------------------------------------------

/// One sample of a queue; past its end there is silence.
pub open spec fn sample(queue: Seq<i16>, i: int) -> int {
    if 0 <= i < queue.len() {
        queue[i] as int
    } else {
        0
    }
}

/// What some talkers add up to.
pub open spec fn sum_of(talkers: Set<u32>, f: spec_fn(u32) -> int) -> int
    decreases talkers.len(),
    when talkers.finite()
{
    if talkers.len() == 0 {
        0
    } else {
        let t = talkers.choose();
        f(t) + sum_of(talkers.remove(t), f)
    }
}

#[verifier::ext_equal]
pub struct MixState {
    /// Pending samples of each talker in each rendering.
    pub queues: Map<Feed, Seq<i16>>,
    /// When each talker last contributed anything.
    pub seen: Map<u32, u64>,
}

impl MixState {
    pub open spec fn empty() -> MixState {
        MixState { queues: Map::empty(), seen: Map::empty() }
    }

    pub open spec fn talkers(self, lane: LegKey) -> Set<u32> {
        Set::new(|t: u32| self.queues.contains_key(feed(lane, t)))
    }

    /// One sample of a mix: everybody's sample added up.
    pub open spec fn total(self, lane: LegKey, i: int) -> int {
        sum_of(self.talkers(lane), self.samples_at(lane, i))
    }

    pub open spec fn samples_at(self, lane: LegKey, i: int) -> spec_fn(u32) -> int {
        |t: u32| sample(self.queues[feed(lane, t)], i)
    }

    pub open spec fn colliding(self, lane: LegKey) -> bool {
        exists|a: u32, b: u32|
            a != b && #[trigger] self.queues.contains_key(feed(lane, a))
                && #[trigger] self.queues.contains_key(feed(lane, b))
    }

    /// Every talker of a rendering has contributed this many whole frames, and
    /// not every one of them one more.
    pub open spec fn is_ready(self, lane: LegKey, n: nat) -> bool {
        &&& forall|t: u32| #[trigger]
            self.queues.contains_key(feed(lane, t)) ==> n * AM_FRAME <= self.queues[feed(
                lane,
                t,
            )].len()
        &&& exists|t: u32| #[trigger]
            self.queues.contains_key(feed(lane, t)) && self.queues[feed(lane, t)].len() < (n + 1)
                * AM_FRAME
    }

    /// How many whole frames every talker of a rendering has contributed to.
    pub open spec fn ready(self, lane: LegKey) -> nat {
        choose|n: nat| self.is_ready(lane, n)
    }

    /// The longest queue of a rendering.
    pub open spec fn is_longest(self, lane: LegKey, n: nat) -> bool {
        &&& forall|t: u32| #[trigger]
            self.queues.contains_key(feed(lane, t)) ==> self.queues[feed(lane, t)].len() <= n
        &&& exists|t: u32| #[trigger]
            self.queues.contains_key(feed(lane, t)) && self.queues[feed(lane, t)].len() == n
    }

    pub open spec fn on_air(self, lane: LegKey) -> bool {
        exists|t: u32| #[trigger] self.queues.contains_key(feed(lane, t))
    }

    // -- what happens to it -------------------------------------------------

    pub open spec fn added(self, lane: LegKey, talker: u32, pcm: Seq<i16>, now: u64) -> MixState {
        let at = feed(lane, talker);
        MixState {
            queues: self.queues.insert(
                at,
                if self.queues.contains_key(at) {
                    self.queues[at] + pcm
                } else {
                    pcm
                },
            ),
            seen: self.seen.insert(talker, now),
        }
    }

    pub open spec fn is_gone(self, talker: u32, now: u64) -> bool {
        !self.seen.contains_key(talker) || elapsed(self.seen[talker], now) / 1_000_000
            > AM_GONE_MS
    }

    /// Whoever has stopped is no longer waited for.
    pub open spec fn present(self, now: u64) -> MixState {
        MixState {
            queues: self.queues.filter_keys(|f: Feed| !self.is_gone(f.talker, now)),
            seen: self.seen.filter_keys(|t: u32| !self.is_gone(t, now)),
        }
    }

    /// Every rendering's whole frames taken off its queues.
    pub open spec fn taken(self) -> MixState {
        MixState {
            queues: self.queues.map_entries(
                |f: Feed, q: Seq<i16>| q.skip((self.ready(f.key()) * AM_FRAME) as int),
            ),
            ..self
        }
    }
}

/// The sum of one rendering's talkers, before the carriers beat.
pub struct Mix {
    pub lane: LegKey,
    /// More than one radio is up.
    pub colliding: bool,
    pub sums: Vec<i64>,
}

impl MixState {
    pub open spec fn is_mix(self, m: Mix) -> bool {
        &&& m.colliding == self.colliding(m.lane)
        &&& m.sums@.len() == self.ready(m.lane) * AM_FRAME
        &&& forall|i: int|
            0 <= i < m.sums@.len() ==> #[trigger] m.sums@[i] == self.total(m.lane, i)
    }

    /// The mix of every rendering with a whole frame, in order.
    pub open spec fn are_mixes(self, out: Seq<Mix>) -> bool {
        &&& forall|i: int, j: int|
            0 <= i < j < out.len() ==> rank((#[trigger] out[i]).lane) < rank(
                (#[trigger] out[j]).lane,
            )
        &&& forall|i: int|
            0 <= i < out.len() ==> {
                &&& self.on_air((#[trigger] out[i]).lane)
                &&& self.ready(out[i].lane) > 0
                &&& self.is_mix(out[i])
            }
        &&& forall|lane: LegKey| #[trigger]
            self.on_air(lane) && self.ready(lane) > 0 ==> exists|i: int|
                0 <= i < out.len() && (#[trigger] out[i]).lane == lane
    }

    pub open spec fn is_rest(self, lane: LegKey, pcm: Seq<i16>) -> bool {
        &&& self.is_longest(lane, pcm.len())
        &&& forall|i: int|
            0 <= i < pcm.len() ==> #[trigger] pcm[i] == clamped(self.total(lane, i))
    }

    /// Everything still queued, every rendering with anything in it, in order.
    pub open spec fn are_rests(self, out: Seq<(LegKey, Vec<i16>)>) -> bool {
        &&& forall|i: int, j: int|
            0 <= i < j < out.len() ==> rank((#[trigger] out[i]).0) < rank((#[trigger] out[j]).0)
        &&& forall|i: int|
            0 <= i < out.len() ==> (#[trigger] out[i]).1@.len() > 0 && self.is_rest(
                out[i].0,
                out[i].1@,
            )
        &&& forall|f: Feed| #[trigger]
            self.queues.contains_key(f) && self.queues[f].len() > 0 ==> exists|i: int|
                0 <= i < out.len() && (#[trigger] out[i]).0 == f.key()
    }
}

/// A sum as it comes out of a receiver: limited to what a sample can hold.
pub open spec fn clamped(n: int) -> i16 {
    if n < i16::MIN {
        i16::MIN
    } else if n > i16::MAX {
        i16::MAX
    } else {
        n as i16
    }
}

fn clamp(n: i128) -> (s: i16)
    ensures
        s == clamped(n as int),
{
    if n < i16::MIN as i128 {
        i16::MIN
    } else if n > i16::MAX as i128 {
        i16::MAX
    } else {
        n as i16
    }
}

// -- sums do not depend on order --------------------------------------------

proof fn lemma_sum_takes_out(talkers: Set<u32>, f: spec_fn(u32) -> int, t: u32)
    requires
        talkers.finite(),
        talkers.contains(t),
    ensures
        sum_of(talkers, f) == f(t) + sum_of(talkers.remove(t), f),
    decreases talkers.len(),
{
    let first = talkers.choose();
    if first != t {
        let rest = talkers.remove(first);
        lemma_sum_takes_out(rest, f, t);
        assert(rest.remove(t) =~= talkers.remove(t).remove(first));
        lemma_sum_takes_out(talkers.remove(t), f, first);
    }
}

/// What a list of talkers adds up to, from the front.
spec fn sum_along(list: Seq<u32>, f: spec_fn(u32) -> int) -> int
    decreases list.len(),
{
    if list.len() == 0 {
        0
    } else {
        sum_along(list.drop_last(), f) + f(list.last())
    }
}

proof fn lemma_sum_along(list: Seq<u32>, talkers: Set<u32>, f: spec_fn(u32) -> int)
    requires
        list.no_duplicates(),
        forall|t: u32| #[trigger] talkers.contains(t) <==> list.contains(t),
    ensures
        talkers.finite(),
        sum_of(talkers, f) == sum_along(list, f),
    decreases list.len(),
{
    assert(talkers =~= list.to_set());
    list.unique_seq_to_set();
    if list.len() > 0 {
        let rest = list.drop_last();
        let last = list.last();
        assert(list =~= rest.push(last));
        lemma_push_contains(rest, last);
        assert(!rest.contains(last)) by {
            if rest.contains(last) {
                let j = choose|j: int| 0 <= j < rest.len() && rest[j] == last;
                assert(list[j] == list[list.len() - 1]);
            }
        }
        assert(list.contains(last));
        lemma_sum_along(rest, talkers.remove(last), f);
        lemma_sum_takes_out(talkers, f, last);
    } else {
        assert(talkers =~= Set::empty());
    }
}

proof fn lemma_sum_along_bound(list: Seq<u32>, f: spec_fn(u32) -> int)
    requires
        forall|t: u32| -0x8000 <= #[trigger] f(t) <= 0x7fff,
    ensures
        -0x8000 * list.len() <= sum_along(list, f) <= 0x8000 * list.len(),
    decreases list.len(),
{
    if list.len() > 0 {
        lemma_sum_along_bound(list.drop_last(), f);
    }
}

proof fn lemma_ready_is_unique(s: MixState, lane: LegKey, n: nat)
    requires
        s.is_ready(lane, n),
    ensures
        s.ready(lane) == n,
{
    let m = s.ready(lane);
    assert(s.is_ready(lane, m));
    let a = choose|t: u32| #[trigger]
        s.queues.contains_key(feed(lane, t)) && s.queues[feed(lane, t)].len() < (n + 1) * AM_FRAME;
    let b = choose|t: u32| #[trigger]
        s.queues.contains_key(feed(lane, t)) && s.queues[feed(lane, t)].len() < (m + 1) * AM_FRAME;
    assert(m * AM_FRAME <= s.queues[feed(lane, a)].len());
    assert(n * AM_FRAME <= s.queues[feed(lane, b)].len());
}

proof fn lemma_ready_exists(s: MixState, lane: LegKey, t: u32)
    requires
        s.queues.contains_key(feed(lane, t)),
    ensures
        s.is_ready(lane, s.ready(lane)),
    decreases s.queues[feed(lane, t)].len(),
{
    let n = s.queues[feed(lane, t)].len() / AM_FRAME as nat;
    if exists|u: u32| #[trigger]
        s.queues.contains_key(feed(lane, u)) && s.queues[feed(lane, u)].len() < n * AM_FRAME {
        let u = choose|u: u32| #[trigger]
            s.queues.contains_key(feed(lane, u)) && s.queues[feed(lane, u)].len() < n * AM_FRAME;
        lemma_ready_exists(s, lane, u);
    } else {
        assert(s.is_ready(lane, n));
    }
}

// -- the mixer --------------------------------------------------------------

/// Mixes concurrent transmissions on one AM frequency.
pub struct AmMix {
    queues: Table<Feed, Vec<i16>>,
    seen: Table<u32, u64>,
}

impl View for AmMix {
    type V = MixState;

    closed spec fn view(&self) -> MixState {
        MixState { queues: self.queues@.map_values(|v: Vec<i16>| v@), seen: self.seen@ }
    }
}

impl Default for AmMix {
    fn default() -> (m: Self)
        ensures
            m@ == MixState::empty(),
    {
        let m = AmMix { queues: Table::new(), seen: Table::new() };
        assert(m@ =~= MixState::empty());
        m
    }
}

impl AmMix {
    pub fn add(&mut self, lane: LegKey, talker: u32, pcm: &[i16], now: u64)
        ensures
            final(self)@ == old(self)@.added(lane, talker, pcm@, now),
    {
        let at = Feed { mode: lane.0, lane: lane.1, bridged: lane.2, talker };
        self.seen.insert(talker, now);
        let mut queue = match self.queues.remove(&at) {
            Some(queue) => queue,
            None => Vec::new(),
        };
        let ghost had = queue@;
        crate::dsp::extend(&mut queue, pcm);
        assert(queue@ =~= if old(self)@.queues.contains_key(at) {
            old(self)@.queues[at] + pcm@
        } else {
            pcm@
        });
        self.queues.insert(at, queue);
        assert(self@.queues =~= old(self)@.added(lane, talker, pcm@, now).queues);
    }

    /// Everything still queued, whether or not every talker has contributed.
    ///
    /// For the moment a collision ends. The frames still held belong to whoever
    /// is left, and discarding them clips their first word.
    pub fn flush(&mut self) -> (out: Vec<(LegKey, Vec<i16>)>)
        ensures
            old(self)@.are_rests(out@),
            final(self)@ == MixState::empty(),
    {
        let lanes = self.lanes();
        let mut out: Vec<(LegKey, Vec<i16>)> = Vec::new();
        let mut i: usize = 0;
        while i < lanes.len()
            invariant
                i <= lanes.len(),
                self@ == old(self)@,
                in_order(lanes@),
                forall|f: Feed| #[trigger]
                    self@.queues.contains_key(f) ==> lanes@.contains(f.key()),
                forall|j: int| 0 <= j < lanes@.len() ==> self@.on_air(#[trigger] lanes@[j]),
                forall|a: int, b: int|
                    0 <= a < b < out@.len() ==> rank((#[trigger] out@[a]).0) < rank(
                        (#[trigger] out@[b]).0,
                    ),
                forall|a: int|
                    0 <= a < out@.len() ==> {
                        &&& (#[trigger] out@[a]).1@.len() > 0
                        &&& self@.is_rest(out@[a].0, out@[a].1@)
                        &&& i > 0 && rank(out@[a].0) <= rank(lanes@[i - 1])
                    },
                forall|f: Feed, j: int|
                    #![trigger self@.queues.contains_key(f), lanes@[j]]
                    0 <= j < i && self@.queues.contains_key(f) && f.key() == lanes@[j]
                        && self@.queues[f].len() > 0 ==> exists|a: int|
                        0 <= a < out@.len() && (#[trigger] out@[a]).0 == f.key(),
            decreases lanes.len() - i,
        {
            let ghost before = out@;
            let lane = lanes[i];
            let pcm = self.rest_of(lane);
            let ghost rest = pcm@;
            if pcm.len() > 0 {
                out.push((lane, pcm));
                assert(out@[before.len() as int].0 == lane);
                assert(out@[before.len() as int].1@ == rest);
            }
            proof {
                assert forall|f: Feed, j: int|
                    #![trigger self@.queues.contains_key(f), lanes@[j]]
                    0 <= j < i + 1 && self@.queues.contains_key(f) && f.key() == lanes@[j]
                        && self@.queues[f].len() > 0 implies exists|a: int|
                    0 <= a < out@.len() && (#[trigger] out@[a]).0 == f.key() by {
                    if j < i {
                        let a = choose|a: int|
                            0 <= a < before.len() && (#[trigger] before[a]).0 == f.key();
                        assert(out@[a].0 == f.key());
                    } else {
                        assert(feed(lane, f.talker) == f);
                        assert(self@.queues[f].len() <= rest.len());
                    }
                }
            }
            i += 1;
        }
        proof {
            assert forall|f: Feed| #[trigger]
                self@.queues.contains_key(f) && self@.queues[f].len() > 0 implies exists|a: int|
                0 <= a < out@.len() && (#[trigger] out@[a]).0 == f.key() by {
                let j = choose|j: int| 0 <= j < lanes@.len() && lanes@[j] == f.key();
                assert(lanes@[j] == f.key());
            }
        }
        self.queues = Table::new();
        self.seen = Table::new();
        assert(self@ =~= MixState::empty());
        out
    }

    fn rest_of(&self, lane: LegKey) -> (pcm: Vec<i16>)
        requires
            self@.on_air(lane),
        ensures
            self@.is_rest(lane, pcm@),
    {
        let talkers = self.talkers(lane);
        let mut longest: usize = 0;
        let mut k: usize = 0;
        while k < talkers.len()
            invariant
                k <= talkers.len(),
                forall|t: u32| #[trigger]
                    talkers@.contains(t) <==> self@.queues.contains_key(feed(lane, t)),
                k == 0 ==> longest == 0,
                k > 0 ==> exists|j: int|
                    0 <= j < k && self@.queues[feed(lane, #[trigger] talkers@[j])].len() == longest,
                forall|j: int|
                    0 <= j < k ==> self@.queues[feed(lane, #[trigger] talkers@[j])].len()
                        <= longest,
            decreases talkers.len() - k,
        {
            let at = Feed { mode: lane.0, lane: lane.1, bridged: lane.2, talker: talkers[k] };
            assert(talkers@.contains(talkers@[k as int]));
            if let Some(queue) = self.queues.get(&at) {
                assert(queue@ == self@.queues[feed(lane, talkers@[k as int])]);
                if k == 0 || queue.len() > longest {
                    longest = queue.len();
                }
            }
            k += 1;
        }
        proof {
            let t = choose|t: u32| #[trigger] self@.queues.contains_key(feed(lane, t));
            assert(talkers@.contains(t));
            let j = choose|j: int|
                0 <= j < talkers@.len() && self@.queues[feed(lane, #[trigger] talkers@[j])].len()
                    == longest;
            assert(talkers@.contains(talkers@[j]));
            assert(self@.queues.contains_key(feed(lane, talkers@[j])));
            assert forall|t: u32| #[trigger] self@.queues.contains_key(feed(lane, t)) implies
                self@.queues[feed(lane, t)].len() <= longest by {
                assert(talkers@.contains(t));
                let m = choose|m: int| 0 <= m < talkers@.len() && talkers@[m] == t;
                assert(self@.queues[feed(lane, talkers@[m])].len() <= longest);
            }
            assert(self@.is_longest(lane, longest as nat));
        }
        let mut pcm: Vec<i16> = Vec::new();
        let mut i: usize = 0;
        while i < longest
            invariant
                i <= longest,
                talkers@.no_duplicates(),
                forall|t: u32| #[trigger]
                    talkers@.contains(t) <==> self@.queues.contains_key(feed(lane, t)),
                pcm@.len() == i,
                forall|j: int| 0 <= j < i ==> #[trigger] pcm@[j] == clamped(self@.total(lane, j)),
            decreases longest - i,
        {
            let sum = self.sum(lane, &talkers, i);
            pcm.push(clamp(sum as i128));
            i += 1;
        }
        pcm
    }

    /// Whole frames that every present talker has contributed to, summed.
    ///
    /// Self-clocking off whoever is transmitting: a frame comes out as soon as
    /// the last contributor supplies its share.
    pub fn drain(&mut self, now: u64) -> (out: Vec<Mix>)
        ensures
            old(self)@.present(now).are_mixes(out@),
            final(self)@ == old(self)@.present(now).taken(),
    {
        self.forget_gone(now);
        let ghost here = self@;
        let lanes = self.lanes();
        let mut out: Vec<Mix> = Vec::new();
        let mut i: usize = 0;
        while i < lanes.len()
            invariant
                i <= lanes.len(),
                self@ == here,
                in_order(lanes@),
                forall|f: Feed| #[trigger]
                    self@.queues.contains_key(f) ==> lanes@.contains(f.key()),
                forall|j: int| 0 <= j < lanes@.len() ==> self@.on_air(#[trigger] lanes@[j]),
                forall|a: int, b: int|
                    0 <= a < b < out@.len() ==> rank((#[trigger] out@[a]).lane) < rank(
                        (#[trigger] out@[b]).lane,
                    ),
                forall|a: int|
                    0 <= a < out@.len() ==> {
                        &&& self@.on_air((#[trigger] out@[a]).lane)
                        &&& self@.ready(out@[a].lane) > 0
                        &&& self@.is_mix(out@[a])
                        &&& i > 0 && rank(out@[a].lane) <= rank(lanes@[i - 1])
                    },
                forall|j: int|
                    0 <= j < i && self@.ready(#[trigger] lanes@[j]) > 0 ==> exists|a: int|
                        0 <= a < out@.len() && (#[trigger] out@[a]).lane == lanes@[j],
            decreases lanes.len() - i,
        {
            let ghost before = out@;
            let lane = lanes[i];
            let mix = self.mix_of(lane);
            if mix.sums.len() > 0 {
                out.push(mix);
                assert(out@[before.len() as int].lane == lane);
            }
            proof {
                assert forall|j: int|
                    0 <= j < i + 1 && self@.ready(#[trigger] lanes@[j]) > 0 implies exists|a: int|
                    0 <= a < out@.len() && (#[trigger] out@[a]).lane == lanes@[j] by {
                    if j < i {
                        let a = choose|a: int|
                            0 <= a < before.len() && (#[trigger] before[a]).lane == lanes@[j];
                        assert(out@[a].lane == lanes@[j]);
                    }
                }
            }
            i += 1;
        }
        proof {
            assert forall|lane: LegKey| #[trigger] here.on_air(lane) && here.ready(lane) > 0
                implies exists|a: int|
                0 <= a < out@.len() && (#[trigger] out@[a]).lane == lane by {
                let t = choose|t: u32| #[trigger] here.queues.contains_key(feed(lane, t));
                assert(feed(lane, t).key() == lane);
                let j = choose|j: int| 0 <= j < lanes@.len() && lanes@[j] == lane;
                assert(here.ready(lanes@[j]) > 0);
            }
        }
        self.take_frames();
        out
    }

    fn forget_gone(&mut self, now: u64)
        ensures
            final(self)@ == old(self)@.present(now),
    {
        let ghost before = self@;
        let stays = |t: &u32, at: &u64| -> (keep: bool)
            ensures
                keep == !(elapsed(*at, now) / 1_000_000 > AM_GONE_MS),
        { elapsed_between(*at, now) / 1_000_000 <= AM_GONE_MS };
        self.seen.retain(stays);
        assert forall|t: u32| #[trigger] self.seen@.contains_key(t) <==> !before.is_gone(t, now) by {
            if before.seen.contains_key(t) {
            }
        }
        let seen = &self.seen;
        let heard = |f: &Feed, q: &Vec<i16>| -> (keep: bool)
            ensures
                keep == seen@.contains_key(f.talker),
        { seen.contains_key(&f.talker) };
        self.queues.retain(heard);
        proof {
            let target = before.present(now);
            assert(self@.seen =~= target.seen);
            assert forall|f: Feed| #[trigger] self.queues@.contains_key(f) <==> old(
                self,
            ).queues@.contains_key(f) && !before.is_gone(f.talker, now) by {
            }
            assert(self@.queues =~= target.queues);
        }
    }

    fn mix_of(&self, lane: LegKey) -> (m: Mix)
        requires
            self@.on_air(lane),
        ensures
            m.lane == lane,
            self@.is_mix(m),
    {
        let talkers = self.talkers(lane);
        let n: usize = self.frames_ready(lane);
        let colliding = talkers.len() > 1;
        proof {
            if colliding {
                let a = talkers@[0];
                let b = talkers@[1];
                assert(talkers@.contains(a) && talkers@.contains(b));
                assert(self@.queues.contains_key(feed(lane, a)) && self@.queues.contains_key(
                    feed(lane, b),
                ));
            } else if self@.colliding(lane) {
                let (a, b) = choose|a: u32, b: u32|
                    a != b && #[trigger] self@.queues.contains_key(feed(lane, a))
                        && #[trigger] self@.queues.contains_key(feed(lane, b));
                assert(talkers@.contains(a) && talkers@.contains(b));
            }
        }
        let mut sums: Vec<i64> = Vec::new();
        let mut i: usize = 0;
        while i < n
            invariant
                i <= n,
                talkers@.no_duplicates(),
                forall|t: u32| #[trigger]
                    talkers@.contains(t) <==> self@.queues.contains_key(feed(lane, t)),
                sums@.len() == i,
                forall|j: int| 0 <= j < i ==> #[trigger] sums@[j] == self@.total(lane, j),
            decreases n - i,
        {
            let sum = self.sum(lane, &talkers, i);
            sums.push(sum);
            i += 1;
        }
        Mix { lane, colliding, sums }
    }

    /// The samples of the whole frames every talker of a rendering has
    /// contributed.
    fn frames_ready(&self, lane: LegKey) -> (n: usize)
        requires
            self@.on_air(lane),
        ensures
            n == self@.ready(lane) * AM_FRAME,
            forall|t: u32| #[trigger]
                self@.queues.contains_key(feed(lane, t)) ==> n <= self@.queues[feed(lane, t)].len(),
    {
        let talkers = self.talkers(lane);
        let mut least: usize = 0;
        let mut k: usize = 0;
        while k < talkers.len()
            invariant
                k <= talkers.len(),
                forall|t: u32| #[trigger]
                    talkers@.contains(t) <==> self@.queues.contains_key(feed(lane, t)),
                least * AM_FRAME <= usize::MAX,
                k > 0 ==> exists|j: int|
                    0 <= j < k && self@.queues[feed(lane, #[trigger] talkers@[j])].len() / 160
                        == least,
                k > 0 ==> forall|j: int|
                    0 <= j < k ==> least <= self@.queues[feed(
                        lane,
                        #[trigger] talkers@[j],
                    )].len() / 160,
            decreases talkers.len() - k,
        {
            let at = Feed { mode: lane.0, lane: lane.1, bridged: lane.2, talker: talkers[k] };
            assert(talkers@.contains(talkers@[k as int]));
            if let Some(queue) = self.queues.get(&at) {
                assert(queue@ == self@.queues[feed(lane, talkers@[k as int])]);
                let whole: usize = queue.len() / AM_FRAME;
                if k == 0 || whole < least {
                    least = whole;
                }
            }
            k += 1;
        }
        proof {
            let t = choose|t: u32| #[trigger] self@.queues.contains_key(feed(lane, t));
            assert(talkers@.contains(t));
            let j = choose|j: int|
                0 <= j < talkers@.len() && self@.queues[feed(lane, #[trigger] talkers@[j])].len()
                    / 160 == least;
            assert(talkers@.contains(talkers@[j]));
            assert(self@.queues.contains_key(feed(lane, talkers@[j])));
            assert forall|t: u32| #[trigger] self@.queues.contains_key(feed(lane, t)) implies least
                * AM_FRAME <= self@.queues[feed(lane, t)].len() by {
                assert(talkers@.contains(t));
                let m = choose|m: int| 0 <= m < talkers@.len() && talkers@[m] == t;
                assert(least <= self@.queues[feed(lane, talkers@[m])].len() / 160);
            }
            assert(self@.is_ready(lane, least as nat));
            lemma_ready_is_unique(self@, lane, least as nat);
            assert(least * AM_FRAME <= self@.queues[feed(lane, talkers@[j])].len());
        }
        least * AM_FRAME
    }

    fn take_frames(&mut self)
        ensures
            final(self)@ == old(self)@.taken(),
    {
        let ghost before = self@;
        let feeds = self.queues.keys();
        // Measured before anything is taken: every rendering gives what all of
        // its talkers have.
        let mut counts: Vec<usize> = Vec::new();
        let mut i: usize = 0;
        while i < feeds.len()
            invariant
                i <= feeds.len(),
                self@ == before,
                forall|f: Feed| #[trigger] feeds@.contains(f) <==> self@.queues.contains_key(f),
                counts@.len() == i,
                forall|j: int|
                    0 <= j < i ==> #[trigger] counts@[j] == before.ready(feeds@[j].key())
                        * AM_FRAME && counts@[j] <= before.queues[feeds@[j]].len(),
            decreases feeds.len() - i,
        {
            let f = feeds[i];
            proof {
                assert(feeds@.contains(f));
                assert(feed(f.key(), f.talker) == f);
                assert(self@.on_air(f.key()));
            }
            let n = self.frames_ready((f.mode, f.lane, f.bridged));
            counts.push(n);
            i += 1;
        }
        let mut k: usize = 0;
        while k < feeds.len()
            invariant
                k <= feeds.len(),
                feeds@.no_duplicates(),
                forall|f: Feed| #[trigger] feeds@.contains(f) <==> before.queues.contains_key(f),
                counts@.len() == feeds@.len(),
                forall|j: int|
                    0 <= j < feeds@.len() ==> #[trigger] counts@[j] == before.ready(
                        feeds@[j].key(),
                    ) * AM_FRAME && counts@[j] <= before.queues[feeds@[j]].len(),
                self@.seen == before.seen,
                self@.queues.dom() =~= before.queues.dom(),
                forall|j: int|
                    0 <= j < k ==> self@.queues[#[trigger] feeds@[j]]
                        == before.queues[feeds@[j]].skip(counts@[j] as int),
                forall|j: int|
                    k <= j < feeds@.len() ==> self@.queues[#[trigger] feeds@[j]]
                        == before.queues[feeds@[j]],
            decreases feeds.len() - k,
        {
            let f = feeds[k];
            assert(feeds@.contains(f));
            assert(self.queues@.contains_key(f));
            let n: usize = counts[k];
            let ghost earlier = self@.queues;
            assert(self@.queues[feeds@[k as int]] == before.queues[f]);
            if let Some(queue) = self.queues.remove(&f) {
                assert(queue@ == before.queues[f]);
                let rest = rest_after(&queue, n);
                self.queues.insert(f, rest);
                assert(self@.queues =~= earlier.insert(f, before.queues[f].skip(n as int)));
            }
            proof {
                assert forall|j: int| 0 <= j < feeds@.len() && j != k implies self@.queues[#[trigger] feeds@[j]]
                    == earlier[feeds@[j]] by {
                    assert(feeds@[j] != feeds@[k as int]);
                }
            }
            k += 1;
        }
        proof {
            assert forall|f: Feed| before.queues.contains_key(f) implies #[trigger] self@.queues[f]
                == before.taken().queues[f] by {
                assert(feeds@.contains(f));
                let j = choose|j: int| 0 <= j < feeds@.len() && feeds@[j] == f;
                assert(self@.queues[feeds@[j]] == before.queues[feeds@[j]].skip(counts@[j] as int));
            }
            assert(self@.queues =~= before.taken().queues);
        }
    }

    /// The renderings anybody contributes to, each once and in order.
    fn lanes(&self) -> (lanes: Vec<LegKey>)
        ensures
            in_order(lanes@),
            forall|f: Feed| #[trigger]
                self@.queues.contains_key(f) ==> lanes@.contains(f.key()),
            forall|j: int| 0 <= j < lanes@.len() ==> self@.on_air(#[trigger] lanes@[j]),
    {
        let feeds = self.queues.keys();
        let mut lanes: Vec<LegKey> = Vec::new();
        let mut i: usize = 0;
        while i < feeds.len()
            invariant
                i <= feeds.len(),
                forall|f: Feed| #[trigger] feeds@.contains(f) <==> self@.queues.contains_key(f),
                in_order(lanes@),
                forall|j: int| 0 <= j < i ==> lanes@.contains((#[trigger] feeds@[j]).key()),
                forall|k: LegKey| #[trigger] lanes@.contains(k) ==> self@.on_air(k),
            decreases feeds.len() - i,
        {
            let f = feeds[i];
            let ghost before = lanes@;
            proof {
                assert(feeds@.contains(f));
                assert(feed(f.key(), f.talker) == f);
                assert(self@.on_air(f.key()));
            }
            put_in_order(&mut lanes, (f.mode, f.lane, f.bridged));
            proof {
                assert forall|j: int| 0 <= j < i + 1 implies lanes@.contains(
                    (#[trigger] feeds@[j]).key(),
                ) by {
                    if j < i {
                        assert(before.contains(feeds@[j].key()));
                    }
                }
            }
            i += 1;
        }
        proof {
            assert forall|f: Feed| #[trigger] self@.queues.contains_key(f) implies lanes@.contains(
                f.key(),
            ) by {
                assert(feeds@.contains(f));
                let j = choose|j: int| 0 <= j < feeds@.len() && feeds@[j] == f;
                assert(lanes@.contains(feeds@[j].key()));
            }
            assert forall|j: int| 0 <= j < lanes@.len() implies self@.on_air(
                #[trigger] lanes@[j],
            ) by {
                assert(lanes@.contains(lanes@[j]));
            }
        }
        lanes
    }

    fn talkers(&self, lane: LegKey) -> (talkers: Vec<u32>)
        ensures
            talkers@.no_duplicates(),
            forall|t: u32| #[trigger]
                talkers@.contains(t) <==> self@.queues.contains_key(feed(lane, t)),
    {
        let feeds = self.queues.keys();
        let mut talkers: Vec<u32> = Vec::new();
        let mut i: usize = 0;
        while i < feeds.len()
            invariant
                i <= feeds.len(),
                feeds@.no_duplicates(),
                forall|f: Feed| #[trigger] feeds@.contains(f) <==> self@.queues.contains_key(f),
                talkers@.no_duplicates(),
                forall|t: u32| #[trigger]
                    talkers@.contains(t) <==> feeds@.take(i as int).contains(feed(lane, t)),
            decreases feeds.len() - i,
        {
            let f = feeds[i];
            let ghost before = talkers@;
            proof {
                let upto = feeds@.take(i as int);
                assert(feeds@.take(i as int + 1) =~= upto.push(f));
                lemma_push_contains(upto, f);
                lemma_push_contains(before, f.talker);
                assert(!upto.contains(f)) by {
                    if upto.contains(f) {
                        let j = choose|j: int| 0 <= j < upto.len() && upto[j] == f;
                        assert(feeds@[j] == feeds@[i as int]);
                    }
                }
            }
            if f.mode == lane.0 && f.lane == lane.1 && f.bridged == lane.2 {
                assert(f == feed(lane, f.talker));
                assert(!before.contains(f.talker));
                talkers.push(f.talker);
                assert(talkers@.no_duplicates());
            } else {
                assert(forall|t: u32| feed(lane, t) != f);
            }
            i += 1;
        }
        proof {
            assert(feeds@.take(i as int) =~= feeds@);
            assert forall|t: u32| #[trigger]
                talkers@.contains(t) <==> self@.queues.contains_key(feed(lane, t)) by {
                assert(feeds@.contains(feed(lane, t)) <==> self@.queues.contains_key(
                    feed(lane, t),
                ));
            }
        }
        talkers
    }

    fn sum(&self, lane: LegKey, talkers: &Vec<u32>, i: usize) -> (sum: i64)
        requires
            talkers@.no_duplicates(),
            forall|t: u32| #[trigger]
                talkers@.contains(t) <==> self@.queues.contains_key(feed(lane, t)),
        ensures
            sum == self@.total(lane, i as int),
    {
        let ghost f = self@.samples_at(lane, i as int);
        proof {
            lemma_sum_along(talkers@, self@.talkers(lane), f);
            lemma_few_talkers(talkers@);
        }
        let mut sum: i64 = 0;
        let mut k: usize = 0;
        while k < talkers.len()
            invariant
                k <= talkers.len(),
                talkers@.len() <= 0x1_0000_0000,
                f == self@.samples_at(lane, i as int),
                forall|t: u32| #[trigger]
                    talkers@.contains(t) <==> self@.queues.contains_key(feed(lane, t)),
                sum == sum_along(talkers@.take(k as int), f),
            decreases talkers.len() - k,
        {
            let t = talkers[k];
            let at = Feed { mode: lane.0, lane: lane.1, bridged: lane.2, talker: t };
            let mut here: i64 = 0;
            assert(talkers@.contains(t));
            if let Some(queue) = self.queues.get(&at) {
                assert(queue@ == self@.queues[feed(lane, t)]);
                if i < queue.len() {
                    here = queue[i] as i64;
                }
            }
            proof {
                assert(here == f(t));
                assert(talkers@.take(k as int + 1).drop_last() =~= talkers@.take(k as int));
                lemma_sum_along_bound(talkers@.take(k as int), f);
            }
            sum = sum + here;
            k += 1;
        }
        assert(talkers@.take(k as int) =~= talkers@);
        sum
    }
}

proof fn lemma_few_talkers(talkers: Seq<u32>)
    requires
        talkers.no_duplicates(),
    ensures
        talkers.len() <= 0x1_0000_0000,
{
    talkers.unique_seq_to_set();
    let all = vstd::set_lib::set_int_range(0, 0x1_0000_0000);
    vstd::set_lib::lemma_int_range(0, 0x1_0000_0000);
    let as_ints = talkers.map_values(|t: u32| t as int);
    assert(as_ints.no_duplicates());
    as_ints.unique_seq_to_set();
    assert(as_ints.to_set().subset_of(all)) by {
        assert forall|n: int| as_ints.to_set().contains(n) implies all.contains(n) by {
            let j = choose|j: int| 0 <= j < as_ints.len() && as_ints[j] == n;
            assert(as_ints[j] == talkers[j] as int);
        }
    }
    vstd::set_lib::lemma_len_subset(as_ints.to_set(), all);
}

spec fn in_order(lanes: Seq<LegKey>) -> bool {
    forall|i: int, j: int|
        0 <= i < j < lanes.len() ==> rank(#[trigger] lanes[i]) < rank(#[trigger] lanes[j])
}

fn put_in_order(lanes: &mut Vec<LegKey>, lane: LegKey)
    requires
        in_order(old(lanes)@),
    ensures
        in_order(final(lanes)@),
        forall|k: LegKey| #[trigger]
            final(lanes)@.contains(k) <==> old(lanes)@.contains(k) || k == lane,
{
    let ghost before = lanes@;
    let mut i: usize = 0;
    while i < lanes.len() && rank_of(lanes[i]) < rank_of(lane)
        invariant
            i <= lanes.len(),
            lanes@ == before,
            forall|j: int| 0 <= j < i ==> rank(#[trigger] lanes@[j]) < rank(lane),
        decreases lanes.len() - i,
    {
        i += 1;
    }
    if i < lanes.len() && rank_of(lanes[i]) == rank_of(lane) {
        proof {
            lemma_rank_is_unique(lanes@[i as int], lane);
            assert(lanes@.contains(lane));
        }
        return ;
    }
    lanes.insert(i, lane);
    proof {
        assert(lanes@[i as int] == lane);
        assert forall|k: LegKey| #[trigger] lanes@.contains(k) <==> before.contains(k) || k
            == lane by {
            if before.contains(k) {
                let j = choose|j: int| 0 <= j < before.len() && before[j] == k;
                if j < i {
                    assert(lanes@[j] == k);
                } else {
                    assert(lanes@[j + 1] == k);
                }
            }
            if lanes@.contains(k) && k != lane {
                let j = choose|j: int| 0 <= j < lanes@.len() && lanes@[j] == k;
                if j < i {
                    assert(before[j] == k);
                } else {
                    assert(before[j - 1] == k);
                }
            }
        }
    }
}

fn rest_after(queue: &Vec<i16>, n: usize) -> (rest: Vec<i16>)
    requires
        n <= queue.len(),
    ensures
        rest@ == queue@.skip(n as int),
{
    let mut rest: Vec<i16> = Vec::new();
    let mut i: usize = n;
    while i < queue.len()
        invariant
            n <= i <= queue.len(),
            rest@ =~= queue@.subrange(n as int, i as int),
        decreases queue.len() - i,
    {
        rest.push(queue[i]);
        i += 1;
    }
    assert(rest@ =~= queue@.skip(n as int));
    rest
}

// -- the beat ---------------------------------------------------------------

/// A mix with the beat of its carriers on top, limited to what a sample can
/// hold. A mix of one radio has no beat.
pub open spec fn heard(mix: Mix, beat: Seq<i32>, i: int) -> i16 {
    clamped(
        mix.sums@[i] + if mix.colliding && i < beat.len() {
            beat[i] as int
        } else {
            0
        },
    )
}

/// What a receiver hears of a mix. The beat is one value per sample, and a
/// beat that ends early leaves the rest of the mix without one.
pub fn with_beat(mix: &Mix, beat: &[i32]) -> (pcm: Vec<i16>)
    ensures
        pcm@.len() == mix.sums@.len(),
        forall|i: int| 0 <= i < pcm@.len() ==> #[trigger] pcm@[i] == heard(*mix, beat@, i),
{
    let mut pcm: Vec<i16> = Vec::new();
    let mut i: usize = 0;
    while i < mix.sums.len()
        invariant
            i <= mix.sums.len(),
            pcm@.len() == i,
            forall|j: int| 0 <= j < i ==> #[trigger] pcm@[j] == heard(*mix, beat@, j),
        decreases mix.sums.len() - i,
    {
        let note: i128 = if mix.colliding && i < beat.len() {
            beat[i] as i128
        } else {
            0
        };
        pcm.push(clamp(mix.sums[i] as i128 + note));
        i += 1;
    }
    pcm
}

// -- laws -------------------------------------------------------------------

/// Two talkers are summed, not interleaved: a frame of two radios is, sample by
/// sample, the one plus the other.
pub proof fn two_talkers_are_summed(s: MixState, lane: LegKey, a: u32, b: u32, i: int)
    requires
        a != b,
        forall|t: u32| #[trigger]
            s.queues.contains_key(feed(lane, t)) <==> t == a || t == b,
    ensures
        s.total(lane, i) == sample(s.queues[feed(lane, a)], i) + sample(
            s.queues[feed(lane, b)],
            i,
        ),
        s.colliding(lane),
{
    let list = seq![a, b];
    let f = s.samples_at(lane, i);
    assert(list[0] == a && list[1] == b);
    assert forall|t: u32| #[trigger] s.talkers(lane).contains(t) <==> list.contains(t) by {
        assert(s.talkers(lane).contains(t) <==> s.queues.contains_key(feed(lane, t)));
    }
    lemma_sum_along(list, s.talkers(lane), f);
    reveal_with_fuel(sum_along, 3);
    assert(list.drop_last() =~= seq![a]);
    assert(seq![a].drop_last() =~= Seq::empty());
    assert(s.queues.contains_key(feed(lane, a)) && s.queues.contains_key(feed(lane, b)));
}

/// A talker who stopped is not waited for: once it has been quiet too long it
/// contributes to no mix, and holds none up.
pub proof fn a_talker_who_stopped_is_not_waited_for(s: MixState, now: u64, f: Feed)
    requires
        s.is_gone(f.talker, now),
    ensures
        !s.present(now).queues.contains_key(f),
{
}

/// After a mix is taken some talker of each rendering is short of a frame, so
/// nothing comes out twice: taking again straight away takes nothing.
pub proof fn nothing_is_mixed_twice(s: MixState, lane: LegKey)
    requires
        s.on_air(lane),
    ensures
        s.taken().ready(lane) == 0,
{
    let first = choose|t: u32| #[trigger] s.queues.contains_key(feed(lane, t));
    lemma_ready_exists(s, lane, first);
    let after = s.taken();
    let n = s.ready(lane);
    let t = choose|t: u32| #[trigger]
        s.queues.contains_key(feed(lane, t)) && s.queues[feed(lane, t)].len() < (n + 1) * AM_FRAME;
    assert(feed(lane, t).key() == lane);
    assert(n * AM_FRAME <= s.queues[feed(lane, t)].len());
    assert(after.queues.contains_key(feed(lane, t)));
    assert(after.queues[feed(lane, t)] == s.queues[feed(lane, t)].skip((n * AM_FRAME) as int));
    assert(after.is_ready(lane, 0));
    lemma_ready_is_unique(after, lane, 0);
}

/// A talker is kept for 120 whole milliseconds after its last contribution, and
/// not a millisecond longer: its queues are as they were until then, and gone
/// after. A contribution from the future counts as from now.
pub proof fn a_talker_is_kept_for_120_ms(s: MixState, now: u64, f: Feed)
    ensures
        s.present(now).queues.contains_key(f) <==> s.queues.contains_key(f) && s.seen.contains_key(
            f.talker,
        ) && now - s.seen[f.talker] < 121_000_000,
        s.present(now).queues.contains_key(f) ==> s.present(now).queues[f] == s.queues[f],
        s.present(now).seen.contains_key(f.talker) <==> s.seen.contains_key(f.talker) && now
            - s.seen[f.talker] < 121_000_000,
        s.present(now).seen.contains_key(f.talker) ==> s.present(now).seen[f.talker]
            == s.seen[f.talker],
{
}

/// A contribution goes behind what its talker has queued for that rendering, and
/// to nobody else's queue; the talker was heard at that moment, and nobody else
/// was.
pub proof fn a_contribution_is_queued_behind_the_last(
    s: MixState,
    mode: Mode,
    quality: u8,
    bridged: bool,
    talker: u32,
    pcm: Seq<i16>,
    now: u64,
    f: Feed,
    t: u32,
)
    ensures
        ({
            let after = s.added((mode, quality, bridged), talker, pcm, now);
            let mine = Feed { mode, lane: quality, bridged, talker };
            &&& after.queues.contains_key(mine)
            &&& s.queues.contains_key(mine) ==> after.queues[mine] == s.queues[mine] + pcm
            &&& !s.queues.contains_key(mine) ==> after.queues[mine] == pcm
            &&& f != mine ==> after.queues.get(f) == s.queues.get(f)
            &&& after.seen.get(talker) == Some(now)
            &&& t != talker ==> after.seen.get(t) == s.seen.get(t)
        }),
{
}

proof fn lemma_sum_by_samples(
    talkers: Set<u32>,
    f: spec_fn(u32) -> int,
    g: spec_fn(u32) -> int,
)
    requires
        talkers.finite(),
        forall|t: u32| #[trigger] talkers.contains(t) ==> f(t) == g(t),
    ensures
        sum_of(talkers, f) == sum_of(talkers, g),
    decreases talkers.len(),
{
    if talkers.len() > 0 {
        let t = talkers.choose();
        assert(talkers.contains(t));
        lemma_sum_by_samples(talkers.remove(t), f, g);
    }
}

/// A mix is a sum: one more talker adds its own samples to what the others come
/// to, and nothing past its last one; with nobody there is silence; and a talker
/// in one rendering is not heard in another.
pub proof fn one_more_talker_adds_its_samples(
    s: MixState,
    lane: LegKey,
    talker: u32,
    pcm: Seq<i16>,
    now: u64,
    i: int,
    other: LegKey,
)
    requires
        s.talkers(lane).finite(),
        s.talkers(other).finite(),
        !s.queues.contains_key(
            Feed { mode: lane.0, lane: lane.1, bridged: lane.2, talker },
        ),
        0 <= i,
    ensures
        s.added(lane, talker, pcm, now).total(lane, i) == s.total(lane, i) + if i < pcm.len() {
            pcm[i] as int
        } else {
            0
        },
        other != lane ==> s.added(lane, talker, pcm, now).total(other, i) == s.total(other, i),
        MixState::empty().total(lane, i) == 0,
{
    let after = s.added(lane, talker, pcm, now);
    let f = s.samples_at(lane, i);
    let g = after.samples_at(lane, i);
    assert(after.talkers(lane) =~= s.talkers(lane).insert(talker));
    assert(after.talkers(lane).remove(talker) =~= s.talkers(lane));
    lemma_sum_takes_out(after.talkers(lane), g, talker);
    lemma_sum_by_samples(s.talkers(lane), f, g);
    if other != lane {
        assert(after.talkers(other) =~= s.talkers(other)) by {
            assert forall|t: u32| feed(other, t) != feed(lane, talker) by {}
        }
        lemma_sum_by_samples(
            s.talkers(other),
            s.samples_at(other, i),
            after.samples_at(other, i),
        );
    }
    assert(MixState::empty().talkers(lane) =~= Set::empty());
}

/// A mix is as many whole frames of 160 samples as everybody has supplied: no
/// talker is short of it, and some talker has not a frame more. It is a
/// collision where two talk, and then only.
pub proof fn a_mix_is_what_everybody_has_supplied(s: MixState, m: Mix)
    requires
        s.is_mix(m),
        s.on_air(m.lane),
    ensures
        m.sums@.len() % 160 == 0,
        forall|t: u32| #[trigger]
            s.queues.contains_key(feed(m.lane, t)) ==> m.sums@.len() <= s.queues[feed(
                m.lane,
                t,
            )].len(),
        exists|t: u32| #[trigger]
            s.queues.contains_key(feed(m.lane, t)) && s.queues[feed(m.lane, t)].len()
                < m.sums@.len() + 160,
        forall|i: int|
            0 <= i < m.sums@.len() ==> #[trigger] m.sums@[i] == s.total(m.lane, i),
        m.colliding <==> exists|a: u32, b: u32|
            a != b && #[trigger] s.queues.contains_key(feed(m.lane, a))
                && #[trigger] s.queues.contains_key(feed(m.lane, b)),
{
    let first = choose|t: u32| #[trigger] s.queues.contains_key(feed(m.lane, t));
    lemma_ready_exists(s, m.lane, first);
    let n = s.ready(m.lane);
    let short = choose|t: u32| #[trigger]
        s.queues.contains_key(feed(m.lane, t)) && s.queues[feed(m.lane, t)].len() < (n + 1)
            * AM_FRAME;
    assert(s.queues.contains_key(feed(m.lane, short)));
}

/// What was mixed leaves the front of everybody's queue, and the rest stays in
/// order; nobody is forgotten by it.
pub proof fn what_was_mixed_leaves_the_queues(s: MixState, m: Mix, t: u32)
    requires
        s.is_mix(m),
        s.queues.contains_key(feed(m.lane, t)),
    ensures
        s.taken().queues.contains_key(feed(m.lane, t)),
        s.queues[feed(m.lane, t)] == s.queues[feed(m.lane, t)].take(m.sums@.len() as int)
            + s.taken().queues[feed(m.lane, t)],
        s.taken().queues.dom() == s.queues.dom(),
        s.taken().seen == s.seen,
{
    assert(s.on_air(m.lane));
    a_mix_is_what_everybody_has_supplied(s, m);
    let q = s.queues[feed(m.lane, t)];
    assert(feed(m.lane, t).key() == m.lane);
    assert(q =~= q.take(m.sums@.len() as int) + q.skip(m.sums@.len() as int));
    assert(s.taken().queues.dom() =~= s.queues.dom());
}

/// Somebody who is still up is waited for: while one talker of a rendering is
/// short of a frame of 160, nothing of that rendering is mixed, and as soon as
/// nobody is, it is, once.
pub proof fn who_is_still_up_is_waited_for(s: MixState, out: Seq<Mix>, lane: LegKey)
    requires
        s.are_mixes(out),
        s.on_air(lane),
    ensures
        (exists|i: int| 0 <= i < out.len() && (#[trigger] out[i]).lane == lane) <==> (forall|t: u32|
            #[trigger]
            s.queues.contains_key(feed(lane, t)) ==> s.queues[feed(lane, t)].len() >= 160),
        forall|i: int, j: int|
            0 <= i < out.len() && 0 <= j < out.len() && (#[trigger] out[i]).lane == (
            #[trigger] out[j]).lane ==> i == j,
        forall|i: int| 0 <= i < out.len() ==> (#[trigger] out[i]).sums@.len() >= 160 && s.is_mix(
            out[i],
        ),
{
    let first = choose|t: u32| #[trigger] s.queues.contains_key(feed(lane, t));
    lemma_ready_exists(s, lane, first);
    let n = s.ready(lane);
    if exists|i: int| 0 <= i < out.len() && (#[trigger] out[i]).lane == lane {
        let i = choose|i: int| 0 <= i < out.len() && (#[trigger] out[i]).lane == lane;
        assert(s.ready(out[i].lane) > 0);
        assert forall|t: u32| #[trigger] s.queues.contains_key(feed(lane, t)) implies s.queues[feed(
            lane,
            t,
        )].len() >= 160 by {
            assert(n * AM_FRAME <= s.queues[feed(lane, t)].len());
        }
    }
    if forall|t: u32| #[trigger]
        s.queues.contains_key(feed(lane, t)) ==> s.queues[feed(lane, t)].len() >= 160 {
        let short = choose|t: u32| #[trigger]
            s.queues.contains_key(feed(lane, t)) && s.queues[feed(lane, t)].len() < (n + 1)
                * AM_FRAME;
        assert(s.queues.contains_key(feed(lane, short)));
        assert(n > 0);
    }
    assert forall|i: int, j: int|
        0 <= i < out.len() && 0 <= j < out.len() && (#[trigger] out[i]).lane == (
        #[trigger] out[j]).lane implies i == j by {
        if i < j {
            assert(rank(out[i].lane) < rank(out[j].lane));
        } else if j < i {
            assert(rank(out[j].lane) < rank(out[i].lane));
        }
    }
}

/// A feed is a talker's share of one rendering, and no two are confused.
pub proof fn a_feed_is_a_talker_in_a_rendering(lane: LegKey, talker: u32)
    ensures
        feed(lane, talker) == (Feed {
            mode: lane.0,
            lane: lane.1,
            bridged: lane.2,
            talker,
        }),
        feed(lane, talker).key() == lane,
{
}

/// What a receiver hears of a mix is its sum, with the beat of the carriers on
/// top where there is a collision; too loud, it is cut off at what a sample can
/// hold, and never turns over.
pub proof fn a_receiver_hears_the_sum_and_the_beat(mix: Mix, beat: Seq<i32>, i: int)
    requires
        0 <= i < mix.sums@.len(),
    ensures
        ({
            let loud = mix.sums@[i] + if mix.colliding && i < beat.len() {
                beat[i] as int
            } else {
                0
            };
            let out = heard(mix, beat, i);
            &&& -32768 <= loud <= 32767 ==> out == loud
            &&& loud > 32767 ==> out == 32767
            &&& loud < -32768 ==> out == -32768
        }),
{
}

/// What is left when a collision ends is what is queued: as long as the longest
/// queue, each sample the sum of what is left of everybody there. So what is
/// left of one radio alone is its own queue.
pub proof fn what_is_left_of_one_radio_is_its_queue(
    s: MixState,
    lane: LegKey,
    pcm: Seq<i16>,
    talker: u32,
)
    requires
        s.is_rest(lane, pcm),
        forall|t: u32| #[trigger] s.queues.contains_key(feed(lane, t)) <==> t == talker,
    ensures
        pcm == s.queues[feed(lane, talker)],
{
    let q = s.queues[feed(lane, talker)];
    assert(s.queues.contains_key(feed(lane, talker)));
    assert(pcm.len() == q.len());
    assert forall|i: int| 0 <= i < pcm.len() implies pcm[i] == q[i] by {
        let list = seq![talker];
        assert(list[0] == talker);
        assert forall|t: u32| #[trigger] s.talkers(lane).contains(t) <==> list.contains(t) by {
            assert(s.talkers(lane).contains(t) <==> s.queues.contains_key(feed(lane, t)));
        }
        lemma_sum_along(list, s.talkers(lane), s.samples_at(lane, i));
        reveal_with_fuel(sum_along, 2);
        assert(list.drop_last() =~= Seq::empty());
        assert(pcm[i] == clamped(s.total(lane, i)));
    }
}

/// Nothing still queued is thrown away when a collision ends: every rendering
/// with anything queued comes out, once, as long as its longest queue.
pub proof fn nothing_queued_is_thrown_away(s: MixState, out: Seq<(LegKey, Vec<i16>)>, f: Feed)
    requires
        s.are_rests(out),
        s.queues.contains_key(f),
        s.queues[f].len() > 0,
    ensures
        exists|i: int|
            0 <= i < out.len() && (#[trigger] out[i]).0 == f.key() && out[i].1@.len()
                >= s.queues[f].len(),
        forall|i: int, j: int|
            0 <= i < j < out.len() ==> (#[trigger] out[i]).0 != (#[trigger] out[j]).0,
{
    let i = choose|i: int| 0 <= i < out.len() && (#[trigger] out[i]).0 == f.key();
    assert(s.is_rest(out[i].0, out[i].1@));
    assert(feed(f.key(), f.talker) == f);
    assert(s.queues.contains_key(feed(f.key(), f.talker)));
    assert forall|i: int, j: int| 0 <= i < j < out.len() implies (#[trigger] out[i]).0 != (
    #[trigger] out[j]).0 by {
        assert(rank(out[i].0) < rank(out[j].0));
    }
}

} // verus!

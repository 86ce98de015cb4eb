//! Call recording, with retention.
//!
//! Written per call, as raw PCM with a small sidecar, into a directory by day.
//! Day directories rather than one flat pile, because pruning thirty days then
//! becomes deleting a directory.

use crate::bytes::{append_samples, samples_bytes};
use crate::seqs::lemma_push_contains;
use crate::table::Table;
use crate::text::{
    chars_of, decimal_of, number_in, parse_number, split, split_at_each, strip_prefix, texts_of,
    after_prefix, write_number, write_str,
};
use vstd::prelude::*;

verus! {

/// Seconds in a day.
pub const DAY: u64 = 86_400;

/// What is known of a call besides its audio.
#[verifier::ext_equal]
pub struct CallState {
    pub id: Seq<char>,
    pub tg: u32,
    pub server: u32,
    pub player: u32,
    pub unit: Seq<char>,
    pub started: u64,
    pub samples: u64,
    pub rate: u32,
}

#[derive(Debug)]
pub struct CallMeta {
    pub id: String,
    /// Talkgroup, or a conventional route id.
    pub tg: u32,
    pub server: u32,
    pub player: u32,
    /// Whatever the server called the unit. Empty when it said nothing.
    pub unit: String,
    pub started: u64,
    pub samples: u64,
    pub rate: u32,
}

impl View for CallMeta {
    type V = CallState;

    open spec fn view(&self) -> CallState {
        CallState {
            id: self.id@,
            tg: self.tg,
            server: self.server,
            player: self.player,
            unit: self.unit@,
            started: self.started,
            samples: self.samples,
            rate: self.rate,
        }
    }
}

/// One call being recorded, and whether its file is still being written.
#[verifier::ext_equal]
pub struct RecordingState {
    pub meta: CallState,
    pub writing: bool,
}

pub struct Recording {
    meta: CallMeta,
    writing: bool,
}

impl View for Recording {
    type V = RecordingState;

    closed spec fn view(&self) -> RecordingState {
        RecordingState { meta: self.meta@, writing: self.writing }
    }
}

impl RecordingState {
    /// Audio that was to be written either was, or could not be: then the rest
    /// of the call is not written either.
    pub open spec fn pushed(self, n: nat, ok: bool) -> RecordingState {
        if !self.writing {
            self
        } else if ok {
            RecordingState {
                meta: CallState {
                    samples: ((self.meta.samples + n) % 0x1_0000_0000_0000_0000) as u64,
                    ..self.meta
                },
                ..self
            }
        } else {
            RecordingState { writing: false, ..self }
        }
    }

    /// What is left to do on disk when the call is over. A call too short to
    /// contain speech is a fumbled button, and is not kept.
    pub open spec fn finished(self) -> Option<WorkState> {
        let day = day_name(self.meta.started);
        if !self.writing {
            None
        } else if too_short(self.meta.samples, self.meta.rate) {
            Some(WorkState::Discard { day, id: self.meta.id })
        } else {
            Some(WorkState::Keep { day, meta: self.meta })
        }
    }
}

impl Recording {
    /// The bytes to write for some audio, if the call is being written. Little
    /// endian, matching every tool that will ever open this.
    pub fn push(&self, pcm: &[i16]) -> (r: Option<Vec<u8>>)
        ensures
            match r {
                Some(bytes) => self@.writing && bytes@ == samples_bytes(pcm@),
                None => !self@.writing,
            },
    {
        if !self.writing {
            return None;
        }
        let mut bytes: Vec<u8> = Vec::new();
        append_samples(&mut bytes, pcm);
        assert(bytes@ =~= samples_bytes(pcm@));
        Some(bytes)
    }

    /// What became of the bytes. A full disk must not take audio down with it:
    /// a call that cannot be written is carried on without.
    pub fn pushed(&mut self, n: usize, ok: bool)
        ensures
            final(self)@ == old(self)@.pushed(n as nat, ok),
    {
        if self.writing {
            if ok {
                self.meta.samples = self.meta.samples.wrapping_add(n as u64);
            } else {
                self.writing = false;
            }
        }
    }

    /// The call is over: what is left to do on disk.
    pub fn finish(self) -> (r: Option<Work>)
        ensures
            match r {
                Some(work) => self@.finished() == Some(work@),
                None => self@.finished() is None,
            },
    {
        if !self.writing {
            return None;
        }
        let day = day_dir(self.meta.started);
        if (self.meta.samples as u128) * 5 < (self.meta.rate as u128) * 2 {
            Some(Work::Discard { day, id: self.meta.id })
        } else {
            Some(Work::Keep { day, meta: self.meta })
        }
    }
}

/// Something to do on disk.
pub enum WorkState {
    Create { tg: u32, day: Seq<char>, id: Seq<char> },
    Discard { day: Seq<char>, id: Seq<char> },
    Keep { day: Seq<char>, meta: CallState },
}

pub enum Work {
    /// Start a file for the audio of a call.
    Create { tg: u32, day: String, id: String },
    /// Remove the audio of a call too short to be one.
    Discard { day: String, id: String },
    /// Write the sidecar of a call that is over.
    Keep { day: String, meta: CallMeta },
}

impl View for Work {
    type V = WorkState;

    open spec fn view(&self) -> WorkState {
        match self {
            Work::Create { tg, day, id } => WorkState::Create { tg: *tg, day: day@, id: id@ },
            Work::Discard { day, id } => WorkState::Discard { day: day@, id: id@ },
            Work::Keep { day, meta } => WorkState::Keep { day: day@, meta: meta@ },
        }
    }
}

pub open spec fn works(list: Seq<Work>) -> Seq<WorkState> {
    list.map_values(|w: Work| w@)
}

/// The directory of a moment: days since the epoch. No timezone, no locale, and
/// it compares as an integer.
pub open spec fn day_name(at: u64) -> Seq<char> {
    seq!['d'] + decimal_of((at / DAY) as nat)
}

pub fn day_dir(at: u64) -> (s: String)
    ensures
        s@ == day_name(at),
{
    let mut s = String::new();
    s.push('d');
    write_number(&mut s, at / DAY);
    assert(s@ =~= day_name(at));
    s
}

/// A call's id: when it started, where, and a number of its own.
pub open spec fn call_id(now: u64, tg: u32, seq: u64) -> Seq<char> {
    decimal_of(now as nat) + "-"@ + decimal_of(tg as nat) + "-"@ + decimal_of(seq as nat)
}

fn make_id(now: u64, tg: u32, seq: u64) -> (s: String)
    ensures
        s@ == call_id(now, tg, seq),
{
    let mut s = String::new();
    write_number(&mut s, now);
    write_str(&mut s, "-");
    write_number(&mut s, tg as u64);
    write_str(&mut s, "-");
    write_number(&mut s, seq);
    assert(s@ =~= call_id(now, tg, seq));
    s
}

/// Calls too short to contain speech are a fumbled button, not a transmission:
/// less than two fifths of a second.
pub open spec fn too_short(samples: u64, rate: u32) -> bool {
    samples * 5 < rate * 2
}

// -- the recorder -----------------------------------------------------------

pub struct Recorder {
    /// How many days are kept.
    pub days: u64,
    /// How many calls were begun.
    pub seq: u64,
}

/// The last day that is not kept any more, plus one.
pub open spec fn cutoff(now: u64, days: u64) -> int {
    if now / DAY >= days {
        now / DAY - days
    } else {
        0
    }
}

/// The day a directory is named after.
pub open spec fn day_of_name(name: Seq<char>) -> Option<nat> {
    match after_prefix(name, "d"@) {
        Some(rest) => number_in(rest, u64::MAX as nat),
        None => None,
    }
}

fn day_in(name: &str) -> (r: Option<u64>)
    ensures
        match r {
            Some(day) => day_of_name(name@) == Some(day as nat),
            None => day_of_name(name@) is None,
        },
{
    match strip_prefix(&chars_of(name), &chars_of("d")) {
        Some(rest) => parse_number(&rest, u64::MAX),
        None => None,
    }
}

/// How many days a setting says to keep.
pub open spec fn days_kept(setting: Option<&str>) -> int {
    match setting {
        Some(s) => match number_in(s@, u64::MAX as nat) {
            Some(n) => n as int,
            None => 30,
        },
        None => 30,
    }
}

/// A directory that is a day, and one past keeping.
pub open spec fn is_past(name: Seq<char>, now: u64, days: u64) -> bool {
    day_of_name(name) matches Some(day) && day < cutoff(now, days)
}

/// A setting keeps as many days as it says, and thirty days are kept if it says
/// nothing that is a number.
pub proof fn thirty_days_are_kept_unless_told_otherwise(setting: Option<&str>, n: nat)
    ensures
        setting is None ==> days_kept(setting) == 30,
        setting matches Some(s) && s@ == decimal_of(n) && n <= 0xffff_ffff_ffff_ffff ==> days_kept(
            setting,
        ) == n,
        setting matches Some(s) && number_in(s@, 0xffff_ffff_ffff_ffff) is None ==> days_kept(
            setting,
        ) == 30,
{
    if n <= 0xffff_ffff_ffff_ffff {
        crate::text::decimal_reads_back(n, u64::MAX as nat);
    }
}

/// A day is thrown away once more than the days to keep have begun since, and
/// not before. What is no day is never thrown away.
pub proof fn a_day_is_thrown_away_when_it_is_past(at: u64, now: u64, days: u64, name: Seq<char>)
    requires
        at <= now,
    ensures
        is_past(day_name(at), now, days) <==> now as int / 86_400 - at as int / 86_400 > days,
        day_of_name(name) is None ==> !is_past(name, now, days),
        name.len() == 0 || name[0] != 'd' ==> !is_past(name, now, days),
{
    retention_keeps_the_last_days(at, now, days);
    reveal_strlit("d");
    assert("d"@ =~= seq!['d']);
    if name.len() > 0 && name.take(1) == "d"@ {
        assert(name.take(1)[0] == name[0]);
    }
}

impl Recorder {
    pub fn new(days: u64) -> (r: Self)
        ensures
            r.days == days,
            r.seq == 0,
    {
        Recorder { days, seq: 0 }
    }

    /// How many days are kept: what a setting says, and thirty otherwise.
    pub fn retention(setting: Option<&str>) -> (days: u64)
        ensures
            days == days_kept(setting),
            days == match setting {
                Some(s) => match number_in(s@, u64::MAX as nat) {
                    Some(n) => n as int,
                    None => 30,
                },
                None => 30,
            },
    {
        match setting {
            Some(s) => match parse_number(&chars_of(s), u64::MAX) {
                Some(n) => n,
                None => 30,
            },
            None => 30,
        }
    }

    /// Whether a directory is a day past the retention window.
    pub fn prune(&self, name: &str, now: u64) -> (b: bool)
        ensures
            b == is_past(name@, now, self.days),
            b == match day_of_name(name@) {
                Some(day) => day < cutoff(now, self.days),
                None => false,
            },
    {
        match day_in(name) {
            Some(day) => day < (now / DAY).saturating_sub(self.days),
            None => false,
        }
    }

    /// A new call.
    pub fn begin(
        &mut self,
        tg: u32,
        server: u32,
        player: u32,
        unit: &str,
        rate: u32,
        now: u64,
    ) -> (r: Recording)
        ensures
            final(self).days == old(self).days,
            final(self).seq == next_seq(old(self).seq),
            r@ == (RecordingState {
                meta: begun(tg, server, player, unit@, rate, now, next_seq(old(self).seq)),
                writing: true,
            }),
    {
        self.seq = self.seq.wrapping_add(1);
        Recording {
            meta: CallMeta {
                id: make_id(now, tg, self.seq),
                tg,
                server,
                player,
                unit: unit.to_owned(),
                started: now,
                samples: 0,
                rate,
            },
            writing: true,
        }
    }
}

/// The number after a number; after the last one they start again.
pub open spec fn next_seq(seq: u64) -> u64 {
    if seq == u64::MAX {
        0
    } else {
        (seq + 1) as u64
    }
}

pub open spec fn begun(
    tg: u32,
    server: u32,
    player: u32,
    unit: Seq<char>,
    rate: u32,
    now: u64,
    seq: u64,
) -> CallState {
    CallState {
        id: call_id(now, tg, seq),
        tg,
        server,
        player,
        unit,
        started: now,
        samples: 0,
        rate,
    }
}

/// The recorder and whatever it is writing right now. Calls are keyed by
/// talkgroup: one transmission on one channel.
#[verifier::ext_equal]
pub struct ActiveState {
    /// How many calls were begun, if recording is switched on.
    pub seq: Option<u64>,
    pub open: Map<u32, RecordingState>,
    pub work: Seq<WorkState>,
}

impl ActiveState {
    pub open spec fn off() -> ActiveState {
        ActiveState { seq: None, open: Map::empty(), work: Seq::empty() }
    }

    /// A call is being written on a route.
    pub open spec fn is_writing(self, tg: u32) -> bool {
        self.open.contains_key(tg) && self.open[tg].writing
    }

    /// A key while a call is already open is a reply inside hang time, which is
    /// the same call continuing.
    pub open spec fn begun(
        self,
        tg: u32,
        server: u32,
        player: u32,
        unit: Seq<char>,
        rate: u32,
        now: u64,
    ) -> ActiveState {
        match self.seq {
            Some(seq) => if self.open.contains_key(tg) {
                self
            } else {
                let meta = begun(tg, server, player, unit, rate, now, next_seq(seq));
                ActiveState {
                    seq: Some(next_seq(seq)),
                    open: self.open.insert(tg, RecordingState { meta, writing: true }),
                    work: self.work.push(
                        WorkState::Create { tg, day: day_name(now), id: meta.id },
                    ),
                }
            },
            None => self,
        }
    }

    /// Audio that was to be written either was, or could not be: then the rest
    /// of the call is not written either.
    pub open spec fn pushed(self, tg: u32, n: nat, ok: bool) -> ActiveState {
        if self.open.contains_key(tg) {
            ActiveState { open: self.open.insert(tg, self.open[tg].pushed(n, ok)), ..self }
        } else {
            self
        }
    }

    pub open spec fn ended(self, tg: u32) -> ActiveState {
        if self.open.contains_key(tg) {
            ActiveState {
                open: self.open.remove(tg),
                work: match self.open[tg].finished() {
                    Some(work) => self.work.push(work),
                    None => self.work,
                },
                ..self
            }
        } else {
            self
        }
    }
}

pub struct Active {
    rec: Option<Recorder>,
    open: Table<u32, Recording>,
    work: Vec<Work>,
}

impl View for Active {
    type V = ActiveState;

    closed spec fn view(&self) -> ActiveState {
        ActiveState {
            seq: match self.rec {
                Some(r) => Some(r.seq),
                None => None,
            },
            open: self.open@.map_values(|r: Recording| r@),
            work: works(self.work@),
        }
    }
}

impl Default for Active {
    fn default() -> (a: Self)
        ensures
            a@ == ActiveState::off(),
    {
        Active::new(None)
    }
}

impl Active {
    /// Recording is switched off without a recorder, which is a supported way
    /// to run.
    pub fn new(rec: Option<Recorder>) -> (a: Self)
        ensures
            a@ == (ActiveState {
                seq: match rec {
                    Some(r) => Some(r.seq),
                    None => None,
                },
                ..ActiveState::off()
            }),
    {
        let a = Active { rec, open: Table::new(), work: Vec::new() };
        assert(a@.open =~= Map::empty());
        assert(a@.work =~= Seq::empty());
        a
    }

    pub fn begin(&mut self, tg: u32, server: u32, player: u32, unit: &str, rate: u32, now: u64)
        ensures
            final(self)@ == old(self)@.begun(tg, server, player, unit@, rate, now),
    {
        let mut rec = match self.rec.take() {
            Some(rec) => rec,
            None => {
                return ;
            },
        };
        if self.open.contains_key(&tg) {
            self.rec = Some(rec);
            assert(self@ =~= old(self)@);
            return ;
        }
        let call = rec.begin(tg, server, player, unit, rate, now);
        self.rec = Some(rec);
        let ghost had = self.work@;
        let work = Work::Create { tg, day: day_dir(now), id: call.meta.id.clone() };
        self.work.push(work);
        self.open.insert(tg, call);
        proof {
            assert(works(self.work@) =~= works(had).push(work@));
            let target = old(self)@.begun(tg, server, player, unit@, rate, now);
            assert(self@.open =~= target.open);
            assert(self@.work =~= target.work);
        }
    }

    /// The bytes to write for a talkgroup's audio, if a call is being written
    /// there.
    pub fn push(&self, tg: u32, pcm: &[i16]) -> (r: Option<Vec<u8>>)
        ensures
            match r {
                Some(bytes) => self@.is_writing(tg) && bytes@ == samples_bytes(pcm@),
                None => !self@.is_writing(tg),
            },
    {
        match self.open.get(&tg) {
            Some(call) => {
                assert(self@.open[tg] == call@);
                call.push(pcm)
            },
            None => None,
        }
    }

    /// What became of the bytes.
    pub fn pushed(&mut self, tg: u32, n: usize, ok: bool)
        ensures
            final(self)@ == old(self)@.pushed(tg, n as nat, ok),
    {
        if let Some(taken) = self.open.remove(&tg) {
            let mut call = taken;
            call.pushed(n, ok);
            self.open.insert(tg, call);
            assert(self@.open =~= old(self)@.pushed(tg, n as nat, ok).open);
        } else {
            assert(self@.open =~= old(self)@.open);
        }
    }

    pub fn end(&mut self, tg: u32)
        ensures
            final(self)@ == old(self)@.ended(tg),
    {
        let ghost had = self.work@;
        if let Some(call) = self.open.remove(&tg) {
            assert(self@.open =~= old(self)@.open.remove(tg));
            assert(old(self)@.open[tg] == call@);
            if let Some(work) = call.finish() {
                self.work.push(work);
                assert(works(self.work@) =~= works(had).push(work@));
            }
        } else {
            assert(self@.open =~= old(self)@.open);
        }
    }

    /// Hands over what is to be done on disk.
    pub fn take_work(&mut self) -> (out: Vec<Work>)
        ensures
            works(out@) == old(self)@.work,
            final(self)@ == (ActiveState { work: Seq::empty(), ..old(self)@ }),
    {
        let mut out: Vec<Work> = Vec::new();
        std::mem::swap(&mut out, &mut self.work);
        assert(works(self.work@) =~= Seq::empty());
        out
    }
}

// -- reading back -----------------------------------------------------------

pub open spec fn is_id_char(c: char) -> bool {
    '0' <= c <= '9' || 'a' <= c <= 'z' || 'A' <= c <= 'Z' || c == '-' || c == '_'
}

pub open spec fn is_id(id: Seq<char>) -> bool {
    forall|i: int| 0 <= i < id.len() ==> is_id_char(#[trigger] id[i])
}

/// Where the audio of a call is: a directory, and a file in it.
pub open spec fn place_of(id: Seq<char>) -> Option<(Seq<char>, Seq<char>)> {
    if is_id(id) {
        match number_in(split(id, '-')[0], u64::MAX as nat) {
            Some(at) => Some((day_name(at as u64), id + ".pcm"@)),
            None => None,
        }
    } else {
        None
    }
}

/// Where the audio for one call is, found by id rather than by path.
///
/// The id is used to BUILD a filename, never joined as one: an id containing a
/// slash or a `..` would otherwise read any file the process can reach.
pub fn audio_place(id: &str) -> (r: Option<(String, String)>)
    ensures
        match r {
            Some((dir, file)) => place_of(id@) == Some((dir@, file@)),
            None => place_of(id@) is None,
        },
{
    let chars = chars_of(id);
    let mut i: usize = 0;
    while i < chars.len()
        invariant
            i <= chars.len(),
            chars@ == id@,
            forall|j: int| 0 <= j < i ==> is_id_char(#[trigger] chars@[j]),
        decreases chars.len() - i,
    {
        let c = chars[i];
        if !(('0' <= c && c <= '9') || ('a' <= c && c <= 'z') || ('A' <= c && c <= 'Z') || c == '-'
            || c == '_') {
            assert(!is_id_char(chars@[i as int]));
            return None;
        }
        i += 1;
    }
    let pieces = split_at_each(&chars, '-');
    assert(texts_of(pieces@)[0] == pieces@[0]@);
    match parse_number(&pieces[0], u64::MAX) {
        Some(at) => {
            let mut file = String::new();
            write_str(&mut file, id);
            write_str(&mut file, ".pcm");
            assert(file@ =~= id@ + ".pcm"@);
            Some((day_dir(at), file))
        },
        None => None,
    }
}

/// A call looked for by an id never leaves the store: what is looked for has no
/// separator in it, and no step up.
pub proof fn an_id_never_leaves_the_store(id: Seq<char>)
    requires
        place_of(id) is Some,
    ensures
        !id.contains('/'),
        !id.contains('\\'),
        !id.contains('.'),
        place_of(id) matches Some((dir, file)) && file == id + ".pcm"@,
{
    assert forall|c: char| id.contains(c) implies is_id_char(c) by {
        let i = choose|i: int| 0 <= i < id.len() && id[i] == c;
        assert(is_id_char(id[i]));
    }
}

proof fn lemma_split_none(s: Seq<char>, at: char)
    requires
        !s.contains(at),
    ensures
        split(s, at) == seq![s],
    decreases s.len(),
{
    if s.len() == 0 {
        assert(s =~= Seq::empty());
    } else {
        let rest = s.drop_last();
        assert(s[s.len() - 1] == s.last());
        assert(!rest.contains(at)) by {
            if rest.contains(at) {
                let i = choose|i: int| 0 <= i < rest.len() && rest[i] == at;
                assert(s[i] == at);
            }
        }
        lemma_split_none(rest, at);
        assert(split(s, at) =~= seq![rest.push(s.last())]);
        assert(rest.push(s.last()) =~= s);
    }
}

proof fn lemma_split_first(head: Seq<char>, at: char, tail: Seq<char>)
    requires
        !head.contains(at),
    ensures
        split(head + seq![at] + tail, at).len() > 1,
        split(head + seq![at] + tail, at)[0] == head,
    decreases tail.len(),
{
    let s = head + seq![at] + tail;
    if tail.len() == 0 {
        assert(s.drop_last() =~= head);
        assert(s.last() == at);
        lemma_split_none(head, at);
    } else {
        lemma_split_first(head, at, tail.drop_last());
        assert(s.drop_last() =~= head + seq![at] + tail.drop_last());
    }
}

proof fn lemma_digits(n: nat)
    ensures
        crate::text::all_digits(decimal_of(n)),
        !decimal_of(n).contains('-'),
{
    crate::text::lemma_decimal_is_digits(n);
    let d = decimal_of(n);
    if d.contains('-') {
        let i = choose|i: int| 0 <= i < d.len() && d[i] == '-';
        assert(crate::text::is_digit(d[i]));
    }
}

/// A recording is found again by its id: what `begin` calls a call is an id
/// whose place is the file that was started for it.
pub proof fn a_recording_is_found_by_its_id(now: u64, tg: u32, seq: u64)
    ensures
        place_of(call_id(now, tg, seq)) == Some((day_name(now), call_id(now, tg, seq) + ".pcm"@)),
{
    let id = call_id(now, tg, seq);
    let a = decimal_of(now as nat);
    let b = decimal_of(tg as nat);
    let c = decimal_of(seq as nat);
    reveal_strlit("-");
    lemma_digits(now as nat);
    lemma_digits(tg as nat);
    lemma_digits(seq as nat);
    assert("-"@ =~= seq!['-']);
    assert(id =~= a + seq!['-'] + (b + "-"@ + c));
    lemma_split_first(a, '-', b + "-"@ + c);
    crate::text::decimal_reads_back(now as nat, u64::MAX as nat);
    assert forall|i: int| 0 <= i < id.len() implies is_id_char(#[trigger] id[i]) by {
        if i < a.len() {
            assert(crate::text::is_digit(a[i]));
        } else if a.len() < i < a.len() + 1 + b.len() {
            assert(id[i] == b[i - a.len() - 1]);
            assert(crate::text::is_digit(b[i - a.len() - 1]));
        } else if i > a.len() + 1 + b.len() {
            let k = i - a.len() - b.len() - 2;
            assert(id[i] == c[k]);
            assert(crate::text::is_digit(c[k]));
        }
    }
}

/// A day inside the retention window is never pruned, and every day before it
/// is.
pub proof fn retention_keeps_the_last_days(at: u64, now: u64, days: u64)
    requires
        at <= now,
    ensures
        day_of_name(day_name(at)) == Some((at / DAY) as nat),
        now / DAY - at / DAY <= days ==> !(at / DAY < cutoff(now, days)),
        now / DAY - at / DAY > days ==> at / DAY < cutoff(now, days),
{
    reveal_strlit("d");
    let digits = decimal_of((at / DAY) as nat);
    assert("d"@ =~= seq!['d']);
    assert(day_name(at).take(1) =~= "d"@);
    assert(day_name(at).skip(1) =~= digits);
    crate::text::decimal_reads_back((at / DAY) as nat, u64::MAX as nat);
}

// -- the index --------------------------------------------------------------

/// Where a call stands in a list that is newest first: after every call that
/// started no earlier.
pub open spec fn slot_in(list: Seq<(u64, usize)>, started: u64) -> int
    decreases list.len(),
{
    if list.len() == 0 || list.last().0 >= started {
        list.len() as int
    } else {
        slot_in(list.drop_last(), started)
    }
}

/// Calls newest first; of those that started together, the one found first.
pub open spec fn newest_first(calls: Seq<(u64, usize)>) -> Seq<(u64, usize)>
    decreases calls.len(),
{
    if calls.len() == 0 {
        Seq::empty()
    } else {
        let earlier = newest_first(calls.drop_last());
        earlier.insert(slot_in(earlier, calls.last().0), calls.last())
    }
}

pub open spec fn is_newest_first(list: Seq<(u64, usize)>) -> bool {
    forall|i: int, j: int|
        0 <= i < j < list.len() ==> (#[trigger] list[i]).0 >= (#[trigger] list[j]).0
}

proof fn lemma_slot(list: Seq<(u64, usize)>, started: u64)
    requires
        is_newest_first(list),
    ensures
        0 <= slot_in(list, started) <= list.len(),
        forall|i: int| 0 <= i < slot_in(list, started) ==> (#[trigger] list[i]).0 >= started,
        forall|i: int|
            slot_in(list, started) <= i < list.len() ==> (#[trigger] list[i]).0 < started,
    decreases list.len(),
{
    if list.len() > 0 && list.last().0 < started {
        let rest = list.drop_last();
        lemma_slot(rest, started);
        assert forall|i: int| 0 <= i < slot_in(list, started) implies (#[trigger] list[i]).0
            >= started by {
            assert(rest[i] == list[i]);
        }
        assert forall|i: int| slot_in(list, started) <= i < list.len() implies (
        #[trigger] list[i]).0 < started by {
            if i < rest.len() {
                assert(rest[i] == list[i]);
            }
        }
    }
}

/// The index is newest first, and holds every call it was given.
pub proof fn the_index_is_newest_first(calls: Seq<(u64, usize)>)
    ensures
        is_newest_first(newest_first(calls)),
        newest_first(calls).to_multiset() == calls.to_multiset(),
        newest_first(calls).len() == calls.len(),
    decreases calls.len(),
{
    broadcast use vstd::seq_lib::group_to_multiset_ensures;

    if calls.len() > 0 {
        let rest = calls.drop_last();
        let x = calls.last();
        the_index_is_newest_first(rest);
        let earlier = newest_first(rest);
        lemma_slot(earlier, x.0);
        let k = slot_in(earlier, x.0);
        let list = earlier.insert(k, x);
        assert forall|i: int, j: int| 0 <= i < j < list.len() implies (#[trigger] list[i]).0 >= (
        #[trigger] list[j]).0 by {
            let a = if i < k {
                i
            } else {
                i - 1
            };
            let b = if j < k {
                j
            } else {
                j - 1
            };
            if i == k {
                assert(list[j] == earlier[b]);
            } else if j == k {
                assert(list[i] == earlier[a]);
            } else {
                assert(list[i] == earlier[a]);
                assert(list[j] == earlier[b]);
            }
        }
        assert(calls =~= rest.push(x));
        assert(list.to_multiset() =~= earlier.to_multiset().insert(x));
    }
}

/// A search through the recordings: calls that started no earlier than `since`,
/// until there are enough. A call is known by when it started and by a number.
pub struct Listing {
    since: u64,
    limit: usize,
    found: Vec<(u64, usize)>,
}

#[verifier::ext_equal]
pub struct ListingState {
    pub since: u64,
    pub limit: nat,
    pub found: Seq<(u64, usize)>,
}

impl ListingState {
    pub open spec fn with(self, started: u64, call: usize) -> ListingState {
        ListingState {
            found: if started >= self.since {
                self.found.push((started, call))
            } else {
                self.found
            },
            ..self
        }
    }

    pub open spec fn is_enough(self) -> bool {
        self.found.len() >= self.limit
    }

    /// Every call of a day was read.
    pub open spec fn looked_through(self, calls: Seq<(u64, usize)>) -> ListingState
        decreases calls.len(),
    {
        if calls.len() == 0 {
            self
        } else {
            self.looked_through(calls.drop_last()).with(calls.last().0, calls.last().1)
        }
    }

    /// The calls to list, newest first, and no more than were asked for.
    pub open spec fn newest(self) -> Seq<(u64, usize)> {
        let all = newest_first(self.found);
        let n = if all.len() < self.limit {
            all.len()
        } else {
            self.limit
        };
        all.take(n as int)
    }
}

impl View for Listing {
    type V = ListingState;

    closed spec fn view(&self) -> ListingState {
        ListingState { since: self.since, limit: self.limit as nat, found: self.found@ }
    }
}

impl Listing {
    pub fn new(since: u64, limit: usize) -> (l: Self)
        ensures
            l@ == (ListingState { since, limit: limit as nat, found: Seq::empty() }),
    {
        Listing { since, limit, found: Vec::new() }
    }

    /// A call's sidecar was read.
    pub fn found(&mut self, started: u64, call: usize)
        ensures
            final(self)@ == old(self)@.with(started, call),
    {
        if started >= self.since {
            self.found.push((started, call));
        }
    }

    /// Whether there is no need to look through another day.
    pub fn enough(&self) -> (b: bool)
        ensures
            b == self@.is_enough(),
    {
        self.found.len() >= self.limit
    }

    /// The calls found, newest first, and no more than were asked for.
    pub fn index(&self) -> (out: Vec<usize>)
        ensures
            out@ == listed(self@),
    {
        let mut sorted: Vec<(u64, usize)> = Vec::new();
        let mut i: usize = 0;
        while i < self.found.len()
            invariant
                i <= self.found.len(),
                sorted@ == newest_first(self.found@.take(i as int)),
            decreases self.found.len() - i,
        {
            let call = self.found[i];
            assert(self.found@.take(i as int + 1).drop_last() =~= self.found@.take(i as int));
            let mut k: usize = sorted.len();
            assert(sorted@.take(sorted@.len() as int) =~= sorted@);
            while k > 0 && sorted[k - 1].0 < call.0
                invariant
                    k <= sorted.len(),
                    slot_in(sorted@, call.0) == slot_in(sorted@.take(k as int), call.0),
                decreases k,
            {
                assert(sorted@.take(k as int).drop_last() =~= sorted@.take(k as int - 1));
                k -= 1;
            }
            assert(slot_in(sorted@, call.0) == k);
            sorted.insert(k, call);
            i += 1;
        }
        assert(self.found@.take(i as int) =~= self.found@);
        let mut out: Vec<usize> = Vec::new();
        let mut j: usize = 0;
        while j < sorted.len() && j < self.limit
            invariant
                j <= sorted.len(),
                j <= self.limit,
                out@ =~= sorted@.take(j as int).map_values(|c: (u64, usize)| c.1),
            decreases sorted.len() - j,
        {
            out.push(sorted[j].1);
            j += 1;
        }
        assert(sorted@ == newest_first(self.found@));
        out
    }
}

pub open spec fn listed(s: ListingState) -> Seq<usize> {
    s.newest().map_values(|c: (u64, usize)| c.1)
}

// -- the order of days ------------------------------------------------------

/// Whether one directory is of an earlier day than another. What is named for
/// no day is earlier than every day.
pub open spec fn is_earlier_day(a: Seq<char>, b: Seq<char>) -> bool {
    match (day_of_name(a), day_of_name(b)) {
        (Some(x), Some(y)) => x < y,
        (None, Some(_)) => true,
        (_, None) => false,
    }
}

fn is_earlier(a: &Option<u64>, b: &Option<u64>) -> (r: bool)
    ensures
        r == match (*a, *b) {
            (Some(x), Some(y)) => x < y,
            (None, Some(_)) => true,
            (_, None) => false,
        },
{
    match (a, b) {
        (Some(x), Some(y)) => *x < *y,
        (None, Some(_)) => true,
        (_, None) => false,
    }
}

/// Where a name stands in a list that is latest first: after every name that it
/// does not come after.
pub open spec fn day_slot(names: Seq<Seq<char>>, order: Seq<usize>, name: Seq<char>) -> int
    decreases order.len(),
{
    if order.len() == 0 || !is_earlier_day(names[order.last() as int], name) {
        order.len() as int
    } else {
        day_slot(names, order.drop_last(), name)
    }
}

/// Which names to look at in turn, the latest first.
pub open spec fn latest_first(names: Seq<Seq<char>>, n: nat) -> Seq<usize>
    decreases n,
{
    if n == 0 {
        Seq::empty()
    } else {
        let earlier = latest_first(names, (n - 1) as nat);
        earlier.insert(day_slot(names, earlier, names[n - 1]), (n - 1) as usize)
    }
}

pub open spec fn names_of(names: Seq<String>) -> Seq<Seq<char>> {
    names.map_values(|s: String| s@)
}

/// The day each of several directories is named for.
fn days_in(names: &Vec<String>) -> (days: Vec<Option<u64>>)
    ensures
        days@.len() == names@.len(),
        forall|i: int| 0 <= i < names@.len() ==> is_day_of(#[trigger] days@[i], names@[i]@),
{
    let mut days: Vec<Option<u64>> = Vec::new();
    let mut i: usize = 0;
    while i < names.len()
        invariant
            i <= names.len(),
            days@.len() == i,
            forall|k: int| 0 <= k < i ==> is_day_of(#[trigger] days@[k], names@[k]@),
        decreases names.len() - i,
    {
        days.push(day_in(names[i].as_str()));
        i += 1;
    }
    days
}

spec fn is_day_of(day: Option<u64>, name: Seq<char>) -> bool {
    match day {
        Some(d) => day_of_name(name) == Some(d as nat),
        None => day_of_name(name) is None,
    }
}

/// The order to look through directories in: the latest day first, and what is
/// named for no day last.
pub fn order_of_days(names: &Vec<String>) -> (order: Vec<usize>)
    ensures
        order@ == latest_first(names_of(names@), names@.len()),
{
    let ghost all = names_of(names@);
    let days = days_in(names);
    let mut order: Vec<usize> = Vec::new();
    let mut i: usize = 0;
    while i < names.len()
        invariant
            i <= names.len(),
            all == names_of(names@),
            days@.len() == all.len(),
            forall|k: int| 0 <= k < all.len() ==> is_day_of(#[trigger] days@[k], all[k]),
            order@ == latest_first(all, i as nat),
            forall|k: int| 0 <= k < order@.len() ==> #[trigger] order@[k] < i,
        decreases names.len() - i,
    {
        let mut k: usize = order.len();
        assert(order@.take(order@.len() as int) =~= order@);
        while k > 0 && is_earlier(&days[order[k - 1]], &days[i])
            invariant
                i < names.len(),
                k <= order.len(),
                days@.len() == names@.len(),
                days@.len() == all.len(),
                forall|k: int| 0 <= k < all.len() ==> is_day_of(#[trigger] days@[k], all[k]),
                forall|j: int| 0 <= j < order@.len() ==> #[trigger] order@[j] < i,
                day_slot(all, order@, all[i as int]) == day_slot(
                    all,
                    order@.take(k as int),
                    all[i as int],
                ),
            decreases k,
        {
            assert(is_day_of(days@[order@[k - 1] as int], all[order@[k - 1] as int]));
            assert(order@.take(k as int).drop_last() =~= order@.take(k as int - 1));
            k -= 1;
        }
        assert(day_slot(all, order@, all[i as int]) == k) by {
            if k > 0 {
                assert(order@.take(k as int).last() == order@[k - 1]);
                assert(is_day_of(days@[order@[k - 1] as int], all[order@[k - 1] as int]));
            }
        }
        order.insert(k, i);
        i += 1;
    }
    order
}

proof fn lemma_day_slot(names: Seq<Seq<char>>, order: Seq<usize>, name: Seq<char>)
    requires
        forall|i: int, j: int|
            0 <= i < j < order.len() ==> !is_earlier_day(
                names[#[trigger] order[i] as int],
                names[#[trigger] order[j] as int],
            ),
    ensures
        0 <= day_slot(names, order, name) <= order.len(),
        forall|i: int|
            0 <= i < day_slot(names, order, name) ==> !is_earlier_day(
                names[#[trigger] order[i] as int],
                name,
            ),
        forall|i: int|
            day_slot(names, order, name) <= i < order.len() ==> is_earlier_day(
                names[#[trigger] order[i] as int],
                name,
            ),
    decreases order.len(),
{
    if order.len() > 0 {
        let rest = order.drop_last();
        let last = names[order.last() as int];
        if is_earlier_day(last, name) {
            assert forall|i: int, j: int| 0 <= i < j < rest.len() implies !is_earlier_day(
                names[#[trigger] rest[i] as int],
                names[#[trigger] rest[j] as int],
            ) by {
                assert(rest[i] == order[i] && rest[j] == order[j]);
            }
            lemma_day_slot(names, rest, name);
            assert forall|i: int| 0 <= i < day_slot(names, order, name) implies !is_earlier_day(
                names[#[trigger] order[i] as int],
                name,
            ) by {
                assert(rest[i] == order[i]);
            }
            assert forall|i: int| day_slot(names, order, name) <= i < order.len() implies is_earlier_day(
                names[#[trigger] order[i] as int],
                name,
            ) by {
                if i < rest.len() {
                    assert(rest[i] == order[i]);
                }
            }
        } else {
            assert forall|i: int| 0 <= i < order.len() implies !is_earlier_day(
                names[#[trigger] order[i] as int],
                name,
            ) by {
                if i < order.len() - 1 {
                    assert(order[order.len() - 1] == order.last());
                }
            }
        }
    }
}

/// Directories are looked through latest first, each once and none left out.
pub proof fn the_days_are_latest_first(names: Seq<Seq<char>>, n: nat)
    requires
        n <= names.len(),
        n <= usize::MAX,
    ensures
        latest_first(names, n).len() == n,
        latest_first(names, n).no_duplicates(),
        forall|i: int| 0 <= i < n ==> #[trigger] latest_first(names, n)[i] < n,
        forall|i: int| 0 <= i < n ==> latest_first(names, n).contains(#[trigger] (i as usize)),
        forall|i: int, j: int|
            0 <= i < j < n ==> !is_earlier_day(
                names[#[trigger] latest_first(names, n)[i] as int],
                names[#[trigger] latest_first(names, n)[j] as int],
            ),
    decreases n,
{
    if n > 0 {
        let m = (n - 1) as nat;
        the_days_are_latest_first(names, m);
        let earlier = latest_first(names, m);
        let name = names[m as int];
        lemma_day_slot(names, earlier, name);
        let k = day_slot(names, earlier, name);
        let order = latest_first(names, n);
        assert(order == earlier.insert(k, m as usize));
        assert forall|i: int| 0 <= i < n implies #[trigger] order[i] < n by {
            if i < k {
                assert(order[i] == earlier[i]);
            } else if i > k {
                assert(order[i] == earlier[i - 1]);
            }
        }
        assert forall|i: int| 0 <= i < n implies order.contains(#[trigger] (i as usize)) by {
            if i == m {
                assert(order[k] == i as usize);
            } else {
                let j = choose|j: int| 0 <= j < earlier.len() && earlier[j] == i as usize;
                assert(earlier.contains(i as usize));
                assert(order[if j < k {
                    j
                } else {
                    j + 1
                }] == i as usize);
            }
        }
        assert forall|i: int, j: int| 0 <= i < n && 0 <= j < n && i != j implies order[i]
            != order[j] by {
            let a = if i < k {
                i
            } else {
                i - 1
            };
            let b = if j < k {
                j
            } else {
                j - 1
            };
            if i != k {
                assert(order[i] == earlier[a]);
            }
            if j != k {
                assert(order[j] == earlier[b]);
            }
        }
        assert forall|i: int, j: int| 0 <= i < j < n implies !is_earlier_day(
            names[#[trigger] order[i] as int],
            names[#[trigger] order[j] as int],
        ) by {
            let a = if i < k {
                i
            } else {
                i - 1
            };
            let b = if j < k {
                j
            } else {
                j - 1
            };
            if i == k {
                assert(order[j] == earlier[b]);
            } else if j == k {
                assert(order[i] == earlier[a]);
            } else {
                assert(order[i] == earlier[a]);
                assert(order[j] == earlier[b]);
            }
        }
    }
}

// -- what a search finds ----------------------------------------------------

/// A search through several days in turn, which stops after a day once there is
/// enough.
pub open spec fn searched(since: u64, limit: nat, days: Seq<Seq<(u64, usize)>>) -> ListingState
    decreases days.len(),
{
    if days.len() == 0 {
        ListingState { since, limit, found: Seq::empty() }
    } else {
        let before = searched(since, limit, days.drop_last());
        if days.len() > 1 && before.is_enough() {
            before
        } else {
            before.looked_through(days.last())
        }
    }
}

/// How many days such a search looks through.
spec fn visited(since: u64, limit: nat, days: Seq<Seq<(u64, usize)>>) -> nat
    decreases days.len(),
{
    if days.len() > 1 && searched(since, limit, days.drop_last()).is_enough() {
        visited(since, limit, days.drop_last())
    } else {
        days.len()
    }
}

/// A call is in one of the first days.
pub open spec fn among(days: Seq<Seq<(u64, usize)>>, n: nat, c: (u64, usize)) -> bool {
    exists|p: int| 0 <= p < n && (#[trigger] days[p]).contains(c)
}

pub open spec fn no_earlier_than(since: u64) -> spec_fn((u64, usize)) -> bool {
    |c: (u64, usize)| c.0 >= since
}

/// Every call of several days that started no earlier than `since`.
pub open spec fn in_window(since: u64, days: Seq<Seq<(u64, usize)>>) -> Seq<(u64, usize)>
    decreases days.len(),
{
    if days.len() == 0 {
        Seq::empty()
    } else {
        in_window(since, days.drop_last()) + days.last().filter(no_earlier_than(since))
    }
}

proof fn lemma_found_by_a_day(s: ListingState, calls: Seq<(u64, usize)>)
    ensures
        s.looked_through(calls).found == s.found + calls.filter(no_earlier_than(s.since)),
        s.looked_through(calls).since == s.since,
        s.looked_through(calls).limit == s.limit,
    decreases calls.len(),
{
    reveal(Seq::filter);
    if calls.len() == 0 {
        assert(s.found + Seq::<(u64, usize)>::empty() =~= s.found);
    } else {
        let rest = calls.drop_last();
        lemma_found_by_a_day(s, rest);
        let kept = rest.filter(no_earlier_than(s.since));
        assert((s.found + kept).push(calls.last()) =~= s.found + kept.push(calls.last()));
    }
}

proof fn lemma_how_many_are_found(since: u64, limit: nat, days: Seq<Seq<(u64, usize)>>)
    ensures
        ({
            let s = searched(since, limit, days);
            let all = in_window(since, days);
            &&& s.since == since && s.limit == limit
            &&& s.found == all || limit <= s.found.len() <= all.len()
        }),
    decreases days.len(),
{
    if days.len() > 0 {
        let rest = days.drop_last();
        lemma_how_many_are_found(since, limit, rest);
        lemma_found_by_a_day(searched(since, limit, rest), days.last());
    }
}

proof fn lemma_looked_through(s: ListingState, calls: Seq<(u64, usize)>)
    ensures
        s.looked_through(calls).since == s.since,
        s.looked_through(calls).limit == s.limit,
        forall|c: (u64, usize)| #[trigger]
            s.looked_through(calls).found.contains(c) <==> s.found.contains(c) || calls.contains(c)
                && c.0 >= s.since,
    decreases calls.len(),
{
    if calls.len() > 0 {
        let rest = calls.drop_last();
        lemma_looked_through(s, rest);
        assert(calls =~= rest.push(calls.last()));
        lemma_push_contains(rest, calls.last());
        lemma_push_contains(s.looked_through(rest).found, calls.last());
    }
}

proof fn lemma_searched(since: u64, limit: nat, days: Seq<Seq<(u64, usize)>>)
    ensures
        ({
            let s = searched(since, limit, days);
            let n = visited(since, limit, days);
            &&& s.since == since && s.limit == limit
            &&& n <= days.len()
            &&& n < days.len() ==> s.is_enough()
            &&& forall|c: (u64, usize)| #[trigger]
                s.found.contains(c) <==> among(days, n, c) && c.0 >= since
        }),
    decreases days.len(),
{
    if days.len() > 0 {
        let rest = days.drop_last();
        let before = searched(since, limit, rest);
        let s = searched(since, limit, days);
        let n = visited(since, limit, days);
        lemma_searched(since, limit, rest);
        lemma_looked_through(before, days.last());
        assert forall|c: (u64, usize)| #[trigger] s.found.contains(c) <==> among(days, n, c) && c.0
            >= since by {
            if n < days.len() {
                assert(n == visited(since, limit, rest));
                if among(days, n, c) {
                    let p = choose|p: int| 0 <= p < n && (#[trigger] days[p]).contains(c);
                    assert(rest[p].contains(c));
                }
                if among(rest, n, c) {
                    let p = choose|p: int| 0 <= p < n && (#[trigger] rest[p]).contains(c);
                    assert(days[p].contains(c));
                }
            } else {
                lemma_all_visited(since, limit, days);
                if among(days, n, c) {
                    let p = choose|p: int| 0 <= p < n && (#[trigger] days[p]).contains(c);
                    if p < rest.len() {
                        assert(rest[p].contains(c));
                    }
                }
                if among(rest, rest.len(), c) {
                    let p = choose|p: int| 0 <= p < rest.len() && (#[trigger] rest[p]).contains(c);
                    assert(days[p].contains(c));
                }
                if days.last().contains(c) {
                    assert(days[days.len() - 1].contains(c));
                }
            }
        }
    }
}

proof fn lemma_all_visited(since: u64, limit: nat, days: Seq<Seq<(u64, usize)>>)
    requires
        days.len() > 0,
        visited(since, limit, days) == days.len(),
    ensures
        days.len() == 1 || !searched(since, limit, days.drop_last()).is_enough(),
        visited(since, limit, days.drop_last()) == days.drop_last().len(),
{
    lemma_visited(since, limit, days.drop_last());
}

proof fn lemma_visited(since: u64, limit: nat, days: Seq<Seq<(u64, usize)>>)
    ensures
        visited(since, limit, days) <= days.len(),
        visited(since, limit, days) < days.len() ==> searched(since, limit, days).is_enough(),
    decreases days.len(),
{
    if days.len() > 1 {
        lemma_visited(since, limit, days.drop_last());
    }
}

/// What a search lists: calls of the days it was given, no earlier than asked,
/// newest first, and as many as there are up to the limit.
pub proof fn a_search_lists_as_many_as_there_are(
    since: u64,
    limit: nat,
    days: Seq<Seq<(u64, usize)>>,
)
    ensures
        ({
            let list = searched(since, limit, days).newest();
            let all = in_window(since, days).len();
            &&& is_newest_first(list)
            &&& list.len() == if all < limit {
                all
            } else {
                limit
            }
            &&& forall|e: (u64, usize)| #[trigger]
                list.contains(e) ==> among(days, days.len(), e) && e.0 >= since
        }),
{
    broadcast use vstd::seq_lib::group_to_multiset_ensures;

    let s = searched(since, limit, days);
    let all = newest_first(s.found);
    let list = s.newest();
    lemma_searched(since, limit, days);
    lemma_how_many_are_found(since, limit, days);
    the_index_is_newest_first(s.found);
    assert forall|i: int, j: int| 0 <= i < j < list.len() implies (#[trigger] list[i]).0 >= (
    #[trigger] list[j]).0 by {
        assert(list[i] == all[i] && list[j] == all[j]);
    }
    assert forall|e: (u64, usize)| #[trigger] list.contains(e) implies among(days, days.len(), e)
        && e.0 >= since by {
        let k = choose|k: int| 0 <= k < list.len() && list[k] == e;
        assert(all[k] == e);
        assert(all.contains(e));
        assert(s.found.to_multiset().count(e) > 0);
        assert(s.found.contains(e));
        let n = visited(since, limit, days);
        let p = choose|p: int| 0 <= p < n && (#[trigger] days[p]).contains(e);
        assert(days[p].contains(e));
    }
}

/// The days' calls, in the order the days are looked through.
pub open spec fn in_order(
    names: Seq<Seq<char>>,
    calls: Seq<Seq<(u64, usize)>>,
) -> Seq<Seq<(u64, usize)>> {
    latest_first(names, names.len()).map_values(|i: usize| calls[i as int])
}

/// The list is of the newest calls: with every call in the directory of the day
/// it started on, a call in the window that is left out is left out of a full
/// list, and is no newer than anything on it.
pub proof fn nothing_newer_is_left_out(
    names: Seq<Seq<char>>,
    calls: Seq<Seq<(u64, usize)>>,
    since: u64,
    limit: nat,
    i: int,
    c: (u64, usize),
)
    requires
        names.len() == calls.len(),
        names.len() <= usize::MAX,
        names.no_duplicates(),
        forall|d: int, c: (u64, usize)|
            0 <= d < names.len() && (#[trigger] calls[d].contains(c)) ==> names[d] == day_name(c.0),
        0 <= i < names.len(),
        calls[i].contains(c),
        c.0 >= since,
    ensures
        ({
            let list = searched(since, limit, in_order(names, calls)).newest();
            ||| list.contains(c)
            ||| list.len() == limit && forall|e: (u64, usize)| #[trigger]
                list.contains(e) ==> e.0 >= c.0
        }),
{
    broadcast use vstd::seq_lib::group_to_multiset_ensures;

    let n = names.len();
    let order = latest_first(names, n);
    let days = in_order(names, calls);
    let s = searched(since, limit, days);
    let seen = visited(since, limit, days);
    let all = newest_first(s.found);
    let list = s.newest();
    the_days_are_latest_first(names, n);
    lemma_searched(since, limit, days);
    the_index_is_newest_first(s.found);
    assert(order.contains(i as usize));
    let p = choose|p: int| 0 <= p < order.len() && order[p] == i as usize;
    assert(days[p] == calls[i]);
    if p < seen {
        assert(days[p].contains(c));
        assert(among(days, seen, c));
        assert(s.found.contains(c));
        assert(all.to_multiset().count(c) > 0);
        assert(all.contains(c));
        let q = choose|q: int| 0 <= q < all.len() && all[q] == c;
        if q < list.len() {
            assert(list[q] == c);
        } else {
            assert forall|e: (u64, usize)| #[trigger] list.contains(e) implies e.0 >= c.0 by {
                let k = choose|k: int| 0 <= k < list.len() && list[k] == e;
                assert(all[k] == e);
                assert(all[k].0 >= all[q].0);
            }
        }
    } else {
        assert forall|e: (u64, usize)| #[trigger] list.contains(e) implies e.0 >= c.0 by {
            let k = choose|k: int| 0 <= k < list.len() && list[k] == e;
            assert(all[k] == e);
            assert(all.contains(e));
            assert(s.found.to_multiset().count(e) > 0);
            assert(s.found.contains(e));
            let x = choose|x: int| 0 <= x < seen && (#[trigger] days[x]).contains(e);
            assert(days[x] == calls[order[x] as int]);
            assert(calls[order[x] as int].contains(e));
            assert(names[order[x] as int] == day_name(e.0));
            assert(names[order[p] as int] == day_name(c.0));
            assert(!is_earlier_day(names[order[x] as int], names[order[p] as int]));
            retention_keeps_the_last_days(e.0, e.0, 0);
            retention_keeps_the_last_days(c.0, c.0, 0);
            if e.0 / DAY == c.0 / DAY {
                assert(names[order[x] as int] == names[order[p] as int]);
                assert(order[x] == order[p]);
                assert(false);
            }
        }
    }
}

// -- the course of a call ---------------------------------------------------

/// The samples of several packets.
pub open spec fn samples_in(packets: Seq<nat>) -> nat
    decreases packets.len(),
{
    if packets.len() == 0 {
        0
    } else {
        samples_in(packets.drop_last()) + packets.last()
    }
}

impl RecordingState {
    /// Several packets, each of them written.
    pub open spec fn wrote(self, packets: Seq<nat>) -> RecordingState
        decreases packets.len(),
    {
        if packets.len() == 0 {
            self
        } else {
            self.wrote(packets.drop_last()).pushed(packets.last(), true)
        }
    }
}

/// What is counted of a call is every sample of every packet written: two packets
/// count as one of both their lengths, and nothing else of the call changes.
pub proof fn a_call_counts_every_packet(call: RecordingState, packets: Seq<nat>)
    requires
        call.writing,
        call.meta.samples + samples_in(packets) <= u64::MAX,
    ensures
        call.wrote(packets).writing,
        call.wrote(packets).meta == (CallState {
            samples: (call.meta.samples + samples_in(packets)) as u64,
            ..call.meta
        }),
    decreases packets.len(),
{
    if packets.len() > 0 {
        a_call_counts_every_packet(call, packets.drop_last());
    }
}

/// Pushing some samples and then some more counts as pushing them all at once.
pub proof fn two_packets_count_as_one(call: RecordingState, n: nat, m: nat)
    ensures
        call.pushed(n, true).pushed(m, true) == call.pushed(n + m, true),
{
    if call.writing {
        let a = call.meta.samples as int;
        let w = 0x1_0000_0000_0000_0000int;
        vstd::arithmetic::div_mod::lemma_add_mod_noop(a + n, m as int, w);
        assert(((a + n) % w + m) % w == (a + n + m) % w) by {
            vstd::arithmetic::div_mod::lemma_add_mod_noop_right(m as int, a + n, w);
        }
    }
}

/// A whole call, from the key to the release, on a route nobody is recorded on:
/// with every packet written, it is kept if its packets come to two fifths of a
/// second and discarded if they do not, and what is kept says how many samples
/// there are, who called, where and when.
pub proof fn a_call_of_two_fifths_of_a_second_is_kept(
    s: ActiveState,
    tg: u32,
    server: u32,
    player: u32,
    unit: Seq<char>,
    rate: u32,
    now: u64,
    packets: Seq<nat>,
)
    requires
        s.seq is Some,
        !s.open.contains_key(tg),
        samples_in(packets) <= u64::MAX,
    ensures
        ({
            let begun = s.begun(tg, server, player, unit, rate, now);
            let talked = ActiveState {
                open: begun.open.insert(tg, begun.open[tg].wrote(packets)),
                ..begun
            };
            let over = talked.ended(tg);
            let work = over.work.last();
            &&& begun.is_writing(tg)
            &&& !over.open.contains_key(tg)
            &&& over.work.drop_last() == begun.work
            &&& begun.work.drop_last() == s.work
            &&& begun.work.last() matches WorkState::Create { tg: t, day, id } && t == tg && match work {
                WorkState::Keep { day: d, meta } => {
                    &&& samples_in(packets) * 5 >= rate * 2
                    &&& meta.samples == samples_in(packets)
                    &&& meta.id == id && d == day
                    &&& meta.tg == tg && meta.server == server && meta.player == player
                    &&& meta.unit == unit && meta.started == now && meta.rate == rate
                },
                WorkState::Discard { day: d, id: i } => {
                    &&& samples_in(packets) * 5 < rate * 2
                    &&& i == id && d == day
                },
                WorkState::Create { .. } => false,
            }
        }),
{
    let begun = s.begun(tg, server, player, unit, rate, now);
    let call = begun.open[tg];
    a_call_counts_every_packet(call, packets);
    let talked = ActiveState { open: begun.open.insert(tg, call.wrote(packets)), ..begun };
    let over = talked.ended(tg);
    assert(begun.work.drop_last() =~= s.work);
    assert(over.work.drop_last() =~= begun.work);
}

/// Writing on one route is nothing to any other.
pub proof fn calls_on_other_routes_go_on(
    s: ActiveState,
    tg: u32,
    other: u32,
    n: nat,
    ok: bool,
    server: u32,
    player: u32,
    unit: Seq<char>,
    rate: u32,
    now: u64,
)
    requires
        other != tg,
    ensures
        s.pushed(tg, n, ok).open.get(other) == s.open.get(other),
        s.ended(tg).open.get(other) == s.open.get(other),
        s.begun(tg, server, player, unit, rate, now).open.get(other) == s.open.get(other),
        s.pushed(tg, n, ok).work == s.work,
        s.pushed(tg, n, ok).seq == s.seq,
        s.ended(tg).seq == s.seq,
        s.pushed(tg, n, ok).open.contains_key(tg) == s.open.contains_key(tg),
        s.open.contains_key(tg) ==> s.pushed(tg, n, ok).open[tg] == s.open[tg].pushed(n, ok),
{
}

/// A key while a call is open is the same call going on, and with recording
/// switched off there is nothing to record; a call that was never opened ends
/// without a trace.
pub proof fn a_reply_is_the_same_call(
    s: ActiveState,
    tg: u32,
    server: u32,
    player: u32,
    unit: Seq<char>,
    rate: u32,
    now: u64,
)
    ensures
        s.open.contains_key(tg) || s.seq is None ==> s.begun(tg, server, player, unit, rate, now)
            == s,
        !s.open.contains_key(tg) ==> s.ended(tg) == s,
        s.open.contains_key(tg) && !s.open[tg].writing ==> s.ended(tg).work == s.work,
{
}

/// Once a write fails, the rest of the call is let go: nothing is written or
/// counted after it, and nothing is left to do when it ends.
pub proof fn a_failed_write_lets_the_call_go(call: RecordingState, n: nat, m: nat, ok: bool)
    ensures
        !call.pushed(n, false).writing,
        call.pushed(n, false).meta == call.meta,
        call.pushed(n, false).pushed(m, ok) == call.pushed(n, false),
        call.pushed(n, false).finished() is None,
{
}

proof fn lemma_decimal_is_unambiguous(a: u64, b: u64)
    requires
        decimal_of(a as nat) == decimal_of(b as nat),
    ensures
        a == b,
{
    crate::text::decimal_reads_back(a as nat, u64::MAX as nat);
    crate::text::decimal_reads_back(b as nat, u64::MAX as nat);
}

/// Calls are told apart: an id says when a call started, where, and which it was.
pub proof fn an_id_names_one_call(
    now: u64,
    tg: u32,
    seq: u64,
    other_now: u64,
    other_tg: u32,
    other_seq: u64,
)
    requires
        call_id(now, tg, seq) == call_id(other_now, other_tg, other_seq),
    ensures
        now == other_now,
        tg == other_tg,
        seq == other_seq,
{
    let (a, b, c) = (decimal_of(now as nat), decimal_of(tg as nat), decimal_of(seq as nat));
    let (x, y, z) = (
        decimal_of(other_now as nat),
        decimal_of(other_tg as nat),
        decimal_of(other_seq as nat),
    );
    let id = call_id(now, tg, seq);
    reveal_strlit("-");
    assert("-"@ =~= seq!['-']);
    lemma_digits(now as nat);
    lemma_digits(tg as nat);
    lemma_digits(seq as nat);
    lemma_digits(other_now as nat);
    lemma_digits(other_tg as nat);
    lemma_digits(other_seq as nat);
    assert(id =~= a + seq!['-'] + (b + seq!['-'] + c));
    assert(id =~= x + seq!['-'] + (y + seq!['-'] + z));
    lemma_split_first(a, '-', b + seq!['-'] + c);
    lemma_split_first(x, '-', y + seq!['-'] + z);
    lemma_decimal_is_unambiguous(now, other_now);
    let rest = id.skip(a.len() as int + 1);
    assert(rest =~= b + seq!['-'] + c);
    assert(rest =~= y + seq!['-'] + z);
    lemma_split_first(b, '-', c);
    lemma_split_first(y, '-', z);
    lemma_decimal_is_unambiguous(tg as u64, other_tg as u64);
    assert(rest.skip(b.len() as int + 1) =~= c);
    assert(rest.skip(b.len() as int + 1) =~= z);
    lemma_decimal_is_unambiguous(seq, other_seq);
}

/// Each call begun has the number after the one before it.
pub proof fn calls_are_numbered_in_turn(
    s: ActiveState,
    tg: u32,
    server: u32,
    player: u32,
    unit: Seq<char>,
    rate: u32,
    now: u64,
)
    requires
        s.seq is Some,
        s.seq->0 < u64::MAX,
        !s.open.contains_key(tg),
    ensures
        ({
            let after = s.begun(tg, server, player, unit, rate, now);
            &&& after.seq is Some && after.seq->0 == s.seq->0 + 1
            &&& after.open[tg].meta.id == call_id(now, tg, after.seq->0)
            &&& after.open[tg].meta.samples == 0
        }),
{
}

/// A day is 86400 seconds: every moment of a day has that day's name, and days
/// before the last so many are past keeping.
pub proof fn a_day_is_86400_seconds(at: u64, day: nat, days: u64)
    requires
        86_400 * day <= at < 86_400 * (day + 1),
    ensures
        day_name(at) == seq!['d'] + decimal_of(day),
        cutoff(at, days) == if day >= days {
            day - days
        } else {
            0
        },
{
}

/// A call begins with nothing recorded of it, as the caller's own, at the moment
/// it began; and the store is asked to make room for it under its own day.
pub proof fn a_call_begins_with_nothing(
    active: ActiveState,
    tg: u32,
    server: u32,
    player: u32,
    unit: Seq<char>,
    rate: u32,
    now: u64,
)
    requires
        active.seq is Some,
        !active.open.contains_key(tg),
    ensures
        ({
            let after = active.begun(tg, server, player, unit, rate, now);
            let call = after.open[tg];
            &&& after.open.contains_key(tg)
            &&& call.writing
            &&& call.meta.samples == 0
            &&& call.meta.tg == tg
            &&& call.meta.server == server
            &&& call.meta.player == player
            &&& call.meta.unit == unit
            &&& call.meta.rate == rate
            &&& call.meta.started == now
            &&& after.work == active.work.push(
                WorkState::Create { tg, day: day_name(now), id: call.meta.id },
            )
        }),
{
}

/// A node that keeps no recordings records nothing.
pub proof fn without_a_store_nothing_is_recorded(
    active: ActiveState,
    tg: u32,
    server: u32,
    player: u32,
    unit: Seq<char>,
    rate: u32,
    now: u64,
)
    requires
        active.seq is None,
    ensures
        active.begun(tg, server, player, unit, rate, now) == active,
        ActiveState::off().seq is None,
        ActiveState::off().open.dom() == Set::<u32>::empty(),
        ActiveState::off().work.len() == 0,
{
    assert(ActiveState::off().open.dom() =~= Set::<u32>::empty());
}

/// A search looks through one day whatever it finds, and through another only
/// while it has found fewer than it is to list. A call counts as found if it
/// started at the moment asked for or later.
pub proof fn a_search_stops_when_it_has_enough(
    since: u64,
    limit: nat,
    days: Seq<Seq<(u64, usize)>>,
    day: Seq<(u64, usize)>,
    s: ListingState,
    call: (u64, usize),
)
    ensures
        ({
            let before = searched(since, limit, days);
            let after = searched(since, limit, days.push(day));
            &&& before.since == since && before.limit == limit
            &&& days.len() == 0 ==> before.found.len() == 0
            &&& days.len() > 0 && before.found.len() >= limit ==> after == before
            &&& days.len() == 0 || before.found.len() < limit ==> after == before.looked_through(
                day,
            )
        }),
        s.looked_through(Seq::empty()) == s,
        s.looked_through(day.push(call)) == (ListingState {
            found: if call.0 >= s.since {
                s.looked_through(day).found.push(call)
            } else {
                s.looked_through(day).found
            },
            ..s
        }),
    decreases days.len(),
{
    assert(days.push(day).drop_last() =~= days);
    assert(day.push(call).drop_last() =~= day);
    lemma_looking_keeps_the_question(s, day);
    if days.len() > 0 {
        let rest = days.drop_last();
        a_search_stops_when_it_has_enough(since, limit, rest, days.last(), s, call);
        lemma_looking_keeps_the_question(searched(since, limit, rest), days.last());
        assert(rest.push(days.last()) =~= days);
    }
}

proof fn lemma_looking_keeps_the_question(s: ListingState, calls: Seq<(u64, usize)>)
    ensures
        s.looked_through(calls).since == s.since,
        s.looked_through(calls).limit == s.limit,
    decreases calls.len(),
{
    if calls.len() > 0 {
        lemma_looking_keeps_the_question(s, calls.drop_last());
    }
}

/// An id is letters, digits, dashes and underscores, and asks for a file if a
/// moment stands in front of its first dash: one of that moment's day.
pub proof fn an_id_is_letters_digits_and_dashes(id: Seq<char>, c: char, at: u64, rest: Seq<char>)
    ensures
        is_id_char(c) <==> 48 <= c as int <= 57 || 65 <= c as int <= 90 || 97 <= c as int <= 122 || c
            as int == 45 || c as int == 95,
        is_id(id.push(c)) <==> is_id(id) && is_id_char(c),
        is_id(Seq::empty()),
        !is_id(id) ==> place_of(id) is None,
        is_id(rest) ==> place_of(decimal_of(at as nat) + seq!['-'] + rest) == Some(
            (day_name(at), decimal_of(at as nat) + seq!['-'] + rest + ".pcm"@),
        ),
{
    if is_id(id) && is_id_char(c) {
        assert(is_id(id.push(c)));
    }
    if is_id(id.push(c)) {
        assert forall|i: int| 0 <= i < id.len() implies is_id_char(#[trigger] id[i]) by {
            assert(id.push(c)[i] == id[i]);
        }
        assert(id.push(c)[id.len() as int] == c);
    }
    if is_id(rest) {
        let digits = decimal_of(at as nat);
        let whole = digits + seq!['-'] + rest;
        crate::text::lemma_decimal_is_digits(at as nat);
        crate::text::decimal_reads_back(at as nat, u64::MAX as nat);
        assert(!digits.contains('-')) by {
            if digits.contains('-') {
                let i = choose|i: int| 0 <= i < digits.len() && digits[i] == '-';
                assert(crate::text::is_digit(digits[i]));
            }
        }
        assert forall|i: int| 0 <= i < whole.len() implies is_id_char(#[trigger] whole[i]) by {
            if i < digits.len() {
                assert(whole[i] == digits[i]);
                assert(crate::text::is_digit(digits[i]));
            } else if i > digits.len() {
                assert(whole[i] == rest[i - digits.len() - 1]);
            }
        }
        crate::text::what_was_joined_comes_apart(digits, rest, '-');
        crate::text::what_was_joined_comes_apart(Seq::empty(), digits, '-');
        assert(split(whole, '-')[0] == digits);
    }
}

/// Numbers go up by one, and start over once they run out.
pub proof fn numbers_go_up_by_one(seq: u64)
    ensures
        next_seq(seq) == (seq + 1) % 0x1_0000_0000_0000_0000,
{
}

} // verus!

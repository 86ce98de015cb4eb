use rfx_voiced::ammix::{with_beat, AmMix, Mix, AM_FRAME, AM_GONE_MS};
use rfx_voiced::dsp::{LegKey, Mode};

const MILLISECOND: u64 = 1_000_000;

/// One AM rendering. The mixer keys on the whole rendering, not on a bare
/// lane: an AM listener across a patch and one on the channel itself hear
/// different things and must not be summed into each other.
fn am(lane: u8) -> LegKey {
    (Mode::Am, lane, false)
}

fn tone(n: usize, v: i16) -> Vec<i16> {
    vec![v; n]
}

/// What is heard of a mix over a 620 Hz beat.
fn heard(mix: &Mix) -> Vec<i16> {
    let beat: Vec<i32> = (0..mix.sums.len())
        .map(|i| {
            let t = i as f32 / 8000.0;
            ((t * 620.0 * 2.0 * std::f32::consts::PI).sin() * 2200.0) as i32
        })
        .collect();
    with_beat(mix, &beat)
}

#[test]
fn one_talker_alone_is_held_until_the_frame_is_whole() {
    let mut mix = AmMix::default();
    let now = 0;

    mix.add(am(0), 1, &tone(80, 100), now);
    assert!(mix.drain(now).is_empty(), "half a frame is not a frame");

    mix.add(am(0), 1, &tone(80, 100), now);
    let out = mix.drain(now);
    assert_eq!(out.len(), 1);
    assert_eq!(heard(&out[0]).len(), AM_FRAME);
    assert_eq!(heard(&out[0]), tone(AM_FRAME, 100), "nobody to beat against");
}

#[test]
fn two_talkers_are_summed_not_interleaved() {
    let mut mix = AmMix::default();
    let now = 0;

    // The mixer only learns a talker exists when they contribute, so the
    // first frame of a collision goes out on its own.
    mix.add(am(0), 1, &tone(AM_FRAME, 1000), now);
    assert_eq!(mix.drain(now).len(), 1);

    // From here both are known, and neither is emitted alone.
    mix.add(am(0), 2, &tone(AM_FRAME, 2000), now);
    assert!(
        mix.drain(now).is_empty(),
        "the other radio has not supplied its share yet, and emitting this frame now would be \
         interleaving rather than mixing"
    );

    mix.add(am(0), 1, &tone(AM_FRAME, 1000), now);
    let out = mix.drain(now);
    assert_eq!(out.len(), 1);
    let pcm = heard(&out[0]);
    assert_eq!(pcm.len(), AM_FRAME);

    // 1000 + 2000. Averaged across the frame, because the heterodyne rides on
    // top at a couple of thousand counts either way and integrates to nothing.
    let mean: i32 = pcm.iter().map(|s| i32::from(*s)).sum::<i32>() / AM_FRAME as i32;
    assert!(
        (2600..=3400).contains(&mean),
        "summed, not captured: mean {mean}"
    );

    // And the beat is actually present, or this is only addition.
    let peak = pcm.iter().map(|s| i32::from(*s)).max().unwrap();
    assert!(peak > 4000, "no heterodyne: peak {peak}");
}

#[test]
fn lanes_stay_apart() {
    let mut mix = AmMix::default();
    let now = 0;

    for lane in [am(0), am(2)] {
        mix.add(lane, 1, &tone(AM_FRAME, 500), now);
        mix.add(lane, 2, &tone(AM_FRAME, 500), now);
    }

    let out = mix.drain(now);
    assert_eq!(
        out.len(),
        2,
        "a bad link and a good one are different mixes"
    );
    assert_eq!(out[0].lane, am(0));
    assert_eq!(out[1].lane, am(2));
}

#[test]
fn a_talker_who_stopped_is_not_waited_for_forever() {
    let mut mix = AmMix::default();
    let start = 0;

    mix.add(am(0), 1, &tone(AM_FRAME, 1000), start);
    mix.add(am(0), 2, &tone(AM_FRAME * 2, 1000), start);
    assert_eq!(mix.drain(start).len(), 1);

    // Talker 1 let go. Talker 2 must not be stuck holding a frame waiting
    // for samples that are never coming.
    let later = start + (AM_GONE_MS + 20) * MILLISECOND;
    mix.add(am(0), 2, &tone(AM_FRAME, 1000), later);
    let out = mix.drain(later);
    assert_eq!(out.len(), 1);
    assert!(heard(&out[0]).len() >= AM_FRAME);
}

#[test]
fn flush_does_not_clip_whoever_is_left() {
    let mut mix = AmMix::default();
    let now = 0;

    mix.add(am(0), 1, &tone(90, 1000), now);
    let out = mix.flush();
    assert_eq!(out.len(), 1);
    assert_eq!(out[0].1.len(), 90, "a partial frame still gets heard");
    assert!(mix.flush().is_empty());
}

/// A sum that does not fit is cut off where the samples end.
#[test]
fn a_loud_mix_is_clamped() {
    let mut mix = AmMix::default();
    mix.add(am(0), 1, &tone(AM_FRAME, 30000), 0);
    mix.add(am(0), 2, &tone(AM_FRAME, 30000), 0);
    let out = mix.drain(0);
    assert!(out[0].colliding);
    assert_eq!(with_beat(&out[0], &[]), tone(AM_FRAME, i16::MAX));
    assert_eq!(with_beat(&out[0], &[-70000])[0], -10000);
}

#[test]
fn what_was_mixed_is_not_mixed_again() {
    let mut mix = AmMix::default();
    mix.add(am(0), 1, &tone(AM_FRAME, 5), 0);
    assert_eq!(mix.drain(0).len(), 1);
    assert!(mix.drain(0).is_empty());
    assert!(mix.flush().is_empty());
}

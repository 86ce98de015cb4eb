use codec2::{Codec2, Codec2Mode};
use rfx_voiced::dsp::{
    bit_errors, is_muted, key_of, lane_of, renderings_of, seed_of, LegKey, Mode, Plan, Rng, Sink,
    Talker, CERTAIN, DECODE_FLOOR, FRAME,
};
use rfx_voiced::vocoder::{frame_size, DigitalLeg, Line, Rate, Vocoder};

fn p25(quality: u8) -> Sink {
    Sink { mode: Mode::P25, quality, bridged: false }
}

/// 40 ms of a 440 Hz tone at 8 kHz.
fn tone_40ms() -> Vec<i16> {
    (0..2 * FRAME)
        .map(|i| {
            let t = i as f32 / 8000.0;
            ((t * 440.0 * 2.0 * std::f32::consts::PI).sin() * 8000.0) as i16
        })
        .collect()
}

/// Renders the digital legs of a plan, building what it says to build.
fn render(
    legs: &mut Vec<(LegKey, DigitalLeg)>,
    plan: &Plan,
    erasure: u64,
) -> Vec<(LegKey, Vec<i16>)> {
    for (key, seed) in &plan.fresh {
        let (threshold, errors) = if key.1 == 100 {
            (0, 0)
        } else {
            (erasure, bit_errors(key.1))
        };
        legs.push((*key, DigitalLeg::new(Rate::Matched, *seed, threshold, errors)));
    }
    plan.keys
        .iter()
        .map(|key| {
            let leg = &mut legs.iter_mut().find(|l| l.0 == *key).unwrap().1;
            let mut out = Vec::new();
            for frame in &plan.frames {
                out.extend(leg.run(frame));
            }
            (*key, out)
        })
        .collect()
}

#[test]
fn lanes_group_listeners() {
    assert_eq!(lane_of(100), 100);
    assert_eq!(lane_of(98), 100, "nearby listeners share a lane");
    assert_eq!(lane_of(97), 95);
    assert_eq!(lane_of(3), 0, "below the floor is one silent lane");
}

#[test]
fn a_digital_link_is_silent_up_to_the_lane_at_the_floor() {
    for quality in 0..=100 {
        assert_eq!(is_muted(lane_of(quality)), quality <= 7, "{quality}");
    }
}

/// What a vocoder makes of speech is what a codec at its rate makes of it.
#[test]
fn a_vocoder_hands_its_codec_what_it_is_handed() {
    let speech = tone_40ms();
    for (rate, mode) in [
        (Rate::Full, Codec2Mode::MODE_3200),
        (Rate::Matched, Codec2Mode::MODE_2400),
    ] {
        let mut vocoder = Vocoder::new(rate);
        let mut codec = Codec2::new(mode);
        let (samples, bytes) = frame_size(rate);
        for frame in speech.chunks(samples) {
            let mut bits = vec![0u8; bytes];
            codec.encode(&mut bits, frame);
            assert_eq!(vocoder.encode(frame), bits);
        }
    }
}

#[test]
fn codec2_2400_frames_are_160_samples_and_48_bits() {
    let c2 = Codec2::new(Codec2Mode::MODE_2400);
    assert_eq!(c2.samples_per_frame(), FRAME, "20 ms at 8 kHz");
    assert_eq!(c2.bits_per_frame(), 48, "2400 bps");
    assert_eq!(frame_size(Rate::Matched), (FRAME, 48 / 8));
}

#[test]
fn codec2_3200_frames_are_160_samples_and_64_bits() {
    let c2 = Codec2::new(Codec2Mode::MODE_3200);
    assert_eq!(frame_size(Rate::Full), (c2.samples_per_frame(), c2.bits_per_frame() / 8));
    assert_eq!(frame_size(Rate::Full), (160, 8));
}

#[test]
fn full_quieting_produces_audio_and_below_threshold_produces_none() {
    let mut t = Talker::new();
    let mut legs = Vec::new();
    let plan = t.push_wide(&tone_40ms(), p25(100), &[p25(100), p25(0)]);
    let out = render(&mut legs, &plan, 0);

    let clean = out
        .iter()
        .find(|((_, lane, _), _)| *lane == 100)
        .expect("quality 100 is served");
    assert_eq!(
        clean.1.len(),
        2 * FRAME,
        "40 ms yields two 20 ms vocoder frames"
    );
    assert!(clean.1.iter().any(|s| *s != 0), "and it is not silence");

    assert!(
        out.iter().all(|((_, lane, _), _)| *lane != 0),
        "below the decode floor delivers nothing at all - silence, not noise"
    );
}

#[test]
fn a_degraded_lane_diverges_from_the_clean_one() {
    let mut t = Talker::new();
    let mut legs = Vec::new();
    let mut differed = false;

    for _ in 0..25 {
        let plan = t.push_wide(&tone_40ms(), p25(100), &[p25(100), p25(30)]);
        let out = render(&mut legs, &plan, CERTAIN / 4);
        let clean = &out.iter().find(|((_, l, _), _)| *l == 100).unwrap().1;
        let rough = &out.iter().find(|((_, l, _), _)| *l == 30).unwrap().1;
        if clean != rough {
            differed = true;
            break;
        }
    }

    assert!(
        differed,
        "quality 30 must not sound identical to quality 100"
    );
}

#[test]
fn analogue_has_no_decode_threshold() {
    let fm = Sink { mode: Mode::Fm, quality: 0, bridged: false };
    let mut t = Talker::new();
    let plan = t.push_wide(&tone_40ms(), fm, &[fm]);

    // The P25 side of the same link gets nothing at all. FM gets noise.
    assert_eq!(plan.keys.len(), 1);
    assert_eq!(plan.frames.len(), 2);
    assert!(plan.frames.iter().any(|f| f.iter().any(|s| *s != 0)));

    let digital = Talker::new().push_wide(&tone_40ms(), p25(0), &[p25(0)]);
    assert!(digital.keys.is_empty() && digital.frames.is_empty());
}

#[test]
fn a_patched_listener_is_rendered_for_their_own_system() {
    // A VHF unit talking, heard by another VHF set on the same channel and by a
    // P25 subscriber across a patch.
    let src = Sink { mode: Mode::Fm, quality: 80, bridged: false };
    let across = Sink { mode: Mode::P25, quality: 80, bridged: true };
    let mut t = Talker::new();
    let plan = t.push_wide(&tone_40ms(), src, &[src, across]);

    assert_eq!(plan.keys.len(), 2, "two systems, two renderings");
    let patched = plan.keys.iter().find(|k| k.0 == Mode::P25).unwrap();
    assert!(plan.keys.iter().any(|k| k.0 == Mode::Fm && !k.2));
    assert!(patched.2, "the P25 side crossed a bridge");

    let seed = plan.fresh.iter().find(|f| f.0 == *patched).unwrap().1;
    let mut leg = DigitalLeg::new(Rate::Matched, seed, 0, bit_errors(patched.1));
    let direct: Vec<i16> = plan.frames.iter().flatten().copied().collect();
    let vocoded: Vec<i16> = plan.frames.iter().flat_map(|f| leg.run(f)).collect();
    assert_ne!(
        direct, vocoded,
        "the same audio must not be delivered to both sides unchanged"
    );
    assert_eq!(direct.len(), vocoded.len());
}

/// However a transmission is cut into packets, its frames are its samples.
#[test]
fn a_transmission_is_rendered_whole() {
    let all: Vec<i16> = (0..1000).map(|i| i as i16).collect();
    let mut t = Talker::new();
    let mut frames: Vec<i16> = Vec::new();
    for packet in [&all[..100], &all[100..159], &all[159..480], &all[480..480], &all[480..]] {
        let plan = t.push_wide(packet, p25(100), &[p25(100)]);
        for f in &plan.frames {
            assert_eq!(f.len(), FRAME);
            frames.extend_from_slice(f);
        }
    }
    assert_eq!(frames.len(), 1000 / FRAME * FRAME);
    assert_eq!(frames, all[..960].to_vec());
}

#[test]
fn a_digital_link_is_muted_at_the_floor_and_an_analogue_one_is_not() {
    assert!(is_muted(DECODE_FLOOR));
    assert!(!is_muted(DECODE_FLOOR + 1));
    let fm = Sink { mode: Mode::Fm, quality: 0, bridged: false };
    assert_eq!(renderings_of(&[p25(0)]).len(), 0);
    assert_eq!(renderings_of(&[fm]), vec![(Mode::Fm, 0, false)]);
}

#[test]
fn each_system_gets_a_rendering_of_its_own() {
    let src = Sink { mode: Mode::Fm, quality: 80, bridged: false };
    let across = Sink { mode: Mode::P25, quality: 80, bridged: true };
    let mut t = Talker::new();
    let plan = t.push_wide(&tone_40ms(), src, &[src, across, src]);
    assert_eq!(plan.keys, vec![key_of(src), key_of(across)]);
    assert_eq!(plan.frames.len(), 2);
    assert!(plan.need_bridge);
    assert_eq!(plan.rebuild, Some(seed_of(src, 1)));
    assert_eq!(plan.fresh.len(), 2);

    // The next packet finds everything built.
    let plan = t.push_wide(&tone_40ms(), src, &[src, across]);
    assert_eq!(plan.rebuild, None);
    assert!(plan.fresh.is_empty());
}

#[test]
fn samples_that_make_no_frame_are_kept_for_the_next_packet() {
    let mut t = Talker::new();
    let plan = t.push_wide(&[7; 100], p25(100), &[p25(100)]);
    assert!(plan.frames.is_empty());
    let plan = t.push_wide(&[8; 100], p25(100), &[p25(100)]);
    assert_eq!(plan.frames.len(), 1);
    assert_eq!(plan.frames[0][99], 7);
    assert_eq!(plan.frames[0][100], 8);
}

#[test]
fn bit_errors_come_with_a_bad_link() {
    for (quality, errors) in [
        (100u8, 0u32),
        (95, 1),
        (90, 1),
        (75, 2),
        (65, 3),
        (55, 3),
        (30, 6),
        (25, 7),
        (10, 8),
        (6, 8),
        (DECODE_FLOOR, 0),
    ] {
        assert_eq!(bit_errors(quality), errors, "quality {quality}");
    }
    for q in DECODE_FLOOR + 1..100 {
        assert!(bit_errors(q) >= bit_errors(q + 1));
    }
}

#[test]
fn a_certainty_always_happens_and_a_zero_chance_never() {
    let mut rng = Rng { state: 0x9E37_79B9_7F4A_7C15 };
    for _ in 0..50 {
        assert!(rng.chance(CERTAIN));
        assert!(!rng.chance(0));
        assert!(rng.below(48) < 48);
    }
}

#[test]
fn a_lost_frame_is_the_last_one_again() {
    let first = vec![1u8, 2, 3, 4, 5, 6];
    let mut clean = Line::new(6, 1, 0, 0);
    assert_eq!(clean.cross(&first), first);
    let mut dead = Line::new(6, 1, CERTAIN, 0);
    assert_eq!(dead.cross(&first), vec![0; 6]);
}

#[test]
fn a_damaged_frame_differs_in_a_few_bits() {
    let frame = vec![0u8; 6];
    let mut line = Line::new(6, 1, 0, 3);
    let got = line.cross(&frame);
    let ones: u32 = got.iter().map(|b| b.count_ones()).sum();
    assert!(ones == 3 || ones == 1, "three turns, two of which may undo each other");
}

/// The vocoder hands back what the codec makes of a frame, not the frame.
#[test]
fn the_vocoder_codes_and_decodes() {
    let mut v = Vocoder::new(Rate::Full);
    let bits = v.encode(&[0; FRAME]);
    assert_eq!(bits, vec![0xC0, 0, 0x6A, 0x43, 0x9C, 0xE4, 0x21, 8]);
    let speech = v.decode(&bits);
    assert_eq!(speech.len(), FRAME);
    assert!(speech.iter().all(|s| s.abs() < 0x100), "silence stays quiet");

    let mut talking = Vocoder::new(Rate::Matched);
    let coded = talking.encode(&tone_40ms()[..FRAME]);
    assert_eq!(coded.len(), 6);
}

#[test]
fn the_lower_rate_has_to_be_asked_for() {
    assert_eq!(Rate::of_setting(Some("2400")), Rate::Matched);
    assert_eq!(Rate::of_setting(Some("3200")), Rate::Full);
    assert_eq!(Rate::of_setting(None), Rate::Full);
}

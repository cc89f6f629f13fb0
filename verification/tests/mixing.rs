use bppt::mixing::{by_length, mix_samples, Channel, Track};
use bppt::error::ErrorKind;
use bppt::proc::{ensure, merge};
use bppt::structure::Notes;
use std::str::FromStr;

const FULL: f64 = 32767.0;

fn generator(signal: &str, notes: u8, tuning: f32) -> impl Fn(usize, u8, u8, u8) -> Vec<i32> {
    let func = meval::Expr::from_str(signal)
        .unwrap()
        .bind2("t", "f")
        .expect("unknown variable in the expression");
    move |len: usize, n: u8, octave: u8, volume: u8| -> Vec<i32> {
        let f = (tuning as f64 / 16f64)
            * 2.0_f64.powf(((notes * octave + n) as f64) / (notes as f64));
        (1..=len)
            .map(|i| {
                let t = (i as f64) / 48000f64;
                (func(t, f) * ((volume as f64) / 100f64) * FULL) as i32
            })
            .collect()
    }
}

fn channel(
    signal: &str,
    set: &str,
    score: &str,
    tuning: f32,
) -> Channel<impl Fn(usize, u8, u8, u8) -> Vec<i32>> {
    let notes = Notes::parse(score, set).unwrap();
    Channel::new(generator(signal, notes.set(), tuning), notes)
}

fn mixed_root(bpm: u8, lengths: (u8, u8)) -> usize {
    Track::new(
        bpm as u16,
        vec![
            channel(
                "4*abs(f*t-floor(f*t+1/2))-1",
                "aAbcCdDefFgG",
                &format!("@4${}!100 .", lengths.0),
                442.0,
            ),
            channel(
                "sin((2*pi*f*t)-sin(2*pi*8*t))",
                "aAbcCdDefFgG",
                &format!("@4${}!100 a", lengths.1),
                442.0,
            ),
        ],
    )
    .mix()
    .unwrap()
    .len()
}

fn custom_mask(mask: &str) -> usize {
    Track::new(
        60,
        vec![channel("4*abs(f*t-floor(f*t+1/2))-1", "aAbcCdDefFgG", mask, 442.0)],
    )
    .mix()
    .unwrap()
    .len()
}

#[test]
fn note_length() {
    assert_eq!(48_000, mixed_root(60, (4, 4)), "quarter notes");
    assert_eq!(96_000, mixed_root(60, (2, 2)), "half notes");
    assert_eq!(24_000, mixed_root(60, (8, 8)), "eighth notes");
}

#[test]
fn tempo() {
    assert_eq!(48_000, mixed_root(60, (4, 4)), "60 bpm");
    assert_eq!(96_000, mixed_root(30, (4, 4)), "30 bpm");
    assert_eq!(24_000, mixed_root(120, (4, 4)), "120 bpm");
}

#[test]
fn note_loss() {
    assert_eq!(96_000, mixed_root(60, (2, 4)), "one half, one quarter");
    assert_eq!(96_000, mixed_root(60, (4, 2)), "one quarter, one half");
    assert_eq!(48_000, mixed_root(60, (8, 4)), "one eighth, one quarter");
    assert_eq!(48_000, mixed_root(60, (4, 8)), "one quarter, one eighth");
    assert_eq!(96_000, mixed_root(60, (2, 8)), "one half, one eighth");
    assert_eq!(96_000, mixed_root(60, (8, 2)), "one eighth, one half");
}

#[test]
fn loop_precision() {
    assert_eq!(48_000, custom_mask("[abc]"), "just a lil triplet");
    assert_eq!(48_000, custom_mask("[(12a)]"), "a dodecaplet");
    assert_eq!(
        48_000,
        custom_mask("[(312a)]"),
        "a fucking triakosiadodecaplet"
    );
}

#[test]
fn two_channels_of_unequal_length() {
    let mix = mix_samples(&vec![vec![1000; 100], vec![1000; 150]]);
    assert_eq!(mix.len(), 150);
    assert!(mix[..100].iter().all(|s| *s == 1000));
    assert!(mix[100..].iter().all(|s| *s == 500));
    let mix = mix_samples(&vec![vec![1000; 150], vec![1000; 100]]);
    assert_eq!(mix.len(), 150);
    assert!(mix[..100].iter().all(|s| *s == 1000));
    assert!(mix[100..].iter().all(|s| *s == 500));
}

#[test]
fn mixing_is_an_average_rounded_towards_zero() {
    assert_eq!(
        mix_samples(&vec![vec![7, -7, 3], vec![2, -2], vec![5]]),
        vec![2 + 0 + 1, -2 + 0, 1]
    );
    assert_eq!(mix_samples(&vec![vec![7, -7, 3]]), vec![7, -7, 3]);
}

#[test]
fn mixing_nothing_gives_nothing() {
    assert_eq!(mix_samples(&vec![]), vec![]);
    assert_eq!(mix_samples(&vec![vec![], vec![]]), vec![]);
}

#[test]
fn mixing_never_exceeds_the_amplitude_of_its_channels() {
    let channels = vec![
        vec![i32::MAX; 10],
        vec![i32::MAX; 7],
        vec![i32::MIN; 3],
        vec![i32::MAX, i32::MIN, i32::MAX, i32::MIN],
    ];
    let mix = mix_samples(&channels);
    assert_eq!(mix.len(), 10);
    assert_eq!(mix[4], 2 * (i32::MAX / 4));
    assert_eq!(mix[9], i32::MAX / 4);
    let loud = mix_samples(&vec![vec![i32::MIN; 5]; 8]);
    assert_eq!(loud, vec![i32::MIN; 5]);
    let loud = mix_samples(&vec![vec![i32::MAX; 5]; 8]);
    assert_eq!(loud, vec![8 * (i32::MAX / 8); 5]);
    let unit = mix_samples(&vec![vec![1; 5], vec![-1; 5], vec![1; 5]]);
    assert!(unit.iter().all(|s| s.abs() <= 1));
}

#[test]
fn buffers_are_taken_from_the_shortest_to_the_longest() {
    let channels = vec![vec![0; 5], vec![0; 2], vec![0; 5], vec![], vec![0; 2]];
    assert_eq!(by_length(&channels), vec![3, 1, 4, 0, 2]);
    assert_eq!(by_length(&vec![]), vec![]);
}

#[test]
fn a_track_mixes_what_its_channels_sound_like() {
    let square = |duration: usize, _: u8, _: u8, volume: u8| vec![volume as i32 * 10; duration];
    let track = Track::new(
        60,
        vec![
            Channel::new(square, Notes::parse("!100 $8 a", "a").unwrap()),
            Channel::new(square, Notes::parse("!50 $4 a", "a").unwrap()),
        ],
    );
    let decoded = track.process().unwrap();
    assert_eq!(decoded, vec![vec![1000; 24000], vec![500; 48000]]);
    let mix = track.mix().unwrap();
    assert_eq!(mix.len(), 48000);
    assert!(mix[..24000].iter().all(|s| *s == 750));
    assert!(mix[24000..].iter().all(|s| *s == 250));
    assert_eq!(track.channels[0].process(track.bpm).unwrap(), vec![1000; 24000]);
}

#[test]
fn the_first_failing_channel_fails_the_track() {
    let square = |duration: usize, _: u8, _: u8, _: u8| vec![1; duration];
    let track = Track::new(
        60,
        vec![
            Channel::new(square, Notes::parse("a", "a").unwrap()),
            Channel::new(square, Notes::parse("!255 ^", "a").unwrap()),
            Channel::new(square, Notes::parse("@1 <", "a").unwrap()),
        ],
    );
    let failed = track.mix().unwrap_err();
    assert_eq!(
        (failed.kind, failed.at, failed.channel),
        (ErrorKind::VolumeOverflow, Some(1), Some(1))
    );
    let failed = track.process().unwrap_err();
    assert_eq!(
        (failed.kind, failed.at, failed.channel),
        (ErrorKind::VolumeOverflow, Some(1), Some(1))
    );
    let failed = track.channels[2].process(60).unwrap_err();
    assert_eq!(
        (failed.kind, failed.at, failed.channel),
        (ErrorKind::OctaveUnderflow, Some(1), None)
    );
    let empty: Track<fn(usize, u8, u8, u8) -> Vec<i32>> = Track::new(60, vec![]);
    assert_eq!(empty.mix().unwrap(), vec![]);
}

#[test]
fn merge_divides_by_the_number_of_channels() {
    assert_eq!(
        merge(vec![vec![10, 20, 30], vec![20, 40], vec![-60]]),
        vec![-10, 20, 10]
    );
    assert_eq!(merge(vec![vec![4], vec![4, 8]]), vec![4, 4]);
    assert_eq!(merge(vec![vec![2, 4], vec![4, 8]]), vec![3, 6]);
    assert_eq!(merge(vec![vec![1000; 100], vec![1000; 150]])[99..101], [1000, 500]);
    assert_eq!(merge(vec![vec![-7], vec![0]]), vec![-3]);
    assert_eq!(merge(vec![vec![i32::MAX; 2], vec![i32::MAX; 2]]), vec![i32::MAX; 2]);
    assert_eq!(merge(vec![vec![i32::MIN; 2], vec![i32::MIN; 2]]), vec![i32::MIN; 2]);
    assert_eq!(merge(vec![]), vec![]);
    assert_eq!(merge(vec![vec![], vec![]]), vec![]);
}

#[test]
fn ensure_turns_a_condition_into_an_option() {
    assert_eq!(ensure(true), Some(()));
    assert_eq!(ensure(false), None);
    assert_eq!(ensure(1 + 1 == 2).ok_or("arithmetic"), Ok(()));
}

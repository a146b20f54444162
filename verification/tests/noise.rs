use no_swear::arith::trunc_div;
use no_swear::bleeps::CensoringPosition;
use no_swear::noise::{censor_planes, noise_spans, try_noise_spans, NoiseSpan};

fn pos(start_ms: i64, end_ms: i64) -> CensoringPosition {
    CensoringPosition { word: "x".to_string(), start_ms, end_ms }
}

fn span(first: usize, last: usize) -> NoiseSpan {
    NoiseSpan { first, last }
}

#[test]
fn truncating_division() {
    assert_eq!(trunc_div(7, 2), 3);
    assert_eq!(trunc_div(-7, 2), -3);
    assert_eq!(trunc_div(7, -2), -3);
    assert_eq!(trunc_div(-7, -2), 3);
    assert_eq!(trunc_div(0, -5), 0);
    assert_eq!(trunc_div(i64::MIN as i128 * 1000, 1000), i64::MIN as i128);
    assert_eq!(trunc_div(i128::MIN, 1), i128::MIN);
    assert_eq!(trunc_div(i128::MIN, 2), i128::MIN / 2);
    assert_eq!(trunc_div(i128::MIN, -2), i128::MIN / -2);
    assert_eq!(trunc_div(i128::MAX, -1), -i128::MAX);
    assert_eq!(trunc_div(i128::MIN + 1, i128::MIN), 0);
}

#[test]
fn frame_without_timestamp_gets_no_noise() {
    assert!(noise_spans(None, 1, 48000, 1024, 48000, &vec![pos(0, 100_000)]).is_empty());
}

#[test]
fn spans_are_absolute_sample_ranges() {
    // Frame stamped 1024 at 1/48000: stream samples 1024..2048. A position from 22 to 30 ms
    // covers stream samples 1056..1440, that is frame samples 32..=415.
    let got = noise_spans(Some(1024), 1, 48000, 1024, 48000, &vec![pos(22, 30)]);
    assert_eq!(got, vec![span(32, 415)]);
}

#[test]
fn spans_are_clamped_to_the_frame() {
    // Frame at 1 s (stream samples 48000..49024).
    let cps = vec![pos(1005, 1010), pos(900, 1002), pos(1021, 2000), pos(0, 1000), pos(1020, 3000)];
    let got = noise_spans(Some(48000), 1, 48000, 1024, 48000, &cps);
    assert_eq!(got, vec![span(240, 479), span(0, 95), span(1008, 1023), span(960, 1023)]);
}

#[test]
fn frame_tail_is_covered() {
    // 21.3 ms of audio: a position from 21 to 22 ms covers frame samples 1008..=1023.
    let got = noise_spans(Some(0), 1, 48000, 1024, 48000, &vec![pos(21, 22)]);
    assert_eq!(got, vec![span(1008, 1023)]);
}

#[test]
fn time_base_is_converted_to_samples() {
    // pts 1000 in 1/1000 s is 1 s: stream sample 44100 at 44.1 kHz.
    let got = noise_spans(Some(1000), 1, 1000, 100, 44100, &vec![pos(1000, 1001)]);
    assert_eq!(got, vec![span(0, 43)]);
}

#[test]
fn no_positions_no_noise() {
    assert!(noise_spans(Some(0), 1, 48000, 1024, 48000, &vec![]).is_empty());
}

#[test]
fn too_short_position_gives_nothing() {
    // 1 ms at 500 samples per second is half a sample.
    let got = noise_spans(Some(0), 1, 500, 100, 500, &vec![pos(0, 1)]);
    assert!(got.is_empty());
}

#[test]
fn empty_frame_gets_no_noise() {
    let got = noise_spans(Some(0), 1, 48000, 0, 48000, &vec![pos(-10, 10)]);
    assert!(got.is_empty());
}

#[test]
fn span_membership_matches_bleep_ranges() {
    let cps: Vec<CensoringPosition> = (0..30).map(|k| pos(k * 7 - 20, k * 13 + 5)).collect();
    for pts in [0i64, 512, 1024, 47000] {
        let got = noise_spans(Some(pts), 1, 44100, 1024, 44100, &cps);
        for i in 0..1024i64 {
            let in_span = got.iter().any(|s| s.first as i64 <= i && i <= s.last as i64);
            let in_bleep = cps.iter().any(|c| {
                let a = c.start_ms as i128 * 44100 / 1000;
                let b = c.end_ms as i128 * 44100 / 1000;
                a <= (pts + i) as i128 && ((pts + i) as i128) < b
            });
            assert_eq!(in_span, in_bleep);
        }
        for s in got {
            assert!(s.first <= s.last && s.last < 1024);
        }
    }
}

#[test]
fn refused_inputs() {
    let cps = vec![pos(0, 10)];
    assert_eq!(try_noise_spans(Some(0), 1, 0, 1024, 48000, &cps), None);
    assert_eq!(try_noise_spans(None, 1, 0, 1024, 0, &cps), Some(vec![]));
    assert_eq!(try_noise_spans(Some(0), 1, 48000, 1024, 0, &cps), Some(vec![]));
    let wide = vec![pos(i64::MIN, i64::MAX)];
    assert_eq!(try_noise_spans(Some(i64::MAX), i32::MAX, 1, 1024, i32::MAX, &wide), Some(vec![]));
    assert_eq!(try_noise_spans(Some(0), 1, 48000, 1024, 48000, &wide), Some(vec![span(0, 1023)]));
}

#[test]
fn censoring_touches_only_spans() {
    let mut planes = vec![vec![1, 2, 3, 4, 5, 6], vec![10, 20, 30, 40, 50, 60]];
    let spans = vec![span(1, 2), span(2, 3)];
    let noise = vec![
        vec![vec![-1, -2], vec![-10, -20]],
        vec![vec![-3, -4], vec![-30, -40]],
    ];
    censor_planes(&mut planes, &spans, &noise);
    assert_eq!(planes, vec![vec![1, -1, -3, -4, 5, 6], vec![10, -10, -30, -40, 50, 60]]);
    let mut same = vec![vec![7u8, 8]];
    censor_planes(&mut same, &vec![], &vec![]);
    assert_eq!(same, vec![vec![7u8, 8]]);
}

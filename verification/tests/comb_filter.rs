use delay_effects::comb_filter::{CombFilter, Error, FilterParam, FilterType};

fn run(filter: &mut CombFilter<f32>, gain: f32, input: &[f32]) -> Vec<f32> {
    let block = vec![input.to_vec()];
    let mut output = filter.process(&block, |x: f32, delayed: f32| x + gain * delayed);
    assert_eq!(output.len(), 1);
    output.remove(0)
}

fn run_in_blocks(filter: &mut CombFilter<f32>, gain: f32, input: &[f32], size: usize) -> Vec<f32> {
    let mut output = Vec::new();
    for block in input.chunks(size) {
        output.extend(run(filter, gain, block));
    }
    output
}

fn sine(frequency: f32, sample_rate: f32, count: usize) -> Vec<f32> {
    (0..count)
        .map(|n| (2.0 * std::f32::consts::PI * frequency * n as f32 / sample_rate).sin())
        .collect()
}

fn rms(signal: &[f32]) -> f32 {
    (signal.iter().map(|x| x * x).sum::<f32>() / signal.len() as f32).sqrt()
}

#[test]
fn fir_impulse_response() {
    let mut filter = CombFilter::new(FilterType::FIR, 4, 1);
    let input = [1.0, 0.0, 0.0, 0.0, 0.0, 0.0, 0.0, 0.0, 0.0, 0.0];
    let output = run(&mut filter, 1.0, &input);
    assert_eq!(output, vec![1.0, 1.0, 1.0, 1.0, 1.0, 0.0, 0.0, 0.0, 0.0, 0.0]);
}

#[test]
fn iir_impulse_response() {
    let mut filter = CombFilter::new(FilterType::IIR, 4, 1);
    let input = [1.0, 0.0, 0.0, 0.0, 0.0, 0.0, 0.0, 0.0, 0.0, 0.0];
    let output = run(&mut filter, 1.0, &input);
    assert_eq!(output, vec![1.0, 1.0, 1.0, 1.0, 1.0, 1.0, 1.0, 1.0, 1.0, 1.0]);
}

#[test]
fn impulse_response_with_a_delay_line_of_one_slot() {
    let input = [1.0, 0.0, 0.0, 0.0, 0.0, 0.0, 0.0, 0.0, 0.0, 0.0];
    let mut fir = CombFilter::new(FilterType::FIR, 1, 1);
    assert_eq!(run(&mut fir, 1.0, &input), vec![1.0, 1.0, 0.0, 0.0, 0.0, 0.0, 0.0, 0.0, 0.0, 0.0]);
    let mut iir = CombFilter::new(FilterType::IIR, 1, 1);
    assert_eq!(run(&mut iir, 1.0, &input), vec![1.0, 1.0, 1.0, 1.0, 1.0, 1.0, 1.0, 1.0, 1.0, 1.0]);
}

#[test]
fn the_delayed_sample_is_read_before_the_push() {
    // integers, and a mix that shows both of its arguments
    let mut filter: CombFilter<i64> = CombFilter::new(FilterType::FIR, 3, 1);
    let input = vec![vec![1, 2, 3, 4, 5, 6, 7]];
    let output = filter.process(&input, |x: i64, delayed: i64| 10 * x + delayed);
    // blank line: 0; until the line is full: the first input; then the input three steps back
    assert_eq!(output, vec![vec![10, 21, 31, 41, 52, 63, 74]]);
}

#[test]
fn feedback_pushes_the_output_sample() {
    let mut filter: CombFilter<i64> = CombFilter::new(FilterType::IIR, 2, 1);
    let input = vec![vec![1, 1, 1, 1, 1, 1]];
    let output = filter.process(&input, |x: i64, delayed: i64| x + 2 * delayed);
    // y0 = 1; y1 = 1 + 2*y0; y2 = 1 + 2*y0; y3 = 1 + 2*y1; y4 = 1 + 2*y2; y5 = 1 + 2*y3
    assert_eq!(output, vec![vec![1, 3, 3, 7, 7, 15]]);
}

#[test]
fn channels_are_independent() {
    let mut filter: CombFilter<i64> = CombFilter::new(FilterType::FIR, 2, 3);
    assert_eq!(filter.num_channels(), 3);
    let input = vec![vec![1, 2, 3, 4], vec![10, 20, 30, 40]];
    let output = filter.process(&input, |x: i64, delayed: i64| x + delayed);
    assert_eq!(output, vec![vec![1, 3, 4, 6], vec![10, 30, 40, 60]]);
    // the third channel's line was left alone: it still starts blank
    let later = vec![vec![0, 0], vec![0, 0], vec![5, 6]];
    let output = filter.process(&later, |x: i64, delayed: i64| x + delayed);
    assert_eq!(output, vec![vec![3, 4], vec![30, 40], vec![5, 11]]);
}

#[test]
fn empty_blocks_change_nothing() {
    let mut filter: CombFilter<i64> = CombFilter::new(FilterType::FIR, 2, 1);
    filter.process(&vec![vec![7, 8]], |x: i64, delayed: i64| x + delayed);
    assert_eq!(filter.process(&vec![vec![]], |x: i64, delayed: i64| x + delayed), vec![vec![]]);
    assert_eq!(filter.process(&vec![], |x: i64, delayed: i64| x + delayed), Vec::<Vec<i64>>::new());
    assert_eq!(filter.process(&vec![vec![0, 0]], |x: i64, delayed: i64| x + delayed), vec![vec![7, 8]]);
}

#[test]
fn comb_block_size_does_not_change_the_output() {
    let signal = sine(440.0, 44100.0, 4096);
    for kind in [FilterType::FIR, FilterType::IIR] {
        let mut whole = CombFilter::new(kind, 100, 1);
        let expected = run(&mut whole, 0.5, &signal);
        for size in [64, 128, 256, 512, 1024] {
            let mut filter = CombFilter::new(kind, 100, 1);
            let output = run_in_blocks(&mut filter, 0.5, &signal, size);
            assert_eq!(output.len(), expected.len());
            for (a, b) in output.iter().zip(expected.iter()) {
                assert!((a - b).abs() < 1e-4);
            }
            assert_eq!(output, expected);
        }
    }
}

#[test]
fn fir_cancels_a_sine_delayed_by_half_a_period_at_unity_gain() {
    // 100 Hz at 8 kHz: a period is 80 samples, half a period 40
    let signal = sine(100.0, 8000.0, 8000);
    let mut filter = CombFilter::new(FilterType::FIR, 40, 1);
    let output = run(&mut filter, 1.0, &signal);
    for y in &output[80..] {
        assert!(y.abs() < 1e-4);
    }
}

#[test]
fn fir_with_gain_one_half_and_a_delay_of_one_period_scales_by_three_halves() {
    let signal = sine(100.0, 8000.0, 8000);
    let mut filter = CombFilter::new(FilterType::FIR, 80, 1);
    let output = run(&mut filter, 0.5, &signal);
    for (y, x) in output[160..].iter().zip(signal[160..].iter()) {
        assert!((y - 1.5 * x).abs() < 1e-3);
    }
}

#[test]
fn iir_at_resonance_raises_the_rms() {
    let signal = sine(100.0, 8000.0, 8000);
    let mut filter = CombFilter::new(FilterType::IIR, 80, 1);
    let output = run(&mut filter, 0.5, &signal);
    let ratio = rms(&output) / rms(&signal);
    assert!(ratio > 1.5);
    assert!(ratio < 2.0 + 1e-3);
}

#[test]
fn set_delay_accepts_a_shorter_delay_and_blanks_the_lines() {
    let mut filter: CombFilter<i64> = CombFilter::new(FilterType::FIR, 4, 2);
    assert_eq!(filter.delay_samples(), 4);
    filter.process(&vec![vec![1, 2, 3, 4], vec![5, 6, 7, 8]], |x: i64, delayed: i64| x + delayed);
    assert!(filter.set_delay(2).is_ok());
    assert_eq!(filter.delay_samples(), 2);
    assert_eq!(filter.num_channels(), 2);
    let output = filter.process(&vec![vec![9, 9, 9, 9], vec![1, 1, 1, 1]], |x: i64, delayed: i64| {
        10 * x + delayed
    });
    assert_eq!(output, vec![vec![90, 99, 99, 99], vec![10, 11, 11, 11]]);
    assert!(filter.set_delay(2).is_ok());
    assert!(filter.set_delay(1).is_ok());
    assert_eq!(filter.delay_samples(), 1);
}

#[test]
fn set_delay_refuses_zero_and_longer_delays() {
    let mut filter: CombFilter<i64> = CombFilter::new(FilterType::IIR, 3, 1);
    filter.process(&vec![vec![1, 2, 3]], |x: i64, _delayed: i64| x);
    match filter.set_delay(0) {
        Err(Error::InvalidValue { param: FilterParam::Delay, value }) => assert_eq!(value, 0),
        other => panic!("unexpected: {:?}", other),
    }
    match filter.set_delay(4) {
        Err(Error::InvalidValue { param: FilterParam::Delay, value }) => assert_eq!(value, 4),
        other => panic!("unexpected: {:?}", other),
    }
    assert_eq!(filter.delay_samples(), 3);
    // the line still holds 1, 2, 3
    let output = filter.process(&vec![vec![0, 0, 0]], |x: i64, delayed: i64| x + delayed);
    assert_eq!(output, vec![vec![1, 2, 3]]);
    assert!(filter.set_delay(3).is_ok());
    assert!(filter.set_delay(4).is_err());
}

#[test]
fn reset_blanks_every_line_and_keeps_the_delay() {
    let mut filter: CombFilter<i64> = CombFilter::new(FilterType::FIR, 2, 2);
    filter.process(&vec![vec![1, 2, 3], vec![4, 5, 6]], |x: i64, delayed: i64| x + delayed);
    filter.reset();
    assert_eq!(filter.delay_samples(), 2);
    assert_eq!(filter.num_channels(), 2);
    let output = filter.process(&vec![vec![7, 8, 9], vec![1, 1, 1]], |x: i64, delayed: i64| {
        10 * x + delayed
    });
    assert_eq!(output, vec![vec![70, 87, 97], vec![10, 11, 11]]);
}

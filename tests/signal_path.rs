use saw_filter::filter::{
    highpass, highpass_coefficient, integer_sqrt, lowpass, lowpass_coefficient, one_pole, COEF_ONE,
};
use saw_filter::oscillator::{Oscillator, SAMPLE_RATE, UNITS_PER_SLOT, WAVETABLE_LENGTH};
use saw_filter::synth::{synthesize, FilterKind};
use saw_filter::wavetable::{fill_saw_table, fraction_to_i16, SAMPLE_MAX, SAMPLE_MIN};

fn saw_table() -> Vec<i16> {
    let mut table = vec![0i16; WAVETABLE_LENGTH];
    fill_saw_table(&mut table);
    table
}

fn q24_cosine(cutoff_hz: f64) -> i64 {
    let w = 2.0 * std::f64::consts::PI * cutoff_hz / SAMPLE_RATE as f64;
    (w.cos() * COEF_ONE as f64).round() as i64
}

#[test]
fn conversion_of_unit_values() {
    assert_eq!(fraction_to_i16(1, 1), SAMPLE_MAX);
    assert_eq!(fraction_to_i16(-1, 1), SAMPLE_MIN);
    assert_eq!(fraction_to_i16(0, 1), 0);
    assert_eq!(fraction_to_i16(1, 2), 16383);
    assert_eq!(fraction_to_i16(-1, 2), -16384);
}

#[test]
fn saw_table_shape() {
    let table = saw_table();
    assert_eq!(table[0], SAMPLE_MAX);
    for i in 1..table.len() {
        assert!(table[i] <= table[i - 1]);
    }
    let last = table[WAVETABLE_LENGTH - 1] as i32;
    assert_eq!(last, -32256);
    assert!(last + 32768 <= 65536 / WAVETABLE_LENGTH as i32);
}

#[test]
fn saw_table_of_four() {
    let mut table = [9i16; 4];
    fill_saw_table(&mut table);
    assert_eq!(table, [32767, 16383, 0, -16384]);
}

#[test]
fn saw_table_of_one() {
    let mut table = [0i16; 1];
    fill_saw_table(&mut table);
    assert_eq!(table, [32767]);
}

#[test]
fn oscillator_reads_before_advancing() {
    let table = saw_table();
    let mut osc = Oscillator::create(200_000, &table);
    assert_eq!(osc.phase(), 0);
    assert_eq!(osc.tick(200_000), table[0]);
    assert_eq!(osc.phase(), 25_600_000);
    assert_eq!(osc.tick(200_000), table[0]);
    assert_eq!(osc.tick(200_000), table[1]);
    assert_eq!(osc.phase(), 76_800_000);
}

#[test]
fn oscillator_negative_frequency_wraps() {
    let table = saw_table();
    let mut osc = Oscillator::create(-200_000, &table);
    assert_eq!(osc.tick(-200_000), table[0]);
    let period = WAVETABLE_LENGTH as u128 * UNITS_PER_SLOT as u128;
    assert_eq!(osc.phase(), period - 25_600_000);
    assert_eq!(osc.tick(-200_000), table[127]);
}

#[test]
fn oscillator_retunes_on_tick() {
    let table = saw_table();
    let mut osc = Oscillator::create(100_000, &table);
    osc.tick(300_000);
    assert_eq!(osc.frequency(), 300_000);
    assert_eq!(osc.phase(), 128 * 300_000);
}

#[test]
fn oscillator_phase_stays_in_table() {
    let table = saw_table();
    let period = WAVETABLE_LENGTH as u128 * UNITS_PER_SLOT as u128;
    let freqs: [i32; 7] = [200_000, -5_000_000, 2_000_000_000, -2_147_483_648, 0, 44_100_000, 1];
    let mut osc = Oscillator::create(freqs[0], &table);
    for k in 0..700 {
        osc.tick(freqs[k % freqs.len()]);
        assert!(osc.phase() < period);
    }
}

#[test]
fn oscillator_index_sequence_is_periodic() {
    let table = saw_table();
    let mut osc = Oscillator::create(200_000, &table);
    let mut delay = 0i16;
    let out = synthesize(&mut osc, 200_000, FilterKind::Passthrough, 0, 882, &mut delay);
    for k in 0..441 {
        assert_eq!(out[k], out[k + 441]);
    }
    assert_eq!(osc.phase(), 0);
}

#[test]
fn integer_sqrt_values() {
    assert_eq!(integer_sqrt(0), 0);
    assert_eq!(integer_sqrt(1), 1);
    assert_eq!(integer_sqrt(15), 3);
    assert_eq!(integer_sqrt(16), 4);
    assert_eq!(integer_sqrt(8 << 48), 47_453_132);
    assert_eq!(integer_sqrt(u64::MAX), 4_294_967_295);
}

#[test]
fn coefficients_at_the_extremes() {
    assert_eq!(lowpass_coefficient(COEF_ONE), -COEF_ONE);
    assert_eq!(highpass_coefficient(COEF_ONE), COEF_ONE);
    assert_eq!(lowpass_coefficient(-COEF_ONE), 47_453_132 - 3 * COEF_ONE);
    assert_eq!(highpass_coefficient(-COEF_ONE), 3 * COEF_ONE - 47_453_132);
}

#[test]
fn coefficients_clamp_the_cosine() {
    assert_eq!(lowpass_coefficient(2 * COEF_ONE), lowpass_coefficient(COEF_ONE));
    assert_eq!(highpass_coefficient(-5 * COEF_ONE), highpass_coefficient(-COEF_ONE));
}

#[test]
fn lowpass_coefficient_at_one_kilohertz() {
    let cos = q24_cosine(1000.0);
    assert_eq!(cos, 16_607_220);
    assert_eq!(lowpass_coefficient(cos), -14_552_840);
}

#[test]
fn zero_coefficient_passes_input() {
    let mut signal = [1234i16, -5, 32767, -32768, 0];
    let mut delay = 0i16;
    one_pole(&mut signal, COEF_ONE, 0, &mut delay);
    assert_eq!(signal, [1234, -5, 32767, -32768, 0]);
    assert_eq!(delay, 0);
}

#[test]
fn highpass_at_zero_cutoff_outputs_negated_delay() {
    let mut signal = [1000i16, 2000];
    let mut delay = 7i16;
    highpass(&mut signal, COEF_ONE, &mut delay);
    assert_eq!(signal, [-7, 7]);
    assert_eq!(delay, 7);
}

#[test]
fn one_pole_truncates_toward_zero() {
    let mut signal = [-3i16, 3];
    let mut delay = 0i16;
    one_pole(&mut signal, COEF_ONE / 2, 0, &mut delay);
    assert_eq!(signal, [-1, 1]);
    assert_eq!(delay, 1);
}

#[test]
fn one_pole_saturates() {
    let mut signal = [32767i16];
    let mut delay = -32768i16;
    one_pole(&mut signal, COEF_ONE, COEF_ONE, &mut delay);
    assert_eq!(signal, [32767]);
    let mut signal = [-32768i16];
    let mut delay = 32767i16;
    one_pole(&mut signal, COEF_ONE, COEF_ONE, &mut delay);
    assert_eq!(signal, [-32768]);
}

#[test]
fn lowpass_recursion_exact() {
    let cos = q24_cosine(1000.0);
    let c = lowpass_coefficient(cos) as i128;
    let one = COEF_ONE as i128;
    let input = [10000i16, -20000, 5, 32767];
    let mut signal = input;
    let mut delay = 3i16;
    lowpass(&mut signal, cos, &mut delay);
    let mut d = 3i128;
    for k in 0..input.len() {
        let acc = input[k] as i128 * (one + c) - d * c;
        let y = if acc >= 0 { acc / one } else { -((-acc) / one) };
        assert_eq!(signal[k] as i128, y);
        d = y;
    }
    assert_eq!(delay as i128, d);
}

#[test]
fn filter_delay_carries_across_calls() {
    let cos = q24_cosine(3000.0);
    let input = [100i16, 9000, -4000, 32000, -32000, 7];
    let mut whole = input;
    let mut delay = 0i16;
    highpass(&mut whole, cos, &mut delay);
    let mut parts = input;
    let mut delay2 = 0i16;
    let (a, b) = parts.split_at_mut(2);
    highpass(a, cos, &mut delay2);
    highpass(b, cos, &mut delay2);
    assert_eq!(whole, parts);
    assert_eq!(delay, delay2);
}

#[test]
fn passthrough_matches_standalone_oscillator() {
    let table = saw_table();
    let mut osc = Oscillator::create(200_000, &table);
    let mut delay = 0i16;
    let out = synthesize(&mut osc, 200_000, FilterKind::Passthrough, 0, 44100, &mut delay);
    assert_eq!(out.len(), 44100);
    assert_eq!(delay, 0);
    let mut alone = Oscillator::create(200_000, &table);
    for k in 0..44100 {
        assert_eq!(out[k], alone.tick(200_000));
    }
    assert_eq!(osc.phase(), alone.phase());
}

#[test]
fn lowpass_output_differs_and_follows_recursion() {
    let table = saw_table();
    let cos = q24_cosine(1000.0);
    let mut raw_osc = Oscillator::create(200_000, &table);
    let mut d = 0i16;
    let raw = synthesize(&mut raw_osc, 200_000, FilterKind::Passthrough, cos, 44100, &mut d);
    let mut osc = Oscillator::create(200_000, &table);
    let mut delay = 0i16;
    let out = synthesize(&mut osc, 200_000, FilterKind::Lowpass, cos, 44100, &mut delay);
    assert_eq!(out.len(), 44100);
    assert_ne!(out, raw);
    let c = lowpass_coefficient(cos) as i128;
    let one = COEF_ONE as i128;
    let first = raw[0] as i128 * (one + c) / one;
    assert_eq!(out[0] as i128, first);
    let mut whole = raw.clone();
    let mut d2 = 0i16;
    lowpass(&mut whole, cos, &mut d2);
    assert_eq!(out, whole);
    assert_eq!(delay, d2);
}

#[test]
fn highpass_synthesis_matches_buffer_filter() {
    let table = saw_table();
    let cos = q24_cosine(500.0);
    let mut osc = Oscillator::create(440_000, &table);
    let mut delay = 0i16;
    let out = synthesize(&mut osc, 440_000, FilterKind::Highpass, cos, 1000, &mut delay);
    let mut raw_osc = Oscillator::create(440_000, &table);
    let mut whole: Vec<i16> = (0..1000).map(|_| raw_osc.tick(440_000)).collect();
    let mut d2 = 0i16;
    highpass(&mut whole, cos, &mut d2);
    assert_eq!(out, whole);
    assert_eq!(delay, d2);
}

#[test]
fn synthesis_of_zero_samples_leaves_state() {
    let table = saw_table();
    let mut osc = Oscillator::create(100_000, &table);
    let mut delay = 5i16;
    let out = synthesize(&mut osc, 900_000, FilterKind::Lowpass, COEF_ONE, 0, &mut delay);
    assert!(out.is_empty());
    assert_eq!(delay, 5);
    assert_eq!(osc.frequency(), 100_000);
    assert_eq!(osc.phase(), 0);
}

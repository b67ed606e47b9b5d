//! Sample-by-sample synthesis: oscillator, then an optional filter.
use vstd::prelude::*;
use crate::filter::{
    filter_sample,
    highpass_coef,
    highpass_coefficient,
    highpass_gain,
    last_or,
    lowpass_coef,
    lowpass_coefficient,
    lowpass_gain,
    run_filter,
    COEF_ONE,
};
use crate::oscillator::{
    index_after,
    lemma_index_sequence_periodic,
    lemma_phase_after_step,
    phase_after,
    Oscillator,
    UNITS_PER_SLOT,
};
use vstd::arithmetic::div_mod::lemma_small_mod;

verus! {

/// Which filter follows the oscillator.
#[derive(Clone, Copy, Debug)]
pub enum FilterKind {
    Lowpass,
    Highpass,
    Passthrough,
}

/// The samples that `count` ticks of an oscillator return: tick `k` reads the
/// table at the phase reached after `k` increments of `inc` from `phase0`.
pub open spec fn oscillator_run(table: Seq<i16>, phase0: int, inc: int, count: int) -> Seq<i16> {
    Seq::new(
        count as nat,
        |k: int| table[index_after(phase0, inc, table.len() * (UNITS_PER_SLOT as int), k)],
    )
}

/// The output of the chosen filter over `raw`, starting from delay `d0`.
pub open spec fn filtered(kind: FilterKind, cos_omega: int, raw: Seq<i16>, d0: int) -> Seq<i16> {
    match kind {
        FilterKind::Lowpass => run_filter(raw, lowpass_gain(cos_omega), lowpass_coef(cos_omega), d0),
        FilterKind::Highpass => run_filter(
            raw,
            highpass_gain(cos_omega),
            highpass_coef(cos_omega),
            d0,
        ),
        FilterKind::Passthrough => raw,
    }
}

/// The filter's delay after producing `out` from delay `d0`: the passthrough
/// leaves it alone, the filters keep their last output.
pub open spec fn delay_after(kind: FilterKind, out: Seq<i16>, d0: int) -> int {
    match kind {
        FilterKind::Passthrough => d0,
        _ => last_or(out, d0),
    }
}

/// Produces `count` samples: for each, ticks `osc` at `frequency`
/// millihertz and passes the sample through the filter `kind`, tuned by the
/// Q24 cosine `cos_omega`, carrying `delay` from sample to sample.
pub fn synthesize(
    osc: &mut Oscillator,
    frequency: i32,
    kind: FilterKind,
    cos_omega: i64,
    count: usize,
    delay: &mut i16,
) -> (out: Vec<i16>)
    requires
        old(osc).wf(),
    ensures
        final(osc).wf(),
        final(osc).table() == old(osc).table(),
        final(osc).frequency_mhz() == (if count == 0 {
            old(osc).frequency_mhz()
        } else {
            frequency as int
        }),
        final(osc).phase_units() == phase_after(
            old(osc).phase_units(),
            old(osc).table().len() * frequency,
            old(osc).modulus(),
            count as int,
        ),
        out@ == filtered(
            kind,
            cos_omega as int,
            oscillator_run(
                old(osc).table(),
                old(osc).phase_units(),
                old(osc).table().len() * frequency,
                count as int,
            ),
            *old(delay) as int,
        ),
        *final(delay) as int == delay_after(kind, out@, *old(delay) as int),
{
    let ghost table = osc.table();
    let ghost phase0 = osc.phase_units();
    let ghost inc = table.len() * frequency;
    let ghost m = osc.modulus();
    let ghost d0 = *delay as int;
    let ghost raw = oscillator_run(table, phase0, inc, count as int);
    let (gain, coef): (i64, i64) = match kind {
        FilterKind::Lowpass => {
            let c = lowpass_coefficient(cos_omega);
            (COEF_ONE + c, c)
        },
        FilterKind::Highpass => {
            let c = highpass_coefficient(cos_omega);
            (COEF_ONE - c, c)
        },
        FilterKind::Passthrough => (COEF_ONE, 0),
    };
    proof {
        osc.lemma_phase_in_period();
        lemma_small_mod(phase0 as nat, m as nat);
        assert(phase0 + 0 * inc == phase0);
    }
    let mut out: Vec<i16> = Vec::new();
    let mut i: usize = 0;
    while i < count
        invariant
            0 <= i <= count,
            m > 0,
            inc == table.len() * frequency,
            osc.wf(),
            osc.table() == table,
            osc.modulus() == m,
            m == table.len() * (UNITS_PER_SLOT as int),
            i > 0 ==> osc.frequency_mhz() == frequency,
            i == 0 ==> osc.frequency_mhz() == old(osc).frequency_mhz(),
            osc.phase_units() == phase_after(phase0, inc, m, i as int),
            raw == oscillator_run(table, phase0, inc, count as int),
            kind is Lowpass ==> gain == lowpass_gain(cos_omega as int) && coef == lowpass_coef(
                cos_omega as int,
            ),
            kind is Highpass ==> gain == highpass_gain(cos_omega as int) && coef == highpass_coef(
                cos_omega as int,
            ),
            out@ == filtered(kind, cos_omega as int, raw.subrange(0, i as int), d0),
            *delay as int == delay_after(kind, out@, d0),
        decreases count - i,
    {
        let s: i16 = osc.tick(frequency);
        proof {
            lemma_phase_after_step(phase0, inc, m, i as int);
        }
        let ghost prev = phase_after(phase0, inc, m, i as int);
        assert(prev + 1 * inc == prev + inc);
        assert(s == raw[i as int]);
        let ghost prefix = raw.subrange(0, i as int);
        assert(raw.subrange(0, i + 1).drop_last() == prefix);
        assert(raw.subrange(0, i + 1).last() == s);
        match kind {
            FilterKind::Passthrough => {
                out.push(s);
                assert(raw.subrange(0, i + 1) == prefix.push(s));
            },
            _ => {
                let y: i16 = filter_sample(s, *delay, gain, coef);
                out.push(y);
                *delay = y;
            },
        }
        i = i + 1;
    }
    assert(raw.subrange(0, count as int) == raw);
    out
}

/// At a constant frequency the oscillator's samples repeat: whenever
/// `period` ticks advance the phase by a whole number of table periods,
/// sample `k + period` equals sample `k`.
pub proof fn lemma_oscillator_run_periodic(
    table: Seq<i16>,
    phase0: int,
    inc: int,
    count: int,
    period: int,
    k: int,
)
    requires
        table.len() > 0,
        (period * inc) % (table.len() * (UNITS_PER_SLOT as int)) == 0,
        0 <= k,
        0 <= period,
        k + period < count,
    ensures
        oscillator_run(table, phase0, inc, count)[k + period] == oscillator_run(
            table,
            phase0,
            inc,
            count,
        )[k],
{
    let m = table.len() * (UNITS_PER_SLOT as int);
    assert(m > 0) by (nonlinear_arith)
        requires m == table.len() * 44100000, table.len() > 0;
    lemma_index_sequence_periodic(phase0, inc, m, period, k);
    assert(oscillator_run(table, phase0, inc, count)[k] == table[index_after(phase0, inc, m, k)]);
    assert(oscillator_run(table, phase0, inc, count)[k + period] == table[index_after(
        phase0,
        inc,
        m,
        k + period,
    )]);
}

} // verus!

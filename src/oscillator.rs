//! Table-lookup oscillator with an exact phase accumulator.
//!
//! The phase is kept as a whole number of phase units, `UNITS_PER_SLOT` of
//! them to one wavetable entry, and frequencies are given in millihertz. One
//! tick at frequency `f` advances the phase by `len * f` units, which is
//! exactly `len * f / SAMPLE_RATE` table entries, so no rounding error ever
//! accumulates in the phase.
use vstd::prelude::*;
use vstd::arithmetic::div_mod::{
    lemma_add_mod_noop,
    lemma_mod_multiples_vanish,
    lemma_small_mod,
};

verus! {

/// Sampling rate of the generated signal, in hertz.
pub const SAMPLE_RATE: u32 = 44100;

/// Length of the wavetable that the tool synthesises from.
pub const WAVETABLE_LENGTH: usize = 128;

/// Phase units per wavetable entry: the sampling rate in millihertz.
pub const UNITS_PER_SLOT: u64 = 44100000;

/// Phase, in units, after `k` ticks at a constant increment `inc`, starting
/// from phase `phase0`, on a table whose period spans `m` units.
pub open spec fn phase_after(phase0: int, inc: int, m: int, k: int) -> int {
    (phase0 + k * inc) % m
}

/// Table index that the tick number `k` (counting from zero) looks up, when
/// the oscillator starts at phase `phase0` and advances by `inc` units per tick.
pub open spec fn index_after(phase0: int, inc: int, m: int, k: int) -> int {
    phase_after(phase0, inc, m, k) / (UNITS_PER_SLOT as int)
}

/// A table-lookup oscillator that reads a shared, read-only wavetable.
pub struct Oscillator<'a> {
    /// Current phase, in phase units.
    phase: u128,
    /// Current frequency, in millihertz.
    frequency: i32,
    /// Phase increment per tick, in phase units.
    phase_increment: i128,
    /// Table length over sampling rate: phase units per tick per millihertz.
    size_over_srate: i128,
    wavetable: &'a [i16],
}

impl<'a> Oscillator<'a> {
    /// Current phase in phase units.
    pub closed spec fn phase_units(&self) -> int {
        self.phase as int
    }

    /// Current frequency in millihertz.
    pub closed spec fn frequency_mhz(&self) -> int {
        self.frequency as int
    }

    /// Current phase increment in phase units per tick.
    pub closed spec fn increment(&self) -> int {
        self.phase_increment as int
    }

    /// The wavetable read by the oscillator.
    pub closed spec fn table(&self) -> Seq<i16> {
        self.wavetable@
    }

    /// Number of phase units in one full period of the table.
    pub open spec fn modulus(&self) -> int {
        self.table().len() * (UNITS_PER_SLOT as int)
    }

    /// The increment belongs to the frequency, and the phase lies inside one
    /// period of a non-empty table.
    pub closed spec fn wf(&self) -> bool {
        &&& self.wavetable@.len() > 0
        &&& self.size_over_srate == self.wavetable@.len()
        &&& self.phase_increment == self.size_over_srate * self.frequency
        &&& self.phase < self.wavetable@.len() * (UNITS_PER_SLOT as int)
    }

    /// Creates an oscillator at phase zero sounding `frequency` millihertz.
    pub fn create(frequency: i32, wavetable: &'a [i16]) -> (r: Oscillator<'a>)
        requires
            wavetable@.len() > 0,
        ensures
            r.wf(),
            r.phase_units() == 0,
            r.frequency_mhz() == frequency,
            r.increment() == wavetable@.len() * frequency,
            r.table() == wavetable@,
    {
        let size_over_srate: i128 = wavetable.len() as i128;
        proof {
            assert(wavetable@.len() * (UNITS_PER_SLOT as int) > 0) by (nonlinear_arith)
                requires wavetable@.len() > 0;
            let n: int = wavetable@.len() as int;
            assert(-0x8000_0000 * 0x1_0000_0000_0000_0000 <= n * frequency
                <= 0x8000_0000 * 0x1_0000_0000_0000_0000) by (nonlinear_arith)
                requires 0 < n <= 0xffff_ffff_ffff_ffff, -0x8000_0000 <= frequency < 0x8000_0000;
        }
        Oscillator {
            phase: 0,
            frequency,
            size_over_srate,
            phase_increment: size_over_srate * (frequency as i128),
            wavetable,
        }
    }

    /// A well-formed oscillator has a non-empty table and its phase lies
    /// inside one period of it.
    pub proof fn lemma_phase_in_period(&self)
        requires
            self.wf(),
        ensures
            self.table().len() > 0,
            0 <= self.phase_units() < self.modulus(),
    {
    }

    /// Current phase in phase units.
    pub fn phase(&self) -> (r: u128)
        ensures
            r == self.phase_units(),
    {
        self.phase
    }

    /// Current frequency in millihertz.
    pub fn frequency(&self) -> (r: i32)
        ensures
            r == self.frequency_mhz(),
    {
        self.frequency
    }

    /// Emits one sample: the table entry under the current phase, truncated
    /// to an index. Then retunes to `freq` millihertz and advances the phase
    /// by one increment, wrapped back into one period of the table.
    pub fn tick(&mut self, freq: i32) -> (r: i16)
        requires
            old(self).wf(),
        ensures
            final(self).wf(),
            final(self).table() == old(self).table(),
            final(self).frequency_mhz() == freq,
            final(self).increment() == old(self).table().len() * freq,
            0 <= final(self).phase_units() < final(self).modulus(),
            final(self).phase_units() == phase_after(
                old(self).phase_units(),
                old(self).table().len() * freq,
                old(self).modulus(),
                1,
            ),
            r == old(self).table()[old(self).phase_units() / (UNITS_PER_SLOT as int)],
    {
        let len: usize = self.wavetable.len();
        proof {
            assert(len * (UNITS_PER_SLOT as int) <= 0x1_0000_0000_0000_0000 * 44100000)
                by (nonlinear_arith)
                requires len <= 0xffff_ffff_ffff_ffff;
            let p: int = self.phase as int;
            assert(p / 44100000 < len) by (nonlinear_arith)
                requires p < len * 44100000, p >= 0;
        }
        let index: usize = (self.phase / (UNITS_PER_SLOT as u128)) as usize;
        if self.frequency != freq {
            self.frequency = freq;
            proof {
                assert(-0x8000_0000 * 0x1_0000_0000_0000_0000 <= len * freq
                    <= 0x8000_0000 * 0x1_0000_0000_0000_0000) by (nonlinear_arith)
                    requires 0 < len <= 0xffff_ffff_ffff_ffff, -0x8000_0000 <= freq < 0x8000_0000;
            }
            self.phase_increment = self.size_over_srate * (self.frequency as i128);
        }
        let m: i128 = (len as i128) * (UNITS_PER_SLOT as i128);
        let ghost sum: int = self.phase + self.phase_increment;
        proof {
            assert(-0x8000_0000 * 0x1_0000_0000_0000_0000 <= len * freq
                <= 0x8000_0000 * 0x1_0000_0000_0000_0000) by (nonlinear_arith)
                requires 0 < len <= 0xffff_ffff_ffff_ffff, -0x8000_0000 <= freq < 0x8000_0000;
            assert(m > 0) by (nonlinear_arith)
                requires m == len * 44100000, len > 0;
        }
        let mut current_phase: i128 = (self.phase as i128) + self.phase_increment;
        while current_phase >= m
            invariant
                m > 0,
                m <= 0x1_0000_0000_0000_0000 * 44100000,
                current_phase <= sum,
                current_phase as int % m as int == sum % (m as int),
            decreases current_phase,
        {
            proof {
                lemma_mod_multiples_vanish(-1, current_phase as int, m as int);
            }
            current_phase = current_phase - m;
        }
        while current_phase < 0
            invariant
                m > 0,
                m <= 0x1_0000_0000_0000_0000 * 44100000,
                current_phase < m,
                current_phase as int % m as int == sum % (m as int),
            decreases m - current_phase,
        {
            proof {
                lemma_mod_multiples_vanish(1, current_phase as int, m as int);
            }
            current_phase = current_phase + m;
        }
        proof {
            lemma_small_mod(current_phase as nat, m as nat);
        }
        self.phase = current_phase as u128;
        self.wavetable[index]
    }
}

/// Ticking at a constant frequency repeats the same table indices: whenever
/// `period` ticks advance the phase by a whole number of table periods, the
/// index looked up at tick `k + period` equals the one at tick `k`.
pub proof fn lemma_index_sequence_periodic(phase0: int, inc: int, m: int, period: int, k: int)
    requires
        m > 0,
        (period * inc) % m == 0,
    ensures
        phase_after(phase0, inc, m, k + period) == phase_after(phase0, inc, m, k),
        index_after(phase0, inc, m, k + period) == index_after(phase0, inc, m, k),
{
    let x = phase0 + k * inc;
    let y = period * inc;
    assert(phase0 + (k + period) * inc == x + y) by (nonlinear_arith)
        requires x == phase0 + k * inc, y == period * inc;
    lemma_add_mod_noop(x, y, m);
    lemma_small_mod((x % m) as nat, m as nat);
}

/// One more tick advances `phase_after` by one increment, wrapped.
pub proof fn lemma_phase_after_step(phase0: int, inc: int, m: int, k: int)
    requires
        m > 0,
    ensures
        (phase_after(phase0, inc, m, k) + inc) % m == phase_after(phase0, inc, m, k + 1),
        0 <= phase_after(phase0, inc, m, k) < m,
{
    let x = phase0 + k * inc;
    assert(phase0 + (k + 1) * inc == x + inc) by (nonlinear_arith)
        requires x == phase0 + k * inc;
    lemma_add_mod_noop(x, inc, m);
    lemma_add_mod_noop(x % m, inc, m);
    lemma_small_mod((x % m) as nat, m as nat);
}

} // verus!

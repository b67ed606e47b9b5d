//! Sample conversion and sawtooth wavetable generation.
use vstd::prelude::*;
use vstd::arithmetic::div_mod::{lemma_div_is_ordered, lemma_div_pos_is_pos, lemma_fundamental_div_mod};
use vstd::arithmetic::mul::lemma_mul_inequality;

verus! {

/// Largest positive 16-bit sample.
pub const SAMPLE_MAX: i16 = 32767;

/// Smallest (most negative) 16-bit sample.
pub const SAMPLE_MIN: i16 = -32768;

/// The 16-bit sample for the value `num / den` in [-1, 1]: positive values
/// are scaled by the largest positive sample, the others by the magnitude of
/// the most negative one, and the product is truncated toward zero.
pub open spec fn fraction_sample(num: int, den: int) -> int {
    if num > 0 {
        (num * 32767) / den
    } else {
        -(((-num) * 32768) / den)
    }
}

/// Entry `i` of a sawtooth table of length `n`: the value `1 - 2 i / n`.
pub open spec fn saw_entry(n: int, i: int) -> int {
    fraction_sample(n - 2 * i, n)
}

/// Converts the value `num / den`, which lies in [-1, 1], to a 16-bit sample.
pub fn fraction_to_i16(num: i128, den: u64) -> (r: i16)
    requires
        den > 0,
        -(den as int) <= num <= den as int,
    ensures
        r as int == fraction_sample(num as int, den as int),
{
    if num > 0 {
        let p: i128 = num * 32767;
        proof {
            lemma_mul_inequality(num as int, den as int, 32767);
            lemma_div_is_ordered(num * 32767, den * 32767, den as int);
            assert((den * 32767) / (den as int) == 32767) by (nonlinear_arith)
                requires den > 0;
            lemma_div_pos_is_pos(num * 32767, den as int);
        }
        (p / (den as i128)) as i16
    } else {
        let p: i128 = (-num) * 32768;
        proof {
            lemma_mul_inequality(-num, den as int, 32768);
            lemma_div_is_ordered((-num) * 32768, den * 32768, den as int);
            assert((den * 32768) / (den as int) == 32768) by (nonlinear_arith)
                requires den > 0;
            lemma_div_pos_is_pos((-num) * 32768, den as int);
        }
        let q: i128 = p / (den as i128);
        (-q) as i16
    }
}

/// Fills `table` with one period of a descending sawtooth: entry `i` becomes
/// the sample for `1 - 2 i / n`, where `n` is the table's length.
pub fn fill_saw_table(table: &mut [i16])
    ensures
        final(table)@.len() == old(table)@.len(),
        forall|i: int|
            0 <= i < final(table)@.len() ==> #[trigger] final(table)@[i] as int == saw_entry(
                final(table)@.len() as int,
                i,
            ),
{
    let n: usize = table.len();
    let mut i: usize = 0;
    while i < n
        invariant
            table@.len() == n,
            0 <= i <= n,
            forall|k: int| 0 <= k < i ==> #[trigger] table@[k] as int == saw_entry(n as int, k),
        decreases n - i,
    {
        let num: i128 = n as i128 - 2 * (i as i128);
        table[i] = fraction_to_i16(num, n as u64);
        i = i + 1;
    }
}

/// Shape of a sawtooth table of length `n`: its first entry is the largest
/// positive sample, entries never increase along the table, and the last
/// entry lies within one table step (`65536 / n`, rounded up by one) of the
/// most negative sample.
pub proof fn lemma_saw_table_shape(n: int, i: int, j: int)
    requires
        1 <= n,
        0 <= i <= j < n,
    ensures
        saw_entry(n, 0) == SAMPLE_MAX,
        saw_entry(n, j) <= saw_entry(n, i),
        SAMPLE_MIN <= saw_entry(n, n - 1),
        n * (saw_entry(n, n - 1) + 32768) < 65536 + n,
{
    assert((n * 32767) / n == 32767) by (nonlinear_arith)
        requires n >= 1;
    let a = n - 2 * i;
    let b = n - 2 * j;
    if b > 0 {
        lemma_mul_inequality(b, a, 32767);
        lemma_div_is_ordered(b * 32767, a * 32767, n);
    } else if a <= 0 {
        lemma_mul_inequality(-a, -b, 32768);
        lemma_div_is_ordered((-a) * 32768, (-b) * 32768, n);
    } else {
        lemma_div_pos_is_pos(a * 32767, n);
        lemma_div_pos_is_pos((-b) * 32768, n);
    }
    if n >= 3 {
        let p = (n - 2) * 32768;
        let q = p / n;
        lemma_fundamental_div_mod(p, n);
        assert(0 <= p % n < n);
        assert(q * n > p - n) by (nonlinear_arith)
            requires p == n * q + p % n, p % n < n;
        lemma_div_is_ordered(p, n * 32768, n);
        assert((n * 32768) / n == 32768) by (nonlinear_arith)
            requires n >= 1;
        assert(saw_entry(n, n - 1) == -q);
        assert(n * (-q + 32768) < 65536 + n) by (nonlinear_arith)
            requires q * n > p - n, p == (n - 2) * 32768;
    } else if n == 2 {
        assert(saw_entry(n, n - 1) == 0);
    } else {
        assert(saw_entry(n, n - 1) == 32767);
    }
}

} // verus!

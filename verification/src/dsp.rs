//! The parts of the signal processing that move samples about without computing with them.

use vstd::arithmetic::power2::{lemma_pow2_pos, lemma_pow2_unfold, pow2};
use vstd::prelude::*;

use crate::float_bits::{Float32, Real};

verus! {

/// The samples without their signs.
pub open spec fn without_signs(signal: Seq<Float32>) -> Seq<Float32> {
    signal.map_values(|x: Float32| Float32 { bits: x.bits % crate::float_bits::SIGN_32 })
}

/// The absolute values of the samples.
pub fn rectified(signal: &Vec<Float32>) -> (r: Vec<Float32>)
    ensures
        r@ == without_signs(signal@),
        forall|i: int|
            0 <= i < signal.len() ==> {
                &&& (#[trigger] r[i]).nan() == signal[i].nan()
                &&& r[i].value() == (if signal[i].value() < 0 {
                    -signal[i].value()
                } else {
                    signal[i].value()
                })
            },
{
    let mut r: Vec<Float32> = Vec::new();
    let mut i: usize = 0;
    while i < signal.len()
        invariant
            i <= signal.len(),
            r.len() == i,
            forall|k: int|
                0 <= k < i ==> {
                    &&& (#[trigger] r[k]).nan() == signal[k].nan()
                    &&& r[k].bits == signal[k].bits % crate::float_bits::SIGN_32
                    &&& r[k].value() == (if signal[k].value() < 0 {
                        -signal[k].value()
                    } else {
                        signal[k].value()
                    })
                },
        decreases signal.len() - i,
    {
        r.push(signal[i].abs());
        i += 1;
    }
    proof {
        assert(r@ =~= without_signs(signal@));
    }
    r
}

/// How many multiples of `step` there are from zero up to below `len`.
pub open spec fn decimated_len(len: int, step: int) -> int {
    (len + step - 1) / step
}

/// `r` are the samples of `signal` at the multiples of `step`.
pub open spec fn is_decimated(signal: Seq<Float32>, step: int, r: Seq<Float32>) -> bool {
    &&& r.len() == decimated_len(signal.len() as int, step)
    &&& forall|j: int| 0 <= j < r.len() ==> #[trigger] r[j] == signal[j * step]
    &&& forall|j: int| 0 <= j < r.len() ==> 0 <= #[trigger] (j * step) < signal.len()
}

/// Every so manieth sample, from the first on, so that about `target_rate` per second are left;
/// nothing where the signal has fewer than that.
pub fn decimated(signal: &Vec<Float32>, sample_rate: u32, target_rate: u32) -> (r: Vec<Float32>)
    requires
        target_rate > 0,
    ensures
        sample_rate < target_rate ==> r.len() == 0,
        sample_rate >= target_rate ==> is_decimated(
            signal@,
            sample_rate as int / target_rate as int,
            r@,
        ),
{
    let step: usize = (sample_rate / target_rate) as usize;
    let mut r: Vec<Float32> = Vec::new();
    if step == 0 {
        proof {
            assert(sample_rate < target_rate) by (nonlinear_arith)
                requires
                    sample_rate / target_rate == 0,
                    target_rate > 0,
            ;
        }
        return r;
    }
    proof {
        assert(sample_rate >= target_rate) by (nonlinear_arith)
            requires
                sample_rate / target_rate > 0,
                target_rate > 0,
        ;
    }
    let ghost d = step as int;
    let mut i: usize = 0;
    assert(decimated_len(0, d) == 0) by (nonlinear_arith)
        requires
            d > 0,
            decimated_len(0, d) == (0 + d - 1) / d,
    ;
    while i < signal.len()
        invariant
            i <= signal.len(),
            step > 0,
            d == step,
            r.len() == decimated_len(i as int, d),
            forall|j: int| 0 <= j < r.len() ==> #[trigger] r[j] == signal[j * d],
            forall|j: int| 0 <= j < r.len() ==> 0 <= #[trigger] (j * d) < i,
        decreases signal.len() - i,
    {
        let ghost n = r.len() as int;
        proof {
            lemma_decimated_len(i as int, d);
        }
        if i % step == 0 {
            proof {
                assert(n * d == i);
            }
            r.push(signal[i]);
        }
        i += 1;
    }
    r
}

/// A decimation has a sample for each multiple of the step that lies within the signal, and no
/// other: the last of them lies within it, and the next would not.
pub proof fn law_decimation_reaches_the_end(signal: Seq<Float32>, step: int, r: Seq<Float32>)
    requires
        step > 0,
        is_decimated(signal, step, r),
    ensures
        r.len() * step >= signal.len(),
        r.len() > 0 ==> (r.len() - 1) * step < signal.len(),
        forall|j: int| 0 <= j < r.len() ==> #[trigger] r[j] == signal[j * step],
{
    let (n, d) = (signal.len() as int, step);
    let m = (n + d - 1) / d;
    assert(m * d >= n && (m > 0 ==> (m - 1) * d < n)) by (nonlinear_arith)
        requires
            d > 0,
            n >= 0,
            m == (n + d - 1) / d,
    ;
}

/// Without its sign a sample keeps its size, and is not negative.
pub proof fn law_without_signs_keeps_sizes(signal: Seq<Float32>, i: int)
    requires
        0 <= i < signal.len(),
    ensures
        without_signs(signal).len() == signal.len(),
        without_signs(signal)[i].bits == signal[i].bits || without_signs(signal)[i].bits
            + 0x8000_0000 == signal[i].bits,
        without_signs(signal)[i].bits < 0x8000_0000,
{
}

/// What follows a signal adds to its decimation and changes nothing in it.
pub proof fn law_decimation_of_a_longer_signal(
    signal: Seq<Float32>,
    more: Seq<Float32>,
    step: int,
    short: Seq<Float32>,
    long: Seq<Float32>,
)
    requires
        step > 0,
        is_decimated(signal, step, short),
        is_decimated(signal + more, step, long),
    ensures
        short.len() <= long.len(),
        long.take(short.len() as int) == short,
{
    let (n, m) = (signal.len() as int, (signal + more).len() as int);
    assert((n + step - 1) / step <= (m + step - 1) / step) by (nonlinear_arith)
        requires
            n <= m,
            step > 0,
    ;
    assert forall|j: int| 0 <= j < short.len() implies long[j] == short[j] by {
        assert(0 <= j * step < signal.len());
        assert(short[j] == signal[j * step]);
        assert(long[j] == (signal + more)[j * step]);
    }
    assert(long.take(short.len() as int) =~= short);
}

/// One more sample makes for one more multiple exactly where it is one.
proof fn lemma_decimated_len(len: int, step: int)
    requires
        step > 0,
        len >= 0,
    ensures
        decimated_len(len + 1, step) == decimated_len(len, step) + (if len % step == 0 {
            1int
        } else {
            0int
        }),
        len % step == 0 ==> decimated_len(len, step) * step == len,
{
    let q = len / step;
    let m = len % step;
    assert(len == q * step + m && 0 <= m < step) by (nonlinear_arith)
        requires
            step > 0,
            q == len / step,
            m == len % step,
    ;
    assert(decimated_len(len + 1, step) == q + 1) by (nonlinear_arith)
        requires
            step > 0,
            len == q * step + m,
            0 <= m < step,
            decimated_len(len + 1, step) == (len + 1 + step - 1) / step,
    ;
    if m == 0 {
        assert(decimated_len(len, step) == q) by (nonlinear_arith)
            requires
                step > 0,
                len == q * step,
                decimated_len(len, step) == (len + step - 1) / step,
        ;
    } else {
        assert(decimated_len(len, step) == q + 1) by (nonlinear_arith)
            requires
                step > 0,
                len == q * step + m,
                0 < m < step,
                decimated_len(len, step) == (len + step - 1) / step,
        ;
    }
}

/// `n` is the smallest power of two that is not below `len`.
pub open spec fn is_next_power_of_two(n: int, len: int) -> bool {
    &&& n >= len
    &&& exists|k: nat| n == #[trigger] pow2(k)
    &&& forall|k: nat| #[trigger] pow2(k) >= len ==> n <= pow2(k)
}

/// The next power of two is not below the length, but its half is; it is one where the length is,
/// and otherwise twice a power of two.
pub proof fn law_next_power_of_two_is_near(n: int, len: int)
    requires
        is_next_power_of_two(n, len),
        len >= 1,
    ensures
        n >= len,
        n < 2 * len,
        len == 1 ==> n == 1,
        n == 1 || exists|k: nat| n == 2 * #[trigger] pow2(k),
{
    let k = choose|k: nat| n == #[trigger] pow2(k);
    vstd::arithmetic::power2::lemma2_to64();
    assert(pow2(0) == 1);
    if k > 0 {
        lemma_pow2_unfold(k);
        let half = pow2((k - 1) as nat);
        assert(n == 2 * half);
        lemma_pow2_pos((k - 1) as nat);
        assert(half < len);
    }
}

/// The length of the transforms that correlate a capture with a template: a power of two with
/// room for both.
pub fn transform_len(capture_len: usize, template_len: usize) -> (n: usize)
    requires
        0 < capture_len + template_len,
        capture_len + template_len - 1 <= usize::MAX / 2,
    ensures
        is_next_power_of_two(n as int, capture_len + template_len - 1),
{
    let len: usize = if capture_len > 0 {
        capture_len - 1 + template_len
    } else {
        template_len - 1
    };
    let mut n: usize = 1;
    let ghost mut k: nat = 0;
    proof {
        vstd::arithmetic::power2::lemma2_to64();
        assert forall|j: nat| #[trigger] pow2(j) >= len implies 1 <= pow2(j) by {
            lemma_pow2_pos(j);
        }
    }
    while n < len
        invariant
            n == pow2(k),
            n >= 1,
            len <= usize::MAX / 2,
            forall|j: nat| #[trigger] pow2(j) >= len ==> n <= pow2(j),
        decreases usize::MAX - n,
    {
        proof {
            lemma_pow2_unfold(k + 1);
            assert forall|j: nat| #[trigger] pow2(j) >= len implies 2 * n <= pow2(j) by {
                if j <= k {
                    if j < k {
                        vstd::arithmetic::power2::lemma_pow2_strictly_increases(j, k);
                    }
                } else if j > k + 1 {
                    vstd::arithmetic::power2::lemma_pow2_strictly_increases(k + 1, j);
                }
            }
            k = k + 1;
        }
        n = n * 2;
    }
    proof {
        assert(n == pow2(k));
    }
    n
}

/// `values` with zeros behind them up to `len`.
pub fn zero_padded(values: &Vec<Float32>, len: usize) -> (r: Vec<Float32>)
    requires
        values.len() <= len,
    ensures
        r@ == values@ + Seq::new((len - values.len()) as nat, |i: int| Float32 { bits: 0 }),
{
    let mut r: Vec<Float32> = Vec::new();
    let mut i: usize = 0;
    while i < len
        invariant
            i <= len,
            values.len() <= len,
            r.len() == i,
            forall|k: int|
                0 <= k < i ==> #[trigger] r[k] == (if k < values.len() {
                    values[k]
                } else {
                    Float32 { bits: 0 }
                }),
        decreases len - i,
    {
        if i < values.len() {
            r.push(values[i]);
        } else {
            r.push(Float32::zero());
        }
        i += 1;
    }
    proof {
        assert(r@ =~= values@ + Seq::new(
            (len - values.len()) as nat,
            |i: int| Float32 { bits: 0 },
        ));
    }
    r
}

} // verus!

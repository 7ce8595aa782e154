//! Figures about the running process.

use vstd::prelude::*;
use vstd::string::StringExecFns;

use std::time::Instant;

use crate::clock::{may_lie_back, nanos_since};
use crate::text::{decimal, decimal_string};

verus! {

/// The integer nearest to a quotient; of two that are equally near, the even one.
pub open spec fn half_even(n: nat, d: nat) -> nat {
    let q = n / d;
    let r = n % d;
    if 2 * r < d || (2 * r == d && q % 2 == 0) {
        q
    } else {
        q + 1
    }
}

/// The distance between neighbouring double-precision numbers about a number.
pub open spec fn double_step(n: nat) -> nat
    decreases n,
{
    if n < 0x20_0000_0000_0000 {
        1
    } else {
        2 * double_step(n / 2)
    }
}

/// The double-precision number nearest to a number.
pub open spec fn as_double(n: nat) -> nat {
    half_even(n, double_step(n)) * double_step(n)
}

/// The bytes of a mebibyte.
pub const MEBIBYTE: u128 = 1_048_576;

/// A number of bytes in tenths of mebibytes.
pub open spec fn tenths(bytes: nat) -> nat {
    half_even(as_double(bytes) * 10, MEBIBYTE as nat)
}

/// A number of bytes as it is shown: in mebibytes, with one decimal.
pub open spec fn memory_text(bytes: nat) -> Seq<char> {
    decimal(tenths(bytes) / 10) + "."@ + decimal(tenths(bytes) % 10) + " MB"@
}

fn round_half_even(n: u128, d: u128) -> (r: u128)
    requires
        0 < d <= MEBIBYTE,
        n < 0x1000_0000_0000_0000_0000_0000_0000,
    ensures
        r == half_even(n as nat, d as nat),
        r <= n / d + 1,
{
    let q = n / d;
    let m = n % d;
    assert(q <= n) by (nonlinear_arith)
        requires
            q == n / d,
            0 < d,
            0 <= n,
    ;
    if 2 * m < d || (2 * m == d && q % 2 == 0) {
        q
    } else {
        q + 1
    }
}

fn step_for(n: u64) -> (r: u128)
    ensures
        r == double_step(n as nat),
        1 <= r <= 2048,
{
    let mut m: u64 = n;
    let mut step: u128 = 1;
    let mut left: u128 = 11;
    assert(pow2(11) == 2048) by {
        reveal_with_fuel(pow2, 12);
    }
    while m >= 0x20_0000_0000_0000
        invariant
            1 <= step,
            left <= 11,
            step * double_step(m as nat) == double_step(n as nat),
            step * pow2(left as nat) == 2048,
            (m as int) < 0x20_0000_0000_0000 * pow2(left as nat),
        decreases m,
    {
        proof {
            reveal_with_fuel(pow2, 2);
            assert(left > 0);
            let d = double_step((m / 2) as nat);
            assert(step * (2 * d) == (step * 2) * d) by (nonlinear_arith);
            let p = pow2((left - 1) as nat);
            assert(step * (2 * p) == (step * 2) * p) by (nonlinear_arith);
            assert(pow2((left - 1) as nat) >= 1) by {
                lemma_pow2_positive((left - 1) as nat);
            }
            assert(step * 2 <= 2048) by (nonlinear_arith)
                requires
                    (step * 2) * p == 2048,
                    p >= 1,
            ;
        }
        m = m / 2;
        step = step * 2;
        left = left - 1;
    }
    proof {
        lemma_pow2_positive(left as nat);
        let p = pow2(left as nat);
        assert(step <= 2048) by (nonlinear_arith)
            requires
                step * p == 2048,
                p >= 1,
        ;
        assert(step * 1 == step);
    }
    step
}

spec fn pow2(n: nat) -> nat
    decreases n,
{
    if n == 0 {
        1
    } else {
        2 * pow2((n - 1) as nat)
    }
}

proof fn lemma_pow2_positive(n: nat)
    ensures
        pow2(n) >= 1,
    decreases n,
{
    if n > 0 {
        lemma_pow2_positive((n - 1) as nat);
    }
}

/// A number of bytes as it is shown: in mebibytes, with one decimal.
pub fn format_memory(bytes: u64) -> (r: String)
    ensures
        r@ == memory_text(bytes as nat),
{
    let step = step_for(bytes);
    let units = round_half_even(bytes as u128, step);
    assert(bytes as int / step as int <= bytes) by (nonlinear_arith)
        requires
            step >= 1,
            bytes >= 0,
    ;
    assert(units * step <= 0x1_0000_0000_0000_0000 * 2048) by (nonlinear_arith)
        requires
            0 <= units <= 0x1_0000_0000_0000_0000,
            0 <= step <= 2048,
    ;
    let double: u128 = units * step;
    let t = round_half_even(double * 10, MEBIBYTE);
    let mut r = decimal_string(t / 10);
    r.append(".");
    r.append(decimal_string(t % 10).as_str());
    r.append(" MB");
    r
}

/// The nanoseconds of a second.
pub const SECOND_NANOS: u128 = 1_000_000_000;

/// Whether it is time for the next sample, given the nanoseconds since the last.
pub fn is_sample_due(elapsed_nanos: u128) -> (r: bool)
    ensures
        r == (elapsed_nanos >= SECOND_NANOS),
{
    elapsed_nanos >= SECOND_NANOS
}

/// Whether it is time for the next sample: whether the last is a second old.
pub fn should_sample(last_sample: &Instant) -> (r: bool)
    ensures
        exists|nanos: u128|
            #[trigger] may_lie_back(*last_sample, nanos) && r == (nanos >= SECOND_NANOS),
{
    let nanos = nanos_since(last_sample);
    is_sample_due(nanos)
}

/// Keeps what the last look at the process showed.
#[derive(Debug)]
pub struct ProcessSampler {
    /// The processor time that the process had used, in units of 100 nanoseconds.
    pub previous_cpu_100ns: Option<u64>,
    /// When that was, in nanoseconds of the monotonic clock.
    pub previous_at: Option<u128>,
}

impl ProcessSampler {
    /// No look yet.
    pub fn new() -> (r: ProcessSampler)
        ensures
            r.previous_cpu_100ns is None,
            r.previous_at is None,
    {
        ProcessSampler { previous_cpu_100ns: None, previous_at: None }
    }

    /// The processor time used since the last look and the time that has passed, where
    /// both can be told; the new look is kept.
    pub fn advance(&mut self, cpu_100ns: u64, now: u128) -> (r: Option<(u64, u128)>)
        ensures
            final(self).previous_cpu_100ns == Some(cpu_100ns),
            final(self).previous_at == Some(now),
            r == match (old(self).previous_cpu_100ns, old(self).previous_at) {
                (Some(cpu), Some(at)) => if now > at && cpu_100ns >= cpu {
                    Some(((cpu_100ns - cpu) as u64, (now - at) as u128))
                } else {
                    None
                },
                _ => None,
            },
    {
        let r = match (self.previous_cpu_100ns, self.previous_at) {
            (Some(cpu), Some(at)) => {
                if now > at && cpu_100ns >= cpu {
                    Some((cpu_100ns - cpu, now - at))
                } else {
                    None
                }
            },
            _ => None,
        };
        self.previous_cpu_100ns = Some(cpu_100ns);
        self.previous_at = Some(now);
        r
    }
}

/// Rounding gives a nearest integer: it is off by no more than half of the divisor.
pub proof fn law_rounding(n: nat, d: nat)
    requires
        d > 0,
    ensures
        -(d as int) <= 2 * (half_even(n, d) * d - n) <= d,
{
    let q = n / d;
    let r = n % d;
    assert(n == q * d + r && 0 <= r < d) by (nonlinear_arith)
        requires
            d > 0,
            q == n / d,
            r == n % d,
    ;
    assert((q + 1) * d == q * d + d) by (nonlinear_arith);
}

} // verus!

use vstd::prelude::*;
use crate::time::{SimpleDuration, SimpleDurationUnit};
use rand::Rng;

verus! {

/// How long an idle task watcher is kept, in seconds.
pub fn watcher_timeout() -> (r: u64)
    ensures
        r == 10,
{
    10
}

pub open spec fn pow2(k: nat) -> nat
    decreases k,
{
    if k == 0 {
        1
    } else {
        2 * pow2((k - 1) as nat)
    }
}

/// The number of doublings of `min` needed to reach `max`: the least `k` with
/// `min * 2^k >= max`; with `min` zero, 0 when `max` is zero too and `u32::MAX`
/// otherwise.
pub open spec fn doublings(min: nat, max: nat) -> nat {
    if min == 0 {
        if max == 0 {
            0
        } else {
            u32::MAX as nat
        }
    } else {
        choose|k: nat| min * #[trigger] pow2(k) >= max && (k == 0 || min * pow2((k - 1) as nat) < max)
    }
}

/// Delays between restarts of a failing task: doubling from `min` up to `max`.
pub struct RestartCounter {
    /// Seconds.
    pub min: u64,
    /// Seconds.
    pub max: u64,
    pub max_count: u32,
    pub count: u32,
}

/// The delay before the next restart, before the random part, in seconds:
/// `min * 2^min(count, max_count)`, at most `max`.
pub open spec fn base_delay(c: RestartCounter) -> nat {
    let k = if c.count <= c.max_count {
        c.count
    } else {
        c.max_count
    };
    let d = c.min * pow2(k as nat);
    if d <= c.max {
        d as nat
    } else {
        c.max as nat
    }
}

proof fn lemma_pow2_pos(k: nat)
    ensures
        pow2(k) >= 1,
    decreases k,
{
    if k > 0 {
        lemma_pow2_pos((k - 1) as nat);
    }
}

proof fn lemma_pow2_mono(a: nat, b: nat)
    requires
        a <= b,
    ensures
        pow2(a) <= pow2(b),
    decreases b,
{
    if a < b {
        lemma_pow2_mono(a, (b - 1) as nat);
    }
}

/// `rand::Rng::random_range` on the thread-local generator `rand::rng()`: a random
/// number in `0..bound` (the range must not be empty).  Only the range is stated.
#[verifier::external_body]
pub(crate) fn random_below(bound: u64) -> (r: u64)
    requires
        bound > 0,
    ensures
        r < bound,
{
    rand::rng().random_range(0..bound)
}

/// The random part of a restart delay is drawn as one of this many steps.
pub const JITTER_STEPS: u64 = 0xffff_ffff;

/// `base` seconds plus the fraction `f / JITTER_STEPS` of `base`, as whole seconds and
/// nanoseconds (rounded down).
pub open spec fn jitter_of(base: int, f: int) -> (int, int) {
    (
        base + (base * f) / (JITTER_STEPS as int),
        ((base * f) % (JITTER_STEPS as int)) * 1_000_000_000 / (JITTER_STEPS as int),
    )
}

/// `jitter_of(base, f)`.
pub fn jitter(base: u64, f: u64) -> (r: (u64, u32))
    requires
        base <= u64::MAX / 2,
        f < JITTER_STEPS,
    ensures
        r.0 == jitter_of(base as int, f as int).0,
        r.1 == jitter_of(base as int, f as int).1,
        r.0 >= base,
        r.1 < 1_000_000_000,
        base > 0 ==> (r.0 - base) * 1_000_000_000 + r.1 < base * 1_000_000_000,
        base == 0 ==> r == (0u64, 0u32),
{
    let m: u128 = JITTER_STEPS as u128;
    proof {
        assert(base as u128 * f as u128 <= u64::MAX * 0xffff_ffff) by (nonlinear_arith)
            requires
                f < 0xffff_ffff,
                base <= u64::MAX,
        ;
    }
    let t: u128 = base as u128 * f as u128;
    let jitter_secs: u128 = t / m;
    let rem: u128 = t % m;
    let jitter_nanos: u128 = rem * 1_000_000_000 / m;
    proof {
        assert(t <= base * m) by (nonlinear_arith)
            requires
                t == base * f,
                f < m,
        ;
        assert(jitter_secs <= base) by (nonlinear_arith)
            requires
                jitter_secs == t as int / (m as int),
                t <= base * m,
                m > 0,
        ;
        assert(jitter_nanos < 1_000_000_000) by (nonlinear_arith)
            requires
                jitter_nanos == (rem * 1_000_000_000) as int / (m as int),
                rem < m,
                m > 0,
        ;
        if base > 0 {
            assert(t < base * m) by (nonlinear_arith)
                requires
                    t == base * f,
                    f < m,
                    base > 0,
            ;
            assert(jitter_secs * m + rem == t) by (nonlinear_arith)
                requires
                    jitter_secs == t as int / (m as int),
                    rem == t as int % (m as int),
                    m > 0,
            ;
            assert(jitter_secs < base) by (nonlinear_arith)
                requires
                    jitter_secs * m + rem == t,
                    t < base * m,
                    rem >= 0,
                    m > 0,
            ;
        }
        if base == 0 {
            assert(t == 0);
        }
    }
    (base + jitter_secs as u64, jitter_nanos as u32)
}

/// The next delay can be computed: the restart count does not overflow, and neither
/// does `min` doubled as often as `base_delay` asks (fewer than 32 times, with `max`
/// at most half the largest value).
pub open spec fn delay_fits(c: RestartCounter) -> bool {
    &&& c.count < u32::MAX
    &&& c.min == 0 || (c.max <= u64::MAX / 2 && (if c.count <= c.max_count {
        c.count
    } else {
        c.max_count
    }) < 32)
}

impl RestartCounter {
    /// A counter with the given bounds: `min` defaults to one minute, `max` to `min`,
    /// and `max` is raised to `min` if below it.
    pub fn new(min: Option<SimpleDuration>, max: Option<SimpleDuration>) -> (r: Self)
        requires
            min matches Some(m) ==> m.spec_secs() <= u64::MAX,
            max matches Some(m) ==> m.spec_secs() <= u64::MAX,
        ensures
            r.min == match min {
                Some(m) => m.spec_secs(),
                None => 60,
            },
            r.max == match max {
                Some(m) => if m.spec_secs() >= r.min {
                    m.spec_secs()
                } else {
                    r.min as nat
                },
                None => r.min as nat,
            },
            r.max_count == doublings(r.min as nat, r.max as nat),
            r.min > 0 ==> r.min * pow2(r.max_count as nat) >= r.max,
            r.min > 0 && r.max_count > 0 ==> r.min * pow2((r.max_count - 1) as nat) < r.max,
            r.count == 0,
    {
        let min_secs = match min {
            Some(m) => m.to_secs(),
            None => SimpleDuration { count: 1, unit: SimpleDurationUnit::Minute }.to_secs(),
        };
        let max_secs = match max {
            Some(m) => m.to_secs(),
            None => min_secs,
        };
        let max_secs = if max_secs >= min_secs {
            max_secs
        } else {
            min_secs
        };
        let max_count: u32;
        if min_secs == 0 {
            max_count = if max_secs == 0 {
                0
            } else {
                u32::MAX
            };
            proof {
                assert(max_count == doublings(min_secs as nat, max_secs as nat));
            }
        } else {
            let mut k: u32 = 0;
            let mut v: u128 = min_secs as u128;
            proof {
                assert(pow2(0) == 1);
            }
            while v < max_secs as u128
                invariant
                    min_secs > 0,
                    v >= 1,
                    k <= 64,
                    v == min_secs * pow2(k as nat),
                    k == 0 || min_secs * pow2((k - 1) as nat) < max_secs,
                    v <= 2 * (max_secs as nat),
                decreases 64 - k,
            {
                proof {
                    lemma_pow2_pos(k as nat);
                    assert(pow2((k + 1) as nat) == 2 * pow2(k as nat));
                    assert(min_secs * pow2((k + 1) as nat) == 2 * (min_secs * pow2(k as nat))) by (nonlinear_arith)
                        requires
                            pow2((k + 1) as nat) == 2 * pow2(k as nat),
                    ;
                    if k == 64 {
                        vstd::arithmetic::power2::lemma2_to64();
                        assert(pow2(64) >= 0x1_0000_0000_0000_0000) by {
                            lemma_pow2_is(64);
                        }
                        assert(v >= 0x1_0000_0000_0000_0000) by (nonlinear_arith)
                            requires
                                v == min_secs * pow2(64),
                                min_secs >= 1,
                                pow2(64) >= 0x1_0000_0000_0000_0000,
                        ;
                    }
                }
                proof {
                    if k == 64 {
                        assert(false);
                    }
                }
                v = v * 2;
                k = k + 1;
            }
            max_count = k;
            proof {
                assert(min_secs * pow2(k as nat) >= max_secs);
                let mn = min_secs as nat;
                let mx = max_secs as nat;
                assert(mn * pow2(k as nat) >= mx && (k == 0 || mn * pow2((k - 1) as nat) < mx));
                assert(exists|c: nat| mn * #[trigger] pow2(c) >= mx && (c == 0 || mn * pow2((c - 1) as nat) < mx));
                let c = doublings(mn, mx);
                assert(mn * pow2(c) >= mx && (c == 0 || mn * pow2((c - 1) as nat) < mx));
                assert(c == k as nat) by {
                    if c < k {
                        lemma_pow2_mono(c, (k - 1) as nat);
                        assert(mn * pow2(c) <= mn * pow2((k - 1) as nat)) by (nonlinear_arith)
                            requires
                                pow2(c) <= pow2((k - 1) as nat),
                        ;
                    } else if c > k {
                        lemma_pow2_mono(k as nat, (c - 1) as nat);
                        assert(mn * pow2(k as nat) <= mn * pow2((c - 1) as nat)) by (nonlinear_arith)
                            requires
                                pow2(k as nat) <= pow2((c - 1) as nat),
                        ;
                    }
                }
                assert(max_count == doublings(min_secs as nat, max_secs as nat));
            }
        }
        RestartCounter { min: min_secs, max: max_secs, max_count, count: 0 }
    }

    /// Start counting failures again (after a successful start).
    pub fn reset(&mut self)
        ensures
            final(self).count == 0,
            final(self).min == old(self).min,
            final(self).max == old(self).max,
            final(self).max_count == old(self).max_count,
    {
        self.count = 0;
    }

    /// `next_delay` where it can be computed (see `delay_fits`); `None`, with the
    /// counter unchanged, where it cannot.
    pub fn try_next_delay(&mut self) -> (r: Option<(u64, u32)>)
        ensures
            r is None <==> !delay_fits(*old(self)),
            r is None ==> *final(self) == *old(self),
            r matches Some(d) ==> {
                &&& final(self).count == old(self).count + 1
                &&& final(self).min == old(self).min
                &&& final(self).max == old(self).max
                &&& final(self).max_count == old(self).max_count
                &&& d.1 < 1_000_000_000
                &&& base_delay(*old(self)) * 1_000_000_000 <= d.0 * 1_000_000_000 + d.1 <= 2 * base_delay(*old(self))
                    * 1_000_000_000
            },
    {
        let k = if self.count <= self.max_count {
            self.count
        } else {
            self.max_count
        };
        if self.count < u32::MAX && (self.min == 0 || (self.max <= u64::MAX / 2 && k < 32)) {
            Some(self.next_delay())
        } else {
            None
        }
    }

    /// The delay before the next restart, as seconds and nanoseconds: `base_delay`
    /// plus a random part below it.  Counts the restart.
    pub fn next_delay(&mut self) -> (r: (u64, u32))
        requires
            delay_fits(*old(self)),
        ensures
            final(self).count == old(self).count + 1,
            final(self).min == old(self).min,
            final(self).max == old(self).max,
            final(self).max_count == old(self).max_count,
            r.1 < 1_000_000_000,
            r.0 >= base_delay(*old(self)),
            (r.0 - base_delay(*old(self))) * 1_000_000_000 + r.1 < base_delay(*old(self)) * 1_000_000_000
                || base_delay(*old(self)) == 0,
            base_delay(*old(self)) == 0 ==> r == (0u64, 0u32),
            base_delay(*old(self)) * 1_000_000_000 <= r.0 * 1_000_000_000 + r.1 <= 2 * base_delay(*old(self))
                * 1_000_000_000,
            base_delay(*old(self)) > 0 ==> exists|f: int|
                0 <= f < JITTER_STEPS && r.0 == #[trigger] jitter_of(base_delay(*old(self)) as int, f).0 && r.1
                    == jitter_of(base_delay(*old(self)) as int, f).1,
    {
        if self.min == 0 {
            self.count = self.count + 1;
            return (0, 0);
        }
        let k = if self.count <= self.max_count {
            self.count
        } else {
            self.max_count
        };
        let mut p: u64 = 1;
        let mut i: u32 = 0;
        while i < k
            invariant
                k < 32,
                i <= k,
                p == pow2(i as nat),
                p <= 0x8000_0000,
            decreases k - i,
        {
            proof {
                lemma_pow2_mono((i + 1) as nat, 31);
                lemma_pow2_is(31);
                vstd::arithmetic::power2::lemma2_to64();
            }
            p = p * 2;
            i = i + 1;
        }
        proof {
            assert(self.min as u128 * p as u128 <= u64::MAX * 0x8000_0000) by (nonlinear_arith)
                requires
                    p <= 0x8000_0000,
                    self.min <= u64::MAX,
            ;
        }
        let scaled: u128 = self.min as u128 * p as u128;
        let base: u64 = if scaled <= self.max as u128 {
            scaled as u64
        } else {
            self.max
        };
        proof {
            assert(base == base_delay(*self));
        }
        let mut secs: u64 = base;
        let mut nanos: u32 = 0;
        if base > 0 {
            let f = random_below(JITTER_STEPS);
            let (js, jn) = jitter(base, f);
            secs = js;
            nanos = jn;
            proof {
                assert(secs == jitter_of(base as int, f as int).0);
            }
        }
        self.count = self.count + 1;
        (secs, nanos)
    }
}

proof fn lemma_pow2_is(k: nat)
    ensures
        pow2(k) == vstd::arithmetic::power2::pow2(k),
    decreases k,
{
    vstd::arithmetic::power2::lemma2_to64();
    if k > 0 {
        vstd::arithmetic::power2::lemma_pow2_unfold(k);
        lemma_pow2_is((k - 1) as nat);
    }
}

} // verus!

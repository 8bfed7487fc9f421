//! Per-bucket symbol statistics for the rANS coder: Laplace-seeded,
//! normalized frequency tables and the lookup the decoder needs.
use crate::cell::p2;
use crate::utils::prefix_sum;
use vstd::prelude::*;

verus! {

/// The number of symbols: residuals in `-512..=511`, zig-zag packed.
pub const ALPHABET_SIZE: usize = 1024;

/// The least frequency-total exponent.
pub const MIN_FREQ_BITS: u32 = 8;

/// The greatest frequency-total exponent.
pub const MAX_FREQ_BITS: u32 = 31;

/// `exp(-1 / W)` for the representative width `W` of each bucket
/// (2.5, 4.5, 6.3, 8, 12, 16, 20, 24, 28, 36), in units of `2^-32`.
pub open spec fn decay_spec(bucket: int) -> u64 {
    if bucket == 0 {
        2879002676
    } else if bucket == 1 {
        3439140958
    } else if bucket == 2 {
        3664580187
    } else if bucket == 3 {
        3790295335
    } else if bucket == 4 {
        3951560672
    } else if bucket == 5 {
        4034748382
    } else if bucket == 6 {
        4085499269
    } else if bucket == 7 {
        4119687349
    } else if bucket == 8 {
        4144282424
    } else {
        4177304421
    }
}

/// `1 / (2 W)` for the representative width `W` of each bucket, in units of
/// `2^-32`: the density of Laplace(0, W) at 0.
pub open spec fn peak_spec(bucket: int) -> u64 {
    if bucket == 0 {
        858993459
    } else if bucket == 1 {
        477218588
    } else if bucket == 2 {
        340870420
    } else if bucket == 3 {
        268435456
    } else if bucket == 4 {
        178956971
    } else if bucket == 5 {
        134217728
    } else if bucket == 6 {
        107374182
    } else if bucket == 7 {
        89478485
    } else if bucket == 8 {
        76695845
    } else {
        59652324
    }
}

pub fn get_width_decay(bucket: usize) -> (r: (u64, u64))
    ensures
        r.0 == decay_spec(bucket as int),
        r.1 == peak_spec(bucket as int),
{
    match bucket {
        0 => (2879002676, 858993459),
        1 => (3439140958, 477218588),
        2 => (3664580187, 340870420),
        3 => (3790295335, 268435456),
        4 => (3951560672, 178956971),
        5 => (4034748382, 134217728),
        6 => (4085499269, 107374182),
        7 => (4119687349, 89478485),
        8 => (4144282424, 76695845),
        _ => (4177304421, 59652324),
    }
}

/// The Laplace density of the bucket at distance `k` from 0, in units of
/// `2^-32`, by repeated multiplication with the decay.
pub open spec fn laplace_q32(bucket: int, k: nat) -> u64
    decreases k,
{
    if k == 0 {
        peak_spec(bucket)
    } else {
        ((laplace_q32(bucket, (k - 1) as nat) as int * decay_spec(bucket) as int) / 0x1_0000_0000) as u64
    }
}

pub proof fn lemma_laplace_bound(bucket: int, k: nat)
    ensures
        laplace_q32(bucket, k) <= 858993459,
    decreases k,
{
    if k > 0 {
        lemma_laplace_bound(bucket, (k - 1) as nat);
        let v = laplace_q32(bucket, (k - 1) as nat) as int;
        let d = decay_spec(bucket) as int;
        assert(v * d <= v * 0x1_0000_0000) by (nonlinear_arith)
            requires
                0 <= v,
                0 <= d < 0x1_0000_0000,
        ;
        assert(v * d / 0x1_0000_0000 <= v) by (nonlinear_arith)
            requires
                0 <= v * d <= v * 0x1_0000_0000,
                0 <= v,
        ;
    }
}

/// The magnitude of the residual that symbol `s` stands for.
pub open spec fn magnitude(s: int) -> nat {
    ((s + 1) / 2) as nat
}

/// The Laplace density of the bucket at symbol `s`'s residual times the
/// total `2^bits`, rounded down.
pub open spec fn laplace_seed(bucket: int, bits: nat, s: int) -> int {
    (laplace_q32(bucket, magnitude(s)) as int * p2(bits)) / 0x1_0000_0000
}

/// The seed of symbol `s`: its Laplace seed, and 1 instead of 0 for a
/// symbol that was observed (off the distribution).
pub open spec fn seed_spec(bucket: int, bits: nat, s: int, seen: bool) -> u32 {
    let v = laplace_seed(bucket, bits, s);
    if v == 0 {
        if seen {
            1
        } else {
            0
        }
    } else {
        v as u32
    }
}

/// The statistics of one bucket.
#[derive(Clone, Debug)]
pub struct AnsContext {
    /// Frequency of each symbol.
    pub freqs: Vec<u32>,
    /// Cumulative frequency before each symbol.
    pub cdf: Vec<u32>,
    /// The frequencies sum to `2^max_freq_bits` once the table is final.
    pub max_freq_bits: u32,
    /// The observed symbols whose Laplace seed rounds to 0.
    pub off_distribution_values: Vec<u16>,
}

/// Symbol `s` was observed in the context: counted, or recorded as off the
/// distribution.
pub open spec fn seen_in(ctx: AnsContext, s: int) -> bool {
    ctx.freqs@[s] > 0 || ctx.off_distribution_values@.contains(s as u16)
}

pub open spec fn seen_set(ctx: AnsContext) -> Seq<bool> {
    Seq::new(ALPHABET_SIZE as nat, |s: int| seen_in(ctx, s))
}

/// No symbol observed: what the decoder starts from.
pub open spec fn no_observations() -> Seq<bool> {
    Seq::new(ALPHABET_SIZE as nat, |s: int| false)
}

/// The table is final: frequencies sum to `2^bits` and `cdf` holds the
/// running sums.
pub open spec fn table_ok(freqs: Seq<u32>, cdf: Seq<u32>, bits: nat) -> bool {
    &&& freqs.len() == ALPHABET_SIZE
    &&& cdf.len() == ALPHABET_SIZE
    &&& prefix_sum(freqs, ALPHABET_SIZE as int) == p2(bits)
    &&& forall|s: int| 0 <= s < ALPHABET_SIZE ==> #[trigger] cdf[s] == prefix_sum(freqs, s)
}

impl AnsContext {
    pub fn new() -> (r: AnsContext)
        ensures
            r.freqs@.len() == ALPHABET_SIZE,
            r.cdf@.len() == ALPHABET_SIZE,
            forall|s: int| 0 <= s < ALPHABET_SIZE ==> r.freqs@[s] == 0 && r.cdf@[s] == 0,
            r.max_freq_bits == 0,
            r.off_distribution_values@.len() == 0,
    {
        AnsContext {
            freqs: vec![0u32; ALPHABET_SIZE],
            cdf: vec![0u32; ALPHABET_SIZE],
            max_freq_bits: 0,
            off_distribution_values: Vec::new(),
        }
    }

    /// Counts one more occurrence of `element`.
    pub fn bump_freq(&mut self, element: u32)
        requires
            old(self).freqs@.len() == ALPHABET_SIZE,
            element < ALPHABET_SIZE,
            old(self).freqs@[element as int] < u32::MAX,
        ensures
            final(self).freqs@ == old(self).freqs@.update(element as int, (old(self).freqs@[element as int] + 1) as u32),
            final(self).cdf == old(self).cdf,
            final(self).max_freq_bits == old(self).max_freq_bits,
            final(self).off_distribution_values == old(self).off_distribution_values,
    {
        let e = element as usize;
        let v = self.freqs[e];
        self.freqs.set(e, v + 1);
    }
}


pub fn pow2_u64(bits: u32) -> (r: u64)
    requires
        bits <= MAX_FREQ_BITS,
    ensures
        r == p2(bits as nat),
        r <= 0x8000_0000,
{
    let mut r: u64 = 1;
    let mut i: u32 = 0;
    proof {
        lemma_p2_split(0, MAX_FREQ_BITS as nat);
    }
    while i < bits
        invariant
            i <= bits <= MAX_FREQ_BITS,
            r == p2(i as nat),
            r * p2((MAX_FREQ_BITS - i) as nat) == 0x8000_0000,
        decreases bits - i,
    {
        proof {
            lemma_p2_split(i as nat, (MAX_FREQ_BITS - i) as nat);
        }
        r = r * 2;
        i = i + 1;
    }
    proof {
        lemma_p2_split(bits as nat, (MAX_FREQ_BITS - bits) as nat);
    }
    r
}

pub proof fn lemma_p2_31()
    ensures
        p2(31) == 0x8000_0000,
{
    reveal_with_fuel(p2, 32);
}

proof fn lemma_p2_split(a: nat, b: nat)
    requires
        a + b == MAX_FREQ_BITS,
    ensures
        p2(a) * p2(b) == 0x8000_0000,
        b >= 1 ==> p2(a) * 2 * p2((b - 1) as nat) == 0x8000_0000,
        p2(a) >= 1,
        p2(a) <= 0x8000_0000,
    decreases a,
{
    lemma_p2_31();
    lemma_p2_mul(a, b);
    if b >= 1 {
        lemma_p2_mul(a + 1, (b - 1) as nat);
        assert(p2(a + 1) == 2 * p2(a));
    }
    crate::cell::lemma_p2_grows(0, a);
    crate::cell::lemma_p2_grows(a, MAX_FREQ_BITS as nat);
}

proof fn lemma_p2_mul(a: nat, b: nat)
    ensures
        p2(a) * p2(b) == p2(a + b),
    decreases a,
{
    if a > 0 {
        lemma_p2_mul((a - 1) as nat, b);
        assert(p2(a) * p2(b) == 2 * (p2((a - 1) as nat) * p2(b))) by (nonlinear_arith)
            requires
                p2(a) == 2 * p2((a - 1) as nat),
        ;
        assert(p2(a + b) == 2 * p2((a + b - 1) as nat));
        assert((a - 1) as nat + b == (a + b - 1) as nat);
    } else {
        assert(p2(0) == 1);
        assert(1 * p2(b) == p2(b));
    }
}

impl AnsContext {
    /// Replaces the frequencies by the Laplace seeds of the bucket for a
    /// table of total `2^max_freq_bits`; an observed symbol whose seed rounds
    /// to 0 gets 1 and is recorded as off the distribution.
    pub fn fill_with_laplace(&mut self, bucket: usize)
        requires
            old(self).freqs@.len() == ALPHABET_SIZE,
            old(self).max_freq_bits <= MAX_FREQ_BITS,
        ensures
            final(self).freqs@.len() == ALPHABET_SIZE,
            forall|s: int|
                0 <= s < ALPHABET_SIZE ==> #[trigger] final(self).freqs@[s] == seed_spec(
                    bucket as int,
                    old(self).max_freq_bits as nat,
                    s,
                    seen_in(*old(self), s),
                ),
            forall|s: int|
                0 <= s < ALPHABET_SIZE ==> #[trigger] final(self).off_distribution_values@.contains(s as u16) == (
                old(self).off_distribution_values@.contains(s as u16) || (old(self).freqs@[s] > 0 && laplace_seed(
                    bucket as int,
                    old(self).max_freq_bits as nat,
                    s,
                ) == 0)),
            final(self).cdf == old(self).cdf,
            final(self).max_freq_bits == old(self).max_freq_bits,
    {
        let (decay, peak) = get_width_decay(bucket);
        let scale = pow2_u64(self.max_freq_bits);
        let ghost bits = self.max_freq_bits as nat;
        let mut v: u64 = peak;
        let mut k: usize = 0;
        let mut s: usize = 0;
        while s < ALPHABET_SIZE
            invariant
                self.freqs@.len() == ALPHABET_SIZE,
                self.cdf == old(self).cdf,
                self.max_freq_bits == old(self).max_freq_bits,
                bits == self.max_freq_bits as nat,
                scale == p2(bits),
                scale <= 0x8000_0000,
                decay == decay_spec(bucket as int),
                s <= ALPHABET_SIZE,
                k == magnitude(s as int - 1) || s == 0,
                s == 0 ==> k == 0,
                v == laplace_q32(bucket as int, k as nat),
                forall|t: int| 0 <= t < s ==> #[trigger] self.freqs@[t] == seed_spec(bucket as int, bits, t, seen_in(*old(self), t)),
                forall|t: int| s <= t < ALPHABET_SIZE ==> #[trigger] self.freqs@[t] == old(self).freqs@[t],
                forall|t: int|
                    0 <= t < ALPHABET_SIZE ==> #[trigger] self.off_distribution_values@.contains(t as u16) == (
                    old(self).off_distribution_values@.contains(t as u16) || (t < s && old(self).freqs@[t] > 0
                        && laplace_seed(bucket as int, bits, t) == 0)),
            decreases ALPHABET_SIZE - s,
        {
            if k < (s + 1) / 2 {
                proof {
                    lemma_laplace_bound(bucket as int, k as nat);
                    assert(v as int * decay as int <= 858993459 * 0x1_0000_0000) by (nonlinear_arith)
                        requires
                            v <= 858993459,
                            decay < 0x1_0000_0000,
                    ;
                }
                v = ((v as u128 * decay as u128) / 0x1_0000_0000u128) as u64;
                k = k + 1;
            }
            proof {
                lemma_laplace_bound(bucket as int, k as nat);
                assert(v as int * scale as int <= 858993459 * 0x8000_0000) by (nonlinear_arith)
                    requires
                        v <= 858993459,
                        scale <= 0x8000_0000,
                ;
                assert(v as int * scale as int / 0x1_0000_0000 <= 429496730int) by (nonlinear_arith)
                    requires
                        0 <= v as int * scale as int <= 858993459 * 0x8000_0000,
                ;
            }
            let val = (v as u128 * scale as u128) / 0x1_0000_0000u128;
            let freq = self.freqs[s];
            let listed = contains_u16(&self.off_distribution_values, s as u16);
            proof {
                assert(val as int == laplace_seed(bucket as int, bits, s as int));
                assert(listed == old(self).off_distribution_values@.contains(s as u16));
            }
            let f: u32 = if val == 0 && freq == 0 && listed {
                1
            } else if freq != 0 && val == 0 {
                let ghost before = self.off_distribution_values@;
                self.off_distribution_values.push(s as u16);
                proof {
                    assert forall|t: int| 0 <= t < ALPHABET_SIZE implies #[trigger] self.off_distribution_values@.contains(t as u16)
                        == (before.contains(t as u16) || t == s) by {
                        if t == s {
                            assert(self.off_distribution_values@[before.len() as int] == t as u16);
                        }
                        if self.off_distribution_values@.contains(t as u16) && t != s {
                            let i = choose|i: int| 0 <= i < self.off_distribution_values@.len() && self.off_distribution_values@[i] == t as u16;
                            assert(i < before.len());
                            assert(before[i] == t as u16);
                        }
                        if before.contains(t as u16) {
                            let i = choose|i: int| 0 <= i < before.len() && before[i] == t as u16;
                            assert(self.off_distribution_values@[i] == t as u16);
                        }
                    }
                }
                1
            } else {
                val as u32
            };
            self.freqs.set(s, f);
            s = s + 1;
        }
    }
}


pub const CUM_LEN: usize = 1025;

/// Running totals scaled from the frequencies `f` to the total `target`
/// (entry `i` covers the symbols before `i`), rounded down.
pub open spec fn scaled_cum(f: Seq<u32>, target: int) -> Seq<int> {
    Seq::new(CUM_LEN as nat, |i: int| target * prefix_sum(f, i) / prefix_sum(f, ALPHABET_SIZE as int))
}

pub open spec fn width(c: Seq<int>, j: int) -> int {
    c[j + 1] - c[j]
}

/// The first of the widest symbols among the first `n`.
pub open spec fn donor(c: Seq<int>, n: int) -> int
    decreases n,
{
    if n <= 1 {
        0
    } else {
        let b = donor(c, n - 1);
        if width(c, n - 1) > width(c, b) {
            n - 1
        } else {
            b
        }
    }
}

/// Moves one unit of frequency from symbol `j` to symbol `i`.
pub open spec fn shift(c: Seq<int>, i: int, j: int) -> Seq<int> {
    Seq::new(
        c.len(),
        |m: int|
            if j < i && j < m <= i {
                c[m] - 1
            } else if i < j && i < m <= j {
                c[m] + 1
            } else {
                c[m]
            },
    )
}

/// A symbol that was seen but scaled to nothing takes one unit from the
/// widest symbol, if that one has more than one.
pub open spec fn fix_step(c: Seq<int>, f: Seq<u32>, i: int) -> Seq<int> {
    let j = donor(c, ALPHABET_SIZE as int);
    if f[i] != 0 && width(c, i) == 0 && width(c, j) > 1 {
        shift(c, i, j)
    } else {
        c
    }
}

pub open spec fn fixed(c: Seq<int>, f: Seq<u32>, n: nat) -> Seq<int>
    decreases n,
{
    if n == 0 {
        c
    } else {
        fix_step(fixed(c, f, (n - 1) as nat), f, n - 1)
    }
}

/// The normalized running totals of `f` for the total `target`.
pub open spec fn normalized_cum(f: Seq<u32>, target: int) -> Seq<int> {
    fixed(scaled_cum(f, target), f, ALPHABET_SIZE as nat)
}

/// A running-total table of the alphabet from 0 to `target`.
pub open spec fn cum_ok(c: Seq<int>, target: int) -> bool {
    &&& c.len() == CUM_LEN
    &&& c[0] == 0
    &&& c[ALPHABET_SIZE as int] == target
    &&& forall|m: int| 0 <= m < ALPHABET_SIZE ==> c[m] <= #[trigger] c[m + 1]
}

proof fn lemma_donor_widest(c: Seq<int>, n: int)
    requires
        1 <= n <= ALPHABET_SIZE,
    ensures
        0 <= donor(c, n) < n,
        forall|k: int| 0 <= k < n ==> #[trigger] width(c, k) <= width(c, donor(c, n)),
    decreases n,
{
    if n > 1 {
        lemma_donor_widest(c, n - 1);
    }
}

proof fn lemma_narrow_total(c: Seq<int>, n: int)
    requires
        cum_ok(c, c[ALPHABET_SIZE as int]),
        0 <= n <= ALPHABET_SIZE,
        forall|k: int| 0 <= k < n ==> #[trigger] width(c, k) <= 1,
    ensures
        c[n] <= n,
    decreases n,
{
    if n > 0 {
        lemma_narrow_total(c, n - 1);
        assert(width(c, n - 1) <= 1);
    }
}

/// One fixing step keeps the table a table and keeps every symbol that had
/// a unit; symbol `i` gets one when a donor exists.
proof fn lemma_fix_step(c: Seq<int>, f: Seq<u32>, i: int, target: int)
    requires
        cum_ok(c, target),
        f.len() == ALPHABET_SIZE,
        0 <= i < ALPHABET_SIZE,
    ensures
        cum_ok(fix_step(c, f, i), target),
        forall|k: int| 0 <= k < ALPHABET_SIZE && #[trigger] width(c, k) >= 1 ==> width(fix_step(c, f, i), k) >= 1,
        target >= 2 * ALPHABET_SIZE && f[i] != 0 ==> width(fix_step(c, f, i), i) >= 1,
{
    let j = donor(c, ALPHABET_SIZE as int);
    lemma_donor_widest(c, ALPHABET_SIZE as int);
    if f[i] != 0 && width(c, i) == 0 {
        if width(c, j) <= 1 {
            lemma_narrow_total(c, ALPHABET_SIZE as int);
        }
        if width(c, j) > 1 {
        let d = shift(c, i, j);
        assert(j != i);
        assert forall|m: int| 0 <= m < ALPHABET_SIZE implies d[m] <= #[trigger] d[m + 1] by {
            assert(c[m] <= c[m + 1]);
        }
        assert forall|k: int| 0 <= k < ALPHABET_SIZE && #[trigger] width(c, k) >= 1 implies width(d, k) >= 1 by {
            assert(c[k] <= c[k + 1]);
        }
        }
    }
}

proof fn lemma_fixed(c: Seq<int>, f: Seq<u32>, n: nat, target: int)
    requires
        cum_ok(c, target),
        f.len() == ALPHABET_SIZE,
        n <= ALPHABET_SIZE,
    ensures
        cum_ok(fixed(c, f, n), target),
        target >= 2 * ALPHABET_SIZE ==> forall|k: int| 0 <= k < n && f[k] != 0 ==> #[trigger] width(fixed(c, f, n), k) >= 1,
    decreases n,
{
    if n > 0 {
        lemma_fixed(c, f, (n - 1) as nat, target);
        lemma_fix_step(fixed(c, f, (n - 1) as nat), f, n - 1, target);
    }
}

proof fn lemma_scaled(f: Seq<u32>, target: int)
    requires
        f.len() == ALPHABET_SIZE,
        prefix_sum(f, ALPHABET_SIZE as int) > 0,
        target >= 0,
    ensures
        cum_ok(scaled_cum(f, target), target),
{
    let c = scaled_cum(f, target);
    let total = prefix_sum(f, ALPHABET_SIZE as int);
    assert(c[0] == 0) by {
        assert(target * 0 == 0);
    }
    assert(c[ALPHABET_SIZE as int] == target) by {
        vstd::arithmetic::div_mod::lemma_div_by_multiple(target, total);
        assert(target * total == total * target) by (nonlinear_arith);
    }
    assert forall|m: int| 0 <= m < ALPHABET_SIZE implies c[m] <= #[trigger] c[m + 1] by {
        let a = prefix_sum(f, m);
        let b = prefix_sum(f, m + 1);
        assert(a <= b);
        vstd::arithmetic::mul::lemma_mul_inequality(a, b, target);
        assert(target * a == a * target && target * b == b * target) by (nonlinear_arith);
        vstd::arithmetic::div_mod::lemma_div_is_ordered(target * a, target * b, total);
    }
}


pub open spec fn same_cum(cum: Seq<u32>, c: Seq<int>) -> bool {
    cum.len() == CUM_LEN && c.len() == CUM_LEN && forall|m: int| 0 <= m < CUM_LEN ==> #[trigger] cum[m] as int == c[m]
}

fn find_donor(cum: &Vec<u32>, ghost_c: Ghost<Seq<int>>) -> (r: usize)
    requires
        same_cum(cum@, ghost_c@),
        cum_ok(ghost_c@, ghost_c@[ALPHABET_SIZE as int]),
    ensures
        r == donor(ghost_c@, ALPHABET_SIZE as int),
        r < ALPHABET_SIZE,
{
    let ghost c = ghost_c@;
    let mut best: usize = 0;
    let mut k: usize = 1;
    while k < ALPHABET_SIZE
        invariant
            same_cum(cum@, c),
            cum_ok(c, c[ALPHABET_SIZE as int]),
            1 <= k <= ALPHABET_SIZE,
            best == donor(c, k as int),
            best < k,
        decreases ALPHABET_SIZE - k,
    {
        assert(c[k as int] <= c[k + 1] && c[best as int] <= c[best + 1]);
        if cum[k + 1] - cum[k] > cum[best + 1] - cum[best] {
            best = k;
        }
        k = k + 1;
    }
    best
}

impl AnsContext {
    /// Scales the frequencies to the total `target` and gives every symbol
    /// that was seen but scaled to nothing a unit taken from the widest
    /// symbol. Returns the running totals.
    pub fn normalize_freqs(&mut self, target: u32) -> (r: Vec<u32>)
        requires
            old(self).freqs@.len() == ALPHABET_SIZE,
            prefix_sum(old(self).freqs@, ALPHABET_SIZE as int) > 0,
        ensures
            r@.len() == ALPHABET_SIZE,
            final(self).freqs@.len() == ALPHABET_SIZE,
            forall|s: int|
                0 <= s < ALPHABET_SIZE ==> #[trigger] r@[s] as int == normalized_cum(old(self).freqs@, target as int)[s],
            forall|s: int|
                0 <= s < ALPHABET_SIZE ==> #[trigger] final(self).freqs@[s] as int == width(
                    normalized_cum(old(self).freqs@, target as int),
                    s,
                ),
            final(self).cdf == old(self).cdf,
            final(self).max_freq_bits == old(self).max_freq_bits,
    {
        let ghost f = self.freqs@;
        let mut total: u64 = 0;
        let mut i: usize = 0;
        while i < ALPHABET_SIZE
            invariant
                self.freqs@ == f,
                f.len() == ALPHABET_SIZE,
                i <= ALPHABET_SIZE,
                total as int == prefix_sum(f, i as int),
                total <= i * 0x1_0000_0000,
            decreases ALPHABET_SIZE - i,
        {
            total = total + self.freqs[i] as u64;
            i = i + 1;
        }
        let ghost sc = scaled_cum(f, target as int);
        proof {
            lemma_scaled(f, target as int);
        }
        let mut cum: Vec<u32> = Vec::new();
        let mut run: u64 = 0;
        let mut m: usize = 0;
        while m < CUM_LEN
            invariant
                self.freqs@ == f,
                f.len() == ALPHABET_SIZE,
                total as int == prefix_sum(f, ALPHABET_SIZE as int),
                total > 0,
                total <= 0x400_0000_0000,
                run <= total,
                cum_ok(sc, target as int),
                sc == scaled_cum(f, target as int),
                m <= CUM_LEN,
                run as int == prefix_sum(f, m as int) || m == CUM_LEN,
                cum@.len() == m,
                forall|k: int| 0 <= k < m ==> #[trigger] cum@[k] as int == sc[k],
            decreases CUM_LEN - m,
        {
            proof {
                crate::utils::lemma_prefix_sum_monotone(f, m as int, ALPHABET_SIZE as int);
                assert(sc[m as int] <= target) by {
                    if m < ALPHABET_SIZE {
                        assert(sc[m as int] <= sc[m + 1]);
                    }
                    assert forall|a: int| 0 <= a <= m < CUM_LEN implies sc[a] <= sc[m as int] by {
                        lemma_cum_monotone(sc, target as int, a, m as int);
                    }
                    lemma_cum_monotone(sc, target as int, m as int, ALPHABET_SIZE as int);
                }
                assert(target as int * run as int <= 0x1_0000_0000 * 0x400_0000_0000) by (nonlinear_arith)
                    requires
                        target <= 0xffff_ffff,
                        run <= total,
                        total <= 0x400_0000_0000,
                ;
            }
            let v = ((target as u128) * (run as u128)) / (total as u128);
            cum.push(v as u32);
            if m < ALPHABET_SIZE {
                proof {
                    crate::utils::lemma_prefix_sum_monotone(f, m + 1, ALPHABET_SIZE as int);
                }
                run = run + self.freqs[m] as u64;
            }
            m = m + 1;
        }
        let ghost c0 = sc;
        let mut i: usize = 0;
        let ghost mut gc = sc;
        proof {
            lemma_fixed(c0, f, 0, target as int);
        }
        while i < ALPHABET_SIZE
            invariant
                self.freqs@ == f,
                f.len() == ALPHABET_SIZE,
                cum_ok(c0, target as int),
                i <= ALPHABET_SIZE,
                gc == fixed(c0, f, i as nat),
                cum_ok(gc, target as int),
                same_cum(cum@, gc),
            decreases ALPHABET_SIZE - i,
        {
            proof {
                lemma_fixed(c0, f, (i + 1) as nat, target as int);
                assert(gc[i as int] <= gc[i + 1]);
            }
            if self.freqs[i] != 0 && cum[i + 1] == cum[i] {
                let j = find_donor(&cum, Ghost(gc));
                proof {
                    assert(gc[j as int] <= gc[j + 1]);
                }
                if cum[j + 1] - cum[j] > 1 {
                    let ghost before = cum@;
                    let ghost next = shift(gc, i as int, j as int);
                    if j < i {
                        let mut k: usize = j + 1;
                        while k <= i
                            invariant
                                j < i < ALPHABET_SIZE,
                                j + 1 <= k <= i + 1,
                                cum_ok(gc, target as int),
                                gc[j + 1] - gc[j as int] > 1,
                                cum@.len() == CUM_LEN,
                                same_cum(before, gc),
                                next == shift(gc, i as int, j as int),
                                cum_ok(next, target as int),
                                forall|m: int| 0 <= m < k ==> #[trigger] cum@[m] as int == next[m],
                                forall|m: int| k <= m < CUM_LEN ==> #[trigger] cum@[m] == before[m],
                            decreases i + 1 - k,
                        {
                            assert(next[k as int] == gc[k as int] - 1);
                            proof {
                                lemma_cum_monotone(gc, target as int, j + 1, k as int);
                                lemma_cum_monotone(gc, target as int, 0, j as int);
                            }
                            let v = cum[k];
                            cum.set(k, v - 1);
                            k = k + 1;
                        }
                    } else {
                        let mut k: usize = i + 1;
                        while k <= j
                            invariant
                                i < j < ALPHABET_SIZE,
                                i + 1 <= k <= j + 1,
                                cum@.len() == CUM_LEN,
                                same_cum(before, gc),
                                next == shift(gc, i as int, j as int),
                                cum_ok(next, target as int),
                                forall|m: int| 0 <= m < k ==> #[trigger] cum@[m] as int == next[m],
                                forall|m: int| k <= m < CUM_LEN ==> #[trigger] cum@[m] == before[m],
                            decreases j + 1 - k,
                        {
                            proof {
                                lemma_cum_monotone(next, target as int, k as int, ALPHABET_SIZE as int);
                            }
                            assert(next[k as int] == gc[k as int] + 1);
                            let v = cum[k];
                            cum.set(k, v + 1);
                            k = k + 1;
                        }
                    }
                    proof {
                        gc = next;
                    }
                }
            }
            i = i + 1;
        }
        let mut cdf: Vec<u32> = Vec::new();
        let mut s: usize = 0;
        while s < ALPHABET_SIZE
            invariant
                f.len() == ALPHABET_SIZE,
                self.freqs@.len() == ALPHABET_SIZE,
                self.cdf == old(self).cdf,
                self.max_freq_bits == old(self).max_freq_bits,
                gc == normalized_cum(f, target as int),
                cum_ok(gc, target as int),
                same_cum(cum@, gc),
                s <= ALPHABET_SIZE,
                cdf@.len() == s,
                forall|t: int| 0 <= t < s ==> #[trigger] cdf@[t] as int == gc[t],
                forall|t: int| 0 <= t < s ==> #[trigger] self.freqs@[t] as int == width(gc, t),
            decreases ALPHABET_SIZE - s,
        {
            assert(gc[s as int] <= gc[s + 1]);
            cdf.push(cum[s]);
            self.freqs.set(s, cum[s + 1] - cum[s]);
            s = s + 1;
        }
        cdf
    }
}

proof fn lemma_cum_monotone(c: Seq<int>, target: int, a: int, b: int)
    requires
        cum_ok(c, target),
        0 <= a <= b < CUM_LEN,
    ensures
        c[a] <= c[b],
    decreases b - a,
{
    if a < b {
        lemma_cum_monotone(c, target, a, b - 1);
        assert(c[b - 1] <= c[(b - 1) + 1]);
    }
}


/// The seeds of a bucket for a table of total `2^bits`, given which
/// symbols were observed.
pub open spec fn seeds(bucket: int, bits: nat, seen: Seq<bool>) -> Seq<u32> {
    Seq::new(ALPHABET_SIZE as nat, |s: int| seed_spec(bucket, bits, s, seen[s]))
}

pub fn contains_u16(v: &Vec<u16>, x: u16) -> (r: bool)
    ensures
        r == v@.contains(x),
{
    let mut i: usize = 0;
    while i < v.len()
        invariant
            i <= v@.len(),
            forall|t: int| 0 <= t < i ==> v@[t] != x,
        decreases v@.len() - i,
    {
        if v[i] == x {
            return true;
        }
        i = i + 1;
    }
    false
}

/// The frequency-total exponent a table is built with.
pub open spec fn clamp_bits(bits: u32) -> u32 {
    if bits < MIN_FREQ_BITS {
        MIN_FREQ_BITS
    } else if bits > MAX_FREQ_BITS {
        MAX_FREQ_BITS
    } else {
        bits
    }
}

/// The table of a bucket for the exponent `bits`: the running totals of the
/// normalized seeds.
pub open spec fn final_cum(bucket: int, bits: nat, seen: Seq<bool>) -> Seq<int> {
    normalized_cum(seeds(bucket, bits, seen), p2(bits) as int)
}

/// The context holds the final table of `bucket` for `bits`.
pub open spec fn is_finalized(ctx: AnsContext, bucket: int, bits: u32, seen: Seq<bool>) -> bool {
    &&& ctx.max_freq_bits == bits
    &&& ctx.freqs@.len() == ALPHABET_SIZE
    &&& ctx.cdf@.len() == ALPHABET_SIZE
    &&& forall|s: int| 0 <= s < ALPHABET_SIZE ==> #[trigger] ctx.cdf@[s] as int == final_cum(bucket, bits as nat, seen)[s]
    &&& forall|s: int|
        0 <= s < ALPHABET_SIZE ==> #[trigger] ctx.freqs@[s] as int == width(final_cum(bucket, bits as nat, seen), s)
}

proof fn lemma_seed_bound(bucket: int, bits: nat, s: int)
    requires
        bits <= MAX_FREQ_BITS,
    ensures
        0 <= laplace_seed(bucket, bits, s) <= 429496730,
{
    lemma_laplace_bound(bucket, magnitude(s));
    crate::cell::lemma_p2_grows(bits, MAX_FREQ_BITS as nat);
    lemma_p2_31();
    let l = laplace_q32(bucket, magnitude(s)) as int;
    let p = p2(bits) as int;
    assert(l * p <= 858993459 * 0x8000_0000) by (nonlinear_arith)
        requires
            0 <= l <= 858993459,
            0 <= p <= 0x8000_0000,
    ;
    assert(0 <= l * p) by (nonlinear_arith)
        requires
            0 <= l,
            0 <= p,
    ;
}

/// With a total of at least `2^8`, symbol 0 always has a nonzero seed.
proof fn lemma_seed_zero(bucket: int, bits: nat)
    requires
        MIN_FREQ_BITS <= bits <= MAX_FREQ_BITS,
    ensures
        laplace_seed(bucket, bits, 0) >= 1,
{
    crate::cell::lemma_p2_grows(MIN_FREQ_BITS as nat, bits);
    reveal_with_fuel(p2, 9);
    let l = laplace_q32(bucket, 0) as int;
    let p = p2(bits) as int;
    assert(l >= 59652324);
    assert(l * p >= 59652324 * 256) by (nonlinear_arith)
        requires
            l >= 59652324,
            p >= 256,
    ;
}

proof fn lemma_finalized_table(ctx: AnsContext, f: Seq<u32>, bucket: int, bits: nat, seen: Seq<bool>)
    requires
        MIN_FREQ_BITS <= bits <= MAX_FREQ_BITS,
        f == seeds(bucket, bits, seen),
        ctx.max_freq_bits == bits,
        ctx.freqs@.len() == ALPHABET_SIZE,
        ctx.cdf@.len() == ALPHABET_SIZE,
        forall|s: int| 0 <= s < ALPHABET_SIZE ==> #[trigger] ctx.cdf@[s] as int == final_cum(bucket, bits, seen)[s],
        forall|s: int| 0 <= s < ALPHABET_SIZE ==> #[trigger] ctx.freqs@[s] as int == width(final_cum(bucket, bits, seen), s),
    ensures
        table_ok(ctx.freqs@, ctx.cdf@, bits),
{
    let target = p2(bits) as int;
    lemma_seed_zero(bucket, bits);
    lemma_seed_bound(bucket, bits, 0);
    assert(f[0] != 0);
    assert(prefix_sum(f, 1) >= 1) by {
        reveal_with_fuel(prefix_sum, 2);
    }
    crate::utils::lemma_prefix_sum_monotone(f, 1, ALPHABET_SIZE as int);
    let c = final_cum(bucket, bits, seen);
    lemma_scaled(f, target);
    lemma_fixed(scaled_cum(f, target), f, ALPHABET_SIZE as nat, target);
    lemma_telescope(ctx.freqs@, c, ALPHABET_SIZE as int);
    assert forall|s: int| 0 <= s < ALPHABET_SIZE implies #[trigger] ctx.cdf@[s] == prefix_sum(ctx.freqs@, s) by {
        lemma_telescope(ctx.freqs@, c, s);
    }
}

proof fn lemma_telescope(freqs: Seq<u32>, c: Seq<int>, n: int)
    requires
        0 <= n <= ALPHABET_SIZE,
        freqs.len() == ALPHABET_SIZE,
        c.len() == CUM_LEN,
        forall|t: int| 0 <= t < ALPHABET_SIZE ==> #[trigger] freqs[t] as int == width(c, t),
    ensures
        prefix_sum(freqs, n) == c[n] - c[0],
    decreases n,
{
    if n > 0 {
        lemma_telescope(freqs, c, n - 1);
        assert(freqs[n - 1] as int == width(c, n - 1));
    }
}

impl AnsContext {
    /// Builds the final table of `bucket`: the exponent is clamped to
    /// `MIN_FREQ_BITS..=MAX_FREQ_BITS`, the frequencies are replaced by the
    /// seeds and normalized to `2^max_freq_bits`. It depends on the bucket,
    /// the exponent and the observed symbols whose seed rounds to 0.
    pub fn finalize_context(&mut self, bucket: usize)
        requires
            old(self).freqs@.len() == ALPHABET_SIZE,
        ensures
            is_finalized(*final(self), bucket as int, clamp_bits(old(self).max_freq_bits), seen_set(*old(self))),
            table_ok(final(self).freqs@, final(self).cdf@, final(self).max_freq_bits as nat),
    {
        let ghost seen = seen_set(*self);
        if self.max_freq_bits < MIN_FREQ_BITS {
            self.max_freq_bits = MIN_FREQ_BITS;
        } else if self.max_freq_bits > MAX_FREQ_BITS {
            self.max_freq_bits = MAX_FREQ_BITS;
        }
        let ghost bits = self.max_freq_bits as nat;
        self.fill_with_laplace(bucket);
        let ghost f = self.freqs@;
        proof {
            assert(f =~= seeds(bucket as int, bits, seen));
            assert(f[0] != 0) by {
                lemma_seed_zero(bucket as int, bits);
                lemma_seed_bound(bucket as int, bits, 0);
            }
            assert(prefix_sum(f, 1) >= 1) by {
                reveal_with_fuel(prefix_sum, 2);
            }
            crate::utils::lemma_prefix_sum_monotone(f, 1, ALPHABET_SIZE as int);
            crate::cell::lemma_p2_grows(MIN_FREQ_BITS as nat, bits);
            reveal_with_fuel(p2, 13);
        }
        let target = pow2_u64(self.max_freq_bits) as u32;
        let cdf = self.normalize_freqs(target);
        self.cdf = cdf;
        proof {
            lemma_finalized_table(*self, f, bucket as int, bits, seen);
        }
    }
}

/// Seeding is deterministic: two contexts finalized for the same bucket and
/// exponent hold bit-identical frequencies and running totals, unless one
/// observed a symbol off the distribution (seed 0) that the other did not.
pub proof fn lemma_seeding_deterministic(
    a: AnsContext,
    b: AnsContext,
    bucket: int,
    bits: u32,
    seen_a: Seq<bool>,
    seen_b: Seq<bool>,
)
    requires
        is_finalized(a, bucket, bits, seen_a),
        is_finalized(b, bucket, bits, seen_b),
        forall|s: int| 0 <= s < ALPHABET_SIZE ==> seen_a[s] == seen_b[s] || #[trigger] laplace_seed(bucket, bits as nat, s) != 0,
    ensures
        a.freqs@ == b.freqs@,
        a.cdf@ == b.cdf@,
{
    assert(seeds(bucket, bits as nat, seen_a) =~= seeds(bucket, bits as nat, seen_b)) by {
        assert forall|s: int| 0 <= s < ALPHABET_SIZE implies seeds(bucket, bits as nat, seen_a)[s] == seeds(bucket, bits as nat, seen_b)[s] by {
            assert(seen_a[s] == seen_b[s] || laplace_seed(bucket, bits as nat, s) != 0);
        }
    }
    assert(a.freqs@ =~= b.freqs@);
    assert(a.cdf@ =~= b.cdf@);
}

/// The index of the last running total that is at most `cum_freq`.
pub fn find_symbol(cum_freq: u32, cdf: &[u32]) -> (r: usize)
    requires
        cdf@.len() >= 1,
        cdf@[0] <= cum_freq,
    ensures
        r < cdf@.len(),
        cdf@[r as int] <= cum_freq,
        r + 1 < cdf@.len() ==> cdf@[r + 1] > cum_freq,
{
    let n = cdf.len();
    let mut lo: usize = 0;
    let mut hi: usize = n;
    while hi - lo > 1
        invariant
            lo < hi <= n,
            n == cdf@.len(),
            cdf@[lo as int] <= cum_freq,
            hi < n ==> cdf@[hi as int] > cum_freq,
        decreases hi - lo,
    {
        let mid = lo + (hi - lo) / 2;
        if cdf[mid] <= cum_freq {
            lo = mid;
        } else {
            hi = mid;
        }
    }
    lo
}

/// The running total of the symbol whose interval holds `cum_freq`: the
/// last entry at most `cum_freq` before a greater one.
pub fn find_nearest_or_equal(cum_freq: u32, cum_freqs: &[u32]) -> (r: u32)
    requires
        cum_freqs@.len() >= 1,
        cum_freqs@[0] <= cum_freq,
    ensures
        exists|s: int|
            0 <= s < cum_freqs@.len() && r == #[trigger] cum_freqs@[s] && cum_freqs@[s] <= cum_freq && (s + 1
                < cum_freqs@.len() ==> cum_freqs@[s + 1] > cum_freq),
        (forall|a: int, b: int| 0 <= a <= b < cum_freqs@.len() ==> cum_freqs@[a] <= cum_freqs@[b]) ==> forall|t: int|
            0 <= t < cum_freqs@.len() && #[trigger] cum_freqs@[t] <= cum_freq ==> cum_freqs@[t] <= r,
{
    let s = find_symbol(cum_freq, cum_freqs);
    proof {
        if forall|a: int, b: int| 0 <= a <= b < cum_freqs@.len() ==> cum_freqs@[a] <= cum_freqs@[b] {
            assert forall|t: int| 0 <= t < cum_freqs@.len() && #[trigger] cum_freqs@[t] <= cum_freq implies cum_freqs@[t] <= cum_freqs@[s as int] by {
                if t > s {
                    assert(cum_freqs@[s + 1] <= cum_freqs@[t]);
                }
            }
        }
    }
    cum_freqs[s]
}

/// The table side of rANS decoding: every running total inside the interval
/// of a symbol leads the lookup back to that symbol.
pub proof fn lemma_lookup_inverts(freqs: Seq<u32>, cdf: Seq<u32>, bits: nat, s: int, t: int, r: int)
    requires
        table_ok(freqs, cdf, bits),
        0 <= s < ALPHABET_SIZE,
        0 <= t < freqs[s],
        0 <= r < ALPHABET_SIZE,
        cdf[r] <= cdf[s] + t,
        r + 1 < ALPHABET_SIZE ==> cdf[r + 1] > cdf[s] + t,
    ensures
        r == s,
{
    if r < s {
        assert(cdf[r + 1] == prefix_sum(freqs, r + 1));
        crate::utils::lemma_prefix_sum_monotone(freqs, r + 1, s);
    } else if r > s {
        assert(cdf[r] == prefix_sum(freqs, r));
        crate::utils::lemma_prefix_sum_monotone(freqs, s + 1, r);
    }
}

} // verus!

//! Small integer helpers shared by the codec stages.
use vstd::prelude::*;

verus! {

/// A point of the integer complex plane: `x` is the real part, `y` the
/// imaginary part. Pixels and tile centers are both such points.
#[derive(Clone, Copy, Debug, PartialEq, Eq, Structural)]
pub struct Coord {
    pub x: i32,
    pub y: i32,
}

impl Coord {
    pub fn new(x: i32, y: i32) -> (r: Coord)
        ensures
            r.x == x,
            r.y == y,
    {
        Coord { x, y }
    }

    /// Complex addition.
    pub fn add(self, o: Coord) -> (r: Coord)
        requires
            i32::MIN <= self.x + o.x <= i32::MAX,
            i32::MIN <= self.y + o.y <= i32::MAX,
        ensures
            r.x == self.x + o.x,
            r.y == self.y + o.y,
    {
        Coord { x: self.x + o.x, y: self.y + o.y }
    }

    /// Complex subtraction.
    pub fn sub(self, o: Coord) -> (r: Coord)
        requires
            i32::MIN <= self.x - o.x <= i32::MAX,
            i32::MIN <= self.y - o.y <= i32::MAX,
        ensures
            r.x == self.x - o.x,
            r.y == self.y - o.y,
    {
        Coord { x: self.x - o.x, y: self.y - o.y }
    }

    /// Complex negation.
    pub fn neg(self) -> (r: Coord)
        requires
            self.x > i32::MIN,
            self.y > i32::MIN,
        ensures
            r.x == -self.x,
            r.y == -self.y,
    {
        Coord { x: -self.x, y: -self.y }
    }
}

/// The hash-map key of a point: its two parts side by side in one `u64`.
pub open spec fn key_of(c: Coord) -> u64 {
    (((c.x as u32) as u64) << 32u64) | ((c.y as u32) as u64)
}

pub fn coord_key(c: Coord) -> (r: u64)
    ensures
        r == key_of(c),
{
    (((c.x as u32) as u64) << 32u64) | ((c.y as u32) as u64)
}

/// The largest power of two that is at most `x` (zero for zero).
pub open spec fn prev_power_two(x: nat) -> nat
    decreases x,
{
    if x <= 1 {
        x
    } else {
        2 * prev_power_two(x / 2)
    }
}

/// Smears the highest set bit downwards and keeps only that bit.
pub fn get_prev_power_two(x: u32) -> (r: u32)
    ensures
        r == prev_power_two(x as nat),
{
    if x == 0 {
        return 0;
    }
    let mut shifted: u32 = x;
    let mut p: u32 = 1;
    while shifted > 1
        invariant
            shifted >= 1,
            prev_power_two(x as nat) == p * prev_power_two(shifted as nat),
            p >= 1,
            p * shifted <= x,
        decreases shifted,
    {
        let ghost s = shifted as nat;
        let ghost q = p as nat;
        assert(prev_power_two(s) == 2 * prev_power_two(s / 2));
        assert(q * prev_power_two(s) == (q * 2) * prev_power_two(s / 2)) by (nonlinear_arith)
            requires
                prev_power_two(s) == 2 * prev_power_two(s / 2),
        ;
        assert(q * 2 <= q * s && (q * 2) * (s / 2) <= q * s) by (nonlinear_arith)
            requires
                q >= 1,
                s >= 2,
        ;
        shifted = shifted / 2;
        p = p * 2;
    }
    p
}

/// Zig-zag interleaving of the signed integers onto the unsigned ones:
/// 0, -1, 1, -2, 2, ... map to 0, 1, 2, 3, 4, ...
pub open spec fn pack_spec(k: int) -> int {
    if k >= 0 {
        2 * k
    } else {
        -2 * k - 1
    }
}

/// The inverse of `pack_spec`.
pub open spec fn unpack_spec(u: int) -> int {
    if u % 2 == 0 {
        u / 2
    } else {
        -((u + 1) / 2)
    }
}

pub fn pack_signed(k: i32) -> (r: u32)
    ensures
        r as int == pack_spec(k as int),
{
    if k >= 0 {
        let kk: i64 = k as i64;
        (kk + kk) as u32
    } else {
        let kk: i64 = k as i64;
        (-kk - kk - 1) as u32
    }
}

pub fn unpack_signed(k: u32) -> (r: i32)
    ensures
        r as int == unpack_spec(k as int),
{
    if k % 2 == 0 {
        (k / 2) as i32
    } else {
        (-(((k as i64) + 1) / 2)) as i32
    }
}

/// Zig-zag packing is a bijection between `i32` and `u32`: unpacking undoes
/// packing, and packing undoes unpacking.
pub proof fn lemma_pack_round_trip(k: i32, u: u32)
    ensures
        unpack_spec(pack_spec(k as int)) == k as int,
        pack_spec(unpack_spec(u as int)) == u as int,
        0 <= pack_spec(k as int) <= u32::MAX,
        i32::MIN <= unpack_spec(u as int) <= i32::MAX,
{
}

/// Orders points by their real part, then by their imaginary part.
pub open spec fn order_spec(a: Coord, b: Coord) -> core::cmp::Ordering {
    if a.x > b.x {
        core::cmp::Ordering::Greater
    } else if a.x < b.x {
        core::cmp::Ordering::Less
    } else if a.y > b.y {
        core::cmp::Ordering::Greater
    } else if a.y < b.y {
        core::cmp::Ordering::Less
    } else {
        core::cmp::Ordering::Equal
    }
}

pub fn order_complex(a: &Coord, b: &Coord) -> (r: core::cmp::Ordering)
    ensures
        r == order_spec(*a, *b),
{
    if a.x > b.x {
        core::cmp::Ordering::Greater
    } else if a.x < b.x {
        core::cmp::Ordering::Less
    } else if a.y > b.y {
        core::cmp::Ordering::Greater
    } else if a.y < b.y {
        core::cmp::Ordering::Less
    } else {
        core::cmp::Ordering::Equal
    }
}

/// The sum of the first `n` entries of `s`.
pub open spec fn prefix_sum(s: Seq<u32>, n: int) -> int
    decreases n,
{
    if n <= 0 {
        0
    } else {
        prefix_sum(s, n - 1) + s[n - 1]
    }
}

pub proof fn lemma_prefix_sum_monotone(s: Seq<u32>, i: int, j: int)
    requires
        0 <= i <= j <= s.len(),
    ensures
        prefix_sum(s, i) <= prefix_sum(s, j),
    decreases j - i,
{
    if i < j {
        lemma_prefix_sum_monotone(s, i, j - 1);
    }
}

/// Exclusive running totals: entry `i` is the sum of the entries before `i`.
pub fn cum_sum(sum: &[u32]) -> (r: Vec<u32>)
    requires
        prefix_sum(sum@, sum@.len() as int) <= u32::MAX,
    ensures
        r@.len() == sum@.len(),
        forall|i: int| 0 <= i < r@.len() ==> r@[i] as int == prefix_sum(sum@, i),
{
    let mut r: Vec<u32> = Vec::new();
    let mut acc: u32 = 0;
    let mut i: usize = 0;
    while i < sum.len()
        invariant
            i <= sum@.len(),
            r@.len() == i,
            acc as int == prefix_sum(sum@, i as int),
            prefix_sum(sum@, sum@.len() as int) <= u32::MAX,
            forall|k: int| 0 <= k < i ==> r@[k] as int == prefix_sum(sum@, k),
        decreases sum@.len() - i,
    {
        r.push(acc);
        proof {
            lemma_prefix_sum_monotone(sum@, i as int + 1, sum@.len() as int);
        }
        acc = acc + sum[i];
        i = i + 1;
    }
    r
}

} // verus!

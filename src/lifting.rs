//! The reversible integer lifting transform over the binary tree of a tile.
//!
//! The tree is kept as a 1-indexed heap: node `k` has children `2k` and
//! `2k + 1`; with `n` leaves, nodes `1..n` are interior and `n..2n` are the
//! leaves. A missing leaf (`None`) lies outside the image.
use vstd::prelude::*;

verus! {

/// Halving with truncation toward zero, as integer division does.
pub open spec fn half(h: int) -> int {
    if h >= 0 {
        h / 2
    } else {
        -((-h) / 2)
    }
}

/// The high-pass output `L - R` of one step; a missing side counts as 0.
pub open spec fn diff_opt(l: Option<int>, r: Option<int>) -> Option<int> {
    match (l, r) {
        (Some(a), Some(b)) => Some(a - b),
        (Some(a), None) => Some(a),
        (None, Some(b)) => Some(-b),
        (None, None) => None,
    }
}

/// The low-pass output `R + H/2` of one step; a missing side counts as 0.
pub open spec fn low_opt(r: Option<int>, h: Option<int>) -> Option<int> {
    match (r, h) {
        (Some(a), Some(b)) => Some(a + half(b)),
        (Some(a), None) => Some(a),
        (None, Some(b)) => Some(half(b)),
        (None, None) => None,
    }
}

pub open spec fn opt_int(o: Option<i32>) -> Option<int> {
    match o {
        Some(v) => Some(v as int),
        None => None,
    }
}

pub open spec fn opt_ints(s: Seq<Option<i32>>) -> Seq<Option<int>> {
    s.map_values(|o: Option<i32>| opt_int(o))
}

/// The low-pass value of node `k` of the tree over `leaves`
/// (for a leaf: the leaf itself).
pub open spec fn node_value(leaves: Seq<Option<int>>, k: int) -> Option<int>
    decreases 2 * leaves.len() - k,
{
    let n = leaves.len() as int;
    if k < 1 || k >= 2 * n {
        None
    } else if k >= n {
        leaves[k - n]
    } else {
        let l = node_value(leaves, 2 * k);
        let r = node_value(leaves, 2 * k + 1);
        low_opt(r, diff_opt(l, r))
    }
}

/// The high-pass coefficient of interior node `k`.
pub open spec fn high(leaves: Seq<Option<int>>, k: int) -> Option<int> {
    diff_opt(node_value(leaves, 2 * k), node_value(leaves, 2 * k + 1))
}

/// The coefficients of the analysis: slot 0 holds the root's low-pass value,
/// slot `k` in `1..n` the high-pass value of node `k`.
pub open spec fn coefficient(leaves: Seq<Option<int>>, k: int) -> Option<int> {
    if k == 0 {
        node_value(leaves, 1)
    } else {
        high(leaves, k)
    }
}

/// What synthesis gives node `k` from the coefficients `c`.
pub open spec fn rebuilt(c: Seq<Option<int>>, k: int) -> int
    decreases k,
{
    if k <= 1 {
        match c[0] {
            Some(v) => v,
            None => 0,
        }
    } else {
        let p = k / 2;
        match c[p] {
            None => 0,
            Some(d) => {
                let r = rebuilt(c, p) - half(d);
                if k % 2 == 0 {
                    d + r
                } else {
                    r
                }
            },
        }
    }
}

pub open spec fn is_byte(o: Option<int>) -> bool {
    o matches Some(v) ==> 0 <= v <= 255
}

pub proof fn lemma_half(h: int)
    ensures
        h >= 0 ==> 0 <= half(h) <= h,
        h < 0 ==> h <= half(h) <= 0,
        half(-h) == -half(h),
{
}

/// On bytes, every low-pass value stays a byte and every high-pass value
/// lies in `-255..=255`.
pub proof fn lemma_node_bounds(leaves: Seq<Option<int>>, k: int)
    requires
        forall|j: int| 0 <= j < leaves.len() ==> is_byte(#[trigger] leaves[j]),
    ensures
        is_byte(node_value(leaves, k)),
        1 <= k < leaves.len() ==> (high(leaves, k) matches Some(h) ==> -255 <= h <= 255),
    decreases 2 * leaves.len() - k,
{
    let n = leaves.len() as int;
    if 1 <= k < n {
        lemma_node_bounds(leaves, 2 * k);
        lemma_node_bounds(leaves, 2 * k + 1);
        let l = node_value(leaves, 2 * k);
        let r = node_value(leaves, 2 * k + 1);
        match (l, r) {
            (Some(a), Some(b)) => {
                lemma_half(a - b);
            },
            (Some(a), None) => {
                lemma_half(a);
            },
            (None, Some(b)) => {
                lemma_half(-b);
            },
            (None, None) => {},
        }
    }
}

/// A present child has a present parent with a present coefficient.
proof fn lemma_parent_present(leaves: Seq<Option<int>>, k: int)
    requires
        2 <= k < 2 * leaves.len(),
        node_value(leaves, k) is Some,
    ensures
        node_value(leaves, k / 2) is Some,
        high(leaves, k / 2) is Some,
{
    let p = k / 2;
    assert(k == 2 * p || k == 2 * p + 1);
    assert(1 <= p < leaves.len());
}

/// Synthesis inverts analysis: rebuilding from the coefficients of the
/// analysis gives back every present node, and so every present leaf.
pub proof fn lemma_lifting_round_trip(leaves: Seq<Option<int>>, c: Seq<Option<int>>, k: int)
    requires
        c.len() == leaves.len(),
        forall|j: int| 0 <= j < c.len() ==> #[trigger] c[j] == coefficient(leaves, j),
        1 <= k < 2 * leaves.len(),
        node_value(leaves, k) is Some,
    ensures
        rebuilt(c, k) == node_value(leaves, k)->Some_0,
    decreases k,
{
    if k >= 2 {
        let p = k / 2;
        lemma_parent_present(leaves, k);
        lemma_lifting_round_trip(leaves, c, p);
        assert(c[p] == high(leaves, p));
        let l = node_value(leaves, 2 * p);
        let r = node_value(leaves, 2 * p + 1);
        assert(node_value(leaves, p) == low_opt(r, diff_opt(l, r)));
        match (l, r) {
            (Some(a), Some(b)) => {},
            (Some(a), None) => {},
            (None, Some(b)) => {
                lemma_half(b);
            },
            (None, None) => {},
        }
    } else {
        assert(c[0] == coefficient(leaves, 0));
    }
}

pub fn half_i32(h: i32) -> (r: i32)
    ensures
        r == half(h as int),
{
    if h >= 0 {
        h / 2
    } else {
        let m: i64 = -(h as i64);
        (-(m / 2)) as i32
    }
}

/// Analysis: the coefficients of the tree over byte-valued `leaves`.
pub fn analyze(leaves: &Vec<Option<i32>>) -> (c: Vec<Option<i32>>)
    requires
        1 <= leaves@.len() <= 0x10000,
        forall|j: int| 0 <= j < leaves@.len() ==> is_byte(opt_int(#[trigger] leaves@[j])),
    ensures
        c@.len() == leaves@.len(),
        forall|k: int|
            0 <= k < c@.len() ==> opt_int(#[trigger] c@[k]) == coefficient(
                opt_ints(leaves@),
                k,
            ),
{
    let ghost lv = opt_ints(leaves@);
    let n = leaves.len();
    let mut vals: Vec<Option<i32>> = vec![None; n];
    let mut j: usize = 0;
    while j < n
        invariant
            n == leaves@.len(),
            j <= n,
            vals@.len() == n + j,
            forall|m: int| n <= m < n + j ==> vals@[m] == leaves@[m - n],
        decreases n - j,
    {
        vals.push(leaves[j]);
        j = j + 1;
    }
    let mut c: Vec<Option<i32>> = vec![None; n];
    let mut k: usize = n - 1;
    proof {
        assert forall|m: int| n <= m < 2 * n implies opt_int(vals@[m]) == node_value(lv, m) by {
            assert(lv[m - n] == opt_int(leaves@[m - n]));
        }
        assert forall|j: int| 0 <= j < lv.len() implies is_byte(#[trigger] lv[j]) by {
            assert(lv[j] == opt_int(leaves@[j]));
        }
    }
    while k >= 1
        invariant
            n == leaves@.len(),
            1 <= n <= 0x10000,
            lv == opt_ints(leaves@),
            forall|j: int| 0 <= j < lv.len() ==> is_byte(#[trigger] lv[j]),
            k < n,
            vals@.len() == 2 * n,
            c@.len() == n,
            forall|m: int| k < m < 2 * n ==> opt_int(#[trigger] vals@[m]) == node_value(lv, m),
            forall|m: int| k < m < n ==> opt_int(#[trigger] c@[m]) == high(lv, m),
        decreases k,
    {
        proof {
            lemma_node_bounds(lv, 2 * k as int);
            lemma_node_bounds(lv, 2 * k as int + 1);
            lemma_node_bounds(lv, k as int);
        }
        let l = vals[2 * k];
        let r = vals[2 * k + 1];
        let h: Option<i32> = match (l, r) {
            (Some(a), Some(b)) => Some(a - b),
            (Some(a), None) => Some(a),
            (None, Some(b)) => Some(-b),
            (None, None) => None,
        };
        let lp: Option<i32> = match (r, h) {
            (Some(a), Some(b)) => Some(a + half_i32(b)),
            (Some(a), None) => Some(a),
            (None, Some(b)) => Some(half_i32(b)),
            (None, None) => None,
        };
        c.set(k, h);
        vals.set(k, lp);
        k = k - 1;
    }
    proof {
        lemma_node_bounds(lv, 1);
    }
    c.set(0, vals[1]);
    assert forall|m: int| 0 <= m < c@.len() implies opt_int(#[trigger] c@[m]) == coefficient(
        opt_ints(leaves@),
        m,
    ) by {}
    c
}

/// Coefficients handed to synthesis stay within this bound.
pub const COEF_LIMIT: i32 = 0x10_0000;

pub open spec fn coefs_bounded(c: Seq<Option<i32>>) -> bool {
    forall|j: int| 0 <= j < c.len() ==> (#[trigger] c[j] matches Some(v) ==> -COEF_LIMIT <= v <= COEF_LIMIT)
}

/// The value synthesis gives leaf `j` (of `n`), present when its parent's
/// coefficient is.
pub open spec fn rebuilt_leaf(c: Seq<Option<int>>, j: int) -> Option<int> {
    let n = c.len() as int;
    if c[(n + j) / 2] is Some {
        Some(rebuilt(c, n + j))
    } else {
        None
    }
}

proof fn lemma_rebuilt_bound(c: Seq<Option<int>>, k: int)
    requires
        1 <= k,
        k / 2 < c.len(),
        c.len() >= 1,
        forall|j: int| 0 <= j < c.len() ==> (#[trigger] c[j] matches Some(v) ==> -COEF_LIMIT <= v <= COEF_LIMIT),
    ensures
        -0x20_0000 * k <= rebuilt(c, k) <= 0x20_0000 * k,
    decreases k,
{
    if k >= 2 {
        let p = k / 2;
        lemma_rebuilt_bound(c, p);
        assert(0x20_0000 * p + 0x20_0000 <= 0x20_0000 * k);
        match c[p] {
            None => {},
            Some(d) => {
                assert(-COEF_LIMIT <= d <= COEF_LIMIT);
                lemma_half(d);
                let r = rebuilt(c, p) - half(d);
                assert(rebuilt(c, k) == if k % 2 == 0 { d + r } else { r });
            },
        }
    } else {
        assert(c[0] matches Some(v) ==> -COEF_LIMIT <= v <= COEF_LIMIT);
    }
}

/// Synthesis: the leaf values rebuilt from the coefficients `c`.
pub fn synthesize(c: &Vec<Option<i32>>) -> (leaves: Vec<Option<i64>>)
    requires
        1 <= c@.len() <= 0x10000,
        coefs_bounded(c@),
    ensures
        leaves@.len() == c@.len(),
        forall|j: int|
            0 <= j < leaves@.len() ==> (match #[trigger] leaves@[j] {
                Some(v) => rebuilt_leaf(opt_ints(c@), j) == Some(
                    v as int,
                ),
                None => rebuilt_leaf(opt_ints(c@), j) is None,
            }),
{
    let ghost cv = opt_ints(c@);
    let n = c.len();
    let mut rec: Vec<i64> = vec![0i64; 2 * n];
    let root: i64 = match c[0] {
        Some(v) => v as i64,
        None => 0,
    };
    rec.set(1, root);
    let mut k: usize = 2;
    proof {
        assert(cv[0] == opt_int(c@[0]));
    }
    while k < 2 * n
        invariant
            n == c@.len(),
            1 <= n <= 0x10000,
            coefs_bounded(c@),
            cv == opt_ints(c@),
            2 <= k <= 2 * n,
            rec@.len() == 2 * n,
            forall|m: int| 1 <= m < k ==> #[trigger] rec@[m] == rebuilt(cv, m),
        decreases 2 * n - k,
    {
        let p = k / 2;
        proof {
            assert(cv[p as int] == opt_int(c@[p as int]));
            assert forall|j: int| 0 <= j < cv.len() implies (#[trigger] cv[j] matches Some(v)
                ==> -COEF_LIMIT <= v <= COEF_LIMIT) by {
                assert(cv[j] == opt_int(c@[j]));
            }
            lemma_rebuilt_bound(cv, p as int);
        }
        let v: i64 = match c[p] {
            None => 0,
            Some(d) => {
                let r = rec[p] - half_i32(d) as i64;
                if k % 2 == 0 {
                    d as i64 + r
                } else {
                    r
                }
            },
        };
        rec.set(k, v);
        k = k + 1;
    }
    let mut leaves: Vec<Option<i64>> = Vec::new();
    let mut j: usize = 0;
    while j < n
        invariant
            n == c@.len(),
            1 <= n <= 0x10000,
            cv == opt_ints(c@),
            j <= n,
            rec@.len() == 2 * n,
            forall|m: int| 1 <= m < 2 * n ==> #[trigger] rec@[m] == rebuilt(cv, m),
            leaves@.len() == j,
            forall|i: int|
                0 <= i < j ==> (match #[trigger] leaves@[i] {
                    Some(v) => rebuilt_leaf(cv, i) == Some(v as int),
                    None => rebuilt_leaf(cv, i) is None,
                }),
        decreases n - j,
    {
        let p = (n + j) / 2;
        proof {
            assert(cv[p as int] == opt_int(c@[p as int]));
        }
        if c[p].is_some() {
            leaves.push(Some(rec[n + j]));
        } else {
            leaves.push(None);
        }
        j = j + 1;
    }
    leaves
}

} // verus!

//! Context selection and prediction: from the already coded neighbourhood
//! of a coefficient, the rANS bucket it is coded in and its predicted value.
use crate::cell::{lemma_p2_16, lemma_p2_grows, lemma_pos_near, p2, Fractal, BASE_FRAC_DEPTH, MAX_DEPTH};
use crate::utils::{coord_key, key_of, Coord};
use crate::wavelet::{
    cell_ok, down_left_of, down_right_of, gpm_level_ok, left_of, pos_ok, right_of, up_left_of,
    up_right_of, WaveletImage,
};
use crate::images::channels_of;
use vstd::prelude::*;

verus! {

broadcast use vstd::std_specs::hash::group_hash_axioms;

/// The number of buckets (rANS contexts) per channel.
pub const CONTEXT_AMOUNT: usize = 10;

/// Predictor parameters are fixed-point numbers with this many fractional bits.
pub const PARAM_FRAC_BITS: u32 = 16;

/// Predictions of a bounded state stay within this bound.
pub const PRED_BOUND: i64 = 0x400_0000_0000;

/// Coefficients of a coding state stay within this bound.
pub const STATE_LIMIT: i32 = 0x10_0000;

/// The bucket of a width estimate.
pub open spec fn bucket_spec(w: int) -> usize {
    if w < 3 {
        0
    } else if w < 5 {
        1
    } else if w < 6 {
        2
    } else if w < 8 {
        3
    } else if w < 12 {
        4
    } else if w < 16 {
        5
    } else if w < 20 {
        6
    } else if w < 25 {
        7
    } else if w < 30 {
        8
    } else {
        9
    }
}

pub fn assign_bucket(width: i64) -> (r: usize)
    ensures
        r == bucket_spec(width as int),
        r < CONTEXT_AMOUNT,
{
    if width < 3 {
        0
    } else if width < 5 {
        1
    } else if width < 6 {
        2
    } else if width < 8 {
        3
    } else if width < 12 {
        4
    } else if width < 16 {
        5
    } else if width < 20 {
        6
    } else if width < 25 {
        7
    } else if width < 30 {
        8
    } else {
        9
    }
}

/// A fixed-point sum rounded down to an integer.
pub open spec fn qfloor(a: int) -> int {
    if a >= 0 {
        a / 65536
    } else {
        -((-a + 65535) / 65536)
    }
}

fn qfloor_exec(a: i64) -> (r: i64)
    requires
        -0x200_0000_0000_0000 <= a <= 0x200_0000_0000_0000,
    ensures
        r == qfloor(a as int),
        -PRED_BOUND <= r <= PRED_BOUND,
{
    if a >= 0 {
        a / 65536
    } else {
        -((-a + 65535) / 65536)
    }
}


pub open spec fn slot_value(o: Option<i32>) -> int {
    match o {
        Some(v) => v as int,
        None => 0,
    }
}

pub open spec fn view_state(s: Seq<Vec<Option<i32>>>) -> Seq<Seq<Option<i32>>> {
    s.map_values(|v: Vec<Option<i32>>| v@)
}

/// A coding state of one channel: per tile, its coefficient slots, as far
/// as they are known.
pub open spec fn state_ok(img: WaveletImage, state: Seq<Seq<Option<i32>>>) -> bool {
    &&& state.len() == img.fractal_lattice@.len()
    &&& forall|j: int|
        0 <= j < state.len() ==> (#[trigger] state[j]).len() == p2(BASE_FRAC_DEPTH as nat)
    &&& forall|j: int, k: int|
        0 <= j < state.len() && 0 <= k < state[j].len() ==> (#[trigger] state[j][k] matches Some(v)
            ==> -STATE_LIMIT <= v <= STATE_LIMIT)
}

/// The value the coefficient at pixel `pos` of level `l` has in the state
/// (its parent's when `parent`), 0 where there is none.
pub open spec fn tap_spec(img: WaveletImage, state: Seq<Seq<Option<i32>>>, l: int, pos: Coord, parent: bool) -> int {
    let key = key_of(pos);
    let gm = img.global_position_map@[l]@;
    if gm.contains_key(key) {
        let j = gm[key] as int;
        let pm = img.fractal_lattice@[j].position_map@[l]@;
        if pm.contains_key(key) {
            let loc = pm[key] as int;
            let idx = if parent { loc / 2 } else { loc };
            slot_value(state[j][idx])
        } else {
            0
        }
    } else {
        0
    }
}

fn tap(img: &WaveletImage, state: &Vec<Vec<Option<i32>>>, l: usize, pos: Coord, parent: bool) -> (r: i32)
    requires
        img.wf(),
        state_ok(*img, view_state(state@)),
        l < BASE_FRAC_DEPTH,
    ensures
        r == tap_spec(*img, view_state(state@), l as int, pos, parent),
        -STATE_LIMIT <= r <= STATE_LIMIT,
{
    let key = coord_key(pos);
    proof {
        assert(gpm_level_ok(img.fractal_lattice@, img.global_position_map@[l as int]@, l as int));
    }
    match img.global_position_map[l].get(&key) {
        Some(j) => {
            let j = *j;
            let cell = &img.fractal_lattice[j];
            proof {
                assert(cell_ok(*cell, channels_of(img.metadata.colorspace)));
                assert(cell.level_map_ok(l as int));
                lemma_p2_grows((l + 1) as nat, BASE_FRAC_DEPTH as nat);
            }
            match cell.position_map[l].get(&key) {
                Some(loc) => {
                    let idx = if parent {
                        *loc / 2
                    } else {
                        *loc
                    };
                    assert(view_state(state@)[j as int] == state@[j as int]@);
                    match state[j][idx] {
                        Some(v) => v,
                        None => 0,
                    }
                },
                None => 0,
            }
        },
        None => 0,
    }
}

/// The six taps of a coefficient at pixel `pos` of level `l >= 1`: the
/// left, up-left and up-right coefficients of its level, then the parents
/// of the right, down-left and down-right ones.
pub open spec fn taps_spec(img: WaveletImage, state: Seq<Seq<Option<i32>>>, l: int, pos: Coord) -> Seq<int> {
    let d = BASE_FRAC_DEPTH - l;
    let g = img.global_position_map@;
    seq![
        tap_spec(img, state, l, left_of(pos, d), false),
        tap_spec(img, state, l, up_left_of(g, pos, d), false),
        tap_spec(img, state, l, up_right_of(g, pos, d), false),
        tap_spec(img, state, l, right_of(pos, d), true),
        tap_spec(img, state, l, down_left_of(g, pos, d), true),
        tap_spec(img, state, l, down_right_of(g, pos, d), true),
    ]
}

pub open spec fn taps_bounded(t: Seq<int>) -> bool {
    t.len() == 6 && forall|i: int| 0 <= i < 6 ==> -STATE_LIMIT <= #[trigger] t[i] <= STATE_LIMIT
}

/// The neighbourhood values of the coefficient at pixel `image_position` of
/// level `current_depth`.
pub fn get_neighbour_values(
    img: &WaveletImage,
    state: &Vec<Vec<Option<i32>>>,
    image_position: Coord,
    current_depth: u8,
) -> (r: Vec<i32>)
    requires
        img.wf(),
        state_ok(*img, view_state(state@)),
        1 <= current_depth < BASE_FRAC_DEPTH,
        pos_ok(image_position),
    ensures
        r@.len() == 6,
        forall|i: int| 0 <= i < 6 ==> r@[i] as int == #[trigger] taps_spec(*img, view_state(state@), current_depth as int, image_position)[i],
        taps_bounded(taps_spec(*img, view_state(state@), current_depth as int, image_position)),
{
    let l = current_depth as usize;
    let d = BASE_FRAC_DEPTH - current_depth;
    let g = &img.global_position_map;
    let r = vec![
        tap(img, state, l, Fractal::get_left(image_position, d, g), false),
        tap(img, state, l, Fractal::get_up_left(image_position, d, g), false),
        tap(img, state, l, Fractal::get_up_right(image_position, d, g), false),
        tap(img, state, l, Fractal::get_right(image_position, d, g), true),
        tap(img, state, l, Fractal::get_down_left(image_position, d, g), true),
        tap(img, state, l, Fractal::get_down_right(image_position, d, g), true),
    ];
    r
}


pub open spec fn max_spec(a: int, b: int) -> int {
    if a >= b {
        a
    } else {
        b
    }
}

pub open spec fn min_spec(a: int, b: int) -> int {
    if a <= b {
        a
    } else {
        b
    }
}

/// The median predictor of LOCO-I: `med(a, c)` clamped by `b`.
pub open spec fn median_spec(a: int, b: int, c: int) -> int {
    if b >= max_spec(a, c) {
        max_spec(a, c)
    } else if b <= min_spec(a, c) {
        min_spec(a, c)
    } else {
        a + c - b
    }
}

/// The slot `position` of the tile centered at `pos`, 0 where there is none.
pub open spec fn lf_tap_spec(img: WaveletImage, state: Seq<Seq<Option<i32>>>, pos: Coord, position: int) -> int {
    let key = key_of(pos);
    let gm = img.global_position_map@[0]@;
    if gm.contains_key(key) {
        slot_value(state[gm[key] as int][position])
    } else {
        0
    }
}

/// Low-frequency slots (0 and 1) of tile `j`: bucket 0, and the median of
/// the same slot of the left, up-left and up-right tiles.
pub open spec fn lf_spec(img: WaveletImage, state: Seq<Seq<Option<i32>>>, j: int, position: int) -> (usize, int) {
    let c = img.fractal_lattice@[j].image_positions@[position];
    let d = BASE_FRAC_DEPTH as int;
    let g = img.global_position_map@;
    let n0 = lf_tap_spec(img, state, left_of(c, d), position);
    let n1 = lf_tap_spec(img, state, up_left_of(g, c, d), position);
    let n2 = lf_tap_spec(img, state, up_right_of(g, c, d), position);
    (0, median_spec(n0, n1, n2))
}

fn lf_tap(img: &WaveletImage, state: &Vec<Vec<Option<i32>>>, pos: Coord, position: usize) -> (r: i32)
    requires
        img.wf(),
        state_ok(*img, view_state(state@)),
        position < 2,
    ensures
        r == lf_tap_spec(*img, view_state(state@), pos, position as int),
        -STATE_LIMIT <= r <= STATE_LIMIT,
{
    proof {
        assert(gpm_level_ok(img.fractal_lattice@, img.global_position_map@[0]@, 0));
        lemma_p2_grows(1, BASE_FRAC_DEPTH as nat);
    }
    match img.global_position_map[0].get(&coord_key(pos)) {
        Some(j) => {
            assert(view_state(state@)[*j as int] == state@[*j as int]@);
            match state[*j][position] {
                Some(v) => v,
                None => 0,
            }
        },
        None => 0,
    }
}


pub proof fn lemma_cell_position(img: WaveletImage, j: int, i: int)
    requires
        img.wf(),
        0 <= j < img.fractal_lattice@.len(),
        0 <= i < 2 * p2(BASE_FRAC_DEPTH as nat),
    ensures
        pos_ok(img.fractal_lattice@[j].image_positions@[i]),
{
    let cell = img.fractal_lattice@[j];
    assert(cell_ok(cell, channels_of(img.metadata.colorspace)));
    lemma_p2_grows(BASE_FRAC_DEPTH as nat, MAX_DEPTH as nat);
    lemma_p2_16();
    if i >= 1 {
        lemma_pos_near(cell.center, BASE_FRAC_DEPTH as nat, i);
        assert(200 * i <= 200 * 0x20000);
    }
}

/// The low-frequency context of slot `position` of tile `j`.
pub fn get_lf_context_bucket(
    img: &WaveletImage,
    state: &Vec<Vec<Option<i32>>>,
    j: usize,
    position: usize,
) -> (r: (usize, i64))
    requires
        img.wf(),
        state_ok(*img, view_state(state@)),
        j < img.fractal_lattice@.len(),
        position < 2,
    ensures
        r.0 as int == lf_spec(*img, view_state(state@), j as int, position as int).0,
        r.1 as int == lf_spec(*img, view_state(state@), j as int, position as int).1,
        -PRED_BOUND <= r.1 <= PRED_BOUND,
{
    proof {
        lemma_p2_grows(1, BASE_FRAC_DEPTH as nat);
        lemma_cell_position(*img, j as int, position as int);
        assert(cell_ok(img.fractal_lattice@[j as int], channels_of(img.metadata.colorspace)));
    }
    let c = img.fractal_lattice[j].image_positions[position];
    let g = &img.global_position_map;
    let n0 = lf_tap(img, state, Fractal::get_left(c, BASE_FRAC_DEPTH, g), position) as i64;
    let n1 = lf_tap(img, state, Fractal::get_up_left(c, BASE_FRAC_DEPTH, g), position) as i64;
    let n2 = lf_tap(img, state, Fractal::get_up_right(c, BASE_FRAC_DEPTH, g), position) as i64;
    let hi = if n0 >= n2 {
        n0
    } else {
        n2
    };
    let lo = if n0 <= n2 {
        n0
    } else {
        n2
    };
    let prediction = if n1 >= hi {
        hi
    } else if n1 <= lo {
        lo
    } else {
        n0 + n2 - n1
    };
    (0, prediction)
}

/// The parameter group of level `l`: 0 for the deepest level, 1 for the one
/// above it, 2 for all others.
pub open spec fn group_of(l: int) -> int {
    if l < BASE_FRAC_DEPTH - 2 {
        2
    } else if l == BASE_FRAC_DEPTH - 2 {
        1
    } else {
        0
    }
}

pub open spec fn abs_spec(a: int) -> int {
    if a < 0 {
        -a
    } else {
        a
    }
}

/// The width regressors: a constant and five absolute tap differences.
pub open spec fn gradients(t: Seq<int>) -> Seq<int> {
    seq![
        1,
        abs_spec(t[0] - t[3]),
        abs_spec(t[1] - t[2]),
        abs_spec(t[4] - t[5]),
        abs_spec(t[1] - t[5]),
        abs_spec(t[2] - t[4]),
    ]
}

/// The fixed-point dot product of parameters `p[off..off + 6]` with `t`.
pub open spec fn dot(p: Seq<i32>, off: int, t: Seq<int>) -> int {
    p[off] * t[0] + p[off + 1] * t[1] + p[off + 2] * t[2] + p[off + 3] * t[3] + p[off + 4] * t[4]
        + p[off + 5] * t[5]
}

/// High-frequency coefficient at pixel `pos` of level `l`: the bucket of the
/// width estimate and the clamped value prediction, both rounded down.
pub open spec fn hf_spec(
    img: WaveletImage,
    state: Seq<Seq<Option<i32>>>,
    l: int,
    pos: Coord,
    vp: Seq<i32>,
    wp: Seq<i32>,
) -> (usize, int) {
    let t = taps_spec(img, state, l, pos);
    let g = group_of(l);
    (bucket_spec(qfloor(dot(wp, 6 * g, gradients(t)))), qfloor(dot(vp, 6 * g, t)))
}

proof fn lemma_product(p: i32, t: int)
    requires
        -0x20_0000 <= t <= 0x20_0000,
    ensures
        -0x40_0000_0000_0000 <= p * t <= 0x40_0000_0000_0000,
{
    assert(-0x40_0000_0000_0000 <= p * t <= 0x40_0000_0000_0000) by (nonlinear_arith)
        requires
            -0x20_0000 <= t <= 0x20_0000,
            -0x8000_0000 <= p <= 0x7fff_ffff,
    ;
}

fn dot_exec(p: &Vec<i32>, off: usize, t: &Vec<i64>) -> (r: i64)
    requires
        off + 6 <= p@.len(),
        t@.len() == 6,
        forall|i: int| 0 <= i < 6 ==> -0x20_0000 <= #[trigger] t@[i] <= 0x20_0000,
    ensures
        r == dot(p@, off as int, t@.map_values(|v: i64| v as int)),
        -0x200_0000_0000_0000 <= r <= 0x200_0000_0000_0000,
{
    proof {
        lemma_product(p@[off as int], t@[0] as int);
        lemma_product(p@[off + 1], t@[1] as int);
        lemma_product(p@[off + 2], t@[2] as int);
        lemma_product(p@[off + 3], t@[3] as int);
        lemma_product(p@[off + 4], t@[4] as int);
        lemma_product(p@[off + 5], t@[5] as int);
    }
    let _n = p.len();
    (p[off] as i64) * t[0] + (p[off + 1] as i64) * t[1] + (p[off + 2] as i64) * t[2] + (p[off + 3]
        as i64) * t[3] + (p[off + 4] as i64) * t[4] + (p[off + 5] as i64) * t[5]
}

fn abs_diff(a: i32, b: i32) -> (r: i64)
    requires
        -STATE_LIMIT <= a <= STATE_LIMIT,
        -STATE_LIMIT <= b <= STATE_LIMIT,
    ensures
        r == abs_spec(a - b),
        0 <= r <= 0x20_0000,
{
    let d = a as i64 - b as i64;
    if d < 0 {
        -d
    } else {
        d
    }
}

/// The high-frequency context of the coefficient at pixel `image_position`
/// of level `current_depth`, with the value parameters `vp` and width
/// parameters `wp` of the channel.
pub fn get_hf_context_bucket(
    img: &WaveletImage,
    state: &Vec<Vec<Option<i32>>>,
    image_position: Coord,
    current_depth: u8,
    vp: &Vec<i32>,
    wp: &Vec<i32>,
) -> (r: (usize, i64))
    requires
        img.wf(),
        state_ok(*img, view_state(state@)),
        1 <= current_depth < BASE_FRAC_DEPTH,
        pos_ok(image_position),
        vp@.len() == 18,
        wp@.len() == 18,
    ensures
        r.0 == hf_spec(*img, view_state(state@), current_depth as int, image_position, vp@, wp@).0,
        r.1 as int == hf_spec(*img, view_state(state@), current_depth as int, image_position, vp@, wp@).1,
        r.0 < CONTEXT_AMOUNT,
        -PRED_BOUND <= r.1 <= PRED_BOUND,
{
    let t = get_neighbour_values(img, state, image_position, current_depth);
    let ghost ts = taps_spec(*img, view_state(state@), current_depth as int, image_position);
    let g: usize = if current_depth < BASE_FRAC_DEPTH - 2 {
        2
    } else if current_depth == BASE_FRAC_DEPTH - 2 {
        1
    } else {
        0
    };
    proof {
        assert(ts[0] == t@[0] && ts[1] == t@[1] && ts[2] == t@[2]);
        assert(ts[3] == t@[3] && ts[4] == t@[4] && ts[5] == t@[5]);
    }
    let taps: Vec<i64> = vec![t[0] as i64, t[1] as i64, t[2] as i64, t[3] as i64, t[4] as i64, t[5] as i64];
    let grads: Vec<i64> = vec![
        1,
        abs_diff(t[0], t[3]),
        abs_diff(t[1], t[2]),
        abs_diff(t[4], t[5]),
        abs_diff(t[1], t[5]),
        abs_diff(t[2], t[4]),
    ];
    assert(taps@.map_values(|v: i64| v as int) =~= ts);
    assert(grads@.map_values(|v: i64| v as int) =~= gradients(ts));
    let width = qfloor_exec(dot_exec(wp, 6 * g, &grads));
    let prediction = qfloor_exec(dot_exec(vp, 6 * g, &taps));
    (assign_bucket(width), prediction)
}

} // verus!

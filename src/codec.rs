//! The coding passes over one channel: the scan order of the coefficients,
//! the encoder that turns coefficients into (bucket, symbol) pairs, and the
//! decoder session that turns symbols back into coefficients.
use crate::cell::{lemma_p2_16, lemma_p2_grows, p2, BASE_FRAC_DEPTH, MAX_DEPTH};
use crate::images::channels_of;
use crate::prediction::{
    get_hf_context_bucket, get_lf_context_bucket, hf_spec, lemma_cell_position, lf_spec,
    slot_value, state_ok, view_state, CONTEXT_AMOUNT, PRED_BOUND, STATE_LIMIT,
};
use crate::utils::{lemma_pack_round_trip, pack_signed, pack_spec, unpack_signed, unpack_spec};
use crate::utils::{coord_key, key_of, Coord};
use crate::wavelet::{cell_ok, gpm_level_ok, level_scan, lemma_same_gpm, same_geometry, WaveletImage};
use crate::cell::pos_spec;
use crate::lifting::{coefs_bounded, COEF_LIMIT};
use vstd::prelude::*;

verus! {

/// A coefficient slot: (tree level, tile index, heap index). Level-0 slots
/// are the low-pass root (heap index 0) and the top high-pass node (1).
pub type Slot = (u8, usize, usize);

pub open spec fn slot_ok(img: WaveletImage, s: Slot) -> bool {
    &&& s.1 < img.fractal_lattice@.len()
    &&& if s.0 == 0 {
        s.2 < 2
    } else {
        s.0 < BASE_FRAC_DEPTH && p2(s.0 as nat) <= s.2 < 2 * p2(s.0 as nat)
    }
}

/// The bucket and prediction of a slot in a state.
pub open spec fn predict_spec(
    img: WaveletImage,
    state: Seq<Seq<Option<i32>>>,
    s: Slot,
    vp: Seq<i32>,
    wp: Seq<i32>,
) -> (usize, int) {
    if s.0 == 0 {
        lf_spec(img, state, s.1 as int, s.2 as int)
    } else {
        hf_spec(img, state, s.0 as int, img.fractal_lattice@[s.1 as int].image_positions@[s.2 as int], vp, wp)
    }
}

pub open spec fn params_ok(vp: Seq<i32>, wp: Seq<i32>) -> bool {
    vp.len() == 18 && wp.len() == 18
}

/// The bucket and prediction of slot `s` in the state.
pub fn predict(
    img: &WaveletImage,
    state: &Vec<Vec<Option<i32>>>,
    s: Slot,
    vp: &Vec<i32>,
    wp: &Vec<i32>,
) -> (r: (usize, i64))
    requires
        img.wf(),
        state_ok(*img, view_state(state@)),
        slot_ok(*img, s),
        params_ok(vp@, wp@),
    ensures
        r.0 == predict_spec(*img, view_state(state@), s, vp@, wp@).0,
        r.1 as int == predict_spec(*img, view_state(state@), s, vp@, wp@).1,
        r.0 < CONTEXT_AMOUNT,
        -PRED_BOUND <= r.1 <= PRED_BOUND,
{
    if s.0 == 0 {
        get_lf_context_bucket(img, state, s.1, s.2)
    } else {
        proof {
            lemma_p2_grows((s.0 + 1) as nat, BASE_FRAC_DEPTH as nat);
            lemma_cell_position(*img, s.1 as int, s.2 as int);
            assert(cell_ok(img.fractal_lattice@[s.1 as int], channels_of(img.metadata.colorspace)));
        }
        let pos = img.fractal_lattice[s.1].image_positions[s.2];
        get_hf_context_bucket(img, state, pos, s.0, vp, wp)
    }
}

/// The coefficient of slot `s` in channel `ch`.
pub open spec fn coef_at(img: WaveletImage, ch: int, s: Slot) -> Option<i32> {
    img.fractal_lattice@[s.1 as int].coefficients@[ch]@[s.2 as int]
}

/// The present slot `(l, j, i)` alone, or nothing.
pub open spec fn if_present(img: WaveletImage, ch: int, s: Slot) -> Seq<Slot> {
    if coef_at(img, ch, s) is Some {
        seq![s]
    } else {
        Seq::empty()
    }
}

/// Nodes `lo..i` of level `l` of tile `j`.
pub open spec fn node_slots(img: WaveletImage, ch: int, l: u8, j: int, lo: int, i: int) -> Seq<Slot>
    decreases i - lo,
{
    if i <= lo {
        Seq::empty()
    } else {
        node_slots(img, ch, l, j, lo, i - 1) + if_present(img, ch, (l, j as usize, (i - 1) as usize))
    }
}

/// Level `l` of the first `n` tiles.
pub open spec fn level_slots(img: WaveletImage, ch: int, l: u8, n: nat) -> Seq<Slot>
    decreases n,
{
    if n == 0 {
        Seq::empty()
    } else {
        level_slots(img, ch, l, (n - 1) as nat) + node_slots(
            img,
            ch,
            l,
            n - 1,
            p2(l as nat) as int,
            (2 * p2(l as nat)) as int,
        )
    }
}

/// The slot of the node at pixel `p` of level `l`: its tile from the
/// level's map and its node from the tile's map.
pub open spec fn slot_at(img: WaveletImage, l: int, p: Coord) -> Slot {
    let j = img.global_position_map@[l]@[key_of(p)];
    (l as u8, j, img.fractal_lattice@[j as int].position_map@[l]@[key_of(p)])
}

/// Slot `p` (0 or 1) of the tiles of the first `n` entries of the level-0
/// scan.
pub open spec fn scan_roots(img: WaveletImage, ch: int, p: int, n: nat) -> Seq<Slot>
    decreases n,
{
    if n == 0 {
        Seq::empty()
    } else {
        let c = img.sorted_lattice@[0]@[n - 1];
        scan_roots(img, ch, p, (n - 1) as nat) + if_present(
            img,
            ch,
            (0u8, img.global_position_map@[0]@[key_of(c)], p as usize),
        )
    }
}

/// The present slots of the first `n` entries of the scan of level `l`.
pub open spec fn scan_slots(img: WaveletImage, ch: int, l: int, n: nat) -> Seq<Slot>
    decreases n,
{
    if n == 0 {
        Seq::empty()
    } else {
        scan_slots(img, ch, l, (n - 1) as nat) + if_present(img, ch, slot_at(img, l, img.sorted_lattice@[l]@[n - 1]))
    }
}

/// Levels `1..top`, each in its scan order.
pub open spec fn scan_levels(img: WaveletImage, ch: int, top: nat) -> Seq<Slot>
    decreases top,
{
    if top <= 1 {
        Seq::empty()
    } else {
        scan_levels(img, ch, (top - 1) as nat) + scan_slots(
            img,
            ch,
            top - 1,
            img.sorted_lattice@[top - 1]@.len(),
        )
    }
}

/// The coding order of channel `ch`: the root of every tile in the scan
/// order of level 0, then every top high-pass node in that order, then
/// level by level every present coefficient in its level's raster scan.
pub open spec fn order_spec(img: WaveletImage, ch: int) -> Seq<Slot> {
    let n0 = img.sorted_lattice@[0]@.len();
    scan_roots(img, ch, 0, n0) + scan_roots(img, ch, 1, n0) + scan_levels(img, ch, BASE_FRAC_DEPTH as nat)
}

pub fn coding_order(img: &WaveletImage, ch: usize) -> (r: Vec<Slot>)
    requires
        img.wf(),
        ch < channels_of(img.metadata.colorspace),
    ensures
        r@ == order_spec(*img, ch as int),
        forall|k: int| 0 <= k < r@.len() ==> slot_ok(*img, #[trigger] r@[k]),
        forall|k: int| 0 <= k < r@.len() ==> coef_at(*img, ch as int, #[trigger] r@[k]) is Some,
{
    proof {
        lemma_p2_grows(1, BASE_FRAC_DEPTH as nat);
        lemma_p2_grows(BASE_FRAC_DEPTH as nat, MAX_DEPTH as nat);
        lemma_p2_16();
    }
    let mut r: Vec<Slot> = Vec::new();
    let mut level: usize = 0;
    let mut phase: usize = 0;
    let ghost n0 = img.sorted_lattice@[0]@.len();
    // Phases 0 and 1 walk level 0 for slots 0 and 1; phases 2.. walk the
    // levels 1..BASE_FRAC_DEPTH.
    while phase < BASE_FRAC_DEPTH as usize + 1
        invariant
            img.wf(),
            ch < channels_of(img.metadata.colorspace),
            2 <= p2(BASE_FRAC_DEPTH as nat) <= 65536,
            phase <= BASE_FRAC_DEPTH + 1,
            n0 == img.sorted_lattice@[0]@.len(),
            r@ == if phase == 0 {
                Seq::empty()
            } else if phase == 1 {
                scan_roots(*img, ch as int, 0, n0)
            } else {
                scan_roots(*img, ch as int, 0, n0) + scan_roots(*img, ch as int, 1, n0) + scan_levels(
                    *img,
                    ch as int,
                    (phase - 1) as nat,
                )
            },
            forall|k: int| 0 <= k < r@.len() ==> slot_ok(*img, #[trigger] r@[k]),
            forall|k: int| 0 <= k < r@.len() ==> coef_at(*img, ch as int, #[trigger] r@[k]) is Some,
        decreases BASE_FRAC_DEPTH + 1 - phase,
    {
        level = if phase < 2 {
            0
        } else {
            phase - 1
        };
        let layer = &img.sorted_lattice[level];
        let gm = &img.global_position_map[level];
        let ghost start = r@;
        proof {
            assert(img.sorted_lattice@[level as int]@ == level_scan(img.metadata, img.global_position_map@[level as int]@));
            crate::wavelet::lemma_level_scan_distinct(img.metadata, img.global_position_map@[level as int]@);
            assert(gpm_level_ok(img.fractal_lattice@, img.global_position_map@[level as int]@, level as int));
            lemma_p2_grows((level + 1) as nat, BASE_FRAC_DEPTH as nat);
        }
        let mut t: usize = 0;
        while t < layer.len()
            invariant
                img.wf(),
                ch < channels_of(img.metadata.colorspace),
                2 <= p2(BASE_FRAC_DEPTH as nat) <= 65536,
                phase < BASE_FRAC_DEPTH + 1,
                level == if phase < 2 { 0 } else { phase - 1 },
                level < BASE_FRAC_DEPTH,
                p2((level + 1) as nat) <= p2(BASE_FRAC_DEPTH as nat),
                *layer == img.sorted_lattice@[level as int],
                *gm == img.global_position_map@[level as int],
                forall|i: int| 0 <= i < layer@.len() ==> gm@.contains_key(key_of(#[trigger] layer@[i])),
                gpm_level_ok(img.fractal_lattice@, gm@, level as int),
                t <= layer@.len(),
                r@ == start + if phase < 2 {
                    scan_roots(*img, ch as int, phase as int, t as nat)
                } else {
                    scan_slots(*img, ch as int, level as int, t as nat)
                },
                forall|k: int| 0 <= k < r@.len() ==> slot_ok(*img, #[trigger] r@[k]),
                forall|k: int| 0 <= k < r@.len() ==> coef_at(*img, ch as int, #[trigger] r@[k]) is Some,
            decreases layer@.len() - t,
        {
            let pos = layer[t];
            let key = coord_key(pos);
            proof {
                assert(gm@.contains_key(key_of(layer@[t as int])));
            }
            let j: usize = match gm.get(&key) {
                Some(j) => *j,
                None => {
                    proof {
                        assert(false);
                    }
                    0
                },
            };
            let cell = &img.fractal_lattice[j];
            proof {
                assert(cell_ok(*cell, channels_of(img.metadata.colorspace)));
                assert(cell.coefficients@[ch as int]@.len() == p2(BASE_FRAC_DEPTH as nat));
                assert(cell.level_map_ok(level as int));
            }
            if phase < 2 {
                if cell.coefficients[ch][phase].is_some() {
                    r.push((0u8, j, phase));
                }
            } else {
                let i: usize = match cell.position_map[level].get(&key) {
                    Some(i) => *i,
                    None => {
                        proof {
                            assert(false);
                        }
                        0
                    },
                };
                if cell.coefficients[ch][i].is_some() {
                    r.push((level as u8, j, i));
                }
            }
            proof {
                if phase < 2 {
                    assert(r@ =~= start + scan_roots(*img, ch as int, phase as int, (t + 1) as nat));
                } else {
                    assert(r@ =~= start + scan_slots(*img, ch as int, level as int, (t + 1) as nat));
                }
            }
            t = t + 1;
        }
        proof {
            if phase == 0 {
                assert(r@ =~= scan_roots(*img, ch as int, 0, n0));
            } else if phase == 1 {
                assert(r@ =~= scan_roots(*img, ch as int, 0, n0) + scan_roots(*img, ch as int, 1, n0) + scan_levels(
                    *img,
                    ch as int,
                    1,
                ));
            } else {
                assert(r@ =~= scan_roots(*img, ch as int, 0, n0) + scan_roots(*img, ch as int, 1, n0) + scan_levels(
                    *img,
                    ch as int,
                    phase as nat,
                ));
            }
        }
        phase = phase + 1;
    }
    r
}


/// The state both sides start from: every present slot of the channel
/// holds 0.
pub open spec fn zeroed(img: WaveletImage, ch: int) -> Seq<Seq<Option<i32>>> {
    Seq::new(
        img.fractal_lattice@.len(),
        |j: int|
            Seq::new(
                p2(BASE_FRAC_DEPTH as nat),
                |i: int|
                    match img.fractal_lattice@[j].coefficients@[ch]@[i] {
                        Some(_) => Some(0i32),
                        None => None,
                    },
            ),
    )
}

pub open spec fn set_slot(st: Seq<Seq<Option<i32>>>, s: Slot, v: int) -> Seq<Seq<Option<i32>>> {
    st.update(s.1 as int, st[s.1 as int].update(s.2 as int, Some(v as i32)))
}

/// The state after the first `k` slots of `order` took the values `vals`.
pub open spec fn apply(base: Seq<Seq<Option<i32>>>, order: Seq<Slot>, vals: Seq<int>, k: nat) -> Seq<Seq<Option<i32>>>
    decreases k,
{
    if k == 0 {
        base
    } else {
        set_slot(apply(base, order, vals, (k - 1) as nat), order[k - 1], vals[k - 1])
    }
}

/// The coefficients of channel `ch` in scan order.
pub open spec fn truths(img: WaveletImage, ch: int, order: Seq<Slot>) -> Seq<int> {
    Seq::new(order.len(), |k: int| slot_value(coef_at(img, ch, order[k])))
}

/// The residual of the `k`-th slot against its prediction in the state of
/// the slots coded before it.
pub open spec fn residual(img: WaveletImage, ch: int, order: Seq<Slot>, vp: Seq<i32>, wp: Seq<i32>, k: int) -> int {
    let st = apply(zeroed(img, ch), order, truths(img, ch, order), k as nat);
    truths(img, ch, order)[k] - predict_spec(img, st, order[k], vp, wp).1
}

/// The residuals of the first `n` slots lie in the alphabet's range
/// `-512..=511`.
pub open spec fn residuals_fit(img: WaveletImage, ch: int, order: Seq<Slot>, vp: Seq<i32>, wp: Seq<i32>, n: int) -> bool {
    forall|k: int| 0 <= k < n ==> -512 <= #[trigger] residual(img, ch, order, vp, wp, k) <= 511
}

/// What the encoder emits for the `k`-th slot: the bucket chosen in the
/// state of the coefficients coded so far, and the packed residual.
pub open spec fn enc_symbol(img: WaveletImage, ch: int, order: Seq<Slot>, vp: Seq<i32>, wp: Seq<i32>, k: int) -> (usize, int) {
    let st = apply(zeroed(img, ch), order, truths(img, ch, order), k as nat);
    let pr = predict_spec(img, st, order[k], vp, wp);
    (pr.0, pack_spec(truths(img, ch, order)[k] - pr.1))
}

/// The values the decoder gives the first `k` slots of `order` from the
/// symbols `syms`, starting from the state `base`.
pub open spec fn dec_values(
    img: WaveletImage,
    base: Seq<Seq<Option<i32>>>,
    order: Seq<Slot>,
    syms: Seq<u32>,
    vp: Seq<i32>,
    wp: Seq<i32>,
    k: nat,
) -> Seq<int>
    decreases k,
{
    if k == 0 {
        Seq::empty()
    } else {
        let prev = dec_values(img, base, order, syms, vp, wp, (k - 1) as nat);
        let st = apply(base, order, prev, (k - 1) as nat);
        prev.push(unpack_spec(syms[k - 1] as int) + predict_spec(img, st, order[k - 1], vp, wp).1)
    }
}

pub open spec fn orders_ok(img: WaveletImage, order: Seq<Slot>) -> bool {
    forall|k: int| 0 <= k < order.len() ==> slot_ok(img, #[trigger] order[k])
}

pub open spec fn vals_bounded(vals: Seq<int>, k: int) -> bool {
    forall|i: int| 0 <= i < k ==> -STATE_LIMIT <= #[trigger] vals[i] <= STATE_LIMIT
}

pub proof fn lemma_zeroed_ok(img: WaveletImage, ch: int)
    requires
        img.wf(),
        0 <= ch < channels_of(img.metadata.colorspace),
    ensures
        state_ok(img, zeroed(img, ch)),
{
    let z = zeroed(img, ch);
    assert forall|j: int, k: int| 0 <= j < z.len() && 0 <= k < z[j].len() implies (#[trigger] z[j][k] matches Some(v) ==> -STATE_LIMIT <= v <= STATE_LIMIT) by {}
}

pub proof fn lemma_apply_ok(img: WaveletImage, base: Seq<Seq<Option<i32>>>, order: Seq<Slot>, vals: Seq<int>, k: nat)
    requires
        img.wf(),
        state_ok(img, base),
        orders_ok(img, order),
        k <= order.len(),
        k <= vals.len(),
        vals_bounded(vals, k as int),
    ensures
        state_ok(img, apply(base, order, vals, k)),
    decreases k,
{
    if k > 0 {
        lemma_apply_ok(img, base, order, vals, (k - 1) as nat);
        let prev = apply(base, order, vals, (k - 1) as nat);
        let s = order[k - 1];
        assert(slot_ok(img, s));
        lemma_p2_grows(1, BASE_FRAC_DEPTH as nat);
        lemma_p2_grows((s.0 + 1) as nat, BASE_FRAC_DEPTH as nat);
        let st = set_slot(prev, s, vals[k - 1]);
        assert(-STATE_LIMIT <= vals[k - 1] <= STATE_LIMIT);
        assert forall|j: int| 0 <= j < st.len() implies (#[trigger] st[j]).len() == p2(BASE_FRAC_DEPTH as nat) by {
            assert(prev[j].len() == p2(BASE_FRAC_DEPTH as nat));
        }
        assert forall|j: int, i: int| 0 <= j < st.len() && 0 <= i < st[j].len() implies (#[trigger] st[j][i] matches Some(v) ==> -STATE_LIMIT <= v <= STATE_LIMIT) by {
            if j == s.1 as int && i == s.2 as int {
            } else {
                assert(st[j][i] == prev[j][i]);
            }
        }
    }
}

/// The states only depend on the values given so far.
pub proof fn lemma_apply_prefix(base: Seq<Seq<Option<i32>>>, order: Seq<Slot>, a: Seq<int>, b: Seq<int>, k: nat)
    requires
        k <= a.len(),
        k <= b.len(),
        forall|i: int| 0 <= i < k ==> a[i] == b[i],
    ensures
        apply(base, order, a, k) == apply(base, order, b, k),
    decreases k,
{
    if k > 0 {
        lemma_apply_prefix(base, order, a, b, (k - 1) as nat);
    }
}

fn set_state(state: &mut Vec<Vec<Option<i32>>>, s: Slot, v: i32)
    requires
        s.1 < old(state)@.len(),
        s.2 < old(state)@[s.1 as int]@.len(),
    ensures
        view_state(final(state)@) == set_slot(view_state(old(state)@), s, v as int),
{
    state[s.1].set(s.2, Some(v));
    assert(view_state(state@) =~= set_slot(view_state(old(state)@), s, v as int));
}

/// The starting state of channel `ch`.
pub fn zeroed_state(img: &WaveletImage, ch: usize) -> (r: Vec<Vec<Option<i32>>>)
    requires
        img.wf(),
        ch < channels_of(img.metadata.colorspace),
    ensures
        view_state(r@) == zeroed(*img, ch as int),
{
    let mut r: Vec<Vec<Option<i32>>> = Vec::new();
    let mut j: usize = 0;
    while j < img.fractal_lattice.len()
        invariant
            img.wf(),
            ch < channels_of(img.metadata.colorspace),
            j <= img.fractal_lattice@.len(),
            r@.len() == j,
            forall|t: int| 0 <= t < j ==> (#[trigger] r@[t])@ == zeroed(*img, ch as int)[t],
        decreases img.fractal_lattice@.len() - j,
    {
        let src = &img.fractal_lattice[j].coefficients[ch];
        proof {
            assert(cell_ok(img.fractal_lattice@[j as int], channels_of(img.metadata.colorspace)));
        }
        let mut row: Vec<Option<i32>> = Vec::new();
        let mut i: usize = 0;
        while i < src.len()
            invariant
                i <= src@.len(),
                j < img.fractal_lattice@.len(),
                src@.len() == p2(BASE_FRAC_DEPTH as nat),
                *src == img.fractal_lattice@[j as int].coefficients@[ch as int],
                row@.len() == i,
                forall|t: int| 0 <= t < i ==> #[trigger] row@[t] == zeroed(*img, ch as int)[j as int][t],
            decreases src@.len() - i,
        {
            if src[i].is_some() {
                row.push(Some(0i32));
            } else {
                row.push(None);
            }
            i = i + 1;
        }
        assert(row@ =~= zeroed(*img, ch as int)[j as int]);
        r.push(row);
        j = j + 1;
    }
    assert(view_state(r@) =~= zeroed(*img, ch as int));
    r
}

/// The encoder pass of channel `ch`: for each slot of `order`, the bucket
/// and the packed residual of its coefficient against the prediction in the
/// state of the slots coded before it.
pub fn encode_channel(
    img: &WaveletImage,
    ch: usize,
    order: &Vec<Slot>,
    vp: &Vec<i32>,
    wp: &Vec<i32>,
) -> (r: Option<Vec<(usize, u32)>>)
    requires
        img.wf(),
        ch < channels_of(img.metadata.colorspace),
        orders_ok(*img, order@),
        params_ok(vp@, wp@),
        forall|k: int| 0 <= k < order@.len() ==> -255 <= #[trigger] truths(*img, ch as int, order@)[k] <= 255,
    ensures
        r is Some <==> residuals_fit(*img, ch as int, order@, vp@, wp@, order@.len() as int),
        r matches Some(syms) ==> {
            &&& syms@.len() == order@.len()
            &&& forall|k: int|
                0 <= k < syms@.len() ==> (#[trigger] syms@[k]).0 == enc_symbol(*img, ch as int, order@, vp@, wp@, k).0
                    && syms@[k].1 as int == enc_symbol(*img, ch as int, order@, vp@, wp@, k).1
            &&& forall|k: int| 0 <= k < syms@.len() ==> (#[trigger] syms@[k]).0 < CONTEXT_AMOUNT && syms@[k].1 < 1024
        },
{
    let ghost t = truths(*img, ch as int, order@);
    let ghost z = zeroed(*img, ch as int);
    let mut state = zeroed_state(img, ch);
    let mut r: Vec<(usize, u32)> = Vec::new();
    let mut k: usize = 0;
    proof {
        lemma_zeroed_ok(*img, ch as int);
        lemma_p2_grows(1, BASE_FRAC_DEPTH as nat);
    }
    while k < order.len()
        invariant
            img.wf(),
            ch < channels_of(img.metadata.colorspace),
            orders_ok(*img, order@),
            params_ok(vp@, wp@),
            t == truths(*img, ch as int, order@),
            z == zeroed(*img, ch as int),
            forall|i: int| 0 <= i < order@.len() ==> -255 <= #[trigger] t[i] <= 255,
            state_ok(*img, z),
            k <= order@.len(),
            view_state(state@) == apply(z, order@, t, k as nat),
            residuals_fit(*img, ch as int, order@, vp@, wp@, k as int),
            r@.len() == k,
            forall|i: int|
                0 <= i < k ==> (#[trigger] r@[i]).0 == enc_symbol(*img, ch as int, order@, vp@, wp@, i).0
                    && r@[i].1 as int == enc_symbol(*img, ch as int, order@, vp@, wp@, i).1,
            forall|i: int| 0 <= i < k ==> (#[trigger] r@[i]).0 < CONTEXT_AMOUNT && r@[i].1 < 1024,
        decreases order@.len() - k,
    {
        let s = order[k];
        proof {
            assert(slot_ok(*img, s));
            assert(vals_bounded(t, k as int));
            lemma_apply_ok(*img, z, order@, t, k as nat);
            lemma_p2_grows((s.0 + 1) as nat, BASE_FRAC_DEPTH as nat);
            assert(cell_ok(img.fractal_lattice@[s.1 as int], channels_of(img.metadata.colorspace)));
        }
        let (bucket, prediction) = predict(img, &state, s, vp, wp);
        let value: i32 = match img.fractal_lattice[s.1].coefficients[ch][s.2] {
            Some(v) => v,
            None => 0,
        };
        assert(value as int == t[k as int]);
        let res: i64 = value as i64 - prediction;
        assert(res as int == residual(*img, ch as int, order@, vp@, wp@, k as int));
        if res < -512 || res > 511 {
            return None;
        }
        let symbol = pack_signed(res as i32);
        r.push((bucket, symbol));
        proof {
            assert(view_state(state@)[s.1 as int] == state@[s.1 as int]@);
        }
        set_state(&mut state, s, value);
        k = k + 1;
    }
    Some(r)
}


/// Decoding the encoder's symbols gives back the coefficients: when the
/// decoder starts from the same state and geometry and reads the symbols the
/// encoder emitted, every slot decodes to the encoder's coefficient. Both
/// sides predict from identical states, so they agree on every bucket and
/// prediction.
pub proof fn lemma_decode_inverts_encode(
    img: WaveletImage,
    ch: int,
    order: Seq<Slot>,
    syms: Seq<u32>,
    vp: Seq<i32>,
    wp: Seq<i32>,
    n: nat,
)
    requires
        img.wf(),
        0 <= ch < channels_of(img.metadata.colorspace),
        orders_ok(img, order),
        n <= order.len(),
        n <= syms.len(),
        forall|k: int| 0 <= k < order.len() ==> -255 <= #[trigger] truths(img, ch, order)[k] <= 255,
        forall|k: int| 0 <= k < n ==> #[trigger] syms[k] as int == enc_symbol(img, ch, order, vp, wp, k).1,
        residuals_fit(img, ch, order, vp, wp, n as int),
    ensures
        dec_values(img, zeroed(img, ch), order, syms, vp, wp, n) == truths(img, ch, order).subrange(0, n as int),
        forall|k: int|
            0 <= k < n ==> #[trigger] predict_spec(
                img,
                apply(zeroed(img, ch), order, dec_values(img, zeroed(img, ch), order, syms, vp, wp, n), k as nat),
                order[k],
                vp,
                wp,
            ) == predict_spec(img, apply(zeroed(img, ch), order, truths(img, ch, order), k as nat), order[k], vp, wp),
    decreases n,
{
    let t = truths(img, ch, order);
    let z = zeroed(img, ch);
    let d = dec_values(img, z, order, syms, vp, wp, n);
    if n > 0 {
        let m = (n - 1) as nat;
        lemma_decode_inverts_encode(img, ch, order, syms, vp, wp, m);
        let prev = dec_values(img, z, order, syms, vp, wp, m);
        lemma_apply_prefix(z, order, prev, t, m);
        let st = apply(z, order, t, m);
        let p = predict_spec(img, st, order[m as int], vp, wp).1;
        assert(-512 <= residual(img, ch, order, vp, wp, m as int) <= 511);
        let v = t[m as int];
        lemma_pack_round_trip((v - p) as i32, 0);
        assert(syms[m as int] as int == pack_spec(v - p));
        assert(d =~= t.subrange(0, n as int));
        assert forall|k: int| 0 <= k < n implies #[trigger] predict_spec(
            img,
            apply(z, order, d, k as nat),
            order[k],
            vp,
            wp,
        ) == predict_spec(img, apply(z, order, t, k as nat), order[k], vp, wp) by {
            lemma_apply_prefix(z, order, d, t, k as nat);
        }
    } else {
        assert(d =~= t.subrange(0, 0));
    }
}

/// A decoder session of one channel: it names the bucket of the next
/// coefficient, takes the symbol read from that bucket's stream, and writes
/// the coefficient it stands for.
pub struct ChannelDecoder {
    pub channel: usize,
    pub state: Vec<Vec<Option<i32>>>,
    pub order: Vec<Slot>,
    pub position: usize,
    pub value_params: Vec<i32>,
    pub width_params: Vec<i32>,
    /// The symbols taken so far.
    pub symbols: Ghost<Seq<u32>>,
}

impl ChannelDecoder {
    pub open spec fn inv(&self, img: WaveletImage) -> bool {
        &&& img.wf()
        &&& self.channel < channels_of(img.metadata.colorspace)
        &&& orders_ok(img, self.order@)
        &&& self.order@ == order_spec(img, self.channel as int)
        &&& params_ok(self.value_params@, self.width_params@)
        &&& self.position <= self.order@.len()
        &&& self.symbols@.len() == self.position
        &&& view_state(self.state@) == apply(
            zeroed(img, self.channel as int),
            self.order@,
            self.values(img),
            self.position as nat,
        )
        &&& vals_bounded(self.values(img), self.position as int)
        &&& forall|k: int| 0 <= k < self.order@.len() ==> coef_at(img, self.channel as int, #[trigger] self.order@[k]) is Some
    }

    /// The values decoded so far.
    pub open spec fn values(&self, img: WaveletImage) -> Seq<int> {
        dec_values(
            img,
            zeroed(img, self.channel as int),
            self.order@,
            self.symbols@,
            self.value_params@,
            self.width_params@,
            self.position as nat,
        )
    }

    pub fn new(img: &WaveletImage, channel: usize, value_params: Vec<i32>, width_params: Vec<i32>) -> (r: ChannelDecoder)
        requires
            img.wf(),
            channel < channels_of(img.metadata.colorspace),
            params_ok(value_params@, width_params@),
        ensures
            r.inv(*img),
            r.position == 0,
            r.channel == channel,
            r.value_params == value_params,
            r.width_params == width_params,
    {
        let order = coding_order(img, channel);
        let state = zeroed_state(img, channel);
        ChannelDecoder {
            channel,
            state,
            order,
            position: 0,
            value_params,
            width_params,
            symbols: Ghost(Seq::empty()),
        }
    }

    /// Whether every coefficient of the channel has been decoded.
    pub fn is_done(&self) -> (r: bool)
        ensures
            r == (self.position >= self.order@.len()),
    {
        self.position >= self.order.len()
    }

    /// The bucket the next coefficient is coded in.
    pub fn next_context(&self, img: &WaveletImage) -> (r: usize)
        requires
            self.inv(*img),
            self.position < self.order@.len(),
        ensures
            r == predict_spec(
                *img,
                view_state(self.state@),
                self.order@[self.position as int],
                self.value_params@,
                self.width_params@,
            ).0,
            r < CONTEXT_AMOUNT,
    {
        proof {
            lemma_zeroed_ok(*img, self.channel as int);
            lemma_dec_values_len(*img, zeroed(*img, self.channel as int), self.order@, self.symbols@, self.value_params@, self.width_params@, self.position as nat);
            lemma_apply_ok(*img, zeroed(*img, self.channel as int), self.order@, self.values(*img), self.position as nat);
        }
        let (bucket, _) = predict(img, &self.state, self.order[self.position], &self.value_params, &self.width_params);
        bucket
    }

    /// Takes the symbol of the next coefficient: its value is the unpacked
    /// residual plus the prediction.
    /// A value outside `-STATE_LIMIT..=STATE_LIMIT` means the stream is out
    /// of step; it is refused and the session is left as it was.
    pub fn accept(&mut self, img: &WaveletImage, symbol: u32) -> (ok: bool)
        requires
            old(self).inv(*img),
            old(self).position < old(self).order@.len(),
            symbol < 1024,
        ensures
            ok == value_fits(next_value(*img, *old(self), symbol)),
            !ok ==> *final(self) == *old(self),
            final(self).inv(*img),
            ok ==> final(self).position == old(self).position + 1,
            ok ==> final(self).symbols@ == old(self).symbols@.push(symbol),
            final(self).order == old(self).order,
            final(self).channel == old(self).channel,
            final(self).value_params == old(self).value_params,
            final(self).width_params == old(self).width_params,
    {
        let ghost z = zeroed(*img, self.channel as int);
        let ghost prev_vals = self.values(*img);
        let ghost k = self.position as nat;
        proof {
            lemma_zeroed_ok(*img, self.channel as int);
            lemma_dec_values_len(*img, z, self.order@, self.symbols@, self.value_params@, self.width_params@, k);
            lemma_apply_ok(*img, z, self.order@, prev_vals, k);
        }
        let _n = self.order.len();
        let s = self.order[self.position];
        let (_, prediction) = predict(img, &self.state, s, &self.value_params, &self.width_params);
        let wide: i64 = unpack_signed(symbol) as i64 + prediction;
        if wide < -(STATE_LIMIT as i64) || wide > STATE_LIMIT as i64 {
            return false;
        }
        let value = wide as i32;
        proof {
            assert(slot_ok(*img, s));
            lemma_p2_grows(1, BASE_FRAC_DEPTH as nat);
            lemma_p2_grows((s.0 + 1) as nat, BASE_FRAC_DEPTH as nat);
            assert(view_state(self.state@)[s.1 as int] == self.state@[s.1 as int]@);
        }
        set_state(&mut self.state, s, value);
        self.position = self.position + 1;
        self.symbols = Ghost(self.symbols@.push(symbol));
        proof {
            let syms = self.symbols@;
            assert(syms.subrange(0, k as int) =~= old(self).symbols@);
            lemma_dec_values_prefix(*img, z, self.order@, old(self).symbols@, syms, self.value_params@, self.width_params@, k);
            let nv = self.values(*img);
            assert(nv =~= prev_vals.push(value as int));
            lemma_apply_prefix(z, self.order@, prev_vals, nv, k);
        }
        true
    }
}

/// The value the session gives its next slot for `symbol`.
pub open spec fn next_value(img: WaveletImage, d: ChannelDecoder, symbol: u32) -> int {
    unpack_spec(symbol as int) + predict_spec(
        img,
        view_state(d.state@),
        d.order@[d.position as int],
        d.value_params@,
        d.width_params@,
    ).1
}

/// The session's next value is the next value `dec_values` gives for the
/// symbols taken so far followed by `syms[position]`.
pub proof fn lemma_next_value(img: WaveletImage, d: ChannelDecoder, syms: Seq<u32>)
    requires
        d.inv(img),
        d.position < d.order@.len(),
        d.position < syms.len(),
        d.symbols@ == syms.subrange(0, d.position as int),
    ensures
        dec_values(
            img,
            zeroed(img, d.channel as int),
            d.order@,
            syms,
            d.value_params@,
            d.width_params@,
            (d.position + 1) as nat,
        )[d.position as int] == next_value(img, d, syms[d.position as int]),
{
    let k = d.position as nat;
    let z = zeroed(img, d.channel as int);
    lemma_dec_values_prefix(img, z, d.order@, d.symbols@, syms, d.value_params@, d.width_params@, k);
    lemma_dec_values_len(img, z, d.order@, syms, d.value_params@, d.width_params@, k);
}

pub proof fn lemma_decoded_fit_step(
    img: WaveletImage,
    base: Seq<Seq<Option<i32>>>,
    order: Seq<Slot>,
    syms: Seq<u32>,
    vp: Seq<i32>,
    wp: Seq<i32>,
    k: nat,
)
    requires
        decoded_fit(img, base, order, syms, vp, wp, k),
    ensures
        decoded_fit(img, base, order, syms, vp, wp, k + 1) == value_fits(
            dec_values(img, base, order, syms, vp, wp, k + 1)[k as int],
        ),
{
}

pub proof fn lemma_decoded_fit_prefix(
    img: WaveletImage,
    base: Seq<Seq<Option<i32>>>,
    order: Seq<Slot>,
    syms: Seq<u32>,
    vp: Seq<i32>,
    wp: Seq<i32>,
    k: nat,
    n: nat,
)
    requires
        k <= n,
        decoded_fit(img, base, order, syms, vp, wp, n),
    ensures
        decoded_fit(img, base, order, syms, vp, wp, k),
{
}

pub open spec fn value_fits(v: int) -> bool {
    -STATE_LIMIT <= v <= STATE_LIMIT
}

/// The first `n` values decoded from `syms` all fit the state.
pub open spec fn decoded_fit(
    img: WaveletImage,
    base: Seq<Seq<Option<i32>>>,
    order: Seq<Slot>,
    syms: Seq<u32>,
    vp: Seq<i32>,
    wp: Seq<i32>,
    n: nat,
) -> bool {
    forall|k: int| 0 <= k < n ==> value_fits(#[trigger] dec_values(img, base, order, syms, vp, wp, (k + 1) as nat)[k])
}

pub proof fn lemma_dec_values_len(
    img: WaveletImage,
    base: Seq<Seq<Option<i32>>>,
    order: Seq<Slot>,
    syms: Seq<u32>,
    vp: Seq<i32>,
    wp: Seq<i32>,
    k: nat,
)
    ensures
        dec_values(img, base, order, syms, vp, wp, k).len() == k,
    decreases k,
{
    if k > 0 {
        lemma_dec_values_len(img, base, order, syms, vp, wp, (k - 1) as nat);
    }
}

/// Decoded values depend only on the symbols read so far.
pub proof fn lemma_dec_values_prefix(
    img: WaveletImage,
    base: Seq<Seq<Option<i32>>>,
    order: Seq<Slot>,
    a: Seq<u32>,
    b: Seq<u32>,
    vp: Seq<i32>,
    wp: Seq<i32>,
    k: nat,
)
    requires
        k <= a.len(),
        k <= b.len(),
        forall|i: int| 0 <= i < k ==> a[i] == b[i],
    ensures
        dec_values(img, base, order, a, vp, wp, k) == dec_values(img, base, order, b, vp, wp, k),
    decreases k,
{
    if k > 0 {
        lemma_dec_values_prefix(img, base, order, a, b, vp, wp, (k - 1) as nat);
    }
}


/// The states keep the slots that are present where the start has them.
pub proof fn lemma_apply_pattern(img: WaveletImage, ch: int, order: Seq<Slot>, vals: Seq<int>, k: nat)
    requires
        img.wf(),
        0 <= ch < channels_of(img.metadata.colorspace),
        orders_ok(img, order),
        forall|t: int| 0 <= t < order.len() ==> coef_at(img, ch, #[trigger] order[t]) is Some,
        k <= order.len(),
    ensures
        apply(zeroed(img, ch), order, vals, k).len() == img.fractal_lattice@.len(),
        forall|j: int|
            0 <= j < img.fractal_lattice@.len() ==> (#[trigger] apply(zeroed(img, ch), order, vals, k)[j]).len()
                == p2(BASE_FRAC_DEPTH as nat),
        forall|j: int, i: int|
            0 <= j < img.fractal_lattice@.len() && 0 <= i < p2(BASE_FRAC_DEPTH as nat) ==> (
            #[trigger] apply(zeroed(img, ch), order, vals, k)[j][i] is Some) == (
            img.fractal_lattice@[j].coefficients@[ch]@[i] is Some),
    decreases k,
{
    if k > 0 {
        lemma_apply_pattern(img, ch, order, vals, (k - 1) as nat);
        let s = order[k - 1];
        assert(slot_ok(img, s));
        assert(coef_at(img, ch, s) is Some);
        lemma_p2_grows(1, BASE_FRAC_DEPTH as nat);
        lemma_p2_grows((s.0 + 1) as nat, BASE_FRAC_DEPTH as nat);
    }
}

impl ChannelDecoder {
    /// Writes the decoded channel into the image's coefficients.
    pub fn finish(self, img: &mut WaveletImage)
        requires
            self.inv(*old(img)),
            old(img).bounded(),
        ensures
            final(img).wf(),
            final(img).bounded(),
            final(img).metadata == old(img).metadata,
            final(img).global_position_map == old(img).global_position_map,
            final(img).sorted_lattice == old(img).sorted_lattice,
            same_geometry(old(img).fractal_lattice@, final(img).fractal_lattice@),
            forall|j: int|
                0 <= j < final(img).fractal_lattice@.len() ==> (#[trigger] final(img).fractal_lattice@[j]).coefficients@[self.channel as int]@
                    == view_state(self.state@)[j],
    {
        let ghost start = *img;
        let ghost ch = self.channel as int;
        let ghost st = view_state(self.state@);
        proof {
            lemma_apply_pattern(start, ch, self.order@, self.values(start), self.position as nat);
            lemma_zeroed_ok(start, ch);
            lemma_dec_values_len(start, zeroed(start, ch), self.order@, self.symbols@, self.value_params@, self.width_params@, self.position as nat);
            lemma_apply_ok(start, zeroed(start, ch), self.order@, self.values(start), self.position as nat);
        }
        let channel = self.channel;
        let mut rows = self.state;
        let mut j: usize = rows.len();
        while j > 0
            invariant
                start.wf(),
                start.bounded(),
                0 <= ch < channels_of(start.metadata.colorspace),
                channel as int == ch,
                state_ok(start, st),
                forall|a: int, i: int|
                    0 <= a < start.fractal_lattice@.len() && 0 <= i < p2(BASE_FRAC_DEPTH as nat) ==> (
                    #[trigger] st[a][i] is Some) == (start.fractal_lattice@[a].coefficients@[ch]@[i] is Some),
                st.len() == start.fractal_lattice@.len(),
                j <= st.len(),
                rows@.len() == j,
                forall|a: int| 0 <= a < j ==> (#[trigger] rows@[a])@ == st[a],
                img.metadata == start.metadata,
                img.global_position_map == start.global_position_map,
                img.sorted_lattice == start.sorted_lattice,
                same_geometry(start.fractal_lattice@, img.fractal_lattice@),
                forall|a: int| 0 <= a < img.fractal_lattice@.len() ==> (#[trigger] img.fractal_lattice@[a]).coefficients@.len()
                    == start.fractal_lattice@[a].coefficients@.len(),
                forall|a: int, c: int|
                    0 <= a < img.fractal_lattice@.len() && 0 <= c < img.fractal_lattice@[a].coefficients@.len() ==> (
                    #[trigger] img.fractal_lattice@[a].coefficients@[c])@ == if a >= j && c == ch {
                        st[a]
                    } else {
                        start.fractal_lattice@[a].coefficients@[c]@
                    },
            decreases j,
        {
            j = j - 1;
            let row = rows.pop().unwrap();
            proof {
                assert(cell_ok(start.fractal_lattice@[j as int], channels_of(start.metadata.colorspace)));
                assert(img.fractal_lattice@[j as int].coefficients@.len() == start.fractal_lattice@[j as int].coefficients@.len());
            }
            let ghost before = img.fractal_lattice@;
            img.fractal_lattice[j].coefficients.set(channel, row);
            proof {
                assert forall|a: int| 0 <= a < img.fractal_lattice@.len() implies (#[trigger] img.fractal_lattice@[a]).depth == start.fractal_lattice@[a].depth
                    && img.fractal_lattice@[a].center == start.fractal_lattice@[a].center && img.fractal_lattice@[a].position_map == start.fractal_lattice@[a].position_map
                    && img.fractal_lattice@[a].image_positions == start.fractal_lattice@[a].image_positions by {
                    assert(before[a].depth == start.fractal_lattice@[a].depth);
                }
            }
        }
        proof {
            let cells = img.fractal_lattice@;
            let channels = channels_of(start.metadata.colorspace);
            assert forall|a: int| 0 <= a < cells.len() implies cell_ok(#[trigger] cells[a], channels) by {
                let old_cell = start.fractal_lattice@[a];
                assert(cell_ok(old_cell, channels));
                assert(cells[a].depth == old_cell.depth);
                assert forall|l: int| 0 <= l < cells[a].depth implies cells[a].level_map_ok(l) by {
                    assert(old_cell.level_map_ok(l));
                }
                assert forall|i: int| 1 <= i < 2 * p2(cells[a].depth as nat) implies #[trigger] cells[a].image_positions@[i]
                    == pos_spec(cells[a].center, cells[a].depth as nat, i) by {
                    assert(old_cell.image_positions@[i] == pos_spec(old_cell.center, old_cell.depth as nat, i));
                }
                assert forall|c: int| 0 <= c < channels implies (#[trigger] cells[a].coefficients@[c])@.len() == p2(BASE_FRAC_DEPTH as nat)
                    && cells[a].coefficients@[c]@[0] is Some by {
                    assert(old_cell.coefficients@[c]@.len() == p2(BASE_FRAC_DEPTH as nat));
                    if c == ch {
                        lemma_p2_grows(0, BASE_FRAC_DEPTH as nat);
                        assert(st[a][0] is Some);
                    }
                }
            }
            assert forall|l: int| 0 <= l < BASE_FRAC_DEPTH implies gpm_level_ok(cells, #[trigger] img.global_position_map@[l]@, l) by {
                assert(gpm_level_ok(start.fractal_lattice@, start.global_position_map@[l]@, l));
                lemma_same_gpm(start.fractal_lattice@, cells, start.global_position_map@[l]@, l);
            }
            assert forall|l: int| 0 <= l < BASE_FRAC_DEPTH implies (#[trigger] img.sorted_lattice@[l])@ == level_scan(
                img.metadata,
                img.global_position_map@[l]@,
            ) by {
                assert(start.sorted_lattice@[l]@ == level_scan(start.metadata, start.global_position_map@[l]@));
            }
            assert forall|a: int, c: int|
                0 <= a < cells.len() && 0 <= c < cells[a].coefficients@.len() implies coefs_bounded((#[trigger] cells[a].coefficients@[c])@) by {
                if c == ch {
                    assert forall|i: int| 0 <= i < st[a].len() implies (#[trigger] st[a][i] matches Some(v) ==> -COEF_LIMIT <= v <= COEF_LIMIT) by {}
                } else {
                    assert(coefs_bounded(start.fractal_lattice@[a].coefficients@[c]@));
                }
            }
        }
    }
}

} // verus!

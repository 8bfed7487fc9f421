//! The training data of the predictors: for each level group, the
//! neighbourhood of every present coefficient and the coefficient itself.
use crate::cell::{lemma_p2_16, lemma_p2_grows, p2, BASE_FRAC_DEPTH, MAX_DEPTH};
use crate::images::channels_of;
use crate::prediction::{
    get_neighbour_values, lemma_cell_position, state_ok, view_state, STATE_LIMIT,
};
use crate::wavelet::{cell_ok, WaveletImage};
use crate::codec::{coef_at, level_slots, node_slots, Slot};
use crate::prediction::{group_of, taps_spec};
use vstd::prelude::*;

verus! {

/// The state in which every coefficient of channel `ch` is known.
pub fn channel_state(img: &WaveletImage, ch: usize) -> (r: Vec<Vec<Option<i32>>>)
    requires
        img.wf(),
        img.bounded(),
        ch < channels_of(img.metadata.colorspace),
    ensures
        r@.len() == img.fractal_lattice@.len(),
        forall|j: int| 0 <= j < r@.len() ==> (#[trigger] r@[j])@ == img.fractal_lattice@[j].coefficients@[ch as int]@,
        state_ok(*img, view_state(r@)),
{
    let mut r: Vec<Vec<Option<i32>>> = Vec::new();
    let mut j: usize = 0;
    while j < img.fractal_lattice.len()
        invariant
            img.wf(),
            img.bounded(),
            ch < channels_of(img.metadata.colorspace),
            j <= img.fractal_lattice@.len(),
            r@.len() == j,
            forall|t: int| 0 <= t < j ==> (#[trigger] r@[t])@ == img.fractal_lattice@[t].coefficients@[ch as int]@,
        decreases img.fractal_lattice@.len() - j,
    {
        proof {
            assert(cell_ok(img.fractal_lattice@[j as int], channels_of(img.metadata.colorspace)));
        }
        let row = crate::pipeline::copy_slots(&img.fractal_lattice[j].coefficients[ch]);
        r.push(row);
        j = j + 1;
    }
    proof {
        let v = view_state(r@);
        assert forall|t: int| 0 <= t < v.len() implies (#[trigger] v[t]).len() == p2(BASE_FRAC_DEPTH as nat) by {
            assert(cell_ok(img.fractal_lattice@[t], channels_of(img.metadata.colorspace)));
        }
        assert forall|t: int, k: int| 0 <= t < v.len() && 0 <= k < v[t].len() implies (#[trigger] v[t][k] matches Some(x)
            ==> -STATE_LIMIT <= x <= STATE_LIMIT) by {
            assert(crate::lifting::coefs_bounded(img.fractal_lattice@[t].coefficients@[ch as int]@));
        }
    }
    r
}

/// The rows of the three level groups (deepest level, the one above it,
/// and all others): the six taps of every present high-pass coefficient
/// over the finished channel, with the coefficient beside them.
pub struct NeighbourMatrices {
    pub rows: Vec<Vec<Vec<i32>>>,
    pub values: Vec<Vec<i32>>,
}

/// The state in which channel `ch` holds all of its coefficients.
pub open spec fn full_state(img: WaveletImage, ch: int) -> Seq<Seq<Option<i32>>> {
    Seq::new(img.fractal_lattice@.len(), |j: int| img.fractal_lattice@[j].coefficients@[ch]@)
}

/// The levels below `top` down to `l + 1`, deepest first: level by level,
/// tile by tile, node by node, the present high-pass slots.
pub open spec fn train_slots(img: WaveletImage, ch: int, l: int) -> Seq<Slot>
    decreases BASE_FRAC_DEPTH - l,
{
    if l + 1 >= BASE_FRAC_DEPTH || l < 0 {
        Seq::empty()
    } else {
        train_slots(img, ch, l + 1) + level_slots(img, ch, (l + 1) as u8, img.fractal_lattice@.len())
    }
}

/// The slots of `slots` whose level is in group `g`, in order.
pub open spec fn group_slots(slots: Seq<Slot>, g: int) -> Seq<Slot>
    decreases slots.len(),
{
    if slots.len() == 0 {
        Seq::empty()
    } else {
        group_slots(slots.drop_last(), g) + if group_of(slots.last().0 as int) == g {
            seq![slots.last()]
        } else {
            Seq::empty()
        }
    }
}

/// Row `row` with value `v` is the training sample of slot `s`: its taps
/// over the finished channel and its coefficient.
pub open spec fn sample_of(img: WaveletImage, ch: int, s: Slot, row: Seq<i32>, v: i32) -> bool {
    &&& coef_at(img, ch, s) == Some(v)
    &&& row.len() == 6
    &&& forall|t: int|
        0 <= t < 6 ==> row[t] as int == #[trigger] taps_spec(
            img,
            full_state(img, ch),
            s.0 as int,
            img.fractal_lattice@[s.1 as int].image_positions@[s.2 as int],
        )[t]
}

/// The rows of each group are the samples of that group's slots, in the
/// order of `slots`.
pub open spec fn rows_match(
    img: WaveletImage,
    ch: int,
    slots: Seq<Slot>,
    rows: Seq<Vec<Vec<i32>>>,
    values: Seq<Vec<i32>>,
) -> bool {
    &&& rows.len() == 3
    &&& values.len() == 3
    &&& forall|g: int|
        0 <= g < 3 ==> (#[trigger] rows[g])@.len() == group_slots(slots, g).len() && values[g]@.len()
            == group_slots(slots, g).len()
    &&& forall|g: int, i: int|
        0 <= g < 3 && 0 <= i < group_slots(slots, g).len() ==> sample_of(
            img,
            ch,
            group_slots(slots, g)[i],
            (#[trigger] rows[g]@[i])@,
            values[g]@[i],
        )
}

/// Collects the training rows of channel `ch`: for each level group, one
/// row per present high-pass coefficient, deepest level first, then tile
/// by tile and node by node.
pub fn get_image_neighbour_matrices(img: &WaveletImage, ch: usize) -> (r: NeighbourMatrices)
    requires
        img.wf(),
        img.bounded(),
        ch < channels_of(img.metadata.colorspace),
    ensures
        rows_match(*img, ch as int, train_slots(*img, ch as int, 0), r.rows@, r.values@),
{
    let state = channel_state(img, ch);
    assert(view_state(state@) =~= full_state(*img, ch as int));
    let mut rows: Vec<Vec<Vec<i32>>> = vec![Vec::new(), Vec::new(), Vec::new()];
    let mut values: Vec<Vec<i32>> = vec![Vec::new(), Vec::new(), Vec::new()];
    proof {
        lemma_p2_grows(BASE_FRAC_DEPTH as nat, MAX_DEPTH as nat);
        lemma_p2_16();
        assert(train_slots(*img, ch as int, BASE_FRAC_DEPTH - 1) =~= Seq::<Slot>::empty());
    }
    let mut level: u8 = BASE_FRAC_DEPTH - 1;
    while level >= 1
        invariant
            img.wf(),
            ch < channels_of(img.metadata.colorspace),
            state_ok(*img, view_state(state@)),
            state@.len() == img.fractal_lattice@.len(),
            forall|j: int| 0 <= j < state@.len() ==> (#[trigger] state@[j])@ == img.fractal_lattice@[j].coefficients@[ch as int]@,
            level < BASE_FRAC_DEPTH,
            p2(BASE_FRAC_DEPTH as nat) <= 65536,
            view_state(state@) == full_state(*img, ch as int),
            rows_match(*img, ch as int, train_slots(*img, ch as int, level as int), rows@, values@),
        decreases level,
    {
        proof {
            lemma_p2_grows((level + 1) as nat, BASE_FRAC_DEPTH as nat);
        }
        let lo = crate::cell::pow2_usize(level);
        let g: usize = if level < BASE_FRAC_DEPTH - 2 {
            2
        } else if level == BASE_FRAC_DEPTH - 2 {
            1
        } else {
            0
        };
        let ghost base = train_slots(*img, ch as int, level as int);
        let mut j: usize = 0;
        while j < img.fractal_lattice.len()
            invariant
                img.wf(),
                ch < channels_of(img.metadata.colorspace),
                state_ok(*img, view_state(state@)),
                state@.len() == img.fractal_lattice@.len(),
                forall|j: int| 0 <= j < state@.len() ==> (#[trigger] state@[j])@ == img.fractal_lattice@[j].coefficients@[ch as int]@,
                1 <= level < BASE_FRAC_DEPTH,
                lo == p2(level as nat),
                2 * lo <= p2(BASE_FRAC_DEPTH as nat),
                p2(BASE_FRAC_DEPTH as nat) <= 65536,
                g == group_of(level as int),
                j <= img.fractal_lattice@.len(),
                view_state(state@) == full_state(*img, ch as int),
                base == train_slots(*img, ch as int, level as int),
                rows_match(*img, ch as int, base + level_slots(*img, ch as int, level, j as nat), rows@, values@),
            decreases img.fractal_lattice@.len() - j,
        {
            proof {
                assert(cell_ok(img.fractal_lattice@[j as int], channels_of(img.metadata.colorspace)));
            }
            let ghost before_nodes = base + level_slots(*img, ch as int, level, j as nat);
            let mut i: usize = lo;
            while i < 2 * lo
                invariant
                    img.wf(),
                    ch < channels_of(img.metadata.colorspace),
                    state_ok(*img, view_state(state@)),
                    state@.len() == img.fractal_lattice@.len(),
                    forall|j: int| 0 <= j < state@.len() ==> (#[trigger] state@[j])@ == img.fractal_lattice@[j].coefficients@[ch as int]@,
                    1 <= level < BASE_FRAC_DEPTH,
                    lo == p2(level as nat),
                    2 * lo <= p2(BASE_FRAC_DEPTH as nat),
                    p2(BASE_FRAC_DEPTH as nat) <= 65536,
                    g == group_of(level as int),
                    j < img.fractal_lattice@.len(),
                    cell_ok(img.fractal_lattice@[j as int], channels_of(img.metadata.colorspace)),
                    lo <= i <= 2 * lo,
                    view_state(state@) == full_state(*img, ch as int),
                    rows_match(
                        *img,
                        ch as int,
                        before_nodes + node_slots(*img, ch as int, level, j as int, lo as int, i as int),
                        rows@,
                        values@,
                    ),
                decreases 2 * lo - i,
            {
                let ghost prev = before_nodes + node_slots(*img, ch as int, level, j as int, lo as int, i as int);
                let ghost next = before_nodes + node_slots(*img, ch as int, level, j as int, lo as int, i + 1);
                let ghost sl: Slot = (level, j, i);
                assert(state@[j as int]@.len() == p2(BASE_FRAC_DEPTH as nat));
                assert(state@[j as int]@ == img.fractal_lattice@[j as int].coefficients@[ch as int]@);
                if let Some(v) = state[j][i] {
                    proof {
                        lemma_cell_position(*img, j as int, i as int);
                        assert(coef_at(*img, ch as int, sl) == Some(v));
                        assert(next =~= prev.push(sl));
                        assert(next.drop_last() =~= prev);
                    }
                    let pos = img.fractal_lattice[j].image_positions[i];
                    let taps = get_neighbour_values(img, &state, pos, level);
                    let ghost before_rows = rows@;
                    let ghost before_values = values@;
                    rows[g].push(taps);
                    values[g].push(v);
                    proof {
                        assert forall|gg: int| 0 <= gg < 3 implies (#[trigger] rows@[gg])@.len() == group_slots(next, gg).len()
                            && values@[gg]@.len() == group_slots(next, gg).len() by {
                            if gg != g {
                                assert(rows@[gg] == before_rows[gg]);
                                assert(values@[gg] == before_values[gg]);
                            }
                        }
                        assert forall|gg: int, ii: int|
                            0 <= gg < 3 && 0 <= ii < group_slots(next, gg).len() implies sample_of(
                                *img,
                                ch as int,
                                group_slots(next, gg)[ii],
                                (#[trigger] rows@[gg]@[ii])@,
                                values@[gg]@[ii],
                            ) by {
                            if gg != g || ii < group_slots(prev, gg).len() {
                                assert(rows@[gg]@[ii] == before_rows[gg]@[ii]);
                                assert(values@[gg]@[ii] == before_values[gg]@[ii]);
                                assert(group_slots(next, gg)[ii] == group_slots(prev, gg)[ii]);
                            } else {
                                assert(group_slots(next, gg)[ii] == sl);
                                assert(rows@[gg]@[ii] == taps);
                                assert(values@[gg]@[ii] == v);
                            }
                        }
                    }
                } else {
                    proof {
                        assert(next =~= prev);
                    }
                }
                i = i + 1;
            }
            proof {
                assert(base + level_slots(*img, ch as int, level, (j + 1) as nat) =~= before_nodes + node_slots(
                    *img,
                    ch as int,
                    level,
                    j as int,
                    lo as int,
                    2 * lo as int,
                ));
            }
            j = j + 1;
        }
        proof {
            assert(train_slots(*img, ch as int, level - 1) =~= base + level_slots(*img, ch as int, level, img.fractal_lattice@.len()));
        }
        level = level - 1;
    }
    NeighbourMatrices { rows, values }
}

} // verus!

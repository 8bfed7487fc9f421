//! The wavelet image: the lattice of tiles covering a raster, their
//! coefficients, and the indexes the predictor walks.
use crate::cell::{
    center_ok, level_of, lemma_p2_16, lemma_p2_grows, p2,
    pos_spec, pow2_usize, Fractal, BASE_FRAC_DEPTH, MAX_DEPTH,
};
use crate::fractal::{literal, literal_spec};
use crate::images::{channels_of, clamp_byte, in_image, sample_index, ImageMetadata, RasterImage};
use crate::lifting::{analyze, coefficient, high, node_value, coefs_bounded, opt_int, opt_ints, rebuilt_leaf, synthesize, is_byte};
use crate::utils::{coord_key, key_of, Coord};
use std::collections::HashMap;
use vstd::prelude::*;

verus! {

broadcast use vstd::std_specs::hash::group_hash_axioms;

pub open spec fn cadd(a: Coord, b: Coord) -> Coord {
    Coord { x: (a.x + b.x) as i32, y: (a.y + b.y) as i32 }
}

pub open spec fn csub(a: Coord, b: Coord) -> Coord {
    Coord { x: (a.x - b.x) as i32, y: (a.y - b.y) as i32 }
}

pub open spec fn cneg(a: Coord) -> Coord {
    Coord { x: -a.x as i32, y: -a.y as i32 }
}

/// The six hexagonal neighbour offsets of a tile of the given depth, built
/// from the two lattice generators `zl` and `zmd`.
pub open spec fn nearby_from(zl: Coord, zmd: Coord) -> Seq<Coord> {
    seq![zl, csub(zl, zmd), cneg(zmd), cneg(zl), csub(zmd, zl), zmd]
}

pub open spec fn generators(depth: int) -> (Coord, Coord) {
    if depth == 1 {
        (Coord { x: -1i32, y: 1i32 }, Coord { x: 0i32, y: 2i32 })
    } else if depth == 2 {
        (Coord { x: -2i32, y: 0i32 }, Coord { x: 0i32, y: -2i32 })
    } else if depth == 3 {
        (Coord { x: -3i32, y: -1i32 }, Coord { x: -1i32, y: -3i32 })
    } else {
        (literal_spec(depth), cadd(literal_spec(depth + 1), literal_spec(depth)))
    }
}

pub open spec fn nearby_spec(depth: int) -> Seq<Coord> {
    nearby_from(generators(depth).0, generators(depth).1)
}

pub open spec fn small(c: Coord) -> bool {
    -1000 <= c.x <= 1000 && -1000 <= c.y <= 1000
}

pub proof fn lemma_generators_small(depth: int)
    requires
        1 <= depth <= MAX_DEPTH,
    ensures
        small(generators(depth).0),
        -500 <= generators(depth).1.x <= 500,
        -500 <= generators(depth).1.y <= 500,
{
}

impl Fractal {
    /// The offsets from a tile center to its six neighbours' centers:
    /// right, down-right, down-left, left, up-left, up-right in turn.
    pub fn get_nearby_vectors(depth: u8) -> (r: [Coord; 6])
        requires
            1 <= depth <= MAX_DEPTH,
        ensures
            r@ == nearby_spec(depth as int),
            forall|i: int| 0 <= i < 6 ==> small(#[trigger] r@[i]),
    {
        proof {
            lemma_generators_small(depth as int);
        }
        let (zl, zmd) = if depth == 1 {
            (Coord { x: -1, y: 1 }, Coord { x: 0, y: 2 })
        } else if depth == 2 {
            (Coord { x: -2, y: 0 }, Coord { x: 0, y: -2 })
        } else if depth == 3 {
            (Coord { x: -3, y: -1 }, Coord { x: -1, y: -3 })
        } else {
            let zl = literal(depth as usize);
            (zl, literal(depth as usize + 1).add(zl))
        };
        let r = [zl, zl.sub(zmd), zmd.neg(), zl.neg(), zmd.sub(zl), zmd];
        assert(r@ =~= nearby_spec(depth as int));
        r
    }

    /// The centers of the six neighbouring tiles.
    pub fn get_neighbour_locations(&self) -> (r: [Coord; 6])
        requires
            self.wf(),
        ensures
            forall|i: int|
                0 <= i < 6 ==> #[trigger] r@[i] == cadd(self.center, nearby_spec(self.depth as int)[i]),
    {
        let v = Self::get_nearby_vectors(self.depth);
        let c = self.center;
        [c.add(v[0]), c.add(v[1]), c.add(v[2]), c.add(v[3]), c.add(v[4]), c.add(v[5])]
    }
}


/// Pixels and tile centers stay within this bound.
pub open spec fn pos_ok(c: Coord) -> bool {
    -0x400_0000 <= c.x <= 0x400_0000 && -0x400_0000 <= c.y <= 0x400_0000
}

pub open spec fn in_map(gpm: Seq<HashMap<u64, usize>>, l: int, c: Coord) -> bool {
    0 <= l < gpm.len() && gpm[l]@.contains_key(key_of(c))
}

/// The skewed step of level-2 tiles: where the regular neighbour is missing
/// from the map of that level and the diagonal one is present, the diagonal
/// one is taken.
pub open spec fn skewed(gpm: Seq<HashMap<u64, usize>>, depth: int, regular: Coord, diagonal: Coord) -> bool {
    depth == 2 && !in_map(gpm, depth, regular) && in_map(gpm, depth, diagonal)
}

pub open spec fn left_of(c: Coord, d: int) -> Coord {
    cadd(c, nearby_spec(d)[4])
}

pub open spec fn right_of(c: Coord, d: int) -> Coord {
    cadd(c, nearby_spec(d)[1])
}

pub open spec fn down_left_of(gpm: Seq<HashMap<u64, usize>>, c: Coord, d: int) -> Coord {
    if skewed(gpm, d, cadd(c, nearby_spec(d)[3]), cadd(c, Coord { x: 1i32, y: 1i32 })) {
        cadd(c, Coord { x: 1i32, y: 1i32 })
    } else {
        cadd(c, nearby_spec(d)[3])
    }
}

pub open spec fn down_right_of(gpm: Seq<HashMap<u64, usize>>, c: Coord, d: int) -> Coord {
    if skewed(gpm, d, cadd(c, nearby_spec(d)[3]), cadd(c, Coord { x: 1i32, y: 1i32 })) {
        cadd(cadd(c, Coord { x: 1i32, y: 1i32 }), nearby_spec(d)[1])
    } else {
        cadd(c, nearby_spec(d)[2])
    }
}

pub open spec fn up_right_of(gpm: Seq<HashMap<u64, usize>>, c: Coord, d: int) -> Coord {
    if skewed(gpm, d, cadd(c, nearby_spec(d)[0]), cadd(c, Coord { x: -1i32, y: -1i32 })) {
        cadd(c, Coord { x: -1i32, y: -1i32 })
    } else {
        cadd(c, nearby_spec(d)[0])
    }
}

pub open spec fn up_left_of(gpm: Seq<HashMap<u64, usize>>, c: Coord, d: int) -> Coord {
    if skewed(gpm, d, cadd(c, nearby_spec(d)[0]), cadd(c, Coord { x: -1i32, y: -1i32 })) {
        cadd(cadd(c, Coord { x: -1i32, y: -1i32 }), nearby_spec(d)[4])
    } else {
        cadd(c, nearby_spec(d)[5])
    }
}

fn contains(gpm: &Vec<HashMap<u64, usize>>, l: u8, c: Coord) -> (r: bool)
    ensures
        r == in_map(gpm@, l as int, c),
{
    if (l as usize) < gpm.len() {
        gpm[l as usize].contains_key(&coord_key(c))
    } else {
        false
    }
}

impl Fractal {
    pub fn get_left(center: Coord, depth: u8, global_position_map: &Vec<HashMap<u64, usize>>) -> (r: Coord)
        requires
            1 <= depth <= MAX_DEPTH,
            pos_ok(center),
        ensures
            r == left_of(center, depth as int),
    {
        let v = Self::get_nearby_vectors(depth);
        center.add(v[4])
    }

    pub fn get_right(center: Coord, depth: u8, global_position_map: &Vec<HashMap<u64, usize>>) -> (r: Coord)
        requires
            1 <= depth <= MAX_DEPTH,
            pos_ok(center),
        ensures
            r == right_of(center, depth as int),
    {
        let v = Self::get_nearby_vectors(depth);
        center.add(v[1])
    }

    pub fn get_down_left(center: Coord, depth: u8, global_position_map: &Vec<HashMap<u64, usize>>) -> (r: Coord)
        requires
            1 <= depth <= MAX_DEPTH,
            pos_ok(center),
        ensures
            r == down_left_of(global_position_map@, center, depth as int),
    {
        let v = Self::get_nearby_vectors(depth);
        let diag = center.add(Coord { x: 1, y: 1 });
        if depth == 2 && !contains(global_position_map, depth, center.add(v[3])) && contains(
            global_position_map,
            depth,
            diag,
        ) {
            diag
        } else {
            center.add(v[3])
        }
    }

    pub fn get_down_right(center: Coord, depth: u8, global_position_map: &Vec<HashMap<u64, usize>>) -> (r: Coord)
        requires
            1 <= depth <= MAX_DEPTH,
            pos_ok(center),
        ensures
            r == down_right_of(global_position_map@, center, depth as int),
    {
        let v = Self::get_nearby_vectors(depth);
        let diag = center.add(Coord { x: 1, y: 1 });
        if depth == 2 && !contains(global_position_map, depth, center.add(v[3])) && contains(
            global_position_map,
            depth,
            diag,
        ) {
            diag.add(v[1])
        } else {
            center.add(v[2])
        }
    }

    pub fn get_up_right(center: Coord, depth: u8, global_position_map: &Vec<HashMap<u64, usize>>) -> (r: Coord)
        requires
            1 <= depth <= MAX_DEPTH,
            pos_ok(center),
        ensures
            r == up_right_of(global_position_map@, center, depth as int),
    {
        let v = Self::get_nearby_vectors(depth);
        let diag = center.add(Coord { x: -1, y: -1 });
        if depth == 2 && !contains(global_position_map, depth, center.add(v[0])) && contains(
            global_position_map,
            depth,
            diag,
        ) {
            diag
        } else {
            center.add(v[0])
        }
    }

    pub fn get_up_left(center: Coord, depth: u8, global_position_map: &Vec<HashMap<u64, usize>>) -> (r: Coord)
        requires
            1 <= depth <= MAX_DEPTH,
            pos_ok(center),
        ensures
            r == up_left_of(global_position_map@, center, depth as int),
    {
        let v = Self::get_nearby_vectors(depth);
        let diag = center.add(Coord { x: -1, y: -1 });
        if depth == 2 && !contains(global_position_map, depth, center.add(v[0])) && contains(
            global_position_map,
            depth,
            diag,
        ) {
            diag.add(v[4])
        } else {
            center.add(v[5])
        }
    }
}


/// The tree leaves of a tile over a raster channel: the pixel under each
/// leaf, `None` outside the image.
pub open spec fn cell_leaves(r: RasterImage, center: Coord, d: nat, ch: int) -> Seq<Option<int>> {
    Seq::new(
        p2(d),
        |j: int|
            opt_int(
                r.pixel(
                    pos_spec(center, d, p2(d) + j).x as int,
                    pos_spec(center, d, p2(d) + j).y as int,
                    ch,
                ),
            ),
    )
}

/// The coefficients of channel `ch` of a tile are the analysis of its leaves.
pub open spec fn coefficients_of(f: Fractal, r: RasterImage, ch: int) -> bool {
    let n = p2(f.depth as nat);
    &&& f.coefficients@[ch]@.len() == n
    &&& forall|k: int|
        0 <= k < n ==> opt_int(#[trigger] f.coefficients@[ch]@[k]) == coefficient(
            cell_leaves(r, f.center, f.depth as nat, ch),
            k,
        )
}

impl Fractal {
    /// Runs the analysis of every channel of `raster_image` over this tile.
    pub fn extract_coefficients(&mut self, raster_image: &RasterImage)
        requires
            old(self).wf(),
            raster_image.wf(),
        ensures
            final(self).wf(),
            final(self).depth == old(self).depth,
            final(self).center == old(self).center,
            final(self).position_map == old(self).position_map,
            final(self).image_positions == old(self).image_positions,
            final(self).coefficients@.len() == channels_of(raster_image.metadata.colorspace),
            forall|ch: int|
                0 <= ch < channels_of(raster_image.metadata.colorspace) ==> coefficients_of(
                    *final(self),
                    *raster_image,
                    ch,
                ),
    {
        let ghost d = self.depth as nat;
        proof {
            lemma_p2_grows(d, MAX_DEPTH as nat);
            lemma_p2_16();
        }
        let n = pow2_usize(self.depth);
        let channels = raster_image.metadata.colorspace.num_channels();
        let mut coefficients: Vec<Vec<Option<i32>>> = Vec::new();
        let mut ch: usize = 0;
        while ch < channels
            invariant
                self.wf(),
                d == self.depth as nat,
                n == p2(d),
                1 <= n <= 65536,
                raster_image.wf(),
                channels == channels_of(raster_image.metadata.colorspace),
                ch <= channels,
                coefficients@.len() == ch,
                forall|c: int|
                    0 <= c < ch ==> coefficients_of(
                        Fractal { coefficients: coefficients, ..*self },
                        *raster_image,
                        c,
                    ),
            decreases channels - ch,
        {
            let mut leaves: Vec<Option<i32>> = Vec::new();
            let mut j: usize = 0;
            while j < n
                invariant
                    self.wf(),
                    d == self.depth as nat,
                    n == p2(d),
                    1 <= n <= 65536,
                    raster_image.wf(),
                    channels == channels_of(raster_image.metadata.colorspace),
                    ch < channels,
                    j <= n,
                    leaves@.len() == j,
                    forall|i: int|
                        0 <= i < j ==> opt_int(#[trigger] leaves@[i]) == cell_leaves(
                            *raster_image,
                            self.center,
                            d,
                            ch as int,
                        )[i],
                    forall|i: int| 0 <= i < j ==> is_byte(opt_int(#[trigger] leaves@[i])),
                decreases n - j,
            {
                let p = self.image_positions[n + j];
                let v = raster_image.get_pixel(p.x, p.y, ch);
                leaves.push(v);
                j = j + 1;
            }
            let c = analyze(&leaves);
            proof {
                assert(crate::lifting::opt_ints(leaves@) =~= cell_leaves(
                    *raster_image,
                    self.center,
                    d,
                    ch as int,
                ));
            }
            let ghost before = coefficients;
            coefficients.push(c);
            proof {
                assert forall|cc: int| 0 <= cc < ch + 1 implies coefficients_of(
                    Fractal { coefficients: coefficients, ..*self },
                    *raster_image,
                    cc,
                ) by {
                    if cc < ch {
                        assert(coefficients@[cc] == before@[cc]);
                        assert(coefficients_of(
                            Fractal { coefficients: before, ..*self },
                            *raster_image,
                            cc,
                        ));
                    }
                }
            }
            ch = ch + 1;
        }
        let ghost prev = *self;
        self.coefficients = coefficients;
        assert forall|l: int| 0 <= l < d implies self.level_map_ok(l) by {
            assert(prev.level_map_ok(l));
        }
        assert forall|i: int| 1 <= i < 2 * p2(d) implies #[trigger] self.image_positions@[i]
            == pos_spec(self.center, d, i) by {
            assert(prev.image_positions@[i] == pos_spec(prev.center, d, i));
        }
    }
}


pub open spec fn cell_ok(f: Fractal, channels: nat) -> bool {
    &&& f.wf()
    &&& f.depth == BASE_FRAC_DEPTH
    &&& f.coefficients@.len() == channels
    &&& forall|c: int|
        0 <= c < channels ==> (#[trigger] f.coefficients@[c])@.len() == p2(BASE_FRAC_DEPTH as nat)
            && f.coefficients@[c]@[0] is Some
}

/// The map of level `l` sends each pixel of that level to a tile holding it.
pub open spec fn gpm_level_ok(cells: Seq<Fractal>, m: Map<u64, usize>, l: int) -> bool {
    &&& forall|k: u64|
        #[trigger] m.contains_key(k) ==> m[k] < cells.len() && cells[m[k] as int].position_map@[l]@.contains_key(k)
    &&& forall|j: int, i: int|
        0 <= j < cells.len() && p2(l as nat) <= i < 2 * p2(l as nat) ==> #[trigger] m.contains_key(
            key_of(pos_spec(cells[j].center, BASE_FRAC_DEPTH as nat, i)),
        )
}

/// The sum over the first `depth` digit vectors of `|x| + |y|`: how far a
/// tile reaches from its center.
pub open spec fn margin_spec(depth: nat) -> int
    decreases depth,
{
    if depth == 0 {
        0
    } else {
        margin_spec((depth - 1) as nat) + abs_int(literal_spec(depth - 1).x as int) + abs_int(
            literal_spec(depth - 1).y as int,
        )
    }
}

pub open spec fn abs_int(a: int) -> int {
    if a < 0 {
        -a
    } else {
        a
    }
}

/// How many lattice steps around the middle are tried each way.
pub open spec fn span_spec(w: int, h: int, depth: int) -> int {
    (w + h + 2 * margin_spec(depth as nat)) / 8 + 2
}

/// The lattice point `c0 + a * n[0] + b * n[5]` around the middle `c0`.
pub open spec fn lattice_x(w: int, depth: int, a: int, b: int) -> int {
    w / 2 + a * nearby_spec(depth)[0].x + b * nearby_spec(depth)[5].x
}

pub open spec fn lattice_y(h: int, depth: int, a: int, b: int) -> int {
    h / 2 + a * nearby_spec(depth)[0].y + b * nearby_spec(depth)[5].y
}

/// The point is kept when it lies in the image box widened by the margin.
pub open spec fn kept(w: int, h: int, depth: int, a: int, b: int) -> bool {
    let m = margin_spec(depth as nat);
    -m <= lattice_x(w, depth, a, b) <= w + m && -m <= lattice_y(h, depth, a, b) <= h + m
}

/// The kept points of row `a`, for the first `nb` values of `b` from `-span`.
pub open spec fn row_centers(w: int, h: int, depth: int, a: int, nb: nat) -> Seq<Coord>
    decreases nb,
{
    if nb == 0 {
        Seq::empty()
    } else {
        let b = nb - 1 - span_spec(w, h, depth);
        row_centers(w, h, depth, a, (nb - 1) as nat) + if kept(w, h, depth, a, b) {
            seq![Coord { x: lattice_x(w, depth, a, b) as i32, y: lattice_y(h, depth, a, b) as i32 }]
        } else {
            Seq::empty()
        }
    }
}

/// The kept points of the first `na` rows from `a = -span`, row by row.
pub open spec fn lattice_centers(w: int, h: int, depth: int, na: nat) -> Seq<Coord>
    decreases na,
{
    if na == 0 {
        Seq::empty()
    } else {
        let s = span_spec(w, h, depth);
        lattice_centers(w, h, depth, (na - 1) as nat) + row_centers(w, h, depth, na - 1 - s, (2 * s + 1) as nat)
    }
}

/// The tiles of an image with their coefficients and scan indexes.
pub struct WaveletImage {
    pub metadata: ImageMetadata,
    pub fractal_lattice: Vec<Fractal>,
    /// Per level: each pixel of that level mapped to the index of its tile.
    pub global_position_map: Vec<HashMap<u64, usize>>,
    /// Per level: the order in which that level's pixels are coded.
    pub sorted_lattice: Vec<Vec<Coord>>,
}

impl WaveletImage {
    pub open spec fn wf(&self) -> bool {
        let channels = channels_of(self.metadata.colorspace);
        &&& self.metadata.sized()
        &&& forall|j: int|
            0 <= j < self.fractal_lattice@.len() ==> cell_ok(#[trigger] self.fractal_lattice@[j], channels)
        &&& self.global_position_map@.len() == BASE_FRAC_DEPTH
        &&& forall|l: int|
            0 <= l < BASE_FRAC_DEPTH ==> gpm_level_ok(self.fractal_lattice@, #[trigger] self.global_position_map@[l]@, l)
        &&& self.sorted_lattice@.len() == BASE_FRAC_DEPTH
        &&& forall|l: int|
            0 <= l < BASE_FRAC_DEPTH ==> (#[trigger] self.sorted_lattice@[l])@ == level_scan(
                self.metadata,
                self.global_position_map@[l]@,
            )
    }

    /// The lattice points around the image's middle whose tiles can reach
    /// the image: see `lattice_centers`.
    pub fn fractal_divide(width: u32, height: u32, depth: u8) -> (r: Vec<Coord>)
        requires
            width <= crate::images::MAX_SIDE,
            height <= crate::images::MAX_SIDE,
            1 <= depth <= MAX_DEPTH,
        ensures
            r@ == lattice_centers(
                width as int,
                height as int,
                depth as int,
                (2 * span_spec(width as int, height as int, depth as int) + 1) as nat,
            ),
            forall|i: int| 0 <= i < r@.len() ==> center_ok(#[trigger] r@[i]),
    {
        let v = Fractal::get_nearby_vectors(depth);
        let zl = v[0];
        let zmd = v[5];
        let margin = margin_of(depth);
        let w = width as i64;
        let h = height as i64;
        let span: i64 = (w + h + 2 * margin) / 8 + 2;
        let ghost (wi, hi, di) = (width as int, height as int, depth as int);
        assert(span == span_spec(wi, hi, di));
        let cx = w / 2;
        let cy = h / 2;
        let mut r: Vec<Coord> = Vec::new();
        let mut a: i64 = -span;
        while a <= span
            invariant
                -span <= a <= span + 1,
                0 < span <= 4000,
                0 <= margin <= 6400,
                margin == margin_spec(di as nat),
                span == span_spec(wi, hi, di),
                wi == w && hi == h,
                1 <= di <= MAX_DEPTH,
                0 <= w <= 8192,
                0 <= h <= 8192,
                cx == w / 2,
                cy == h / 2,
                zl == nearby_spec(di)[0],
                zmd == nearby_spec(di)[5],
                small(zl),
                small(zmd),
                r@ == lattice_centers(wi, hi, di, (a + span) as nat),
                forall|i: int| 0 <= i < r@.len() ==> center_ok(#[trigger] r@[i]),
            decreases span + 1 - a,
        {
            let ghost start = r@;
            let mut b: i64 = -span;
            while b <= span
                invariant
                    -span <= a <= span,
                    -span <= b <= span + 1,
                    0 < span <= 4000,
                    0 <= margin <= 6400,
                    margin == margin_spec(di as nat),
                    span == span_spec(wi, hi, di),
                    wi == w && hi == h,
                    1 <= di <= MAX_DEPTH,
                    0 <= w <= 8192,
                    0 <= h <= 8192,
                    cx == w / 2,
                    cy == h / 2,
                    zl == nearby_spec(di)[0],
                    zmd == nearby_spec(di)[5],
                    small(zl),
                    small(zmd),
                    start == lattice_centers(wi, hi, di, (a + span) as nat),
                    r@ == start + row_centers(wi, hi, di, a as int, (b + span) as nat),
                    forall|i: int| 0 <= i < r@.len() ==> center_ok(#[trigger] r@[i]),
                decreases span + 1 - b,
            {
                proof {
                    assert(-4_000_000 <= a * (zl.x as i64) <= 4_000_000) by (nonlinear_arith)
                        requires -4000 <= a <= 4000, -1000 <= zl.x <= 1000;
                    assert(-4_000_000 <= a * (zl.y as i64) <= 4_000_000) by (nonlinear_arith)
                        requires -4000 <= a <= 4000, -1000 <= zl.y <= 1000;
                    assert(-4_001_000 <= b * (zmd.x as i64) <= 4_001_000) by (nonlinear_arith)
                        requires -4000 <= b <= 4001, -1000 <= zmd.x <= 1000;
                    assert(-4_001_000 <= b * (zmd.y as i64) <= 4_001_000) by (nonlinear_arith)
                        requires -4000 <= b <= 4001, -1000 <= zmd.y <= 1000;
                }
                let x = cx + a * (zl.x as i64) + b * (zmd.x as i64);
                let y = cy + a * (zl.y as i64) + b * (zmd.y as i64);
                if -margin <= x && x <= w + margin && -margin <= y && y <= h + margin {
                    r.push(Coord { x: x as i32, y: y as i32 });
                }
                proof {
                    assert(r@ =~= start + row_centers(wi, hi, di, a as int, (b + 1 + span) as nat));
                }
                b = b + 1;
            }
            proof {
                assert(r@ =~= lattice_centers(wi, hi, di, (a + 1 + span) as nat));
            }
            a = a + 1;
        }
        r
    }
}


impl WaveletImage {
    /// Maps every pixel of every level to the index of its tile.
    pub fn get_global_position_map(cells: &Vec<Fractal>) -> (r: Vec<HashMap<u64, usize>>)
        requires
            forall|j: int| 0 <= j < cells@.len() ==> (#[trigger] cells@[j]).wf() && cells@[j].depth == BASE_FRAC_DEPTH,
        ensures
            r@.len() == BASE_FRAC_DEPTH,
            forall|l: int| 0 <= l < BASE_FRAC_DEPTH ==> gpm_level_ok(cells@, #[trigger] r@[l]@, l),
    {
        let d = BASE_FRAC_DEPTH as usize;
        let mut r: Vec<HashMap<u64, usize>> = Vec::new();
        let mut l: usize = 0;
        let mut lo: usize = 1;
        while l < d
            invariant
                d == BASE_FRAC_DEPTH,
                forall|j: int| 0 <= j < cells@.len() ==> (#[trigger] cells@[j]).wf() && cells@[j].depth == BASE_FRAC_DEPTH,
                l <= d,
                lo == p2(l as nat),
                r@.len() == l,
                forall|ll: int| 0 <= ll < l ==> gpm_level_ok(cells@, #[trigger] r@[ll]@, ll),
            decreases d - l,
        {
            proof {
                lemma_p2_grows((l + 1) as nat, BASE_FRAC_DEPTH as nat);
                lemma_p2_16();
                lemma_p2_grows(BASE_FRAC_DEPTH as nat, MAX_DEPTH as nat);
            }
            let hi = 2 * lo;
            let mut m: HashMap<u64, usize> = HashMap::new();
            let mut j: usize = 0;
            while j < cells.len()
                invariant
                    d == BASE_FRAC_DEPTH,
                    forall|j: int| 0 <= j < cells@.len() ==> (#[trigger] cells@[j]).wf() && cells@[j].depth == BASE_FRAC_DEPTH,
                    l < d,
                    lo == p2(l as nat),
                    2 * lo <= p2(BASE_FRAC_DEPTH as nat),
                    hi == 2 * lo,
                    j <= cells@.len(),
                    forall|k: u64|
                        #[trigger] m@.contains_key(k) ==> m@[k] < cells@.len() && cells@[m@[k] as int].position_map@[l as int]@.contains_key(k),
                    forall|jj: int, i: int|
                        0 <= jj < j && lo <= i < 2 * lo ==> #[trigger] m@.contains_key(
                            key_of(pos_spec(cells@[jj].center, BASE_FRAC_DEPTH as nat, i)),
                        ),
                decreases cells@.len() - j,
            {
                let cell = &cells[j];
                let mut i: usize = lo;
                while i < hi
                    invariant
                        d == BASE_FRAC_DEPTH,
                        forall|j: int| 0 <= j < cells@.len() ==> (#[trigger] cells@[j]).wf() && cells@[j].depth == BASE_FRAC_DEPTH,
                        l < d,
                        lo == p2(l as nat),
                        2 * lo <= p2(BASE_FRAC_DEPTH as nat),
                        hi == 2 * lo,
                        j < cells@.len(),
                        *cell == cells@[j as int],
                        lo <= i <= 2 * lo,
                        forall|k: u64|
                            #[trigger] m@.contains_key(k) ==> m@[k] < cells@.len() && cells@[m@[k] as int].position_map@[l as int]@.contains_key(k),
                        forall|jj: int, ii: int|
                            0 <= jj < j && lo <= ii < 2 * lo ==> #[trigger] m@.contains_key(
                                key_of(pos_spec(cells@[jj].center, BASE_FRAC_DEPTH as nat, ii)),
                            ),
                        forall|ii: int|
                            lo <= ii < i ==> #[trigger] m@.contains_key(
                                key_of(pos_spec(cell.center, BASE_FRAC_DEPTH as nat, ii)),
                            ),
                    decreases 2 * lo - i,
                {
                    proof {
                        assert(cell.level_map_ok(l as int));
                        assert(cell.image_positions@[i as int] == pos_spec(cell.center, BASE_FRAC_DEPTH as nat, i as int));
                    }
                    m.insert(coord_key(cell.image_positions[i]), j);
                    i = i + 1;
                }
                j = j + 1;
            }
            r.push(m);
            l = l + 1;
            lo = lo * 2;
        }
        r
    }
}


/// How far a tile of the given depth reaches from its center, in each
/// coordinate: see `margin_spec`.
pub fn margin_of(depth: u8) -> (r: i64)
    requires
        depth <= MAX_DEPTH,
    ensures
        r == margin_spec(depth as nat),
        0 <= r <= 400 * depth,
{
    let mut margin: i64 = 0;
    let mut k: usize = 0;
    while k < depth as usize
        invariant
            k <= depth <= MAX_DEPTH,
            0 <= margin <= 400 * k,
            margin == margin_spec(k as nat),
        decreases depth - k,
    {
        proof {
            crate::cell::lemma_small_literals(k as int);
        }
        let z = literal(k);
        let ax: i64 = if z.x < 0 { -(z.x as i64) } else { z.x as i64 };
        let ay: i64 = if z.y < 0 { -(z.y as i64) } else { z.y as i64 };
        margin = margin + ax + ay;
        k = k + 1;
    }
    margin
}

/// The points `(x0 .. x0 + n, y)` that the map holds, left to right.
pub open spec fn raster_row(gm: Map<u64, usize>, y: int, x0: int, n: nat) -> Seq<Coord>
    decreases n,
{
    if n == 0 {
        Seq::empty()
    } else {
        let c = Coord { x: (x0 + n - 1) as i32, y: y as i32 };
        raster_row(gm, y, x0, (n - 1) as nat) + if gm.contains_key(key_of(c)) {
            seq![c]
        } else {
            Seq::empty()
        }
    }
}

/// Rows `y0 .. y0 + n` of width `w` from `x0`, top to bottom.
pub open spec fn raster_scan(gm: Map<u64, usize>, x0: int, w: nat, y0: int, n: nat) -> Seq<Coord>
    decreases n,
{
    if n == 0 {
        Seq::empty()
    } else {
        raster_scan(gm, x0, w, y0, (n - 1) as nat) + raster_row(gm, y0 + n - 1, x0, w)
    }
}

/// The scan of one level: a raster scan of the image box widened by twice
/// the reach of a tile, keeping the pixels that the level's map holds.
pub open spec fn level_scan(m: ImageMetadata, gm: Map<u64, usize>) -> Seq<Coord> {
    let r = margin_spec(BASE_FRAC_DEPTH as nat);
    raster_scan(gm, -2 * r, (m.width + 4 * r + 1) as nat, -2 * r, (m.height + 4 * r + 1) as nat)
}

/// Raster order: by row, then by column.
pub open spec fn raster_before(a: Coord, b: Coord) -> bool {
    a.y < b.y || (a.y == b.y && a.x < b.x)
}

pub open spec fn small_int(v: int) -> bool {
    -0x10_0000 <= v <= 0x10_0000
}

proof fn lemma_raster_row(gm: Map<u64, usize>, y: int, x0: int, n: nat)
    requires
        small_int(y),
        small_int(x0),
        small_int(x0 + n),
    ensures
        forall|i: int|
            0 <= i < raster_row(gm, y, x0, n).len() ==> (#[trigger] raster_row(gm, y, x0, n)[i]).y == y
                && x0 <= raster_row(gm, y, x0, n)[i].x < x0 + n && gm.contains_key(key_of(raster_row(gm, y, x0, n)[i])),
        forall|i: int, j: int|
            0 <= i < j < raster_row(gm, y, x0, n).len() ==> (#[trigger] raster_row(gm, y, x0, n)[i]).x
                < (#[trigger] raster_row(gm, y, x0, n)[j]).x,
    decreases n,
{
    if n > 0 {
        lemma_raster_row(gm, y, x0, (n - 1) as nat);
        let a = raster_row(gm, y, x0, (n - 1) as nat);
        let c = Coord { x: (x0 + n - 1) as i32, y: y as i32 };
        assert(c.x == x0 + n - 1 && c.y == y);
        let b: Seq<Coord> = if gm.contains_key(key_of(c)) { seq![c] } else { Seq::empty() };
        let s = a + b;
        assert(s == raster_row(gm, y, x0, n));
        assert forall|i: int| 0 <= i < s.len() implies (#[trigger] s[i]).y == y && x0 <= s[i].x < x0 + n && gm.contains_key(key_of(s[i])) by {
            if i < a.len() {
                assert(a[i].y == y && x0 <= a[i].x < x0 + n - 1 && gm.contains_key(key_of(a[i])));
            }
        }
        assert forall|i: int, j: int| 0 <= i < j < s.len() implies (#[trigger] s[i]).x < (#[trigger] s[j]).x by {
            if j < a.len() {
                assert(a[i].x < a[j].x);
            } else {
                assert(a[i].x < x0 + n - 1);
            }
        }
    }
}

proof fn lemma_raster_scan(gm: Map<u64, usize>, x0: int, w: nat, y0: int, n: nat)
    requires
        small_int(y0),
        small_int(y0 + n),
        small_int(x0),
        small_int(x0 + w),
    ensures
        forall|i: int|
            0 <= i < raster_scan(gm, x0, w, y0, n).len() ==> y0 <= (#[trigger] raster_scan(gm, x0, w, y0, n)[i]).y
                < y0 + n && gm.contains_key(key_of(raster_scan(gm, x0, w, y0, n)[i])),
        forall|i: int, j: int|
            0 <= i < j < raster_scan(gm, x0, w, y0, n).len() ==> raster_before(
                #[trigger] raster_scan(gm, x0, w, y0, n)[i],
                #[trigger] raster_scan(gm, x0, w, y0, n)[j],
            ),
    decreases n,
{
    if n > 0 {
        lemma_raster_scan(gm, x0, w, y0, (n - 1) as nat);
        lemma_raster_row(gm, y0 + n - 1, x0, w);
        let a = raster_scan(gm, x0, w, y0, (n - 1) as nat);
        let b = raster_row(gm, y0 + n - 1, x0, w);
        let s = a + b;
        assert forall|i: int, j: int| 0 <= i < j < s.len() implies raster_before(#[trigger] s[i], #[trigger] s[j]) by {
            if j < a.len() {
                assert(raster_before(a[i], a[j]));
            } else if i >= a.len() {
                assert(b[i - a.len()].x < b[j - a.len()].x);
            } else {
                assert(a[i].y < y0 + n - 1);
            }
        }
        assert forall|i: int| 0 <= i < s.len() implies y0 <= (#[trigger] s[i]).y < y0 + n && gm.contains_key(key_of(s[i])) by {
            if i < a.len() {
                assert(y0 <= a[i].y < y0 + n - 1 && gm.contains_key(key_of(a[i])));
            } else {
                assert(gm.contains_key(key_of(b[i - a.len()])));
            }
        }
    }
}

/// Every level's scan lists each pixel at most once, in raster order, and
/// holds exactly the pixels of the widened box that the level's map holds.
pub proof fn lemma_level_scan_distinct(m: ImageMetadata, gm: Map<u64, usize>)
    requires
        m.sized(),
    ensures
        forall|i: int, j: int|
            0 <= i < j < level_scan(m, gm).len() ==> raster_before(#[trigger] level_scan(m, gm)[i], #[trigger] level_scan(m, gm)[j]),
        forall|i: int, j: int|
            0 <= i < j < level_scan(m, gm).len() ==> #[trigger] level_scan(m, gm)[i] != #[trigger] level_scan(m, gm)[j],
        forall|i: int| 0 <= i < level_scan(m, gm).len() ==> gm.contains_key(key_of(#[trigger] level_scan(m, gm)[i])),
{
    let r = margin_spec(BASE_FRAC_DEPTH as nat);
    lemma_margin_bound(BASE_FRAC_DEPTH as nat);
    lemma_raster_scan(gm, -2 * r, (m.width + 4 * r + 1) as nat, -2 * r, (m.height + 4 * r + 1) as nat);
}

proof fn lemma_margin_bound(d: nat)
    requires
        d <= MAX_DEPTH,
    ensures
        0 <= margin_spec(d) <= 400 * d,
    decreases d,
{
    if d > 0 {
        lemma_margin_bound((d - 1) as nat);
        crate::cell::lemma_small_literals(d - 1);
    }
}

impl WaveletImage {
    /// The raster scan of one level: see `level_scan`.
    pub fn scan_level(global_position_map: &HashMap<u64, usize>, metadata: &ImageMetadata) -> (r: Vec<Coord>)
        requires
            metadata.sized(),
        ensures
            r@ == level_scan(*metadata, global_position_map@),
    {
        let margin = margin_of(BASE_FRAC_DEPTH);
        let x0: i64 = -2 * margin;
        let y0: i64 = -2 * margin;
        let w: i64 = metadata.width as i64 + 4 * margin + 1;
        let h: i64 = metadata.height as i64 + 4 * margin + 1;
        let ghost gm = global_position_map@;
        let mut r: Vec<Coord> = Vec::new();
        let mut row: i64 = 0;
        while row < h
            invariant
                0 <= margin <= 3600,
                margin == margin_spec(BASE_FRAC_DEPTH as nat),
                x0 == -2 * margin,
                y0 == -2 * margin,
                w == metadata.width + 4 * margin + 1,
                h == metadata.height + 4 * margin + 1,
                metadata.sized(),
                gm == global_position_map@,
                0 <= row <= h,
                r@ == raster_scan(gm, x0 as int, w as nat, y0 as int, row as nat),
            decreases h - row,
        {
            let ghost start = r@;
            let mut col: i64 = 0;
            while col < w
                invariant
                    0 <= margin <= 3600,
                    x0 == -2 * margin,
                    y0 == -2 * margin,
                    w == metadata.width + 4 * margin + 1,
                    h == metadata.height + 4 * margin + 1,
                    metadata.sized(),
                    gm == global_position_map@,
                    0 <= row < h,
                    0 <= col <= w,
                    start == raster_scan(gm, x0 as int, w as nat, y0 as int, row as nat),
                    r@ == start + raster_row(gm, y0 + row, x0 as int, col as nat),
                decreases w - col,
            {
                let c = Coord { x: (x0 + col) as i32, y: (y0 + row) as i32 };
                if global_position_map.contains_key(&coord_key(c)) {
                    r.push(c);
                }
                proof {
                    assert(r@ =~= start + raster_row(gm, y0 + row, x0 as int, (col + 1) as nat));
                }
                col = col + 1;
            }
            proof {
                assert(r@ =~= raster_scan(gm, x0 as int, w as nat, y0 as int, (row + 1) as nat));
            }
            row = row + 1;
        }
        r
    }

    /// The scan order of every level: see `level_scan`.
    pub fn sort_lattice(global_position_map: &Vec<HashMap<u64, usize>>, metadata: &ImageMetadata) -> (r: Vec<Vec<Coord>>)
        requires
            metadata.sized(),
            global_position_map@.len() == BASE_FRAC_DEPTH,
        ensures
            r@.len() == BASE_FRAC_DEPTH,
            forall|l: int|
                0 <= l < BASE_FRAC_DEPTH ==> (#[trigger] r@[l])@ == level_scan(*metadata, global_position_map@[l]@),
    {
        let mut r: Vec<Vec<Coord>> = Vec::new();
        let mut l: usize = 0;
        while l < BASE_FRAC_DEPTH as usize
            invariant
                metadata.sized(),
                global_position_map@.len() == BASE_FRAC_DEPTH,
                l <= BASE_FRAC_DEPTH,
                r@.len() == l,
                forall|ll: int|
                    0 <= ll < l ==> (#[trigger] r@[ll])@ == level_scan(*metadata, global_position_map@[ll]@),
            decreases BASE_FRAC_DEPTH - l,
        {
            let plane = Self::scan_level(&global_position_map[l], metadata);
            r.push(plane);
            l = l + 1;
        }
        r
    }
}


/// The leaves of the tile centered at `c` over an all-zero raster of the
/// metadata: `Some(0)` for a pixel inside the image, `None` outside.
pub open spec fn geo_leaves(m: ImageMetadata, c: Coord) -> Seq<Option<int>> {
    let d = BASE_FRAC_DEPTH as nat;
    Seq::new(
        p2(d),
        |j: int|
            if in_image(m, pos_spec(c, d, p2(d) + j).x as int, pos_spec(c, d, p2(d) + j).y as int) {
                Some(0int)
            } else {
                None
            },
    )
}

/// The tile centered at `c` holds at least one pixel of the image.
pub open spec fn present(m: ImageMetadata, c: Coord) -> bool {
    node_value(geo_leaves(m, c), 1) is Some
}

/// The centers among the first `n` of `cs` whose tiles are present.
pub open spec fn kept_centers(m: ImageMetadata, cs: Seq<Coord>, n: nat) -> Seq<Coord>
    decreases n,
{
    if n == 0 {
        Seq::empty()
    } else {
        kept_centers(m, cs, (n - 1) as nat) + if present(m, cs[n - 1]) {
            seq![cs[n - 1]]
        } else {
            Seq::empty()
        }
    }
}

/// The centers of the tiles of an image of the given size, in lattice
/// order: the encoder and the decoder build the same ones.
pub open spec fn tile_centers(m: ImageMetadata) -> Seq<Coord> {
    let w = m.width as int;
    let h = m.height as int;
    let d = BASE_FRAC_DEPTH as int;
    let all = lattice_centers(w, h, d, (2 * span_spec(w, h, d) + 1) as nat);
    kept_centers(m, all, all.len())
}

/// Channel `ch` of a tile holds the analysis of an all-zero raster: the
/// coefficients present where the tile's pixels make them so, all zero.
pub open spec fn zero_tile(f: Fractal, m: ImageMetadata, ch: int) -> bool {
    &&& f.coefficients@[ch]@.len() == p2(BASE_FRAC_DEPTH as nat)
    &&& forall|k: int|
        0 <= k < p2(BASE_FRAC_DEPTH as nat) ==> opt_int(#[trigger] f.coefficients@[ch]@[k]) == coefficient(
            geo_leaves(m, f.center),
            k,
        ) && (f.coefficients@[ch]@[k] matches Some(v) ==> v == 0)
}

pub open spec fn same_pattern(a: Seq<Option<int>>, b: Seq<Option<int>>) -> bool {
    a.len() == b.len() && forall|j: int| 0 <= j < a.len() ==> (#[trigger] a[j] is Some) == (b[j] is Some)
}

/// Which nodes are present depends only on which leaves are.
pub proof fn lemma_pattern(a: Seq<Option<int>>, b: Seq<Option<int>>, k: int)
    requires
        same_pattern(a, b),
    ensures
        (node_value(a, k) is Some) == (node_value(b, k) is Some),
        (high(a, k) is Some) == (high(b, k) is Some),
        (coefficient(a, k) is Some) == (coefficient(b, k) is Some),
    decreases 2 * a.len() - k,
{
    let n = a.len() as int;
    if 1 <= k < n {
        lemma_pattern(a, b, 2 * k);
        lemma_pattern(a, b, 2 * k + 1);
    } else if k == 0 && n >= 1 {
        lemma_pattern(a, b, 1);
    } else if n <= k < 2 * n {
        assert(a[k - n] is Some == b[k - n] is Some);
    }
}

/// Over zero leaves every node and every coefficient is zero.
pub proof fn lemma_zero_analysis(a: Seq<Option<int>>, k: int)
    requires
        forall|j: int| 0 <= j < a.len() ==> (#[trigger] a[j] matches Some(v) ==> v == 0),
    ensures
        node_value(a, k) matches Some(v) ==> v == 0,
        high(a, k) matches Some(v) ==> v == 0,
        coefficient(a, k) matches Some(v) ==> v == 0,
    decreases 2 * a.len() - k,
{
    let n = a.len() as int;
    if 1 <= k < n {
        lemma_zero_analysis(a, 2 * k);
        lemma_zero_analysis(a, 2 * k + 1);
    } else if k == 0 && n >= 1 {
        lemma_zero_analysis(a, 1);
    } else if n <= k < 2 * n {
        assert(a[k - n] matches Some(v) ==> v == 0);
    }
}

/// The leaves of a tile over any raster are present exactly where the
/// tile's pixels lie in the image.
pub proof fn lemma_leaves_pattern(r: RasterImage, c: Coord, ch: int)
    ensures
        same_pattern(cell_leaves(r, c, BASE_FRAC_DEPTH as nat, ch), geo_leaves(r.metadata, c)),
{
}

pub open spec fn centers_of(cells: Seq<Fractal>) -> Seq<Coord> {
    cells.map_values(|f: Fractal| f.center)
}

/// Every present coefficient lies in `-255..=255`.
pub open spec fn byte_coefs(c: Seq<Option<i32>>) -> bool {
    forall|k: int| 0 <= k < c.len() ==> (#[trigger] c[k] matches Some(v) ==> -255 <= v <= 255)
}

pub proof fn lemma_analysis_bytes(f: Fractal, r: RasterImage, ch: int)
    requires
        coefficients_of(f, r, ch),
        r.wf(),
        0 <= ch < channels_of(r.metadata.colorspace),
        1 <= f.depth <= MAX_DEPTH,
    ensures
        byte_coefs(f.coefficients@[ch]@),
{
    let leaves = cell_leaves(r, f.center, f.depth as nat, ch);
    lemma_p2_grows(0, f.depth as nat);
    assert forall|j: int| 0 <= j < leaves.len() implies is_byte(#[trigger] leaves[j]) by {}
    let c = f.coefficients@[ch]@;
    assert forall|k: int| 0 <= k < c.len() implies (#[trigger] c[k] matches Some(v) ==> -255 <= v <= 255) by {
        assert(opt_int(c[k]) == coefficient(leaves, k));
        crate::lifting::lemma_node_bounds(leaves, k);
        crate::lifting::lemma_node_bounds(leaves, 1);
    }
}

impl WaveletImage {
    /// The scan order of every level.
    pub fn get_sorted_lattice(&self) -> (r: &Vec<Vec<Coord>>)
        ensures
            r == &self.sorted_lattice,
    {
        &self.sorted_lattice
    }

    /// Every coefficient lies in `-255..=255`, as the analysis of 8-bit
    /// samples gives.
    pub open spec fn byte_bounded(&self) -> bool {
        forall|j: int, c: int|
            0 <= j < self.fractal_lattice@.len() && 0 <= c < self.fractal_lattice@[j].coefficients@.len()
                ==> byte_coefs((#[trigger] self.fractal_lattice@[j].coefficients@[c])@)
    }

    /// Every coefficient lies within the bound synthesis accepts.
    pub open spec fn bounded(&self) -> bool {
        forall|j: int, c: int|
            0 <= j < self.fractal_lattice@.len() && 0 <= c < self.fractal_lattice@[j].coefficients@.len()
                ==> coefs_bounded((#[trigger] self.fractal_lattice@[j].coefficients@[c])@)
    }

    /// Covers the raster with tiles and analyses each channel of each tile;
    /// tiles that hold no pixel of the image are left out.
    pub fn from_raster(raster_image: RasterImage) -> (r: WaveletImage)
        requires
            raster_image.wf(),
        ensures
            r.wf(),
            r.metadata == raster_image.metadata,
            forall|j: int, ch: int|
                0 <= j < r.fractal_lattice@.len() && 0 <= ch < channels_of(r.metadata.colorspace)
                    ==> #[trigger] coefficients_of(r.fractal_lattice@[j], raster_image, ch),
            r.byte_bounded(),
            r.bounded(),
            centers_of(r.fractal_lattice@) == tile_centers(raster_image.metadata),
    {
        let channels = raster_image.metadata.colorspace.num_channels();
        let centers = Self::fractal_divide(
            raster_image.metadata.width,
            raster_image.metadata.height,
            BASE_FRAC_DEPTH,
        );
        proof {
            lemma_p2_grows(BASE_FRAC_DEPTH as nat, MAX_DEPTH as nat);
            lemma_p2_16();
        }
        let mut cells: Vec<Fractal> = Vec::new();
        let mut k: usize = 0;
        while k < centers.len()
            invariant
                raster_image.wf(),
                channels == channels_of(raster_image.metadata.colorspace),
                forall|i: int| 0 <= i < centers@.len() ==> center_ok(#[trigger] centers@[i]),
                k <= centers@.len(),
                forall|j: int| 0 <= j < cells@.len() ==> cell_ok(#[trigger] cells@[j], channels as nat),
                forall|j: int, ch: int|
                    0 <= j < cells@.len() && 0 <= ch < channels
                        ==> #[trigger] coefficients_of(cells@[j], raster_image, ch),
                1 <= p2(BASE_FRAC_DEPTH as nat) <= 65536,
                centers_of(cells@) == kept_centers(raster_image.metadata, centers@, k as nat),
            decreases centers@.len() - k,
        {
            let mut cell = Fractal::new(BASE_FRAC_DEPTH, centers[k]);
            cell.extract_coefficients(&raster_image);
            assert forall|c: int| 0 <= c < channels implies (#[trigger] cell.coefficients@[c])@.len()
                == p2(BASE_FRAC_DEPTH as nat) by {
                assert(coefficients_of(cell, raster_image, c));
            }
            let mut present = true;
            let mut ch: usize = 0;
            while ch < channels
                invariant
                    cell.coefficients@.len() == channels,
                    forall|c: int| 0 <= c < channels ==> (#[trigger] cell.coefficients@[c])@.len() == p2(BASE_FRAC_DEPTH as nat),
                    p2(BASE_FRAC_DEPTH as nat) >= 1,
                    ch <= channels,
                    present == forall|c: int| 0 <= c < ch ==> (#[trigger] cell.coefficients@[c])@[0] is Some,
                decreases channels - ch,
            {
                if cell.coefficients[ch][0].is_none() {
                    present = false;
                }
                ch = ch + 1;
            }
            proof {
                assert(cell.center == centers@[k as int]);
                let geo = geo_leaves(raster_image.metadata, centers@[k as int]);
                assert forall|c: int| 0 <= c < channels implies (#[trigger] cell.coefficients@[c])@[0] is Some
                    == (node_value(geo, 1) is Some) by {
                    assert(coefficients_of(cell, raster_image, c));
                    assert(opt_int(cell.coefficients@[c]@[0]) == coefficient(cell_leaves(raster_image, cell.center, BASE_FRAC_DEPTH as nat, c), 0));
                    lemma_leaves_pattern(raster_image, cell.center, c);
                    lemma_pattern(cell_leaves(raster_image, cell.center, BASE_FRAC_DEPTH as nat, c), geo, 0);
                }
                assert(channels >= 1);
                assert(present == crate::wavelet::present(raster_image.metadata, centers@[k as int])) by {
                    assert(cell.coefficients@[0]@[0] is Some == (node_value(geo, 1) is Some));
                }
            }
            let ghost before = cells@;
            if present {
                cells.push(cell);
            }
            proof {
                assert(centers_of(cells@) =~= kept_centers(raster_image.metadata, centers@, (k + 1) as nat));
            }
            k = k + 1;
        }
        let global_position_map = Self::get_global_position_map(&cells);
        let sorted_lattice = Self::sort_lattice(&global_position_map, &raster_image.metadata);
        let r = WaveletImage {
            metadata: raster_image.metadata,
            fractal_lattice: cells,
            global_position_map,
            sorted_lattice,
        };
        assert forall|j: int, c: int|
            0 <= j < r.fractal_lattice@.len() && 0 <= c < r.fractal_lattice@[j].coefficients@.len()
                implies byte_coefs((#[trigger] r.fractal_lattice@[j].coefficients@[c])@) by {
            assert(cell_ok(r.fractal_lattice@[j], channels as nat));
            assert(coefficients_of(r.fractal_lattice@[j], raster_image, c));
            lemma_analysis_bytes(r.fractal_lattice@[j], raster_image, c);
        }
        assert forall|j: int, c: int|
            0 <= j < r.fractal_lattice@.len() && 0 <= c < r.fractal_lattice@[j].coefficients@.len()
                implies coefs_bounded((#[trigger] r.fractal_lattice@[j].coefficients@[c])@) by {
            assert(byte_coefs(r.fractal_lattice@[j].coefficients@[c]@));
        }
        r
    }

    /// The tiles of an all-zero image of the given size: the geometry the
    /// decoder fills in.
    pub fn from_metadata(metadata: ImageMetadata) -> (r: WaveletImage)
        requires
            metadata.sized(),
        ensures
            r.wf(),
            r.metadata == metadata,
            r.bounded(),
            r.byte_bounded(),
            centers_of(r.fractal_lattice@) == tile_centers(metadata),
            forall|j: int, ch: int|
                0 <= j < r.fractal_lattice@.len() && 0 <= ch < channels_of(metadata.colorspace) ==> #[trigger] zero_tile(
                    r.fractal_lattice@[j],
                    metadata,
                    ch,
                ),
    {
        let blank = RasterImage::blank(metadata);
        let ghost b = blank;
        let r = Self::from_raster(blank);
        assert forall|j: int, ch: int|
            0 <= j < r.fractal_lattice@.len() && 0 <= ch < channels_of(metadata.colorspace) implies #[trigger] zero_tile(
                r.fractal_lattice@[j],
                metadata,
                ch,
            ) by {
            let f = r.fractal_lattice@[j];
            assert(coefficients_of(f, b, ch));
            let d = BASE_FRAC_DEPTH as nat;
            assert forall|t: int| 0 <= t < p2(d) implies #[trigger] cell_leaves(b, f.center, d, ch)[t]
                == geo_leaves(metadata, f.center)[t] by {
                let p = pos_spec(f.center, d, p2(d) + t);
                if in_image(metadata, p.x as int, p.y as int) {
                    crate::images::lemma_sample_index(metadata, p.x as int, p.y as int, ch);
                }
            }
            assert(cell_leaves(b, f.center, BASE_FRAC_DEPTH as nat, ch) =~= geo_leaves(metadata, f.center));
            assert forall|k: int| 0 <= k < p2(BASE_FRAC_DEPTH as nat) implies opt_int(#[trigger] f.coefficients@[ch]@[k])
                == coefficient(geo_leaves(metadata, f.center), k) && (f.coefficients@[ch]@[k] matches Some(v) ==> v == 0) by {
                lemma_zero_analysis(geo_leaves(metadata, f.center), k);
            }
        }
        r
    }
}

/// Writes `v`, clamped to a byte, as sample `ch` of pixel `p` when `p` lies
/// in the image.
pub open spec fn put_sample(data: Seq<u8>, m: ImageMetadata, p: Coord, ch: int, v: int) -> Seq<u8> {
    if in_image(m, p.x as int, p.y as int) {
        data.update(sample_index(m, p.x as int, p.y as int, ch), clamp_byte(v))
    } else {
        data
    }
}

/// The leaf values synthesis rebuilds from channel `ch` of a tile.
pub open spec fn leaf_values(f: Fractal, ch: int) -> Seq<Option<int>> {
    Seq::new(p2(f.depth as nat), |j: int| rebuilt_leaf(opt_ints(f.coefficients@[ch]@), j))
}

/// The raster after the first `n` leaves of channel `ch` of a tile are
/// written, in heap order.
pub open spec fn write_leaves(data: Seq<u8>, m: ImageMetadata, f: Fractal, ch: int, n: nat) -> Seq<u8>
    decreases n,
{
    if n == 0 {
        data
    } else {
        let d = write_leaves(data, m, f, ch, (n - 1) as nat);
        match leaf_values(f, ch)[n - 1] {
            Some(v) => put_sample(d, m, f.image_positions@[p2(f.depth as nat) + n - 1], ch, v),
            None => d,
        }
    }
}

/// The raster after the first `c` channels of a tile are written.
pub open spec fn write_channels(data: Seq<u8>, m: ImageMetadata, f: Fractal, c: nat) -> Seq<u8>
    decreases c,
{
    if c == 0 {
        data
    } else {
        write_leaves(write_channels(data, m, f, (c - 1) as nat), m, f, c - 1, p2(f.depth as nat))
    }
}

/// The raster after the first `k` tiles are written, tile by tile.
pub open spec fn write_cells(data: Seq<u8>, m: ImageMetadata, cells: Seq<Fractal>, k: nat) -> Seq<u8>
    decreases k,
{
    if k == 0 {
        data
    } else {
        write_channels(write_cells(data, m, cells, (k - 1) as nat), m, cells[k - 1], channels_of(m.colorspace))
    }
}

impl RasterImage {
    /// Writes the leaves that synthesis rebuilds from a tile into the raster.
    fn extract_values(&mut self, fractal: &Fractal)
        requires
            old(self).wf(),
            cell_ok(*fractal, channels_of(old(self).metadata.colorspace)),
            forall|c: int|
                0 <= c < fractal.coefficients@.len() ==> coefs_bounded((#[trigger] fractal.coefficients@[c])@),
        ensures
            final(self).wf(),
            final(self).metadata == old(self).metadata,
            final(self).data@ == write_channels(
                old(self).data@,
                old(self).metadata,
                *fractal,
                channels_of(old(self).metadata.colorspace),
            ),
    {
        proof {
            lemma_p2_grows(BASE_FRAC_DEPTH as nat, MAX_DEPTH as nat);
            lemma_p2_16();
        }
        let n = pow2_usize(fractal.depth);
        let channels = self.metadata.colorspace.num_channels();
        let ghost meta = self.metadata;
        let ghost start = self.data@;
        let mut ch: usize = 0;
        while ch < channels
            invariant
                self.wf(),
                self.metadata == meta,
                self.data@ == write_channels(start, meta, *fractal, ch as nat),
                channels == channels_of(meta.colorspace),
                cell_ok(*fractal, channels as nat),
                forall|c: int|
                    0 <= c < fractal.coefficients@.len() ==> coefs_bounded((#[trigger] fractal.coefficients@[c])@),
                n == p2(BASE_FRAC_DEPTH as nat),
                1 <= n <= 65536,
                ch <= channels,
            decreases channels - ch,
        {
            assert(fractal.coefficients@[ch as int]@.len() == n);
            let leaves = synthesize(&fractal.coefficients[ch]);
            let ghost before = self.data@;
            let mut j: usize = 0;
            while j < n
                invariant
                    self.wf(),
                    self.metadata == meta,
                    self.data@ == write_leaves(before, meta, *fractal, ch as int, j as nat),
                    forall|t: int|
                        0 <= t < leaves@.len() ==> (match #[trigger] leaves@[t] {
                            Some(v) => rebuilt_leaf(opt_ints(fractal.coefficients@[ch as int]@), t) == Some(v as int),
                            None => rebuilt_leaf(opt_ints(fractal.coefficients@[ch as int]@), t) is None,
                        }),
                    channels == channels_of(meta.colorspace),
                    cell_ok(*fractal, channels as nat),
                    n == p2(BASE_FRAC_DEPTH as nat),
                    n <= 65536,
                    ch < channels,
                    leaves@.len() == n,
                    j <= n,
                decreases n - j,
            {
                let ghost lv = leaf_values(*fractal, ch as int);
                assert(lv[j as int] == rebuilt_leaf(opt_ints(fractal.coefficients@[ch as int]@), j as int));
                if let Some(v) = leaves[j] {
                    let p = fractal.image_positions[n + j];
                    let clamped: i32 = if v < 0 {
                        0
                    } else if v > 255 {
                        255
                    } else {
                        v as i32
                    };
                    assert(clamp_byte(clamped as int) == clamp_byte(v as int));
                    self.set_pixel(p.x, p.y, clamped, ch);
                }
                j = j + 1;
            }
            ch = ch + 1;
        }
    }

    /// Rebuilds the raster from the coefficients of every tile.
    pub fn from_wavelet(wavelet_image: WaveletImage) -> (r: RasterImage)
        requires
            wavelet_image.wf(),
            wavelet_image.bounded(),
        ensures
            r.wf(),
            r.metadata == wavelet_image.metadata,
            r.data@ == write_cells(
                Seq::new(wavelet_image.metadata.sample_count(), |i: int| 0u8),
                wavelet_image.metadata,
                wavelet_image.fractal_lattice@,
                wavelet_image.fractal_lattice@.len(),
            ),
    {
        let mut raster = RasterImage::blank(wavelet_image.metadata);
        let ghost zeros = Seq::new(wavelet_image.metadata.sample_count(), |i: int| 0u8);
        assert(raster.data@ =~= zeros);
        let mut k: usize = 0;
        while k < wavelet_image.fractal_lattice.len()
            invariant
                wavelet_image.wf(),
                wavelet_image.bounded(),
                raster.wf(),
                raster.metadata == wavelet_image.metadata,
                k <= wavelet_image.fractal_lattice@.len(),
                zeros == Seq::new(wavelet_image.metadata.sample_count(), |i: int| 0u8),
                raster.data@ == write_cells(zeros, wavelet_image.metadata, wavelet_image.fractal_lattice@, k as nat),
            decreases wavelet_image.fractal_lattice@.len() - k,
        {
            let cell = &wavelet_image.fractal_lattice[k];
            proof {
                assert(cell_ok(*cell, channels_of(raster.metadata.colorspace)));
                assert forall|c: int|
                    0 <= c < cell.coefficients@.len() implies coefs_bounded((#[trigger] cell.coefficients@[c])@) by {
                    assert(coefs_bounded(wavelet_image.fractal_lattice@[k as int].coefficients@[c]@));
                }
            }
            raster.extract_values(cell);
            k = k + 1;
        }
        raster
    }
}


/// Two tile lists with the same shapes.
pub open spec fn same_geometry(a: Seq<Fractal>, b: Seq<Fractal>) -> bool {
    &&& a.len() == b.len()
    &&& forall|j: int|
        0 <= j < a.len() ==> (#[trigger] a[j]).depth == b[j].depth && a[j].center == b[j].center
            && a[j].position_map == b[j].position_map && a[j].image_positions == b[j].image_positions
}

pub proof fn lemma_same_gpm(a: Seq<Fractal>, b: Seq<Fractal>, m: Map<u64, usize>, l: int)
    requires
        same_geometry(a, b),
        gpm_level_ok(a, m, l),
    ensures
        gpm_level_ok(b, m, l),
{
    assert forall|k: u64| #[trigger] m.contains_key(k) implies m[k] < b.len() && b[m[k] as int].position_map@[l]@.contains_key(k) by {
        let j = m[k] as int;
        assert(gpm_level_ok(a, m, l));
        assert(m[k] < a.len() && a[m[k] as int].position_map@[l]@.contains_key(k));
        assert(a[j].depth == b[j].depth);
        assert(a[j].position_map == b[j].position_map);
        assert(a[j].position_map@[l]@.contains_key(k));
    }
    assert forall|j: int, i: int|
        0 <= j < b.len() && p2(l as nat) <= i < 2 * p2(l as nat) implies #[trigger] m.contains_key(
            key_of(pos_spec(b[j].center, BASE_FRAC_DEPTH as nat, i)),
        ) by {
        assert(a[j].depth == b[j].depth);
        assert(m.contains_key(key_of(pos_spec(a[j].center, BASE_FRAC_DEPTH as nat, i))));
    }
}


proof fn lemma_left_spine(c: Coord, d: nat, l: nat)
    ensures
        pos_spec(c, d, p2(l) as int) == c,
    decreases l,
{
    if l > 0 {
        lemma_left_spine(c, d, (l - 1) as nat);
        lemma_p2_grows(0, (l - 1) as nat);
        assert(p2(l) as int / 2 == p2((l - 1) as nat) as int);
    }
}

proof fn lemma_spine_present(m: ImageMetadata, c: Coord, l: nat)
    requires
        l <= BASE_FRAC_DEPTH,
        in_image(m, c.x as int, c.y as int),
    ensures
        node_value(geo_leaves(m, c), p2(l) as int) is Some,
    decreases BASE_FRAC_DEPTH - l,
{
    let d = BASE_FRAC_DEPTH as nat;
    let g = geo_leaves(m, c);
    lemma_p2_grows(l, d);
    lemma_p2_grows(0, l);
    if l == d {
        lemma_left_spine(c, d, d);
        assert(g[0] == Some(0int));
    } else {
        lemma_spine_present(m, c, l + 1);
        lemma_p2_grows(l + 1, d);
        assert(p2(l + 1) as int == 2 * p2(l) as int);
    }
}

proof fn lemma_row_contains(w: int, h: int, d: int, a: int, b: int, nb: nat)
    requires
        kept(w, h, d, a, b),
        0 <= b + span_spec(w, h, d) < nb,
    ensures
        exists|i: int|
            0 <= i < row_centers(w, h, d, a, nb).len() && #[trigger] row_centers(w, h, d, a, nb)[i] == (Coord {
                x: lattice_x(w, d, a, b) as i32,
                y: lattice_y(h, d, a, b) as i32,
            }),
    decreases nb,
{
    let s = span_spec(w, h, d);
    let pt = Coord { x: lattice_x(w, d, a, b) as i32, y: lattice_y(h, d, a, b) as i32 };
    let pre = row_centers(w, h, d, a, (nb - 1) as nat);
    if b + s < nb - 1 {
        lemma_row_contains(w, h, d, a, b, (nb - 1) as nat);
        let i = choose|i: int| 0 <= i < pre.len() && #[trigger] pre[i] == pt;
        assert(row_centers(w, h, d, a, nb)[i] == pt);
    } else {
        assert(row_centers(w, h, d, a, nb)[pre.len() as int] == pt);
    }
}

proof fn lemma_lattice_contains(w: int, h: int, d: int, a: int, b: int, na: nat)
    requires
        kept(w, h, d, a, b),
        0 <= a + span_spec(w, h, d) < na,
        0 <= b + span_spec(w, h, d) < 2 * span_spec(w, h, d) + 1,
    ensures
        exists|i: int|
            0 <= i < lattice_centers(w, h, d, na).len() && #[trigger] lattice_centers(w, h, d, na)[i] == (Coord {
                x: lattice_x(w, d, a, b) as i32,
                y: lattice_y(h, d, a, b) as i32,
            }),
    decreases na,
{
    let s = span_spec(w, h, d);
    let pt = Coord { x: lattice_x(w, d, a, b) as i32, y: lattice_y(h, d, a, b) as i32 };
    let pre = lattice_centers(w, h, d, (na - 1) as nat);
    if a + s < na - 1 {
        lemma_lattice_contains(w, h, d, a, b, (na - 1) as nat);
        let i = choose|i: int| 0 <= i < pre.len() && #[trigger] pre[i] == pt;
        assert(lattice_centers(w, h, d, na)[i] == pt);
    } else {
        lemma_row_contains(w, h, d, a, b, (2 * s + 1) as nat);
        let row = row_centers(w, h, d, a, (2 * s + 1) as nat);
        let i = choose|i: int| 0 <= i < row.len() && #[trigger] row[i] == pt;
        assert(lattice_centers(w, h, d, na)[pre.len() + i] == pt);
    }
}

proof fn lemma_kept_contains(m: ImageMetadata, cs: Seq<Coord>, n: nat, i: int)
    requires
        0 <= i < n <= cs.len(),
        present(m, cs[i]),
    ensures
        exists|k: int| 0 <= k < kept_centers(m, cs, n).len() && #[trigger] kept_centers(m, cs, n)[k] == cs[i],
    decreases n,
{
    let pre = kept_centers(m, cs, (n - 1) as nat);
    if i < n - 1 {
        lemma_kept_contains(m, cs, (n - 1) as nat, i);
        let k = choose|k: int| 0 <= k < pre.len() && #[trigger] pre[k] == cs[i];
        assert(kept_centers(m, cs, n)[k] == cs[i]);
    } else {
        assert(kept_centers(m, cs, n)[pre.len() as int] == cs[i]);
    }
}

/// The tiles of a non-empty image include the one centered on its middle
/// pixel `(width / 2, height / 2)`, the seed of the lattice.
pub proof fn lemma_middle_tile(m: ImageMetadata)
    requires
        m.sized(),
        m.width >= 1,
        m.height >= 1,
    ensures
        exists|k: int|
            0 <= k < tile_centers(m).len() && #[trigger] tile_centers(m)[k] == (Coord {
                x: (m.width / 2) as i32,
                y: (m.height / 2) as i32,
            }),
{
    let w = m.width as int;
    let h = m.height as int;
    let d = BASE_FRAC_DEPTH as int;
    let s = span_spec(w, h, d);
    lemma_margin_bound(BASE_FRAC_DEPTH as nat);
    assert(lattice_x(w, d, 0, 0) == w / 2);
    assert(lattice_y(h, d, 0, 0) == h / 2);
    assert(kept(w, h, d, 0, 0));
    let c = Coord { x: (w / 2) as i32, y: (h / 2) as i32 };
    lemma_lattice_contains(w, h, d, 0, 0, (2 * s + 1) as nat);
    let all = lattice_centers(w, h, d, (2 * s + 1) as nat);
    let i = choose|i: int| 0 <= i < all.len() && #[trigger] all[i] == c;
    assert(c.x == w / 2 && c.y == h / 2);
    lemma_spine_present(m, c, 0);
    assert(p2(0) == 1);
    assert(present(m, c));
    lemma_kept_contains(m, all, all.len(), i);
    let kc = kept_centers(m, all, all.len());
    assert(tile_centers(m) == kc);
    let k = choose|k: int| 0 <= k < kc.len() && #[trigger] kc[k] == all[i];
    assert(tile_centers(m)[k] == c);
}

proof fn lemma_margin_grows(a: nat, b: nat)
    requires
        a <= b,
    ensures
        margin_spec(a) <= margin_spec(b),
    decreases b,
{
    if a < b {
        lemma_margin_grows(a, (b - 1) as nat);
    }
}

/// A node's pixel lies within `margin(D) - margin(D - level)` of the tile
/// center in each coordinate, so within the reach of the tile.
proof fn lemma_pos_reach(c: Coord, i: int)
    requires
        center_ok(c),
        1 <= i < 2 * p2(BASE_FRAC_DEPTH as nat),
    ensures
        level_of(i) <= BASE_FRAC_DEPTH,
        abs_int(pos_spec(c, BASE_FRAC_DEPTH as nat, i).x - c.x) <= margin_spec(BASE_FRAC_DEPTH as nat) - margin_spec(
            (BASE_FRAC_DEPTH - level_of(i)) as nat,
        ),
        abs_int(pos_spec(c, BASE_FRAC_DEPTH as nat, i).y - c.y) <= margin_spec(BASE_FRAC_DEPTH as nat) - margin_spec(
            (BASE_FRAC_DEPTH - level_of(i)) as nat,
        ),
    decreases i,
{
    let d = BASE_FRAC_DEPTH as nat;
    lemma_margin_bound(d);
    if i <= 1 {
        assert(level_of(i) == 0);
    } else {
        let p = i / 2;
        lemma_pos_reach(c, p);
        crate::cell::lemma_level_below(d, p);
        let lp = level_of(p);
        assert(level_of(i) == lp + 1);
        lemma_margin_grows((d - lp - 1) as nat, (d - lp) as nat);
        lemma_margin_bound((d - lp - 1) as nat);
        if i % 2 == 1 {
            crate::cell::lemma_small_literals(d - lp - 1);
            assert(margin_spec((d - lp) as nat) == margin_spec((d - lp - 1) as nat) + abs_int(
                literal_spec(d - lp - 1).x as int,
            ) + abs_int(literal_spec(d - lp - 1).y as int));
        }
    }
}

proof fn lemma_row_box(w: int, h: int, d: int, a: int, nb: nat)
    requires
        0 <= w <= 8192,
        0 <= h <= 8192,
        0 <= d <= MAX_DEPTH,
    ensures
        forall|k: int|
            0 <= k < row_centers(w, h, d, a, nb).len() ==> -margin_spec(d as nat) <= (#[trigger] row_centers(w, h, d, a, nb)[k]).x
                <= w + margin_spec(d as nat) && -margin_spec(d as nat) <= row_centers(w, h, d, a, nb)[k].y <= h
                + margin_spec(d as nat),
    decreases nb,
{
    if nb > 0 {
        lemma_row_box(w, h, d, a, (nb - 1) as nat);
        lemma_margin_bound(d as nat);
        let mr = margin_spec(d as nat);
        let pre = row_centers(w, h, d, a, (nb - 1) as nat);
        let b = nb - 1 - span_spec(w, h, d);
        let r = row_centers(w, h, d, a, nb);
        assert forall|k: int| 0 <= k < r.len() implies -mr <= (#[trigger] r[k]).x <= w + mr && -mr <= r[k].y <= h + mr by {
            if k < pre.len() {
                assert(r[k] == pre[k]);
            } else {
                assert(kept(w, h, d, a, b));
                assert(r[k] == Coord { x: lattice_x(w, d, a, b) as i32, y: lattice_y(h, d, a, b) as i32 });
            }
        }
    }
}

proof fn lemma_lattice_box(w: int, h: int, d: int, na: nat)
    requires
        0 <= w <= 8192,
        0 <= h <= 8192,
        0 <= d <= MAX_DEPTH,
    ensures
        forall|k: int|
            0 <= k < lattice_centers(w, h, d, na).len() ==> -margin_spec(d as nat) <= (#[trigger] lattice_centers(w, h, d, na)[k]).x
                <= w + margin_spec(d as nat) && -margin_spec(d as nat) <= lattice_centers(w, h, d, na)[k].y <= h
                + margin_spec(d as nat),
    decreases na,
{
    if na > 0 {
        lemma_lattice_box(w, h, d, (na - 1) as nat);
        let s = span_spec(w, h, d);
        lemma_row_box(w, h, d, na - 1 - s, (2 * s + 1) as nat);
        let pre = lattice_centers(w, h, d, (na - 1) as nat);
        let row = row_centers(w, h, d, na - 1 - s, (2 * s + 1) as nat);
        let all = lattice_centers(w, h, d, na);
        let mr = margin_spec(d as nat);
        assert forall|k: int| 0 <= k < all.len() implies -mr <= (#[trigger] all[k]).x <= w + mr && -mr <= all[k].y <= h + mr by {
            if k < pre.len() {
                assert(all[k] == pre[k]);
            } else {
                assert(all[k] == row[k - pre.len()]);
            }
        }
    }
}

proof fn lemma_kept_from(m: ImageMetadata, cs: Seq<Coord>, n: nat)
    requires
        n <= cs.len(),
    ensures
        forall|k: int|
            0 <= k < kept_centers(m, cs, n).len() ==> exists|i: int| 0 <= i < n && cs[i] == #[trigger] kept_centers(m, cs, n)[k],
    decreases n,
{
    if n > 0 {
        lemma_kept_from(m, cs, (n - 1) as nat);
        let pre = kept_centers(m, cs, (n - 1) as nat);
        assert forall|k: int| 0 <= k < kept_centers(m, cs, n).len() implies exists|i: int|
            0 <= i < n && cs[i] == #[trigger] kept_centers(m, cs, n)[k] by {
            if k < pre.len() {
                assert(kept_centers(m, cs, n)[k] == pre[k]);
                let i = choose|i: int| 0 <= i < n - 1 && cs[i] == #[trigger] pre[k];
                assert(cs[i] == kept_centers(m, cs, n)[k]);
            } else {
                assert(kept_centers(m, cs, n)[k] == cs[n - 1]);
            }
        }
    }
}

proof fn lemma_row_has(gm: Map<u64, usize>, y: int, x0: int, n: nat, p: Coord)
    requires
        small_int(y),
        small_int(x0),
        small_int(x0 + n),
        p.y == y,
        x0 <= p.x < x0 + n,
        gm.contains_key(key_of(p)),
    ensures
        raster_row(gm, y, x0, n).contains(p),
    decreases n,
{
    let c = Coord { x: (x0 + n - 1) as i32, y: y as i32 };
    let pre = raster_row(gm, y, x0, (n - 1) as nat);
    if p.x < x0 + n - 1 {
        lemma_row_has(gm, y, x0, (n - 1) as nat, p);
        let i = choose|i: int| 0 <= i < pre.len() && pre[i] == p;
        assert(raster_row(gm, y, x0, n)[i] == p);
    } else {
        assert(c == p);
        assert(raster_row(gm, y, x0, n)[pre.len() as int] == p);
    }
}

proof fn lemma_scan_has(gm: Map<u64, usize>, x0: int, w: nat, y0: int, n: nat, p: Coord)
    requires
        small_int(y0),
        small_int(y0 + n),
        small_int(x0),
        small_int(x0 + w),
        y0 <= p.y < y0 + n,
        x0 <= p.x < x0 + w,
        gm.contains_key(key_of(p)),
    ensures
        raster_scan(gm, x0, w, y0, n).contains(p),
    decreases n,
{
    let pre = raster_scan(gm, x0, w, y0, (n - 1) as nat);
    if p.y < y0 + n - 1 {
        lemma_scan_has(gm, x0, w, y0, (n - 1) as nat, p);
        let i = choose|i: int| 0 <= i < pre.len() && pre[i] == p;
        assert(raster_scan(gm, x0, w, y0, n)[i] == p);
    } else {
        lemma_row_has(gm, y0 + n - 1, x0, w, p);
        let row = raster_row(gm, y0 + n - 1, x0, w);
        let i = choose|i: int| 0 <= i < row.len() && row[i] == p;
        assert(raster_scan(gm, x0, w, y0, n)[pre.len() + i] == p);
    }
}

/// Every pixel of level `l` of every tile appears in that level's scan
/// (exactly once, by `lemma_level_scan_distinct`).
pub proof fn lemma_scan_complete(img: WaveletImage, l: int, j: int, i: int)
    requires
        img.wf(),
        centers_of(img.fractal_lattice@) == tile_centers(img.metadata),
        0 <= l < BASE_FRAC_DEPTH,
        0 <= j < img.fractal_lattice@.len(),
        p2(l as nat) <= i < 2 * p2(l as nat),
    ensures
        img.sorted_lattice@[l]@.contains(pos_spec(img.fractal_lattice@[j].center, BASE_FRAC_DEPTH as nat, i)),
{
    let m = img.metadata;
    let d = BASE_FRAC_DEPTH as nat;
    let cell = img.fractal_lattice@[j];
    let c = cell.center;
    let gm = img.global_position_map@[l]@;
    assert(cell_ok(cell, channels_of(m.colorspace)));
    assert(gpm_level_ok(img.fractal_lattice@, gm, l));
    let p = pos_spec(c, d, i);
    assert(gm.contains_key(key_of(p)));
    lemma_p2_grows((l + 1) as nat, d);
    lemma_p2_grows(0, l as nat);
    lemma_pos_reach(c, i);
    lemma_margin_bound(d);
    lemma_margin_bound((d - level_of(i)) as nat);
    let mr = margin_spec(d);
    // The center is one of the kept lattice points.
    let w = m.width as int;
    let h = m.height as int;
    let all = lattice_centers(w, h, d as int, (2 * span_spec(w, h, d as int) + 1) as nat);
    assert(centers_of(img.fractal_lattice@)[j] == c);
    lemma_kept_from(m, all, all.len());
    let k = choose|k: int| 0 <= k < all.len() && all[k] == #[trigger] tile_centers(m)[j];
    lemma_lattice_box(w, h, d as int, (2 * span_spec(w, h, d as int) + 1) as nat);
    assert(-mr <= c.x <= w + mr && -mr <= c.y <= h + mr);
    assert(img.sorted_lattice@[l]@ == level_scan(m, gm));
    lemma_scan_has(gm, -2 * mr, (w + 4 * mr + 1) as nat, -2 * mr, (h + 4 * mr + 1) as nat, p);
}
} // verus!

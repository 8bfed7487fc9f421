//! One fractal tile: the pixel position of every node of its tree.
use crate::fractal::{literal, literal_spec};
use crate::utils::{coord_key, key_of, Coord};
use std::collections::HashMap;
use vstd::prelude::*;

verus! {

broadcast use vstd::std_specs::hash::group_hash_axioms;

/// The depth of every tile: a tile covers `2^9` pixels.
pub const BASE_FRAC_DEPTH: u8 = 9;

/// The greatest tile depth the codec builds.
pub const MAX_DEPTH: u8 = 16;

/// Tile centers stay within this distance of the origin.
pub const CENTER_LIMIT: i32 = 0x10_0000;

pub open spec fn p2(l: nat) -> nat
    decreases l,
{
    if l == 0 {
        1
    } else {
        2 * p2((l - 1) as nat)
    }
}

/// The tree level of heap index `i`: `floor(log2 i)`.
pub open spec fn level_of(i: int) -> nat
    decreases i,
{
    if i <= 1 {
        0
    } else {
        1 + level_of(i / 2)
    }
}

pub proof fn lemma_level_of(l: nat, i: int)
    requires
        p2(l) <= i < 2 * p2(l),
    ensures
        level_of(i) == l,
    decreases l,
{
    if l > 0 {
        lemma_level_of((l - 1) as nat, i / 2);
    }
}

pub proof fn lemma_p2_grows(a: nat, b: nat)
    requires
        a <= b,
    ensures
        p2(a) <= p2(b),
        1 <= p2(a),
    decreases b,
{
    if a < b {
        lemma_p2_grows(a, (b - 1) as nat);
    } else if a > 0 {
        lemma_p2_grows((a - 1) as nat, (a - 1) as nat);
    }
}

/// The pixel of node `i` in a tile of the given depth and center: the root
/// sits at the center; a left child shares its parent's pixel and a right
/// child adds the digit vector of its level.
pub open spec fn pos_spec(center: Coord, depth: nat, i: int) -> Coord
    decreases i,
{
    if i <= 1 {
        center
    } else {
        let p = pos_spec(center, depth, i / 2);
        if i % 2 == 0 {
            p
        } else {
            let z = literal_spec(depth - level_of(i / 2) - 1);
            Coord { x: (p.x + z.x) as i32, y: (p.y + z.y) as i32 }
        }
    }
}

pub open spec fn near(a: Coord, b: Coord, r: int) -> bool {
    b.x - r <= a.x <= b.x + r && b.y - r <= a.y <= b.y + r
}

pub open spec fn center_ok(c: Coord) -> bool {
    -CENTER_LIMIT <= c.x <= CENTER_LIMIT && -CENTER_LIMIT <= c.y <= CENTER_LIMIT
}

pub proof fn lemma_small_literals(k: int)
    requires
        0 <= k < 16,
    ensures
        -200 <= literal_spec(k).x <= 200,
        -200 <= literal_spec(k).y <= 200,
{
}

/// Every node's pixel lies within `200 * i` of the center.
pub proof fn lemma_pos_near(center: Coord, depth: nat, i: int)
    requires
        1 <= depth <= MAX_DEPTH,
        center_ok(center),
        1 <= i < 2 * p2(depth),
    ensures
        near(pos_spec(center, depth, i), center, 200 * i),
    decreases i,
{
    if i > 1 {
        let p = i / 2;
        lemma_pos_near(center, depth, p);
        if i % 2 == 1 {
            assert(p < p2(depth));
            lemma_level_below(depth, p);
            lemma_small_literals(depth - level_of(p) - 1);
        }
    }
}

pub proof fn lemma_level_below(depth: nat, i: int)
    requires
        1 <= i < p2(depth),
    ensures
        level_of(i) < depth,
    decreases depth,
{
    if depth > 0 && i > 1 {
        lemma_level_below((depth - 1) as nat, i / 2);
    }
}

/// One tile of the lattice.
#[derive(Debug)]
pub struct Fractal {
    pub depth: u8,
    pub center: Coord,
    /// Per channel, `2^depth` slots: slot 0 is the tile's low-pass root,
    /// slot `k` the high-pass coefficient of node `k`; `None` outside the image.
    pub coefficients: Vec<Vec<Option<i32>>>,
    /// Per level, the pixel of each node of that level mapped to the node.
    pub position_map: Vec<HashMap<u64, usize>>,
    /// The pixel of each heap index; slot 0 repeats the root.
    pub image_positions: Vec<Coord>,
}

impl Fractal {
    /// The tile's shape: positions and position maps agree with `pos_spec`.
    pub open spec fn wf(&self) -> bool {
        let d = self.depth as nat;
        &&& 1 <= d <= MAX_DEPTH
        &&& center_ok(self.center)
        &&& self.image_positions@.len() == 2 * p2(d)
        &&& self.image_positions@[0] == self.center
        &&& forall|i: int|
            1 <= i < 2 * p2(d) ==> #[trigger] self.image_positions@[i] == pos_spec(
                self.center,
                d,
                i,
            )
        &&& self.position_map@.len() == d
        &&& forall|l: int| 0 <= l < d ==> self.level_map_ok(l)
    }

    /// The map of level `l` sends exactly the pixels of that level's nodes
    /// to a node of that level at that pixel.
    pub open spec fn level_map_ok(&self, l: int) -> bool {
        Fractal::map_ok(self.position_map@[l]@, self.center, self.depth as nat, l)
    }

    pub fn new(depth: u8, center: Coord) -> (r: Fractal)
        requires
            1 <= depth <= MAX_DEPTH,
            center_ok(center),
        ensures
            r.wf(),
            r.depth == depth,
            r.center == center,
            r.coefficients@.len() == 0,
    {
        let d = depth as usize;
        let ghost dn = depth as nat;
        proof {
            lemma_p2_grows(dn, MAX_DEPTH as nat);
            lemma_p2_16();
        }
        let size: usize = 2 * pow2_usize(depth);
        let mut image_positions: Vec<Coord> = vec![center; size];
        let mut position_map: Vec<HashMap<u64, usize>> = Vec::new();
        let mut level: usize = 0;
        let mut lo: usize = 1;
        while level < d
            invariant
                d == depth,
                dn == depth as nat,
                1 <= depth <= MAX_DEPTH,
                center_ok(center),
                p2(dn) <= 65536,
                size == 2 * p2(dn),
                level <= d,
                lo == p2(level as nat),
                lo <= p2(dn),
                image_positions@.len() == size,
                image_positions@[0] == center,
                forall|i: int| 1 <= i < 2 * lo ==> #[trigger] image_positions@[i] == pos_spec(center, dn, i),
                position_map@.len() == level,
                forall|l: int|
                    0 <= l < level ==> Fractal::map_ok(position_map@[l]@, center, dn, l),
            decreases d - level,
        {
            let mut m: HashMap<u64, usize> = HashMap::new();
            let mut pos: usize = lo;
            proof {
                lemma_p2_grows((level + 1) as nat, dn);
            }
            while pos < 2 * lo
                invariant
                    d == depth,
                    dn == depth as nat,
                    1 <= depth <= MAX_DEPTH,
                    center_ok(center),
                    p2(dn) <= 65536,
                    size == 2 * p2(dn),
                    level < d,
                    lo == p2(level as nat),
                    2 * lo <= p2(dn),
                    lo <= pos <= 2 * lo,
                    image_positions@.len() == size,
                    image_positions@[0] == center,
                    forall|i: int| 1 <= i < 2 * lo ==> #[trigger] image_positions@[i] == pos_spec(center, dn, i),
                    forall|i: int| 2 * lo <= i < 2 * pos ==> #[trigger] image_positions@[i] == pos_spec(center, dn, i),
                    forall|i: int| lo <= i < pos ==> #[trigger] m@.contains_key(key_of(pos_spec(center, dn, i))),
                    forall|k: u64|
                        #[trigger] m@.contains_key(k) ==> lo <= m@[k] < pos && key_of(
                            pos_spec(center, dn, m@[k] as int),
                        ) == k,
                    position_map@.len() == level,
                    forall|l: int|
                        0 <= l < level ==> Fractal::map_ok(position_map@[l]@, center, dn, l),
                decreases 2 * lo - pos,
            {
                let here = image_positions[pos];
                proof {
                    lemma_level_of(level as nat, pos as int);
                    lemma_pos_near(center, dn, pos as int);
                    lemma_pos_near(center, dn, 2 * pos as int + 1);
                    lemma_small_literals(dn - level - 1);
                }
                m.insert(coord_key(here), pos);
                let z = literal(d - level - 1);
                image_positions.set(2 * pos, here);
                image_positions.set(2 * pos + 1, here.add(z));
                proof {
                    assert(pos_spec(center, dn, 2 * pos as int) == pos_spec(center, dn, pos as int));
                    assert((2 * pos as int + 1) / 2 == pos as int);
                }
                pos = pos + 1;
            }
            position_map.push(m);
            level = level + 1;
            lo = lo * 2;
        }
        let r = Fractal { depth, center, coefficients: Vec::new(), position_map, image_positions };
        r
    }

    pub open spec fn map_ok(m: Map<u64, usize>, center: Coord, d: nat, l: int) -> bool {
        let lo = p2(l as nat) as int;
        &&& forall|i: int|
            lo <= i < 2 * lo ==> #[trigger] m.contains_key(key_of(pos_spec(center, d, i)))
        &&& forall|k: u64|
            #[trigger] m.contains_key(k) ==> lo <= m[k] < 2 * lo && key_of(
                pos_spec(center, d, m[k] as int),
            ) == k
    }
}

pub proof fn lemma_p2_16()
    ensures
        p2(16) == 65536,
{
    reveal_with_fuel(p2, 17);
}

pub fn pow2_usize(l: u8) -> (r: usize)
    requires
        l <= MAX_DEPTH,
    ensures
        r == p2(l as nat),
{
    let mut r: usize = 1;
    let mut i: u8 = 0;
    while i < l
        invariant
            i <= l <= MAX_DEPTH,
            r == p2(i as nat),
            r <= 65536,
        decreases l - i,
    {
        proof {
            lemma_p2_grows((i + 1) as nat, MAX_DEPTH as nat);
            lemma_p2_16();
        }
        r = r * 2;
        i = i + 1;
    }
    r
}

} // verus!

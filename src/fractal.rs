//! The digit vectors of the complex base and the tabulated tile centers.
use crate::utils::Coord;
use vstd::prelude::*;

verus! {

/// The number of digit vectors.
pub const LITERAL_COUNT: usize = 30;

/// Digit vector `k` of the tame twindragon base: the position of the `k`-th
/// "bit" of the complex numeral system.
pub open spec fn literal_spec(k: int) -> Coord {
    if k == 0 {
        Coord { x: 0i32, y: 1i32 }
    } else if k == 1 {
        Coord { x: -1i32, y: 1i32 }
    } else if k == 2 {
        Coord { x: 2i32, y: 0i32 }
    } else if k == 3 {
        Coord { x: -3i32, y: -1i32 }
    } else if k == 4 {
        Coord { x: 5i32, y: -1i32 }
    } else if k == 5 {
        Coord { x: 1i32, y: 3i32 }
    } else if k == 6 {
        Coord { x: -11i32, y: -1i32 }
    } else if k == 7 {
        Coord { x: 9i32, y: -5i32 }
    } else if k == 8 {
        Coord { x: 13i32, y: 7i32 }
    } else if k == 9 {
        Coord { x: -31i32, y: 3i32 }
    } else if k == 10 {
        Coord { x: 5i32, y: -17i32 }
    } else if k == 11 {
        Coord { x: 57i32, y: 11i32 }
    } else if k == 12 {
        Coord { x: -67i32, y: 23i32 }
    } else if k == 13 {
        Coord { x: -47i32, y: -45i32 }
    } else if k == 14 {
        Coord { x: 181i32, y: -1i32 }
    } else if k == 15 {
        Coord { x: -87i32, y: 91i32 }
    } else if k == 16 {
        Coord { x: -275i32, y: -89i32 }
    } else if k == 17 {
        Coord { x: 449i32, y: -93i32 }
    } else if k == 18 {
        Coord { x: 101i32, y: 271i32 }
    } else if k == 19 {
        Coord { x: -999i32, y: -85i32 }
    } else if k == 20 {
        Coord { x: 797i32, y: -457i32 }
    } else if k == 21 {
        Coord { x: 1201i32, y: 627i32 }
    } else if k == 22 {
        Coord { x: -2795i32, y: 287i32 }
    } else if k == 23 {
        Coord { x: 393i32, y: -1541i32 }
    } else if k == 24 {
        Coord { x: 5197i32, y: 967i32 }
    } else if k == 25 {
        Coord { x: -5983i32, y: 2115i32 }
    } else if k == 26 {
        Coord { x: -4411i32, y: -4049i32 }
    } else if k == 27 {
        Coord { x: 16377i32, y: -181i32 }
    } else if k == 28 {
        Coord { x: -7555i32, y: 8279i32 }
    } else {
        Coord { x: -25199i32, y: -7917i32 }
    }
}

pub fn literal(k: usize) -> (r: Coord)
    requires
        k < LITERAL_COUNT,
    ensures
        r == literal_spec(k as int),
{
    match k {
        0 => Coord { x: 0, y: 1 },
        1 => Coord { x: -1, y: 1 },
        2 => Coord { x: 2, y: 0 },
        3 => Coord { x: -3, y: -1 },
        4 => Coord { x: 5, y: -1 },
        5 => Coord { x: 1, y: 3 },
        6 => Coord { x: -11, y: -1 },
        7 => Coord { x: 9, y: -5 },
        8 => Coord { x: 13, y: 7 },
        9 => Coord { x: -31, y: 3 },
        10 => Coord { x: 5, y: -17 },
        11 => Coord { x: 57, y: 11 },
        12 => Coord { x: -67, y: 23 },
        13 => Coord { x: -47, y: -45 },
        14 => Coord { x: 181, y: -1 },
        15 => Coord { x: -87, y: 91 },
        16 => Coord { x: -275, y: -89 },
        17 => Coord { x: 449, y: -93 },
        18 => Coord { x: 101, y: 271 },
        19 => Coord { x: -999, y: -85 },
        20 => Coord { x: 797, y: -457 },
        21 => Coord { x: 1201, y: 627 },
        22 => Coord { x: -2795, y: 287 },
        23 => Coord { x: 393, y: -1541 },
        24 => Coord { x: 5197, y: 967 },
        25 => Coord { x: -5983, y: 2115 },
        26 => Coord { x: -4411, y: -4049 },
        27 => Coord { x: 16377, y: -181 },
        28 => Coord { x: -7555, y: 8279 },
        _ => Coord { x: -25199, y: -7917 },
    }
}

/// For the rectangle sizes of the table: the first entry whose rectangle
/// holds a `width` by `height` image, as (tile center, tile depth).
pub open spec fn center_entry(k: int) -> (u32, u32, Coord, u8) {
    if k == 0 {
        (17u32, 8u32, Coord { x: 1i32, y: 2i32 }, 9u8)
    } else if k == 1 {
        (47u32, 9u32, Coord { x: 31i32, y: 1i32 }, 10u8)
    } else if k == 2 {
        (41u32, 26u32, Coord { x: 26i32, y: 18i32 }, 11u8)
    } else if k == 3 {
        (88u32, 15u32, Coord { x: 21i32, y: 7i32 }, 12u8)
    } else if k == 4 {
        (108u32, 65u32, Coord { x: 88i32, y: 43i32 }, 14u8)
    } else if k == 5 {
        (227u32, 60u32, Coord { x: 82i32, y: 41i32 }, 15u8)
    } else if k == 6 {
        (202u32, 149u32, Coord { x: 88i32, y: 40i32 }, 16u8)
    } else if k == 7 {
        (284u32, 84u32, Coord { x: 266i32, y: 52i32 }, 17u8)
    } else if k == 8 {
        (649u32, 148u32, Coord { x: 246i32, y: 130i32 }, 18u8)
    } else if k == 9 {
        (651u32, 418u32, Coord { x: 175i32, y: 130i32 }, 19u8)
    } else if k == 10 {
        (1542u32, 333u32, Coord { x: 1120i32, y: 130i32 }, 20u8)
    } else if k == 11 {
        (997u32, 458u32, Coord { x: 449i32, y: 421i32 }, 21u8)
    } else if k == 12 {
        (1148u32, 883u32, Coord { x: 74i32, y: 320i32 }, 22u8)
    } else if k == 13 {
        (4243u32, 960u32, Coord { x: 2869i32, y: 215i32 }, 23u8)
    } else {
        (3648u32, 2439u32, Coord { x: 2375i32, y: 1725i32 }, 24u8)
    }
}

pub const CENTER_COUNT: usize = 15;

fn center_table(k: usize) -> (r: (u32, u32, Coord, u8))
    requires
        k < CENTER_COUNT,
    ensures
        r == center_entry(k as int),
{
    match k {
        0 => (17, 8, Coord { x: 1, y: 2 }, 9),
        1 => (47, 9, Coord { x: 31, y: 1 }, 10),
        2 => (41, 26, Coord { x: 26, y: 18 }, 11),
        3 => (88, 15, Coord { x: 21, y: 7 }, 12),
        4 => (108, 65, Coord { x: 88, y: 43 }, 14),
        5 => (227, 60, Coord { x: 82, y: 41 }, 15),
        6 => (202, 149, Coord { x: 88, y: 40 }, 16),
        7 => (284, 84, Coord { x: 266, y: 52 }, 17),
        8 => (649, 148, Coord { x: 246, y: 130 }, 18),
        9 => (651, 418, Coord { x: 175, y: 130 }, 19),
        10 => (1542, 333, Coord { x: 1120, y: 130 }, 20),
        11 => (997, 458, Coord { x: 449, y: 421 }, 21),
        12 => (1148, 883, Coord { x: 74, y: 320 }, 22),
        13 => (4243, 960, Coord { x: 2869, y: 215 }, 23),
        _ => (3648, 2439, Coord { x: 2375, y: 1725 }, 24),
    }
}

pub open spec fn fits_entry(k: int, w: u32, h: u32) -> bool {
    center_entry(k).0 >= w && center_entry(k).1 >= h
}

/// The depth and center of the smallest tabulated tile that holds a
/// `img_w` by `img_h` rectangle; `None` when no entry is large enough.
pub fn calculate_depth_center(img_w: u32, img_h: u32) -> (r: Option<(u8, Coord)>)
    ensures
        match r {
            Some((d, c)) => exists|k: int|
                0 <= k < CENTER_COUNT && fits_entry(k, img_w, img_h) && (forall|j: int|
                    0 <= j < k ==> !fits_entry(j, img_w, img_h)) && d == center_entry(k).3 && c
                    == center_entry(k).2,
            None => forall|k: int| 0 <= k < CENTER_COUNT ==> !fits_entry(k, img_w, img_h),
        },
{
    let mut k: usize = 0;
    while k < CENTER_COUNT
        invariant
            k <= CENTER_COUNT,
            forall|j: int| 0 <= j < k ==> !fits_entry(j, img_w, img_h),
        decreases CENTER_COUNT - k,
    {
        let (w, h, center, depth) = center_table(k);
        if w >= img_w && h >= img_h {
            assert(fits_entry(k as int, img_w, img_h));
            return Some((depth, center));
        }
        k = k + 1;
    }
    None
}

} // verus!

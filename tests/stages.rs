use libfri::cell::{Fractal, BASE_FRAC_DEPTH};
use libfri::utils::Coord;
use libfri::entropy::{AnsContext, ALPHABET_SIZE};
use libfri::images::{ColorSpace, FractalVariant, ImageMetadata, RasterImage};
use libfri::lifting::{analyze, synthesize};
use libfri::wavelet::WaveletImage;

#[test]
fn logic_test() {
    let ctx = AnsContext::new();
    assert_eq!(ctx.freqs.len(), ALPHABET_SIZE);
    assert_eq!(ctx.cdf.len(), ALPHABET_SIZE);
    assert_eq!(ctx.max_freq_bits, 0);
}

#[test]
fn extract_coefficient_test() {
    let img = RasterImage {
        metadata: ImageMetadata {
            height: 8,
            width: 8,
            colorspace: ColorSpace::RGB,
            variant: FractalVariant::TameTwindragon,
        },
        data: vec![10; 8 * 8 * 3],
    };
    let wavelet = WaveletImage::from_raster(img);
    assert!(!wavelet.fractal_lattice.is_empty());
    for cell in &wavelet.fractal_lattice {
        assert_eq!(cell.depth, BASE_FRAC_DEPTH);
        assert_eq!(cell.coefficients.len(), 3);
        for ch in 0..3 {
            assert!(cell.coefficients[ch][0].is_some());
        }
    }
    let leaves = vec![Some(10), Some(20), None, Some(7)];
    let c = analyze(&leaves);
    assert_eq!(c, vec![Some(9), Some(11), Some(-10), Some(-7)]);
    let back = synthesize(&c);
    assert_eq!(back[0], Some(10));
    assert_eq!(back[1], Some(20));
    assert_eq!(back[3], Some(7));
}

#[test]
fn unit_test() {
    let wavelet = WaveletImage::from_metadata(ImageMetadata::new(10, 10));
    let m = libfri::context_modeling::get_image_neighbour_matrices(&wavelet, 0);
    for g in 0..3 {
        assert_eq!(m.rows[g].len(), m.values[g].len());
        for row in &m.rows[g] {
            assert_eq!(row, &vec![0; 6]);
        }
        for v in &m.values[g] {
            assert_eq!(*v, 0);
        }
    }
}

#[test]
fn neighbour_offsets() {
    let v = Fractal::get_nearby_vectors(1);
    assert_eq!(v, [Coord::new(-1, 1), Coord::new(-1, -1), Coord::new(0, -2), Coord::new(1, -1), Coord::new(1, 1), Coord::new(0, 2)]);
    let v9 = Fractal::get_nearby_vectors(9);
    assert_eq!(v9[0], Coord::new(-31, 3));
    assert_eq!(v9[5], Coord::new(-26, -14));
    let cell = Fractal::new(9, Coord::new(100, 50));
    let n = cell.get_neighbour_locations();
    for k in 0..6 {
        assert_eq!(n[k], Coord::new(100 + v9[k].x, 50 + v9[k].y));
    }
    assert_eq!(cell.image_positions.len(), 1024);
    assert_eq!(cell.image_positions[0], Coord::new(100, 50));
    assert_eq!(cell.image_positions[3], Coord::new(100 + 13, 50 + 7));
    assert_eq!(cell.position_map.len(), 9);
}

#[test]
fn lattice_points_around_the_middle() {
    let centers = WaveletImage::fractal_divide(202, 149, 9);
    assert!(!centers.is_empty());
    for c in &centers {
        // c - (101, 74) = a * (-31, 3) + b * (-26, -14) for integers a, b.
        let (dx, dy) = ((c.x - 101) as i64, (c.y - 74) as i64);
        let det: i64 = (-31) * (-14) - 3 * (-26);
        assert_eq!((dx * -14 - dy * -26) % det, 0);
        assert_eq!((-31 * dy - 3 * dx) % det, 0);
    }
}

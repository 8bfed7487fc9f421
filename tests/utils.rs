use libfri::entropy::find_nearest_or_equal;
use libfri::fractal::calculate_depth_center;
use libfri::images::{ImageMetadata, RasterImage};
use libfri::pipeline::{floor_log2, get_quantization_matrix};
use libfri::prediction::assign_bucket;
use libfri::utils::{cum_sum, get_prev_power_two, order_complex, pack_signed, unpack_signed, Coord};
use std::cmp::Ordering;

#[test]
fn zig_zag_values() {
    assert_eq!(pack_signed(0), 0);
    assert_eq!(pack_signed(-1), 1);
    assert_eq!(pack_signed(1), 2);
    assert_eq!(pack_signed(-2), 3);
    assert_eq!(pack_signed(i32::MIN), u32::MAX);
    assert_eq!(unpack_signed(3), -2);
    assert_eq!(unpack_signed(4), 2);
    assert_eq!(unpack_signed(u32::MAX), i32::MIN);
    for k in -600..600 {
        assert_eq!(unpack_signed(pack_signed(k)), k);
    }
}

#[test]
fn previous_power_of_two() {
    assert_eq!(get_prev_power_two(0), 0);
    assert_eq!(get_prev_power_two(1), 1);
    assert_eq!(get_prev_power_two(6), 4);
    assert_eq!(get_prev_power_two(1024), 1024);
    assert_eq!(get_prev_power_two(u32::MAX), 1 << 31);
    assert_eq!(floor_log2(1), 0);
    assert_eq!(floor_log2(4095), 11);
    assert_eq!(floor_log2(4096), 12);
}

#[test]
fn running_totals() {
    assert_eq!(cum_sum(&[1, 2, 3, 4, 5]), vec![0, 1, 3, 6, 10]);
    assert_eq!(cum_sum(&[]), Vec::<u32>::new());
}

#[test]
fn nearest_running_total() {

    let cdf = [0u32, 1, 3, 6, 10];
    assert_eq!(find_nearest_or_equal(0, &cdf), 0);
    assert_eq!(find_nearest_or_equal(4, &cdf), 3);
    assert_eq!(find_nearest_or_equal(6, &cdf), 6);
    assert_eq!(find_nearest_or_equal(99, &cdf), 10);
}

#[test]
fn complex_order() {
    assert_eq!(order_complex(&Coord::new(1, 5), &Coord::new(2, 0)), Ordering::Less);
    assert_eq!(order_complex(&Coord::new(2, 5), &Coord::new(2, 0)), Ordering::Greater);
    assert_eq!(order_complex(&Coord::new(2, 0), &Coord::new(2, 0)), Ordering::Equal);
    assert_eq!(Coord::new(3, -1).add(Coord::new(-5, 2)), Coord::new(-2, 1));
}

#[test]
fn buckets_by_width() {
    let expect = [(-4, 0), (2, 0), (3, 1), (5, 2), (6, 3), (8, 4), (12, 5), (16, 6), (20, 7), (25, 8), (29, 8), (30, 9), (1000, 9)];
    for (w, b) in expect {
        assert_eq!(assign_bucket(w), b);
    }
}

#[test]
fn tabulated_centers() {
    let (d, c) = calculate_depth_center(17, 8).unwrap();
    assert_eq!(d, 9);
    assert_eq!(c, Coord::new(1, 2));
    let (d, _) = calculate_depth_center(100, 20).unwrap();
    assert_eq!(d, 14);
    assert!(calculate_depth_center(5000, 5000).is_none());
}

#[test]
fn pixel_access() {
    let mut r = RasterImage::blank(ImageMetadata::new(4, 3));
    assert_eq!(r.get_pixel(3, 2, 0), Some(0));
    assert_eq!(r.get_pixel(4, 0, 0), None);
    assert_eq!(r.get_pixel(-1, 0, 0), None);
    r.set_pixel(1, 2, 300, 0);
    assert_eq!(r.get_pixel(1, 2, 0), Some(255));
    r.set_pixel(1, 2, -3, 0);
    assert_eq!(r.get_pixel(1, 2, 0), Some(0));
    r.set_pixel(2, 1, 77, 0);
    assert_eq!(r.data[6], 77);
    r.set_pixel(9, 9, 5, 0);
    assert_eq!(r.data.iter().map(|&v| v as u32).sum::<u32>(), 77);
}

#[test]
fn identity_quantization() {
    assert_eq!(get_quantization_matrix(), vec![1; 32]);
}

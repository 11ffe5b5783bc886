use phased_array::beam::{flood_main_beam, idx};
use phased_array::metrics::{
    find_peak, intensity_map_ok, is_local_max, line_peak, peak_neighbourhood, sidelobe_scan,
};
use phased_array::order::{f32_bits_ge, f32_bits_lt};

fn bits(v: &[f32]) -> Vec<u32> {
    v.iter().map(|x| x.to_bits()).collect()
}

#[test]
fn f32_bit_order_matches_float_order() {
    let vals = [
        f32::NEG_INFINITY,
        -3.5,
        -1.0,
        -0.0,
        0.0,
        1e-30,
        0.5,
        2.0,
        f32::INFINITY,
        f32::NAN,
    ];
    for a in vals {
        for b in vals {
            assert_eq!(f32_bits_lt(a.to_bits(), b.to_bits()), a < b, "{a} < {b}");
            assert_eq!(f32_bits_ge(a.to_bits(), b.to_bits()), a >= b, "{a} >= {b}");
        }
    }
}

#[test]
fn map_ok_checks_shape_and_domain() {
    assert!(intensity_map_ok(0, 3, 2, 6));
    assert!(intensity_map_ok(2, 3, 2, 6));
    assert!(!intensity_map_ok(3, 3, 2, 6));
    assert!(!intensity_map_ok(0, 3, 2, 5));
    assert!(!intensity_map_ok(0, 0, 2, 0));
}

#[test]
fn peak_is_first_visible_maximum() {
    // 3 x 2 map; the global maximum 9 sits at an invisible sample.
    let total = bits(&[1.0, 4.0, 9.0, 4.0, 2.0, f32::NAN]);
    let valid = [true, true, false, true, true, true];
    assert_eq!(find_peak(3, 2, &valid, &total), Some((1, 0)));
}

#[test]
fn peak_needs_positive_visible_sample() {
    let total = bits(&[0.0, -1.0, 5.0, 0.0]);
    let valid = [true, true, false, true];
    assert_eq!(find_peak(2, 2, &valid, &total), None);
    let total = bits(&[f32::NAN, 0.0]);
    assert_eq!(find_peak(2, 1, &[true, true], &total), None);
}

#[test]
fn local_max_respects_ring_and_beam() {
    // 3 x 3 map with bumps at the corners (0, 0) and (2, 2).
    let total = bits(&[3.0, 1.0, 0.5, 1.0, 0.2, 1.0, 0.5, 1.0, 5.0]);
    let valid = vec![true; 9];
    let none = vec![false; 9];
    assert!(is_local_max(false, 3, 3, &[], &valid, &total, &none, 2, 2));
    assert!(is_local_max(false, 3, 3, &[], &valid, &total, &none, 0, 0));
    assert!(!is_local_max(false, 3, 3, &[], &valid, &total, &none, 1, 0));
    // Hidden neighbours do not count; a hidden sample is no maximum.
    let mut hidden = vec![true; 9];
    hidden[0] = false;
    assert!(is_local_max(false, 3, 3, &[], &hidden, &total, &none, 1, 0) == false);
    assert!(!is_local_max(false, 3, 3, &[], &hidden, &total, &none, 0, 0));
    // Inside the beam a sample is never a sidelobe peak.
    let mut beam = vec![false; 9];
    beam[8] = true;
    assert!(!is_local_max(false, 3, 3, &[], &valid, &total, &beam, 2, 2));
    // An equal neighbour blocks a local maximum.
    let flat = bits(&[2.0; 9]);
    assert!(!is_local_max(false, 3, 3, &[], &valid, &flat, &none, 1, 1));
}

#[test]
fn local_max_sees_across_phi_wrap() {
    // n1 = 3, n2 = 4, flip mirrors columns 0 <-> 2. (0, 0) wraps to (2, 2).
    let mut vals = vec![0.0f32; 12];
    vals[idx(0, 0, 3)] = 2.0;
    vals[idx(2, 2, 3)] = 7.0;
    let total = bits(&vals);
    let valid = vec![true; 12];
    let none = vec![false; 12];
    let flip = [2usize, 1, 0];
    assert!(is_local_max(false, 3, 4, &flip, &valid, &total, &none, 0, 0));
    assert!(!is_local_max(true, 3, 4, &flip, &valid, &total, &none, 0, 0));
}

#[test]
fn sidelobes_largest_and_nearest() {
    // One row of 7 samples: main beam at columns 0..=1, sidelobes at 3 and 5.
    let vals = [10.0f32, 6.0, 0.1, 0.3, 0.1, 0.5, 0.1];
    let total = bits(&vals);
    let valid = vec![true; 7];
    let (i1, i2) = find_peak(7, 1, &valid, &total).unwrap();
    assert_eq!((i1, i2), (0, 0));
    let half = 5.0f32;
    let elig: Vec<bool> = vals.iter().map(|v| *v >= half).collect();
    let beam = flood_main_beam(false, 7, 1, i1, i2, &elig, &[]);
    assert_eq!(beam, vec![true, true, false, false, false, false, false]);
    // Angle from the peak grows with the column index.
    let ang: Vec<u32> = (0..7).map(|k| (k as f32).to_bits()).collect();
    let s = sidelobe_scan(false, 7, 1, &[], &valid, &total, &beam, &ang);
    assert!(s.found_unmasked);
    assert!(s.found_local);
    assert_eq!(s.largest, (5, 0));
    assert_eq!(s.nearest, (3, 0));
    assert_eq!(s.fallback, (5, 0));
}

#[test]
fn sidelobes_none_outside_beam() {
    let vals = [1.0f32; 4];
    let total = bits(&vals);
    let valid = vec![true; 4];
    let beam = vec![true; 4];
    let ang = bits(&[0.0; 4]);
    let s = sidelobe_scan(false, 2, 2, &[], &valid, &total, &beam, &ang);
    assert!(!s.found_unmasked);
    assert!(!s.found_local);
    assert_eq!(s.fallback, (0, 0));
    assert_eq!(s.largest, (0, 0));
    assert_eq!(s.nearest, (0, 0));
}

#[test]
fn sidelobes_nan_angle_is_skipped_for_nearest() {
    let vals = [9.0f32, 0.0, 1.0, 0.0, 2.0];
    let total = bits(&vals);
    let valid = vec![true; 5];
    let mut beam = vec![false; 5];
    beam[0] = true;
    let ang = bits(&[0.0, 1.0, f32::NAN, 3.0, 4.0]);
    let s = sidelobe_scan(false, 5, 1, &[], &valid, &total, &beam, &ang);
    assert_eq!(s.largest, (4, 0));
    assert_eq!(s.nearest, (4, 0));
}

#[test]
fn line_peak_takes_first_largest_visible_value() {
    let y = bits(&[0.3, 0.9, 0.2, 0.9, 5.0]);
    let valid = vec![true, true, true, true, false];
    assert_eq!(line_peak(&valid, &y, 2), 1);
}

#[test]
fn line_peak_falls_back_to_default() {
    let y = bits(&[f32::NEG_INFINITY, f32::NAN, 7.0]);
    let valid = vec![true, true, false];
    assert_eq!(line_peak(&valid, &y, 2), 2);
    assert_eq!(line_peak(&[], &[], 4), 4);
}

#[test]
fn peak_neighbourhood_in_the_interior() {
    let valid = vec![true; 9];
    let cells = peak_neighbourhood(false, 3, 3, &[], &valid, 1, 1);
    assert_eq!(
        cells,
        vec![(0, 0), (1, 0), (2, 0), (0, 1), (1, 1), (2, 1), (0, 2), (1, 2), (2, 2)]
    );
}

#[test]
fn peak_neighbourhood_clips_and_skips_invisible() {
    // 3 x 2 grid, peak at (0, 0); sample (1, 1) is not visible.
    let valid = vec![true, true, true, true, false, true];
    let cells = peak_neighbourhood(false, 3, 2, &[], &valid, 0, 0);
    assert_eq!(cells, vec![(0, 0), (1, 0), (0, 1)]);
}

#[test]
fn peak_neighbourhood_spherical_wrap_keeps_each_cell_once() {
    // 2 columns, 3 phi rows; column 0 mirrors to 1 and back.
    let flip = vec![1usize, 0];
    let valid = vec![true; 6];
    let cells = peak_neighbourhood(true, 2, 3, &flip, &valid, 0, 0);
    // d2 = -1 wraps: (0,0) -> (flip[0], 1) = (1, 1); from column 1 -> (0, 1).
    // d2 = 0: (0,0), (1,0). d2 = +1: (0,1) (already met), (1,1) (already met).
    assert_eq!(cells, vec![(1, 1), (0, 1), (0, 0), (1, 0)]);
}

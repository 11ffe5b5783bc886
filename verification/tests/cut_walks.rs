use phased_array::cut::{half_power_crossing, phi_walk};

fn bits(v: &[f32]) -> Vec<u32> {
    v.iter().map(|x| x.to_bits()).collect()
}

#[test]
fn crossing_found_on_both_sides() {
    let y = bits(&[0.1, 0.6, 1.0, 0.7, 0.2]);
    let valid = vec![true; 5];
    let half = 0.5f32.to_bits();
    assert_eq!(half_power_crossing(&valid, &y, half, 2, -1), Some(0));
    assert_eq!(half_power_crossing(&valid, &y, half, 2, 1), Some(4));
}

#[test]
fn crossing_clipped_at_line_end() {
    let y = bits(&[0.9, 1.0, 0.8]);
    let valid = vec![true; 3];
    let half = 0.5f32.to_bits();
    assert_eq!(half_power_crossing(&valid, &y, half, 1, -1), None);
    assert_eq!(half_power_crossing(&valid, &y, half, 1, 1), None);
    assert_eq!(half_power_crossing(&valid, &y, half, 0, -1), None);
}

#[test]
fn crossing_clipped_by_invisible_sample() {
    let y = bits(&[0.1, 0.9, 1.0, 0.9, 0.1]);
    let valid = vec![true, false, true, true, true];
    let half = 0.5f32.to_bits();
    assert_eq!(half_power_crossing(&valid, &y, half, 2, -1), None);
    assert_eq!(half_power_crossing(&valid, &y, half, 2, 1), Some(4));
}

#[test]
fn crossing_walks_past_nan_and_handles_negative_values() {
    let y = bits(&[-1.0, f32::NAN, 1.0, 0.5, 0.49]);
    let valid = vec![true; 5];
    let half = 0.5f32.to_bits();
    // NaN is never below half, -1 is.
    assert_eq!(half_power_crossing(&valid, &y, half, 2, -1), Some(0));
    // 0.5 is not below half; 0.49 is.
    assert_eq!(half_power_crossing(&valid, &y, half, 2, 1), Some(4));
}

fn grid(n1: usize, n2: usize, fill: f32) -> Vec<f32> {
    vec![fill; n1 * n2]
}

#[test]
fn phi_walk_crosses_the_edge_onto_the_mirrored_column() {
    let (n1, n2) = (3usize, 4usize);
    let flip = vec![2usize, 1, 0];
    let mut total = grid(n1, n2, 1.0);
    // Cell (i1 = 2, i2 = 1) is low.
    total[1 * n1 + 2] = 0.1;
    let r = phi_walk(n1, n2, &flip, &bits(&total), 0.5f32.to_bits(), 0, 1, 1);
    // (0,1) -> (0,2) -> (0,3) -> wrap to (2,1).
    assert_eq!(r, Some(((0, 3), (2, 1), 2)));
}

#[test]
fn phi_walk_backwards_stops_on_first_low_cell() {
    let (n1, n2) = (2usize, 5usize);
    let flip = vec![1usize, 0];
    let mut total = grid(n1, n2, 1.0);
    total[1 * n1 + 0] = 0.3;
    let r = phi_walk(n1, n2, &flip, &bits(&total), 0.5f32.to_bits(), 0, 3, -1);
    assert_eq!(r, Some(((0, 2), (0, 1), 1)));
}

#[test]
fn phi_walk_without_a_low_cell_returns_none() {
    let (n1, n2) = (2usize, 3usize);
    let flip = vec![1usize, 0];
    let total = grid(n1, n2, 1.0);
    assert_eq!(phi_walk(n1, n2, &flip, &bits(&total), 0.5f32.to_bits(), 0, 0, 1), None);
}

#[test]
fn phi_walk_needs_two_phi_samples() {
    let flip = vec![0usize];
    let total = grid(1, 1, 0.0);
    assert_eq!(phi_walk(1, 1, &flip, &bits(&total), 0.5f32.to_bits(), 0, 0, 1), None);
}

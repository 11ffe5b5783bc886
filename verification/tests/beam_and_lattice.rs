use phased_array::beam::{flood_main_beam, idx, neighbor_index, step_spherical_phi};
use phased_array::lattice::{product_lattice, search_sorted, unique_sorted_bits};

#[test]
fn idx_is_row_major() {
    assert_eq!(idx(0, 0, 4), 0);
    assert_eq!(idx(3, 0, 4), 3);
    assert_eq!(idx(1, 2, 4), 9);
}

#[test]
fn spherical_phi_step_inside_and_across_edges() {
    // Interior steps move along φ on the same θ column.
    assert_eq!(step_spherical_phi(5, 2, 2, 1, 9), Some((2, 3)));
    assert_eq!(step_spherical_phi(5, 2, 2, -1, 9), Some((2, 1)));
    // Off the top edge: continue on the mirrored column one past the bottom edge.
    assert_eq!(step_spherical_phi(5, 2, 4, 1, 0), Some((0, 1)));
    // Off the bottom edge: continue on the mirrored column one before the top edge.
    assert_eq!(step_spherical_phi(5, 2, 0, -1, 0), Some((0, 3)));
    // Degenerate grids and a zero step do not move.
    assert_eq!(step_spherical_phi(1, 0, 0, 1, 0), None);
    assert_eq!(step_spherical_phi(5, 2, 2, 0, 0), None);
}

#[test]
fn neighbor_index_cases() {
    assert_eq!(neighbor_index(false, 3, 3, 1, 1, 0, 0, 0), Some((1, 1)));
    assert_eq!(neighbor_index(false, 3, 3, 0, 1, -1, 0, 0), None);
    assert_eq!(neighbor_index(false, 3, 3, 2, 1, 1, 0, 0), None);
    assert_eq!(neighbor_index(false, 3, 3, 1, 1, 1, -1, 0), Some((2, 0)));
    assert_eq!(neighbor_index(false, 3, 3, 1, 0, 1, -1, 0), None);
    // Spherical: stepping below φ row 0 wraps to the mirrored column.
    assert_eq!(neighbor_index(true, 3, 4, 1, 0, 1, -1, 0), Some((0, 2)));
}

fn count(v: &[bool]) -> usize {
    v.iter().filter(|b| **b).count()
}

#[test]
fn flood_marks_connected_region_only() {
    // 4 x 3 grid (n1 = 4 columns, n2 = 3 rows), peak at (1, 1).
    // Eligible cells: a plus around the peak and an isolated corner.
    let n1 = 4;
    let n2 = 3;
    let mut elig = vec![false; n1 * n2];
    for (i1, i2) in [(1, 1), (0, 1), (2, 1), (1, 0), (1, 2), (3, 0)] {
        elig[i2 * n1 + i1] = true;
    }
    let beam = flood_main_beam(false, n1, n2, 1, 1, &elig, &[]);
    assert_eq!(beam.len(), 12);
    assert!(beam[idx(1, 1, n1)]);
    assert!(beam[idx(0, 1, n1)]);
    assert!(beam[idx(2, 1, n1)]);
    assert!(beam[idx(1, 0, n1)]);
    assert!(beam[idx(1, 2, n1)]);
    assert!(!beam[idx(3, 0, n1)], "corner is not connected");
    assert_eq!(count(&beam), 5);
}

#[test]
fn flood_peak_is_marked_even_if_not_eligible() {
    let elig = vec![false; 9];
    let beam = flood_main_beam(false, 3, 3, 2, 2, &elig, &[]);
    assert_eq!(count(&beam), 1);
    assert!(beam[8]);
}

#[test]
fn flood_follows_spherical_wrap() {
    // n1 = 3 θ columns mirrored (0 <-> 2), n2 = 4 φ rows; peak at (0, 0).
    let n1 = 3;
    let n2 = 4;
    let flip = [2usize, 1, 0];
    let mut elig = vec![false; n1 * n2];
    // Only the wrap target of (0, 0) going below row 0: (flip[0], n2 - 2) = (2, 2).
    elig[idx(2, 2, n1)] = true;
    let sph = flood_main_beam(true, n1, n2, 0, 0, &elig, &flip);
    assert!(sph[idx(2, 2, n1)]);
    assert_eq!(count(&sph), 2);
    let flat = flood_main_beam(false, n1, n2, 0, 0, &elig, &flip);
    assert_eq!(count(&flat), 1, "no wrap outside the spherical chart");
}

#[test]
fn flood_fills_whole_eligible_grid() {
    let elig = vec![true; 20];
    let beam = flood_main_beam(false, 5, 4, 4, 3, &elig, &[]);
    assert_eq!(count(&beam), 20);
}

#[test]
fn unique_sorted_bits_sorts_and_dedups() {
    let v = [5u32, 1, 5, 3, 1, 9];
    assert_eq!(unique_sorted_bits(&v), vec![1, 3, 5, 9]);
    assert_eq!(unique_sorted_bits(&[]), Vec::<u32>::new());
}

#[test]
fn search_sorted_found_and_insertion_point() {
    let xs = vec![1u32, 3, 5, 9];
    assert_eq!(search_sorted(&xs, 5), Ok(2));
    assert_eq!(search_sorted(&xs, 1), Ok(0));
    assert_eq!(search_sorted(&xs, 4), Err(2));
    assert_eq!(search_sorted(&xs, 0), Err(0));
    assert_eq!(search_sorted(&xs, 10), Err(4));
}

fn rect_bits(nx: usize, ny: usize, dx: f32, dy: f32) -> (Vec<u32>, Vec<u32>) {
    let mut x = Vec::new();
    let mut y = Vec::new();
    for ix in 0..nx {
        for iy in 0..ny {
            x.push((dx * ix as f32).to_bits());
            y.push((dy * iy as f32).to_bits());
        }
    }
    (x, y)
}

#[test]
fn lattice_4x4_has_16_lags() {
    let (x, y) = rect_bits(4, 4, 0.5, 0.5);
    let l = product_lattice(&x, &y).expect("4x4 is a product lattice");
    assert_eq!(l.nx, 4);
    assert_eq!(l.ny, 4);
    assert_eq!(l.nx * l.ny, 16);
    for p in 0..16 {
        assert_eq!(l.xs[l.ix[p]], x[p]);
        assert_eq!(l.ys[l.iy[p]], y[p]);
        assert_eq!(l.lag_slot(p, p), 0);
        for q in 0..16 {
            let k = l.lag_slot(p, q);
            assert!(k < 16);
            assert_eq!(k, l.lag_slot(q, p));
        }
    }
    // Element 1 is (0, 0.5), element 4 is (0.5, 0): lags (0, 1) and (1, 0) differ.
    assert_eq!(l.lag_slot(0, 1), 1);
    assert_eq!(l.lag_slot(0, 4), 4);
}

#[test]
fn lattice_rejects_irregular_and_duplicate_layouts() {
    let x: Vec<u32> = [0.0f32, 0.37, 0.9].iter().map(|v| v.to_bits()).collect();
    let y: Vec<u32> = [0.0f32, 0.21, -0.4].iter().map(|v| v.to_bits()).collect();
    assert!(product_lattice(&x, &y).is_none());
    // 2 distinct x by 2 distinct y with 4 elements, but one position repeated.
    let x = [1u32, 1, 2, 2];
    let y = [1u32, 1, 1, 2];
    assert!(product_lattice(&x, &y).is_none());
    // Same values, each position once: a 2 x 2 lattice.
    let y = [1u32, 2, 1, 2];
    let l = product_lattice(&x, &y).expect("2x2");
    assert_eq!(l.ix, vec![0, 0, 1, 1]);
    assert_eq!(l.iy, vec![0, 1, 0, 1]);
}

#[test]
fn lattice_single_element() {
    let l = product_lattice(&[7u32], &[8u32]).expect("1x1");
    assert_eq!((l.nx, l.ny), (1, 1));
    assert_eq!(l.lag_slot(0, 0), 0);
}

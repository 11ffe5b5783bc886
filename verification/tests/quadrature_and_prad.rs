use phased_array::prad::PradShape;
use phased_array::quadrature::{
    gauss_legendre_half, quadrature_shape, sample_blocks, sample_index, sample_window,
    SAMPLE_BLOCK,
};

#[test]
fn quadrature_shape_is_product() {
    assert_eq!(quadrature_shape(5, 12), (5, 12, 60));
    assert_eq!(quadrature_shape(0, 0), (1, 1, 1));
    assert_eq!(quadrature_shape(8, 0), (8, 1, 8));
}

#[test]
fn sample_index_is_mu_outer() {
    assert_eq!(sample_index(0, 0, 5, 12), 0);
    assert_eq!(sample_index(0, 11, 5, 12), 11);
    assert_eq!(sample_index(1, 0, 5, 12), 12);
    assert_eq!(sample_index(4, 11, 5, 12), 59);
}

#[test]
fn sample_windows_tile_the_grid() {
    // Panels (0, 7), (7, 11), (18, rest) of a 6 x 10 grid.
    let m = 60;
    let a = sample_window(m, 0, 7);
    let b = sample_window(m, 7, 11);
    let c = sample_window(m, 18, 0);
    assert_eq!(a, (0, 7));
    assert_eq!(b, (7, 11));
    assert_eq!(c, (18, 42));
    assert_eq!(a.1 + b.1 + c.1, m);
}

#[test]
fn sample_window_clips() {
    assert_eq!(sample_window(60, 55, 10), (55, 5));
    assert_eq!(sample_window(60, 70, 3), (60, 0));
    assert_eq!(sample_window(60, 0, 0), (0, 60));
    assert_eq!(sample_window(0, 0, 0), (0, 0));
}

#[test]
fn sample_blocks_partition() {
    assert!(sample_blocks(0).is_empty());
    assert_eq!(sample_blocks(10), vec![(0, 10)]);
    assert_eq!(sample_blocks(64), vec![(0, 64)]);
    assert_eq!(sample_blocks(130), vec![(0, 64), (64, 128), (128, 130)]);
    assert_eq!(SAMPLE_BLOCK, 64);
}

#[test]
fn gauss_legendre_half_counts() {
    assert_eq!(gauss_legendre_half(1), 1);
    assert_eq!(gauss_legendre_half(2), 1);
    assert_eq!(gauss_legendre_half(3), 2);
    assert_eq!(gauss_legendre_half(8), 4);
}

#[test]
fn prad_shape_compute_flow() {
    let mut s = PradShape::new();
    // No quadrature yet: nothing is filled.
    assert_eq!(s.fill_isolated_range(3, 3, 0, 0), None);
    assert_eq!(s.n, 0);
    assert_eq!(s.set_quadrature(6, 10), (6, 10));
    assert_eq!(s.n_samples(), 60);
    assert_eq!(s.fill_isolated_range(4, 4, 0, 0), Some((0, 60)));
    assert_eq!((s.n, s.m, s.a_len), (4, 60, 240));
    assert!(s.form_gram());
    assert_eq!(s.p_len, 16);
    assert!(s.form_matched_s());
    assert_eq!((s.s_dim, s.z_len), (4, 16));
}

#[test]
fn prad_shape_panels_keep_full_sample_count() {
    let mut s = PradShape::new();
    s.set_quadrature(6, 10);
    let mut covered = 0;
    for (s0, sc) in [(0u32, 7u32), (7, 11), (18, 0)] {
        let w = s.fill_isolated_range(4, 4, s0, sc).expect("non-empty panel");
        covered += w.1;
        assert_eq!(s.m, w.1);
        assert!(s.form_gram());
        assert_eq!(s.p_len, 16);
        assert_eq!(s.n_samples(), 60);
    }
    assert_eq!(covered, 60);
}

#[test]
fn prad_shape_rejections() {
    let mut s = PradShape::new();
    s.set_quadrature(0, 0);
    assert_eq!(s.n_samples(), 1);
    assert_eq!(s.fill_isolated_range(2, 3, 0, 0), None);
    assert_eq!(s.n, 0);
    assert!(!s.form_gram());
    assert_eq!(s.p_len, 0);
    assert!(!s.form_matched_s());
    assert_eq!(s.s_dim, 0);
    // A panel starting past the end is empty.
    assert_eq!(s.fill_isolated_range(2, 2, 5, 0), None);
    assert_eq!((s.n, s.m), (0, 0));
}

#[test]
fn prad_shape_j0_and_green_paths() {
    let mut s = PradShape::new();
    assert!(!s.compute_j0(3, 3), "J0 needs a quadrature");
    s.set_quadrature(8, 2);
    assert!(s.compute_j0(3, 3));
    assert_eq!((s.n, s.p_len), (3, 9));
    assert!(!s.compute_j0(0, 0));
    assert_eq!((s.n, s.p_len), (0, 0));
    let mut g = PradShape::new();
    assert!(g.fill_z(2, 2));
    assert_eq!(g.z_len, 4);
    assert_eq!(g.p_len, 0, "the Green path does not form a Gram");
    assert!(g.form_from_z());
    assert_eq!(g.s_dim, 2);
    assert!(!g.fill_z(1, 2));
    assert!(!g.form_from_z());
    assert_eq!((g.s_dim, g.z_len), (0, 0));
}

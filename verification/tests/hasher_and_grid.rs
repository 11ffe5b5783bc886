use phased_array::farfield::{
    domain_from_code, intensity_divisor, Domain, FarfieldLengths, GridShape, DOMAIN_LUDWIG3,
    DOMAIN_SPHERICAL, DOMAIN_UV,
};
use phased_array::hasher::U32Hasher;

#[test]
fn hasher_starts_at_zero() {
    let h = U32Hasher::new();
    assert_eq!(h.finish(), 0);
}

#[test]
fn hasher_folds_bytes_in_order() {
    let mut h = U32Hasher::new();
    h.write(&[1u8, 2u8]);
    assert_eq!(h.finish(), 0x100000001b5);
    let mut g = U32Hasher::new();
    g.write(&[2u8, 1u8]);
    assert_ne!(g.finish(), h.finish());
}

#[test]
fn hasher_split_writes_match_one_write() {
    let mut a = U32Hasher::new();
    a.write(&[9u8, 200u8, 3u8]);
    let mut b = U32Hasher::new();
    b.write(&[9u8]);
    b.write(&[200u8, 3u8]);
    assert_eq!(a.finish(), b.finish());
}

#[test]
fn hasher_u32_key_is_identity() {
    let mut h = U32Hasher::new();
    h.write(&[7u8, 7u8, 7u8]);
    h.write_u32(0xdead_beef);
    assert_eq!(h.finish(), 0xdead_beef);
}

#[test]
fn hasher_u64_step_wraps() {
    let mut h = U32Hasher { state: 5 };
    h.write_u64(7);
    assert_eq!(h.finish(), 0x50000000886);
    let mut w = U32Hasher { state: u64::MAX };
    w.write_u64(0);
    assert_eq!(w.finish(), 18446742974197923405);
}

#[test]
fn domain_codes() {
    assert_eq!(domain_from_code(DOMAIN_SPHERICAL), Some(Domain::Spherical));
    assert_eq!(domain_from_code(DOMAIN_UV), Some(Domain::Uv));
    assert_eq!(domain_from_code(DOMAIN_LUDWIG3), Some(Domain::Ludwig3));
    assert_eq!(domain_from_code(3), None);
    assert_eq!(domain_from_code(u32::MAX), None);
}

fn lens(n_el: usize, n1: usize, n2: usize) -> FarfieldLengths {
    FarfieldLengths { x: n_el, y: n_el, mag: n_el, pha: n_el, ax1: n1, ax2: n2, field: n1 * n2 }
}

#[test]
fn farfield_inputs_ok_accepts_consistent_call() {
    let g = GridShape::prepare(7, 5);
    assert_eq!(g.cell_count(), 35);
    assert!(g.inputs_ok(&lens(3, 7, 5)));
}

#[test]
fn farfield_inputs_ok_rejects_each_mismatch() {
    let g = GridShape::prepare(7, 5);
    assert!(!g.inputs_ok(&lens(0, 7, 5)));
    let mut l = lens(3, 7, 5);
    l.y = 2;
    assert!(!g.inputs_ok(&l));
    let mut l = lens(3, 7, 5);
    l.mag = 4;
    assert!(!g.inputs_ok(&l));
    let mut l = lens(3, 7, 5);
    l.pha = 1;
    assert!(!g.inputs_ok(&l));
    assert!(!g.inputs_ok(&lens(3, 6, 5)));
    assert!(!g.inputs_ok(&lens(3, 7, 4)));
    let mut l = lens(3, 7, 5);
    l.field = 34;
    assert!(!g.inputs_ok(&l));
    let empty = GridShape::prepare(0, 5);
    assert!(!empty.inputs_ok(&lens(3, 0, 5)));
}

#[test]
fn farfield_tile_rows_clip_to_grid() {
    let g = GridShape::prepare(7, 5);
    assert_eq!(g.tile_rows(0, 5), Some((0, 5)));
    assert_eq!(g.tile_rows(1, 2), Some((1, 3)));
    assert_eq!(g.tile_rows(3, 10), Some((3, 5)));
    assert_eq!(g.tile_rows(5, 1), None);
    assert_eq!(g.tile_rows(2, 0), None);
}

#[test]
fn farfield_split_tiles_cover_the_rows_once() {
    let g = GridShape::prepare(3, 10);
    let mut rows = Vec::new();
    for (row0, count) in [(0u32, 4u32), (4, 3), (7, 8)] {
        if let Some((a, b)) = g.tile_rows(row0, count) {
            rows.extend(a..b);
        }
    }
    let whole = g.tile_rows(0, 15).unwrap();
    assert_eq!(rows, (whole.0..whole.1).collect::<Vec<_>>());
    assert_eq!(whole, (0, 10));
}

#[test]
fn farfield_cell_count_saturates() {
    let g = GridShape { n1: usize::MAX, n2: 2 };
    assert_eq!(g.cell_count(), usize::MAX);
}

#[test]
fn intensity_divisor_is_at_least_one() {
    assert_eq!(intensity_divisor(0), 1);
    assert_eq!(intensity_divisor(1), 1);
    assert_eq!(intensity_divisor(16), 16);
}

//! Decisions of the pattern metrics over a sampled intensity map: which
//! sample is the peak, which samples are local maxima outside the main beam,
//! and which of those are the largest and the nearest sidelobe.
//!
//! Intensities and angles arrive as `f32` bit patterns (see `order`);
//! visibility of each sample (`valid`) and the angle from the peak to each
//! sample are computed by the caller. The map is row-major,
//! `index = i2 * n1 + i1`, and every scan visits it in that order.
use vstd::prelude::*;
use crate::beam::{
    cell_index, flip_ok, in_grid, lemma_cell_index_bounds, neighbor_cell, neighbor_index, phi_step,
    step_spherical_phi, Cell,
};
use crate::farfield::spec_domain;
use crate::order::{
    f32_bits_ge, f32_bits_lt, f32_ge, f32_is_nan, f32_lt, f32_rank, F32_INFINITY_BITS,
    F32_NEG_INFINITY_BITS, F32_ZERO_BITS,
};

verus! {

/// Some position below `n` satisfies `q`.
pub open spec fn any_in(q: spec_fn(int) -> bool, n: int) -> bool {
    exists|j: int| 0 <= j < n && #[trigger] q(j)
}

/// `k` is the first position below `n` of the largest `score` among the
/// positions that satisfy `q`.
pub open spec fn first_max(q: spec_fn(int) -> bool, score: spec_fn(int) -> int, n: int, k: int) -> bool {
    &&& 0 <= k < n
    &&& q(k)
    &&& forall|j: int| 0 <= j < n && #[trigger] q(j) ==> score(j) <= score(k)
    &&& forall|j: int| 0 <= j < k && #[trigger] q(j) ==> score(j) < score(k)
}

/// What a strict-improvement scan over `0 .. n` keeps: the first best
/// position, or 0 when no position qualifies.
pub open spec fn picks(q: spec_fn(int) -> bool, score: spec_fn(int) -> int, n: int, k: int) -> bool {
    if any_in(q, n) {
        first_max(q, score, n, k)
    } else {
        k == 0
    }
}

proof fn lemma_pick_step(q: spec_fn(int) -> bool, score: spec_fn(int) -> int, i: int, k: int)
    requires
        0 <= i,
        picks(q, score, i, k),
    ensures
        (q(i) && (!any_in(q, i) || score(i) > score(k))) ==> picks(q, score, i + 1, i),
        !(q(i) && (!any_in(q, i) || score(i) > score(k))) ==> picks(q, score, i + 1, k),
{
    if q(i) {
        assert(any_in(q, i + 1));
    }
    if any_in(q, i) {
        let w = choose|j: int| 0 <= j < i && #[trigger] q(j);
        assert(any_in(q, i + 1)) by {
            assert(0 <= w < i + 1 && q(w));
        }
    }
    if !q(i) && any_in(q, i + 1) {
        let w = choose|j: int| 0 <= j < i + 1 && #[trigger] q(j);
        assert(any_in(q, i)) by {
            assert(0 <= w < i && q(w));
        }
    }
}

/// Row-major cell of position `k`.
pub open spec fn cell_of(n1: int, k: int) -> Cell {
    (k % n1, k / n1)
}

proof fn lemma_cell_of(n1: int, n2: int, k: int)
    requires
        n1 > 0,
        0 <= k < n1 * n2,
    ensures
        in_grid(n1, n2, cell_of(n1, k)),
        cell_index(n1, cell_of(n1, k)) == k,
{
    vstd::arithmetic::div_mod::lemma_fundamental_div_mod(k, n1);
    vstd::arithmetic::div_mod::lemma_mod_bound(k, n1);
    vstd::arithmetic::div_mod::lemma_div_pos_is_pos(k, n1);
    let i = k / n1;
    let j = k % n1;
    assert(n1 * i == i * n1) by (nonlinear_arith);
    assert(i < n2) by (nonlinear_arith)
        requires
            k == i * n1 + j,
            0 <= j,
            k < n1 * n2,
            n1 >= 1,
    {
        if i >= n2 {
            assert(i * n1 >= n2 * n1);
        }
    }
}

fn cell_at(n1: usize, n2: usize, k: usize) -> (c: (usize, usize))
    requires
        n1 > 0,
        k < n1 * n2,
    ensures
        (c.0 as int, c.1 as int) == cell_of(n1 as int, k as int),
        in_grid(n1 as int, n2 as int, (c.0 as int, c.1 as int)),
        cell_index(n1 as int, (c.0 as int, c.1 as int)) == k,
{
    proof {
        lemma_cell_of(n1 as int, n2 as int, k as int);
    }
    (k % n1, k / n1)
}

/// The map is usable: a non-empty grid, a known domain, one intensity per
/// sample.
pub fn intensity_map_ok(domain: u32, n1: usize, n2: usize, len: usize) -> (ok: bool)
    ensures
        ok == (n1 > 0 && n2 > 0 && len == n1 * n2 && spec_domain(domain) is Some),
{
    if n1 == 0 || n2 == 0 {
        return false;
    }
    match n1.checked_mul(n2) {
        None => false,
        Some(n) => len == n && domain <= 2,
    }
}

/// Peak candidates: visible samples whose value exceeds `-∞`.
pub open spec fn peak_candidate(valid: Seq<bool>, total: Seq<u32>) -> spec_fn(int) -> bool {
    |k: int| valid[k] && f32_lt(F32_NEG_INFINITY_BITS, total[k])
}

/// The value order of a sequence of `f32` bit patterns.
pub open spec fn value_rank(s: Seq<u32>) -> spec_fn(int) -> int {
    |k: int| f32_rank(s[k])
}

/// The reverse value order (the smallest value ranks highest).
pub open spec fn reverse_rank(s: Seq<u32>) -> spec_fn(int) -> int {
    |k: int| -f32_rank(s[k])
}

/// The peak of the map: the first visible sample of largest intensity, or
/// `None` when no visible sample is positive.
pub fn find_peak(n1: usize, n2: usize, valid: &[bool], total: &[u32]) -> (r: Option<(usize, usize)>)
    requires
        n1 > 0,
        n1 * n2 <= usize::MAX,
        valid.len() == n1 * n2,
        total.len() == n1 * n2,
    ensures
        r is Some <==> exists|j: int|
            0 <= j < n1 * n2 && valid[j] && #[trigger] f32_lt(F32_ZERO_BITS, total[j]),
        r matches Some(c) ==> in_grid(n1 as int, n2 as int, (c.0 as int, c.1 as int)) && first_max(
            peak_candidate(valid@, total@),
            value_rank(total@),
            n1 * n2,
            cell_index(n1 as int, (c.0 as int, c.1 as int)),
        ),
{
    let n = n1 * n2;
    let ghost q = peak_candidate(valid@, total@);
    let ghost score = value_rank(total@);
    let mut best_k: usize = 0;
    let mut best: u32 = F32_NEG_INFINITY_BITS;
    let mut found = false;
    let mut k: usize = 0;
    while k < n
        invariant
            k <= n,
            n == n1 * n2,
            valid.len() == n,
            total.len() == n,
            q == peak_candidate(valid@, total@),
            score == value_rank(total@),
            picks(q, score, k as int, best_k as int),
            found == any_in(q, k as int),
            found ==> best == total[best_k as int],
            !found ==> best == F32_NEG_INFINITY_BITS,
        decreases n - k,
    {
        proof {
            lemma_pick_step(q, score, k as int, best_k as int);
        }
        if valid[k] && f32_bits_lt(best, total[k]) {
            best = total[k];
            best_k = k;
            found = true;
        }
        k = k + 1;
    }
    if found && f32_bits_lt(F32_ZERO_BITS, best) {
        let c = cell_at(n1, n2, best_k);
        proof {
            assert(valid[best_k as int] && f32_lt(F32_ZERO_BITS, total[best_k as int]));
        }
        Some(c)
    } else {
        proof {
            assert forall|j: int|
                0 <= j < n1 * n2 && valid[j] implies !#[trigger] f32_lt(F32_ZERO_BITS, total[j]) by {
                if f32_lt(F32_ZERO_BITS, total[j]) {
                    assert(q(j));
                    assert(any_in(q, n as int));
                }
            }
        }
        None
    }
}

/// The first visible entry of `y` with the largest value above `-∞`, or
/// `default` when there is none: the meridian sample that the orthogonal
/// cut at the spherical pole starts from.
pub fn line_peak(valid: &[bool], y: &[u32], default: usize) -> (r: usize)
    requires
        valid.len() == y.len(),
    ensures
        any_in(peak_candidate(valid@, y@), y.len() as int) ==> first_max(
            peak_candidate(valid@, y@),
            value_rank(y@),
            y.len() as int,
            r as int,
        ),
        !any_in(peak_candidate(valid@, y@), y.len() as int) ==> r == default,
{
    let n = y.len();
    let ghost q = peak_candidate(valid@, y@);
    let ghost score = value_rank(y@);
    let mut best_k: usize = 0;
    let mut best: u32 = F32_NEG_INFINITY_BITS;
    let mut found = false;
    let mut k: usize = 0;
    while k < n
        invariant
            k <= n,
            valid.len() == n,
            y.len() == n,
            q == peak_candidate(valid@, y@),
            score == value_rank(y@),
            picks(q, score, k as int, best_k as int),
            found == any_in(q, k as int),
            found ==> best == y[best_k as int],
            !found ==> best == F32_NEG_INFINITY_BITS,
        decreases n - k,
    {
        proof {
            lemma_pick_step(q, score, k as int, best_k as int);
        }
        if valid[k] && f32_bits_lt(best, y[k]) {
            best = y[k];
            best_k = k;
            found = true;
        }
        k = k + 1;
    }
    if found {
        best_k
    } else {
        default
    }
}

/// Offset `m` (0 ..= 8) of the 3 × 3 neighbourhood, ax1 inner: `(d1, d2)`.
pub open spec fn ring_offset(m: int) -> (int, int) {
    (m % 3 - 1, m / 3 - 1)
}

/// Mirror column of column `j1`, or 0 off the grid.
pub open spec fn flip_of(flip: Seq<usize>, n1: int, j1: int) -> int {
    if 0 <= j1 < n1 {
        flip[j1] as int
    } else {
        0
    }
}

/// The cell at neighbourhood offset `m` from `c`.
pub open spec fn ring_cell(spherical: bool, n1: int, n2: int, flip: Seq<usize>, c: Cell, m: int) -> Option<
    Cell,
> {
    let (d1, d2) = ring_offset(m);
    neighbor_cell(spherical, n1, n2, c, d1, d2, flip_of(flip, n1, c.0 + d1))
}

/// The visible cells at the first `m` neighbourhood offsets of `c`, each
/// once, in the order met.
pub open spec fn neighbourhood(
    spherical: bool,
    n1: int,
    n2: int,
    flip: Seq<usize>,
    valid: Seq<bool>,
    c: Cell,
    m: nat,
) -> Seq<Cell>
    decreases m,
{
    if m == 0 {
        Seq::empty()
    } else {
        let prev = neighbourhood(spherical, n1, n2, flip, valid, c, (m - 1) as nat);
        match ring_cell(spherical, n1, n2, flip, c, m - 1) {
            Some(d) => if valid[cell_index(n1, d)] && !prev.contains(d) {
                prev.push(d)
            } else {
                prev
            },
            None => prev,
        }
    }
}

/// Cells of a list as integer pairs.
pub open spec fn as_cells(r: Seq<(usize, usize)>) -> Seq<Cell> {
    r.map_values(|x: (usize, usize)| (x.0 as int, x.1 as int))
}

/// The visible samples of the 3 × 3 neighbourhood of the peak `(i1, i2)`
/// (the peak included), each once, ax2 outer and ax1 inner; in the
/// spherical chart the ax2 steps wrap across the φ edges. These are the
/// samples a paraboloid is fitted to when refining the peak direction.
#[verifier::rlimit(30)]
pub fn peak_neighbourhood(
    spherical: bool,
    n1: usize,
    n2: usize,
    flip: &[usize],
    valid: &[bool],
    i1: usize,
    i2: usize,
) -> (r: Vec<(usize, usize)>)
    requires
        i1 < n1,
        i2 < n2,
        n1 * n2 <= usize::MAX,
        valid.len() == n1 * n2,
        spherical ==> flip_ok(n1 as int, flip@),
    ensures
        as_cells(r@) == neighbourhood(
            spherical,
            n1 as int,
            n2 as int,
            flip@,
            valid@,
            (i1 as int, i2 as int),
            9,
        ),
        forall|t: int| 0 <= t < r.len() ==> #[trigger] r[t].0 < n1 && r[t].1 < n2,
{
    let ghost c: Cell = (i1 as int, i2 as int);
    let mut r: Vec<(usize, usize)> = Vec::new();
    let mut m: usize = 0;
    while m < 9
        invariant
            m <= 9,
            i1 < n1,
            i2 < n2,
            n1 * n2 <= usize::MAX,
            valid.len() == n1 * n2,
            spherical ==> flip_ok(n1 as int, flip@),
            c == (i1 as int, i2 as int),
            as_cells(r@) == neighbourhood(spherical, n1 as int, n2 as int, flip@, valid@, c, m as nat),
            forall|t: int| 0 <= t < r.len() ==> #[trigger] r[t].0 < n1 && r[t].1 < n2,
        decreases 9 - m,
    {
        let d1: isize = (m % 3) as isize - 1;
        let d2: isize = (m / 3) as isize - 1;
        let ghost mi = m as int;
        assert(ring_offset(mi) == (d1 as int, d2 as int));
        let j1_flip: usize = if spherical && !(d1 < 0 && i1 == 0) && !(d1 > 0 && i1 + 1 >= n1) {
            let j1: usize = if d1 < 0 {
                i1 - 1
            } else if d1 > 0 {
                i1 + 1
            } else {
                i1
            };
            assert(j1 as int == i1 + d1 as int);
            flip[j1]
        } else {
            0
        };
        let ghost prev = as_cells(r@);
        assert(prev == neighbourhood(spherical, n1 as int, n2 as int, flip@, valid@, c, m as nat));
        let cell = neighbor_index(spherical, n1, n2, i1, i2, d1, d2, j1_flip);
        proof {
            let want = ring_cell(spherical, n1 as int, n2 as int, flip@, c, mi);
            if spherical && 0 <= i1 + d1 < n1 {
                assert(j1_flip as int == flip_of(flip@, n1 as int, i1 + d1));
            }
            assert(match cell {
                Some((a, b)) => want == Some((a as int, b as int)),
                None => want is None,
            });
        }
        match cell {
            None => {},
            Some((j1, j2)) => {
                let ghost dc: Cell = (j1 as int, j2 as int);
                assert(in_grid(n1 as int, n2 as int, dc)) by {
                    if spherical && d2 != 0 && d1 != 0 {
                        assert(flip@[i1 + d1] < n1);
                    }
                    if spherical && d2 != 0 && d1 == 0 {
                        assert(flip@[i1 as int] < n1);
                    }
                }
                proof {
                    lemma_cell_index_bounds(n1 as int, n2 as int, dc);
                }
                let k = j2 * n1 + j1;
                if valid[k] {
                    let mut dup = false;
                    let mut t: usize = 0;
                    while t < r.len()
                        invariant
                            t <= r.len(),
                            prev == as_cells(r@),
                            prev.len() == r.len(),
                            dc == (j1 as int, j2 as int),
                            dup == exists|u: int| 0 <= u < t && #[trigger] prev[u] == dc,
                        decreases r.len() - t,
                    {
                        assert(prev[t as int] == (r[t as int].0 as int, r[t as int].1 as int));
                        if r[t].0 == j1 && r[t].1 == j2 {
                            assert(prev[t as int] == dc);
                            dup = true;
                        } else {
                            assert(prev[t as int] != dc);
                        }
                        proof {
                            if exists|u: int| 0 <= u < t + 1 && #[trigger] prev[u] == dc {
                                let u = choose|u: int| 0 <= u < t + 1 && #[trigger] prev[u] == dc;
                                if u < t {
                                    assert(exists|w: int| 0 <= w < t && #[trigger] prev[w] == dc);
                                }
                            }
                        }
                        t = t + 1;
                    }
                    proof {
                        assert(dup == prev.contains(dc));
                    }
                    if !dup {
                        r.push((j1, j2));
                        proof {
                            assert(as_cells(r@) =~= prev.push(dc));
                        }
                    }
                }
            },
        }
        m = m + 1;
    }
    r
}

/// `d` is one of the eight cells around `c`.
pub open spec fn ring8(c: Cell, d: Cell) -> bool {
    &&& d != c
    &&& c.0 - 1 <= d.0 <= c.0 + 1
    &&& c.1 - 1 <= d.1 <= c.1 + 1
}

/// Sample `c` is a local maximum outside the main beam: it is visible, not
/// in the beam, and no visible neighbour among its eight, nor (in the
/// spherical chart) the sample one φ step away in either direction, has an
/// intensity at least as large.
pub open spec fn spec_is_local_max(
    spherical: bool,
    n1: int,
    n2: int,
    flip: Seq<usize>,
    valid: Seq<bool>,
    total: Seq<u32>,
    in_beam: Seq<bool>,
    c: Cell,
) -> bool {
    let k = cell_index(n1, c);
    &&& valid[k]
    &&& !in_beam[k]
    &&& forall|d: Cell|
        #[trigger] ring8(c, d) && in_grid(n1, n2, d) && valid[cell_index(n1, d)] ==> !f32_ge(
            total[cell_index(n1, d)],
            total[k],
        )
    &&& spherical ==> forall|dir: int|
        (dir == -1 || dir == 1) ==> match #[trigger] phi_step(n2, c.0, c.1, dir, flip[c.0] as int) {
            Some(d) => !f32_ge(total[cell_index(n1, d)], total[k]),
            None => true,
        }
}

/// The neighbour at offset `(d1, d2)` is visible and at least `v`.
fn neighbor_blocks(
    n1: usize,
    n2: usize,
    valid: &[bool],
    total: &[u32],
    i1: usize,
    i2: usize,
    d1: isize,
    d2: isize,
    v: u32,
) -> (r: bool)
    requires
        i1 < n1,
        i2 < n2,
        n1 * n2 <= usize::MAX,
        valid.len() == n1 * n2,
        total.len() == n1 * n2,
        -1 <= d1 <= 1,
        -1 <= d2 <= 1,
    ensures
        ({
            let d: Cell = (i1 + d1, i2 + d2);
            r == (in_grid(n1 as int, n2 as int, d) && valid[cell_index(n1 as int, d)] && f32_ge(
                total[cell_index(n1 as int, d)],
                v,
            ))
        }),
{
    if (d1 < 0 && i1 == 0) || (d2 < 0 && i2 == 0) || (d1 > 0 && i1 + 1 >= n1) || (d2 > 0 && i2 + 1
        >= n2) {
        return false;
    }
    let j1: usize = if d1 < 0 {
        i1 - 1
    } else if d1 > 0 {
        i1 + 1
    } else {
        i1
    };
    let j2: usize = if d2 < 0 {
        i2 - 1
    } else if d2 > 0 {
        i2 + 1
    } else {
        i2
    };
    proof {
        crate::beam::lemma_cell_index_bounds(n1 as int, n2 as int, (j1 as int, j2 as int));
    }
    let k = j2 * n1 + j1;
    valid[k] && f32_bits_ge(total[k], v)
}

/// `is_local_max` of the sidelobe search: see `spec_is_local_max`.
pub fn is_local_max(
    spherical: bool,
    n1: usize,
    n2: usize,
    flip: &[usize],
    valid: &[bool],
    total: &[u32],
    in_beam: &[bool],
    i1: usize,
    i2: usize,
) -> (r: bool)
    requires
        i1 < n1,
        i2 < n2,
        n1 * n2 <= usize::MAX,
        valid.len() == n1 * n2,
        total.len() == n1 * n2,
        in_beam.len() == n1 * n2,
        spherical ==> flip_ok(n1 as int, flip@),
    ensures
        r == spec_is_local_max(
            spherical,
            n1 as int,
            n2 as int,
            flip@,
            valid@,
            total@,
            in_beam@,
            (i1 as int, i2 as int),
        ),
{
    let ghost c: Cell = (i1 as int, i2 as int);
    proof {
        crate::beam::lemma_cell_index_bounds(n1 as int, n2 as int, c);
    }
    let k = i2 * n1 + i1;
    if !valid[k] || in_beam[k] {
        return false;
    }
    let v = total[k];
    let b0 = neighbor_blocks(n1, n2, valid, total, i1, i2, -1, -1, v);
    let b1 = neighbor_blocks(n1, n2, valid, total, i1, i2, 0, -1, v);
    let b2 = neighbor_blocks(n1, n2, valid, total, i1, i2, 1, -1, v);
    let b3 = neighbor_blocks(n1, n2, valid, total, i1, i2, -1, 0, v);
    let b4 = neighbor_blocks(n1, n2, valid, total, i1, i2, 1, 0, v);
    let b5 = neighbor_blocks(n1, n2, valid, total, i1, i2, -1, 1, v);
    let b6 = neighbor_blocks(n1, n2, valid, total, i1, i2, 0, 1, v);
    let b7 = neighbor_blocks(n1, n2, valid, total, i1, i2, 1, 1, v);
    let ring_clear = !(b0 || b1 || b2 || b3 || b4 || b5 || b6 || b7);
    proof {
        let n1i = n1 as int;
        let n2i = n2 as int;
        if ring_clear {
            assert forall|d: Cell|
                #[trigger] ring8(c, d) && in_grid(n1i, n2i, d) && valid@[cell_index(n1i, d)]
                    implies !f32_ge(total@[cell_index(n1i, d)], total@[k as int]) by {
                let e1 = d.0 - c.0;
                let e2 = d.1 - c.1;
                assert(d == (i1 + e1, i2 + e2));
            }
        } else {
            let d: Cell = if b0 {
                (i1 - 1, i2 - 1)
            } else if b1 {
                (i1 as int, i2 - 1)
            } else if b2 {
                (i1 + 1, i2 - 1)
            } else if b3 {
                (i1 - 1, i2 as int)
            } else if b4 {
                (i1 + 1, i2 as int)
            } else if b5 {
                (i1 - 1, i2 + 1)
            } else if b6 {
                (i1 as int, i2 + 1)
            } else {
                (i1 + 1, i2 + 1)
            };
            assert(ring8(c, d));
        }
    }
    if !ring_clear {
        return false;
    }
    if spherical {
        let f = flip[i1];
        let mut dir: isize = -1;
        while dir <= 1
            invariant
                -1 <= dir <= 3,
                dir % 2 != 0,
                spherical,
                i1 < n1,
                i2 < n2,
                n1 * n2 <= usize::MAX,
                valid.len() == n1 * n2,
                total.len() == n1 * n2,
                flip_ok(n1 as int, flip@),
                f == flip@[i1 as int],
                k == cell_index(n1 as int, c),
                v == total@[k as int],
                c == (i1 as int, i2 as int),
                forall|e: int|
                    (e == -1 || e == 1) && e < dir ==> match #[trigger] phi_step(
                        n2 as int,
                        c.0,
                        c.1,
                        e,
                        flip@[c.0] as int,
                    ) {
                        Some(d) => !f32_ge(total@[cell_index(n1 as int, d)], v),
                        None => true,
                    },
            decreases 3 - dir,
        {
            match step_spherical_phi(n2, i1, i2, dir, f) {
                Some((u1, u2)) => {
                    proof {
                        crate::beam::lemma_cell_index_bounds(
                            n1 as int,
                            n2 as int,
                            (u1 as int, u2 as int),
                        );
                    }
                    if f32_bits_ge(total[u2 * n1 + u1], v) {
                        proof {
                            let e = dir as int;
                            assert(phi_step(n2 as int, c.0, c.1, e, flip@[c.0] as int) == Some(
                                (u1 as int, u2 as int),
                            ));
                            assert(cell_index(n1 as int, (u1 as int, u2 as int)) == u2 * n1 + u1);
                            assert(f32_ge(
                                total@[cell_index(n1 as int, (u1 as int, u2 as int))],
                                total@[cell_index(n1 as int, c)],
                            ));
                        }
                        return false;
                    }
                },
                None => {},
            }
            dir = dir + 2;
        }
    }
    true
}

/// Law: a sample with a visible neighbour among its eight on the grid whose
/// intensity is at least its own is not a local maximum, whether or not
/// that neighbour lies in the main beam. In the spherical chart the same
/// holds of the sample one φ step across an edge, from `(i1, n2 - 1)` to
/// `(flip[i1], 1)` and from `(i1, 0)` to `(flip[i1], n2 - 2)`.
pub proof fn lemma_blocked_by_neighbour(
    spherical: bool,
    n1: int,
    n2: int,
    flip: Seq<usize>,
    valid: Seq<bool>,
    total: Seq<u32>,
    in_beam: Seq<bool>,
    c: Cell,
    d: Cell,
)
    ensures
        d != c && c.0 - 1 <= d.0 <= c.0 + 1 && c.1 - 1 <= d.1 <= c.1 + 1 && in_grid(n1, n2, d)
            && valid[cell_index(n1, d)] && f32_ge(total[cell_index(n1, d)], total[cell_index(n1, c)])
            ==> !spec_is_local_max(spherical, n1, n2, flip, valid, total, in_beam, c),
        spherical && n2 >= 2 && c.1 == n2 - 1 && d == (flip[c.0] as int, 1int) && f32_ge(
            total[cell_index(n1, d)],
            total[cell_index(n1, c)],
        ) ==> !spec_is_local_max(spherical, n1, n2, flip, valid, total, in_beam, c),
        spherical && n2 >= 2 && c.1 == 0 && d == (flip[c.0] as int, n2 - 2) && f32_ge(
            total[cell_index(n1, d)],
            total[cell_index(n1, c)],
        ) ==> !spec_is_local_max(spherical, n1, n2, flip, valid, total, in_beam, c),
{
    if d != c && c.0 - 1 <= d.0 <= c.0 + 1 && c.1 - 1 <= d.1 <= c.1 + 1 && in_grid(n1, n2, d)
        && valid[cell_index(n1, d)] && f32_ge(total[cell_index(n1, d)], total[cell_index(n1, c)]) {
        assert(ring8(c, d));
    }
    if spherical && n2 >= 2 && c.1 == n2 - 1 && d == (flip[c.0] as int, 1int) {
        assert(phi_step(n2, c.0, c.1, 1, flip[c.0] as int) == Some(d));
    }
    if spherical && n2 >= 2 && c.1 == 0 && d == (flip[c.0] as int, n2 - 2) {
        assert(phi_step(n2, c.0, c.1, -1, flip[c.0] as int) == Some(d));
    }
}

/// Samples that are visible and outside the main beam.
pub open spec fn unmasked(valid: Seq<bool>, in_beam: Seq<bool>) -> spec_fn(int) -> bool {
    |k: int| valid[k] && !in_beam[k]
}

/// Unmasked samples above `-∞`: candidates for the fallback sidelobe.
pub open spec fn fallback_candidate(valid: Seq<bool>, in_beam: Seq<bool>, total: Seq<u32>) -> spec_fn(
    int,
) -> bool {
    |k: int| valid[k] && !in_beam[k] && f32_lt(F32_NEG_INFINITY_BITS, total[k])
}

/// Local maxima outside the main beam.
pub open spec fn local_peak(
    spherical: bool,
    n1: int,
    n2: int,
    flip: Seq<usize>,
    valid: Seq<bool>,
    total: Seq<u32>,
    in_beam: Seq<bool>,
) -> spec_fn(int) -> bool {
    |k: int|
        valid[k] && !in_beam[k] && spec_is_local_max(
            spherical,
            n1,
            n2,
            flip,
            valid,
            total,
            in_beam,
            cell_of(n1, k),
        )
}

/// Local maxima above `-∞`: candidates for the largest sidelobe.
pub open spec fn largest_candidate(
    spherical: bool,
    n1: int,
    n2: int,
    flip: Seq<usize>,
    valid: Seq<bool>,
    total: Seq<u32>,
    in_beam: Seq<bool>,
) -> spec_fn(int) -> bool {
    |k: int|
        local_peak(spherical, n1, n2, flip, valid, total, in_beam)(k) && f32_lt(
            F32_NEG_INFINITY_BITS,
            total[k],
        )
}

/// Local maxima whose angle from the peak is below `+∞`: candidates for
/// the nearest sidelobe.
pub open spec fn nearest_candidate(
    spherical: bool,
    n1: int,
    n2: int,
    flip: Seq<usize>,
    valid: Seq<bool>,
    total: Seq<u32>,
    in_beam: Seq<bool>,
    angle: Seq<u32>,
) -> spec_fn(int) -> bool {
    |k: int|
        local_peak(spherical, n1, n2, flip, valid, total, in_beam)(k) && f32_lt(
            angle[k],
            F32_INFINITY_BITS,
        )
}

/// Outcome of the sidelobe search.
pub struct SidelobeScan {
    /// Some visible sample lies outside the main beam.
    pub found_unmasked: bool,
    /// The largest visible sample outside the main beam.
    pub fallback: (usize, usize),
    /// Some local maximum lies outside the main beam.
    pub found_local: bool,
    /// The largest such local maximum.
    pub largest: (usize, usize),
    /// The such local maximum at the smallest angle from the peak.
    pub nearest: (usize, usize),
}

/// Sidelobe search of the pattern metrics over visible samples outside the
/// main beam: the largest of them (fallback), and among the local maxima
/// the largest and the one nearest the peak (`angle[k]` is the angle from
/// the peak to sample `k`, NaN where it has none). Each pick is the first
/// best in scan order, or `(0, 0)` when nothing qualifies.
pub fn sidelobe_scan(
    spherical: bool,
    n1: usize,
    n2: usize,
    flip: &[usize],
    valid: &[bool],
    total: &[u32],
    in_beam: &[bool],
    angle: &[u32],
) -> (r: SidelobeScan)
    requires
        n1 > 0,
        n1 * n2 <= usize::MAX,
        valid.len() == n1 * n2,
        total.len() == n1 * n2,
        in_beam.len() == n1 * n2,
        angle.len() == n1 * n2,
        spherical ==> flip_ok(n1 as int, flip@),
    ensures
        ({
            let n1i = n1 as int;
            let n2i = n2 as int;
            let nn = n1 * n2;
            &&& r.found_unmasked == any_in(unmasked(valid@, in_beam@), nn)
            &&& in_grid(n1i, n2i, (r.fallback.0 as int, r.fallback.1 as int)) || nn == 0
            &&& picks(
                fallback_candidate(valid@, in_beam@, total@),
                value_rank(total@),
                nn,
                cell_index(n1i, (r.fallback.0 as int, r.fallback.1 as int)),
            )
            &&& r.found_local == any_in(
                local_peak(spherical, n1i, n2i, flip@, valid@, total@, in_beam@),
                nn,
            )
            &&& in_grid(n1i, n2i, (r.largest.0 as int, r.largest.1 as int)) || nn == 0
            &&& picks(
                largest_candidate(spherical, n1i, n2i, flip@, valid@, total@, in_beam@),
                value_rank(total@),
                nn,
                cell_index(n1i, (r.largest.0 as int, r.largest.1 as int)),
            )
            &&& in_grid(n1i, n2i, (r.nearest.0 as int, r.nearest.1 as int)) || nn == 0
            &&& picks(
                nearest_candidate(spherical, n1i, n2i, flip@, valid@, total@, in_beam@, angle@),
                reverse_rank(angle@),
                nn,
                cell_index(n1i, (r.nearest.0 as int, r.nearest.1 as int)),
            )
        }),
{
    let n = n1 * n2;
    let ghost n1i = n1 as int;
    let ghost n2i = n2 as int;
    let ghost qu = unmasked(valid@, in_beam@);
    let ghost qf = fallback_candidate(valid@, in_beam@, total@);
    let ghost ql = local_peak(spherical, n1i, n2i, flip@, valid@, total@, in_beam@);
    let ghost qg = largest_candidate(spherical, n1i, n2i, flip@, valid@, total@, in_beam@);
    let ghost qn = nearest_candidate(spherical, n1i, n2i, flip@, valid@, total@, in_beam@, angle@);
    let ghost sv = value_rank(total@);
    let ghost sa = reverse_rank(angle@);
    let mut found_unmasked = false;
    let mut found_local = false;
    let mut fb_k: usize = 0;
    let mut fb: u32 = F32_NEG_INFINITY_BITS;
    let mut fb_found = false;
    let mut lg_k: usize = 0;
    let mut lg: u32 = F32_NEG_INFINITY_BITS;
    let mut lg_found = false;
    let mut nr_k: usize = 0;
    let mut nr: u32 = F32_INFINITY_BITS;
    let mut nr_found = false;
    let mut k: usize = 0;
    while k < n
        invariant
            k <= n,
            n == n1 * n2,
            n1 > 0,
            n1i == n1,
            n2i == n2,
            valid.len() == n,
            total.len() == n,
            in_beam.len() == n,
            angle.len() == n,
            spherical ==> flip_ok(n1 as int, flip@),
            qu == unmasked(valid@, in_beam@),
            qf == fallback_candidate(valid@, in_beam@, total@),
            ql == local_peak(spherical, n1i, n2i, flip@, valid@, total@, in_beam@),
            qg == largest_candidate(spherical, n1i, n2i, flip@, valid@, total@, in_beam@),
            qn == nearest_candidate(spherical, n1i, n2i, flip@, valid@, total@, in_beam@, angle@),
            sv == value_rank(total@),
            sa == reverse_rank(angle@),
            found_unmasked == any_in(qu, k as int),
            found_local == any_in(ql, k as int),
            picks(qf, sv, k as int, fb_k as int),
            fb_found == any_in(qf, k as int),
            fb_found ==> fb == total[fb_k as int],
            !fb_found ==> fb == F32_NEG_INFINITY_BITS,
            picks(qg, sv, k as int, lg_k as int),
            lg_found == any_in(qg, k as int),
            lg_found ==> lg == total[lg_k as int],
            !lg_found ==> lg == F32_NEG_INFINITY_BITS,
            picks(qn, sa, k as int, nr_k as int),
            nr_found == any_in(qn, k as int),
            nr_found ==> nr == angle[nr_k as int],
            !nr_found ==> nr == F32_INFINITY_BITS,
        decreases n - k,
    {
        let c = cell_at(n1, n2, k);
        proof {
            lemma_pick_step(qf, sv, k as int, fb_k as int);
            lemma_pick_step(qg, sv, k as int, lg_k as int);
            lemma_pick_step(qn, sa, k as int, nr_k as int);
            lemma_any_step(qu, k as int);
            lemma_any_step(ql, k as int);
            lemma_any_step(qf, k as int);
            lemma_any_step(qg, k as int);
            lemma_any_step(qn, k as int);
        }
        if valid[k] && !in_beam[k] {
            found_unmasked = true;
            let v = total[k];
            if f32_bits_lt(fb, v) {
                fb = v;
                fb_k = k;
                fb_found = true;
            }
            if is_local_max(spherical, n1, n2, flip, valid, total, in_beam, c.0, c.1) {
                proof {
                    assert(ql(k as int));
                }
                found_local = true;
                if f32_bits_lt(lg, v) {
                    lg = v;
                    lg_k = k;
                    lg_found = true;
                }
                if f32_bits_lt(angle[k], nr) {
                    nr = angle[k];
                    nr_k = k;
                    nr_found = true;
                }
            } else {
                proof {
                    assert(!ql(k as int));
                    assert(!qg(k as int));
                    assert(!qn(k as int));
                }
            }
        } else {
            proof {
                assert(!qu(k as int));
                assert(!ql(k as int));
            }
        }
        k = k + 1;
    }
    let fallback = cell_at_or_origin(n1, n2, fb_k);
    let largest = cell_at_or_origin(n1, n2, lg_k);
    let nearest = cell_at_or_origin(n1, n2, nr_k);
    SidelobeScan { found_unmasked, fallback, found_local, largest, nearest }
}

proof fn lemma_any_step(q: spec_fn(int) -> bool, i: int)
    requires
        0 <= i,
    ensures
        any_in(q, i + 1) == (any_in(q, i) || q(i)),
{
    if any_in(q, i + 1) && !q(i) {
        let w = choose|j: int| 0 <= j < i + 1 && #[trigger] q(j);
        assert(0 <= w < i && q(w));
    }
    if any_in(q, i) {
        let w = choose|j: int| 0 <= j < i && #[trigger] q(j);
        assert(0 <= w < i + 1 && q(w));
    }
    if q(i) {
        assert(0 <= i < i + 1 && q(i));
    }
}

/// The cell of position `k`; `(0, 0)` on an empty grid.
fn cell_at_or_origin(n1: usize, n2: usize, k: usize) -> (c: (usize, usize))
    requires
        n1 > 0,
        k == 0 || k < n1 * n2,
        n1 * n2 <= usize::MAX,
    ensures
        in_grid(n1 as int, n2 as int, (c.0 as int, c.1 as int)) || n1 * n2 == 0,
        cell_index(n1 as int, (c.0 as int, c.1 as int)) == k,
{
    if k == 0 {
        return (0, 0);
    }
    cell_at(n1, n2, k)
}

} // verus!

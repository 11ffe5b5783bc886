//! Half-power cuts through the main beam. From the peak, a cut walks along
//! a row or a column of the map, or (in the spherical chart) around the φ
//! circle, until the intensity falls below half the peak. The walk decides
//! which pair of samples brackets the crossing; the caller interpolates
//! between them.
//!
//! Intensities arrive as `f32` bit patterns (see `order`).
use vstd::prelude::*;
use crate::beam::{
    cell_index, flip_ok, idx, in_grid, lemma_cell_index_bounds, lemma_cell_index_injective,
    phi_step, step_spherical_phi, Cell,
};
use crate::order::{f32_bits_lt, f32_lt};

verus! {

/// Position `e` samples away from `i` along a line, in direction `dir`.
pub open spec fn along(i: int, dir: int, e: int) -> int {
    if dir > 0 {
        i + e
    } else {
        i - e
    }
}

/// The sample `e` steps from the peak lies on the line, is visible and is
/// not below `half`.
pub open spec fn cut_passes(valid: Seq<bool>, y: Seq<u32>, half: u32, i_peak: int, dir: int, e: int) -> bool {
    let j = along(i_peak, dir, e);
    0 <= j < y.len() && valid[j] && !f32_lt(y[j], half)
}

/// Every sample strictly between the peak and step `d` passes.
pub open spec fn cut_before(valid: Seq<bool>, y: Seq<u32>, half: u32, i_peak: int, dir: int, d: int) -> bool {
    forall|e: int| 1 <= e < d ==> #[trigger] cut_passes(valid, y, half, i_peak, dir, e)
}

/// Sample `j` lies past the peak in direction `dir`, is visible and below
/// `half`, and every sample strictly between the peak and `j` is visible
/// and not below `half`.
pub open spec fn brackets_crossing(valid: Seq<bool>, y: Seq<u32>, half: u32, i_peak: int, dir: int, j: int) -> bool {
    0 <= j < y.len() && valid[j] && f32_lt(y[j], half) && (if dir > 0 {
        i_peak < j
    } else {
        j < i_peak
    }) && passes_between(valid, y, half, i_peak, dir, j)
}

/// Every sample strictly between `i_peak` and `j` is visible and not below
/// `half`.
pub open spec fn passes_between(valid: Seq<bool>, y: Seq<u32>, half: u32, i_peak: int, dir: int, j: int) -> bool {
    forall|k: int|
        #![trigger valid[k]]
        #![trigger y[k]]
        (if dir > 0 {
            i_peak < k < j
        } else {
            j < k < i_peak
        }) ==> valid[k] && !f32_lt(y[k], half)
}

/// A walk that passed every sample from the peak up to `i` and stops
/// before `i + dir` (off the line or invisible) has no crossing at all.
proof fn lemma_no_crossing(valid: Seq<bool>, y: Seq<u32>, half: u32, i_peak: int, dir: int, i: int)
    requires
        valid.len() == y.len(),
        0 <= i_peak < y.len(),
        dir == 1 || dir == -1,
        if dir > 0 {
            i_peak <= i
        } else {
            i <= i_peak
        },
        forall|k: int|
            #![trigger valid[k]]
            #![trigger y[k]]
            (if dir > 0 {
                i_peak < k <= i
            } else {
                i <= k < i_peak
            }) ==> valid[k] && !f32_lt(y[k], half),
        !(0 <= i + dir < y.len() && valid[i + dir]),
    ensures
        forall|j: int| !brackets_crossing(valid, y, half, i_peak, dir, j),
{
    assert forall|j: int| !brackets_crossing(valid, y, half, i_peak, dir, j) by {
        if brackets_crossing(valid, y, half, i_peak, dir, j) {
            let stop = i + dir;
            assert(0 <= j < y.len() && valid[j] && f32_lt(y[j], half));
            assert(passes_between(valid, y, half, i_peak, dir, j));
            if j == stop {
                assert(false);
            } else if dir > 0 && j <= i {
                assert(i_peak < j <= i);
                assert(!f32_lt(y[j], half));
                assert(false);
            } else if dir < 0 && j >= i {
                assert(i <= j < i_peak);
                assert(!f32_lt(y[j], half));
                assert(false);
            } else {
                assert(if dir > 0 {
                    i_peak < stop < j
                } else {
                    j < stop < i_peak
                });
                assert(valid[stop]);
                assert(0 <= stop < y.len());
                assert(false);
            }
        }
    }
}

/// Half-power crossing of a cut from sample `i_peak` in direction `dir`
/// (±1) along a line of samples (`valid[j]`: sample `j` is visible).
///
/// The walk stops at the first step that leaves the line, meets an
/// invisible sample, or meets a sample below `half`. Only in the last case
/// is there a crossing: `Some(j)` with `j` that sample (the crossing lies
/// between `j` and the sample before it); otherwise `None` (the cut is
/// clipped).
#[verifier::spinoff_prover]
pub fn half_power_crossing(valid: &[bool], y: &[u32], half: u32, i_peak: usize, dir: isize) -> (r:
    Option<usize>)
    requires
        valid.len() == y.len(),
        i_peak < y.len(),
        dir == 1 || dir == -1,
    ensures
        match r {
            Some(j) => exists|d: int|
                d >= 1 && #[trigger] cut_before(valid@, y@, half, i_peak as int, dir as int, d)
                    && j == along(i_peak as int, dir as int, d) && j < y.len() && valid[j as int]
                    && f32_lt(y[j as int], half),
            None => exists|d: int|
                d >= 1 && #[trigger] cut_before(valid@, y@, half, i_peak as int, dir as int, d)
                    && !(0 <= along(i_peak as int, dir as int, d) < y.len() && valid[along(
                    i_peak as int,
                    dir as int,
                    d,
                )]),
        },
        r matches Some(j) ==> brackets_crossing(valid@, y@, half, i_peak as int, dir as int, j as int),
        0 <= i_peak + dir < y.len() && valid[i_peak + dir] && f32_lt(y[i_peak + dir], half) ==> r
            == Some((i_peak + dir) as usize),
        r is None ==> forall|j: int| !brackets_crossing(valid@, y@, half, i_peak as int, dir as int, j),
{
    let n = y.len();
    let mut i = i_peak;
    let ghost mut d: int = 1;
    loop
        invariant
            n == y.len(),
            valid.len() == n,
            dir == 1 || dir == -1,
            i < n,
            i_peak < n,
            d >= 1,
            i as int == along(i_peak as int, dir as int, d - 1),
            cut_before(valid@, y@, half, i_peak as int, dir as int, d),
            forall|k: int|
                #![trigger valid@[k]]
                #![trigger y@[k]]
                (if dir > 0 {
                    i_peak < k <= i
                } else {
                    i <= k < i_peak
                }) ==> valid@[k] && !f32_lt(y@[k], half),
        decreases
                if dir > 0 {
                    n - i
                } else {
                    i as int
                },
    {
        proof {
            if i as int != i_peak as int {
                let k = i_peak + dir;
                assert(if dir > 0 {
                    i_peak < k <= i
                } else {
                    i <= k < i_peak
                });
                assert(valid@[k] && !f32_lt(y@[k], half));
            }
        }
        let j: usize;
        if dir < 0 {
            if i == 0 {
                proof {
                    lemma_no_crossing(valid@, y@, half, i_peak as int, dir as int, i as int);
                }
                return None;
            }
            j = i - 1;
        } else {
            if i + 1 >= n {
                proof {
                    lemma_no_crossing(valid@, y@, half, i_peak as int, dir as int, i as int);
                }
                return None;
            }
            j = i + 1;
        }
        assert(j as int == along(i_peak as int, dir as int, d));
        if !valid[j] {
            proof {
                lemma_no_crossing(valid@, y@, half, i_peak as int, dir as int, i as int);
            }
            return None;
        }
        if f32_bits_lt(y[j], half) {
            proof {
                assert(if dir > 0 {
                    i_peak < j
                } else {
                    j < i_peak
                });
                assert forall|k: int|
                    #![trigger valid@[k]]
                    #![trigger y@[k]]
                    (if dir > 0 {
                        i_peak < k < j
                    } else {
                        j < k < i_peak
                    }) implies valid@[k] && !f32_lt(y@[k], half) by {
                    if dir > 0 {
                        assert(i_peak < k <= i);
                    } else {
                        assert(i <= k < i_peak);
                    }
                    assert(valid@[k]);
                }
                assert(valid@[j as int]);
                assert(f32_lt(y@[j as int], half));
                let ip = i_peak as int;
                let jj = j as int;
                let dd = dir as int;
                assert forall|k: int|
                    #![trigger valid@[k]]
                    #![trigger y@[k]]
                    (if dd > 0 {
                        ip < k < jj
                    } else {
                        jj < k < ip
                    }) implies valid@[k] && !f32_lt(y@[k], half) by {
                    if dd > 0 {
                        assert(i_peak < k < j);
                    } else {
                        assert(j < k < i_peak);
                    }
                }
                assert(passes_between(valid@, y@, half, ip, dd, jj));
                assert(brackets_crossing(valid@, y@, half, ip, dd, jj));
            }
            return Some(j);
        }
        proof {
            assert(cut_passes(valid@, y@, half, i_peak as int, dir as int, d));
            assert forall|e: int| 1 <= e < d + 1 implies #[trigger] cut_passes(
                valid@,
                y@,
                half,
                i_peak as int,
                dir as int,
                e,
            ) by {
                if e < d {
                    assert(cut_before(valid@, y@, half, i_peak as int, dir as int, d));
                }
            }
            d = d + 1;
            assert forall|k: int|
                #![trigger valid@[k]]
                #![trigger y@[k]]
                (if dir > 0 {
                    i_peak < k <= j
                } else {
                    j <= k < i_peak
                }) implies valid@[k] && !f32_lt(y@[k], half) by {
                if k != j as int {
                    if dir > 0 {
                        assert(i_peak < k <= i);
                    } else {
                        assert(i <= k < i_peak);
                    }
                }
            }
        }
        i = j;
    }
}

/// Cell reached from `start` after `t` spherical φ steps in direction
/// `dir`, if every step exists.
pub open spec fn phi_path(n2: int, flip: Seq<usize>, start: Cell, dir: int, t: nat) -> Option<Cell>
    decreases t,
{
    if t == 0 {
        Some(start)
    } else {
        match phi_path(n2, flip, start, dir, (t - 1) as nat) {
            Some(c) => phi_step(n2, c.0, c.1, dir, flip[c.0] as int),
            None => None,
        }
    }
}

/// Step `s` of the φ walk exists and lands on a cell not visited before.
pub open spec fn fresh_step(n2: int, flip: Seq<usize>, start: Cell, dir: int, s: nat) -> bool {
    match phi_path(n2, flip, start, dir, s) {
        Some(c) => forall|u: nat| u < s ==> #[trigger] phi_path(n2, flip, start, dir, u) != Some(c),
        None => false,
    }
}

/// The cell of step `s` of the φ walk is below `half`.
pub open spec fn below_at(
    n1: int,
    n2: int,
    flip: Seq<usize>,
    total: Seq<u32>,
    half: u32,
    start: Cell,
    dir: int,
    s: nat,
) -> bool {
    match phi_path(n2, flip, start, dir, s) {
        Some(c) => f32_lt(total[cell_index(n1, c)], half),
        None => false,
    }
}

/// Steps `1 ..= t` of the φ walk each land on a new cell, none below `half`.
pub open spec fn walk_passes(
    n1: int,
    n2: int,
    flip: Seq<usize>,
    total: Seq<u32>,
    half: u32,
    start: Cell,
    dir: int,
    t: nat,
) -> bool {
    forall|s: nat|
        1 <= s <= t ==> #[trigger] fresh_step(n2, flip, start, dir, s) && !below_at(
            n1,
            n2,
            flip,
            total,
            half,
            start,
            dir,
            s,
        )
}

/// The φ walk passes `t` steps and its step `t + 1` lands on a new cell
/// below `half`: the crossing lies between the cells of steps `t` and
/// `t + 1`.
pub open spec fn walk_stops_at(
    n1: int,
    n2: int,
    flip: Seq<usize>,
    total: Seq<u32>,
    half: u32,
    start: Cell,
    dir: int,
    t: nat,
) -> bool {
    &&& walk_passes(n1, n2, flip, total, half, start, dir, t)
    &&& fresh_step(n2, flip, start, dir, t + 1)
    &&& below_at(n1, n2, flip, total, half, start, dir, t + 1)
}

/// A cell visited by step `u` of the φ walk has position `k`.
pub open spec fn visits(n1: int, n2: int, flip: Seq<usize>, start: Cell, dir: int, u: nat, k: int) -> bool {
    match phi_path(n2, flip, start, dir, u) {
        Some(c) => cell_index(n1, c) == k,
        None => false,
    }
}

proof fn lemma_no_stop(
    n1: int,
    n2: int,
    flip: Seq<usize>,
    total: Seq<u32>,
    half: u32,
    start: Cell,
    dir: int,
    t: nat,
    limit: nat,
)
    requires
        walk_passes(n1, n2, flip, total, half, start, dir, t),
        t >= limit || !fresh_step(n2, flip, start, dir, t + 1),
    ensures
        forall|t2: nat|
            t2 < limit ==> !#[trigger] walk_stops_at(n1, n2, flip, total, half, start, dir, t2),
{
    assert forall|t2: nat| t2 < limit implies !#[trigger] walk_stops_at(
        n1,
        n2,
        flip,
        total,
        half,
        start,
        dir,
        t2,
    ) by {
        if walk_stops_at(n1, n2, flip, total, half, start, dir, t2) {
            if t2 < t {
                assert(fresh_step(n2, flip, start, dir, (t2 + 1) as nat));
            } else if t2 > t {
                assert(fresh_step(n2, flip, start, dir, (t + 1) as nat));
            }
        }
    }
}

/// The spherical φ walk of a half-power cut: from `(i1, i2)`, step around
/// the φ circle in direction `dir` (±1), crossing the φ edges onto the
/// θ-mirrored column, for at most `2 · n2 + 4` steps.
///
/// It stops with `None` when a step does not exist or returns to a cell
/// already visited, and with `Some((a, b, t))` at the first step that
/// lands below `half`: `a` is the cell after `t` steps, `b` the one after
/// `t + 1`. `None` also when no step within the limit lands below `half`.
#[verifier::rlimit(40)]
pub fn phi_walk(
    n1: usize,
    n2: usize,
    flip: &[usize],
    total: &[u32],
    half: u32,
    i1: usize,
    i2: usize,
    dir: isize,
) -> (r: Option<((usize, usize), (usize, usize), usize)>)
    requires
        i1 < n1,
        i2 < n2,
        n1 * n2 <= usize::MAX,
        2 * n2 + 4 <= usize::MAX,
        total.len() == n1 * n2,
        flip_ok(n1 as int, flip@),
        dir == 1 || dir == -1,
    ensures
        ({
            let start: Cell = (i1 as int, i2 as int);
            match r {
                Some((a, b, t)) => t < 2 * n2 + 4 && walk_stops_at(
                    n1 as int,
                    n2 as int,
                    flip@,
                    total@,
                    half,
                    start,
                    dir as int,
                    t as nat,
                ) && phi_path(n2 as int, flip@, start, dir as int, t as nat) == Some(
                    (a.0 as int, a.1 as int),
                ) && phi_path(n2 as int, flip@, start, dir as int, (t + 1) as nat) == Some(
                    (b.0 as int, b.1 as int),
                ),
                None => forall|t: nat|
                    t < 2 * n2 + 4 ==> !#[trigger] walk_stops_at(
                        n1 as int,
                        n2 as int,
                        flip@,
                        total@,
                        half,
                        start,
                        dir as int,
                        t,
                    ),
            }
        }),
{
    let ghost g1 = n1 as int;
    let ghost g2 = n2 as int;
    let ghost start: Cell = (i1 as int, i2 as int);
    let ghost fl = flip@;
    let ghost tot = total@;
    let nn = n1 * n2;
    let limit = 2 * n2 + 4;
    let mut seen: Vec<bool> = Vec::new();
    while seen.len() < nn
        invariant
            seen.len() <= nn,
            forall|k: int| 0 <= k < seen.len() ==> !#[trigger] seen[k],
        decreases nn - seen.len(),
    {
        seen.push(false);
    }
    proof {
        lemma_cell_index_bounds(g1, g2, start);
    }
    let k0 = idx(i1, i2, n1);
    seen.set(k0, true);
    let mut c: (usize, usize) = (i1, i2);
    let mut t: usize = 0;
    proof {
        lemma_cell_index_bounds(g1, g2, start);
        assert forall|k: int| 0 <= k < nn implies (seen[k] <==> exists|u: nat|
            u <= 0 && #[trigger] visits(g1, g2, fl, start, dir as int, u, k)) by {
            if seen[k] {
                assert(visits(g1, g2, fl, start, dir as int, 0, k));
            }
        }
    }
    while t < limit
        invariant
            g1 == n1,
            g2 == n2,
            fl == flip@,
            tot == total@,
            start == (i1 as int, i2 as int),
            nn == n1 * n2,
            limit == 2 * n2 + 4,
            total.len() == nn,
            flip_ok(g1, fl),
            dir == 1 || dir == -1,
            t <= limit,
            c.0 < n1,
            c.1 < n2,
            phi_path(g2, fl, start, dir as int, t as nat) == Some((c.0 as int, c.1 as int)),
            walk_passes(g1, g2, fl, tot, half, start, dir as int, t as nat),
            forall|u: nat|
                u <= t ==> #[trigger] phi_path(g2, fl, start, dir as int, u) is Some && in_grid(
                    g1,
                    g2,
                    phi_path(g2, fl, start, dir as int, u)->0,
                ),
            seen.len() == nn,
            forall|k: int|
                0 <= k < nn ==> (seen[k] <==> exists|u: nat|
                    u <= t && #[trigger] visits(g1, g2, fl, start, dir as int, u, k)),
        decreases limit - t,
    {
        let ghost cc: Cell = (c.0 as int, c.1 as int);
        let step = step_spherical_phi(n2, c.0, c.1, dir, flip[c.0]);
        proof {
            assert(phi_path(g2, fl, start, dir as int, (t + 1) as nat) == phi_step(
                g2,
                cc.0,
                cc.1,
                dir as int,
                fl[cc.0] as int,
            ));
        }
        match step {
            None => {
                proof {
                    lemma_no_stop(g1, g2, fl, tot, half, start, dir as int, t as nat, limit as nat);
                }
                return None;
            },
            Some(d) => {
                let ghost dc: Cell = (d.0 as int, d.1 as int);
                assert(in_grid(g1, g2, dc));
                proof {
                    lemma_cell_index_bounds(g1, g2, dc);
                }
                let k = idx(d.0, d.1, n1);
                if seen[k] {
                    proof {
                        let u = choose|u: nat|
                            u <= t && #[trigger] visits(g1, g2, fl, start, dir as int, u, k as int);
                        let cu = phi_path(g2, fl, start, dir as int, u)->0;
                        lemma_cell_index_injective(g1, g2, cu, dc);
                        assert(!fresh_step(g2, fl, start, dir as int, (t + 1) as nat));
                        lemma_no_stop(
                            g1,
                            g2,
                            fl,
                            tot,
                            half,
                            start,
                            dir as int,
                            t as nat,
                            limit as nat,
                        );
                    }
                    return None;
                }
                proof {
                    assert forall|u: nat| u < t + 1 implies #[trigger] phi_path(
                        g2,
                        fl,
                        start,
                        dir as int,
                        u,
                    ) != Some(dc) by {
                        let cu = phi_path(g2, fl, start, dir as int, u)->0;
                        lemma_cell_index_bounds(g1, g2, cu);
                        assert(seen[cell_index(g1, cu)] ==> exists|w: nat|
                            w <= t && #[trigger] visits(
                                g1,
                                g2,
                                fl,
                                start,
                                dir as int,
                                w,
                                cell_index(g1, cu),
                            ));
                        assert(visits(g1, g2, fl, start, dir as int, u, cell_index(g1, cu)));
                    }
                    assert(fresh_step(g2, fl, start, dir as int, (t + 1) as nat));
                }
                if f32_bits_lt(total[k], half) {
                    proof {
                        assert(below_at(g1, g2, fl, tot, half, start, dir as int, (t + 1) as nat));
                    }
                    return Some((c, d, t));
                }
                proof {
                    assert(!below_at(g1, g2, fl, tot, half, start, dir as int, (t + 1) as nat));
                    assert forall|s: nat| 1 <= s <= t + 1 implies #[trigger] fresh_step(
                        g2,
                        fl,
                        start,
                        dir as int,
                        s,
                    ) && !below_at(g1, g2, fl, tot, half, start, dir as int, s) by {
                        if s <= t {
                            assert(walk_passes(g1, g2, fl, tot, half, start, dir as int, t as nat));
                        }
                    }
                }
                seen.set(k, true);
                proof {
                    assert forall|kk: int| 0 <= kk < nn implies (seen[kk] <==> exists|u: nat|
                        u <= t + 1 && #[trigger] visits(g1, g2, fl, start, dir as int, u, kk)) by {
                        if kk == k as int {
                            assert(visits(g1, g2, fl, start, dir as int, (t + 1) as nat, kk));
                        } else {
                            if exists|u: nat|
                                u <= t + 1 && #[trigger] visits(g1, g2, fl, start, dir as int, u, kk) {
                                let u = choose|u: nat|
                                    u <= t + 1 && #[trigger] visits(
                                        g1,
                                        g2,
                                        fl,
                                        start,
                                        dir as int,
                                        u,
                                        kk,
                                    );
                                assert(u <= t);
                            }
                        }
                    }
                    assert forall|u: nat| u <= t + 1 implies #[trigger] phi_path(
                        g2,
                        fl,
                        start,
                        dir as int,
                        u,
                    ) is Some && in_grid(g1, g2, phi_path(g2, fl, start, dir as int, u)->0) by {}
                }
                c = d;
                t = t + 1;
            },
        }
    }
    proof {
        lemma_no_stop(g1, g2, fl, tot, half, start, dir as int, t as nat, limit as nat);
    }
    None
}

} // verus!

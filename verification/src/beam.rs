//! Grid walks over an intensity map: neighbour steps (with the spherical
//! φ-edge wrap) and the flood fill that marks the main beam.
//!
//! The map is row-major, `index = i2 * n1 + i1` (ax2 outer). In the spherical
//! chart `(θ, +90°)` and `(-θ, -90°)` name the same direction, so a step that
//! leaves the φ range continues on the θ-mirrored row (`flip[i1]`) and skips
//! the duplicated edge sample.
use vstd::prelude::*;

verus! {

/// A grid cell `(i1, i2)` seen as a pair of integers.
pub type Cell = (int, int);

pub open spec fn in_grid(n1: int, n2: int, c: Cell) -> bool {
    0 <= c.0 < n1 && 0 <= c.1 < n2
}

/// Row-major position of a cell.
pub open spec fn cell_index(n1: int, c: Cell) -> int {
    c.1 * n1 + c.0
}

/// The spherical φ step from `(i1, i2)` in direction `dir`, as the
/// chart defines it; `flip_i1` is the θ-mirrored column of `i1`.
pub open spec fn phi_step(n2: int, i1: int, i2: int, dir: int, flip_i1: int) -> Option<Cell> {
    if n2 < 2 || dir == 0 {
        None
    } else if 0 <= i2 + dir < n2 {
        Some((i1, i2 + dir))
    } else {
        let edge = if dir > 0 { 0 } else { n2 - 1 };
        if 0 <= edge + dir < n2 {
            Some((flip_i1, edge + dir))
        } else {
            None
        }
    }
}

/// `b` is one step from `a` in the flood fill: a 4-neighbour, or, in the
/// spherical chart, the wrap step off a φ edge.
pub open spec fn beam_adjacent(
    spherical: bool,
    n1: int,
    n2: int,
    flip: Seq<usize>,
    a: Cell,
    b: Cell,
) -> bool {
    ||| (b.1 == a.1 && (b.0 == a.0 - 1 || b.0 == a.0 + 1))
    ||| (b.0 == a.0 && (b.1 == a.1 - 1 || b.1 == a.1 + 1))
    ||| (spherical && a.1 == 0 && phi_step(n2, a.0, a.1, -1, flip[a.0] as int) == Some(b))
    ||| (spherical && a.1 == n2 - 1 && phi_step(n2, a.0, a.1, 1, flip[a.0] as int) == Some(b))
}

/// A walk from `path[0]` in which every later cell is an eligible neighbour
/// of the one before it.
pub open spec fn is_beam_path(
    spherical: bool,
    n1: int,
    n2: int,
    flip: Seq<usize>,
    eligible: Seq<bool>,
    path: Seq<Cell>,
) -> bool {
    &&& path.len() >= 1
    &&& forall|i: int| 0 <= i < path.len() ==> #[trigger] in_grid(n1, n2, path[i])
    &&& forall|i: int|
        #![trigger path[i]]
        1 <= i < path.len() ==> beam_adjacent(spherical, n1, n2, flip, path[i - 1], path[i])
            && eligible[cell_index(n1, path[i])]
}

/// `c` is reached from `start` through eligible cells.
pub open spec fn in_main_beam(
    spherical: bool,
    n1: int,
    n2: int,
    flip: Seq<usize>,
    eligible: Seq<bool>,
    start: Cell,
    c: Cell,
) -> bool {
    exists|path: Seq<Cell>|
        #[trigger] is_beam_path(spherical, n1, n2, flip, eligible, path) && path[0] == start
            && path.last() == c
}

/// The flip table names a column for every column.
pub open spec fn flip_ok(n1: int, flip: Seq<usize>) -> bool {
    &&& flip.len() == n1
    &&& forall|i: int| 0 <= i < n1 ==> #[trigger] flip[i] < n1
}

pub proof fn lemma_cell_index_bounds(n1: int, n2: int, c: Cell)
    requires
        in_grid(n1, n2, c),
    ensures
        0 <= cell_index(n1, c) < n1 * n2,
{
    assert(c.1 * n1 + c.0 < n1 * n2) by (nonlinear_arith)
        requires
            0 <= c.0 < n1,
            0 <= c.1 < n2,
    ;
    assert(c.1 * n1 >= 0) by (nonlinear_arith)
        requires
            0 <= c.0 < n1,
            0 <= c.1,
    ;
}

pub proof fn lemma_cell_index_injective(n1: int, n2: int, a: Cell, b: Cell)
    requires
        in_grid(n1, n2, a),
        in_grid(n1, n2, b),
        cell_index(n1, a) == cell_index(n1, b),
    ensures
        a == b,
{
    assert(a.1 == b.1) by (nonlinear_arith)
        requires
            0 <= a.0 < n1,
            0 <= b.0 < n1,
            a.1 * n1 + a.0 == b.1 * n1 + b.0,
    {
        if a.1 < b.1 {
            assert(a.1 * n1 + n1 <= b.1 * n1);
        } else if a.1 > b.1 {
            assert(b.1 * n1 + n1 <= a.1 * n1);
        }
    }
}

/// Row-major index of `(i1, i2)`.
pub fn idx(i1: usize, i2: usize, n1: usize) -> (k: usize)
    requires
        i1 < n1,
        i2 * n1 + i1 <= usize::MAX,
    ensures
        k == cell_index(n1 as int, (i1 as int, i2 as int)),
{
    i2 * n1 + i1
}

/// Next spherical `(θ, φ)` index walking φ by `dir` (±1); `i1_flip` is the
/// column of `-θ` (the nearest sample to the mirrored angle).
pub fn step_spherical_phi(n2: usize, i1: usize, i2: usize, dir: isize, i1_flip: usize) -> (r:
    Option<(usize, usize)>)
    requires
        i2 < n2,
        -1 <= dir <= 1,
    ensures
        match r {
            Some((j1, j2)) => phi_step(n2 as int, i1 as int, i2 as int, dir as int, i1_flip as int)
                == Some((j1 as int, j2 as int)),
            None => phi_step(n2 as int, i1 as int, i2 as int, dir as int, i1_flip as int)
                is None,
        },
{
    if n2 < 2 || dir == 0 {
        return None;
    }
    if dir > 0 {
        if i2 + 1 < n2 {
            return Some((i1, i2 + 1));
        }
        // Wrapped to edge 0, then one step onwards.
        if 1 < n2 {
            Some((i1_flip, 1))
        } else {
            None
        }
    } else {
        if i2 >= 1 {
            return Some((i1, i2 - 1));
        }
        // Wrapped to edge n2 - 1, then one step back.
        Some((i1_flip, n2 - 2))
    }
}

/// The cell at offset `(d1, d2)` from `c`, or `None` off the grid. Along
/// ax2 the spherical chart steps with the φ wrap (from column `c.0 + d1`,
/// whose mirror is `j1_flip`); the other charts stop at the edge.
pub open spec fn neighbor_cell(
    spherical: bool,
    n1: int,
    n2: int,
    c: Cell,
    d1: int,
    d2: int,
    j1_flip: int,
) -> Option<Cell> {
    let j1 = c.0 + d1;
    if d1 == 0 && d2 == 0 {
        Some(c)
    } else if j1 < 0 || j1 >= n1 {
        None
    } else if d2 == 0 {
        Some((j1, c.1))
    } else if spherical {
        phi_step(n2, j1, c.1, d2, j1_flip)
    } else if 0 <= c.1 + d2 < n2 {
        Some((j1, c.1 + d2))
    } else {
        None
    }
}

/// The cell at offset `(d1, d2)` from `(i1, i2)`: see `neighbor_cell`.
pub fn neighbor_index(
    spherical: bool,
    n1: usize,
    n2: usize,
    i1: usize,
    i2: usize,
    d1: isize,
    d2: isize,
    j1_flip: usize,
) -> (r: Option<(usize, usize)>)
    requires
        i1 < n1,
        i2 < n2,
        -1 <= d1 <= 1,
        -1 <= d2 <= 1,
    ensures
        match r {
            Some((a, b)) => neighbor_cell(
                spherical,
                n1 as int,
                n2 as int,
                (i1 as int, i2 as int),
                d1 as int,
                d2 as int,
                j1_flip as int,
            ) == Some((a as int, b as int)),
            None => neighbor_cell(
                spherical,
                n1 as int,
                n2 as int,
                (i1 as int, i2 as int),
                d1 as int,
                d2 as int,
                j1_flip as int,
            ) is None,
        },
{
    if d1 == 0 && d2 == 0 {
        return Some((i1, i2));
    }
    let j1: usize;
    if d1 < 0 {
        if i1 == 0 {
            return None;
        }
        j1 = i1 - 1;
    } else if d1 > 0 {
        if i1 + 1 >= n1 {
            return None;
        }
        j1 = i1 + 1;
    } else {
        j1 = i1;
    }
    if d2 == 0 {
        return Some((j1, i2));
    }
    if spherical {
        return step_spherical_phi(n2, j1, i2, d2, j1_flip);
    }
    if d2 < 0 {
        if i2 == 0 {
            None
        } else {
            Some((j1, i2 - 1))
        }
    } else {
        if i2 + 1 >= n2 {
            None
        } else {
            Some((j1, i2 + 1))
        }
    }
}

pub open spec fn count_false(s: Seq<bool>) -> nat
    decreases s.len(),
{
    if s.len() == 0 {
        0
    } else {
        count_false(s.drop_last()) + if s.last() {
            0nat
        } else {
            1nat
        }
    }
}

proof fn lemma_count_false_mark(s: Seq<bool>, k: int)
    requires
        0 <= k < s.len(),
        !s[k],
    ensures
        count_false(s.update(k, true)) + 1 == count_false(s),
    decreases s.len(),
{
    if k == s.len() - 1 {
        assert(s.update(k, true).drop_last() =~= s.drop_last());
    } else {
        lemma_count_false_mark(s.drop_last(), k);
        assert(s.update(k, true).drop_last() =~= s.drop_last().update(k, true));
    }
}

/// Every cell of a path is in the beam once the beam holds the start and is
/// closed under eligible steps.
proof fn lemma_closed_holds_paths(
    spherical: bool,
    n1: int,
    n2: int,
    flip: Seq<usize>,
    eligible: Seq<bool>,
    marked: Seq<bool>,
    path: Seq<Cell>,
)
    requires
        is_beam_path(spherical, n1, n2, flip, eligible, path),
        marked[cell_index(n1, path[0])],
        forall|a: Cell, b: Cell|
            #![trigger marked[cell_index(n1, a)], beam_adjacent(spherical, n1, n2, flip, a, b)]
            in_grid(n1, n2, a) && in_grid(n1, n2, b) && marked[cell_index(n1, a)]
                && beam_adjacent(spherical, n1, n2, flip, a, b) && eligible[cell_index(n1, b)]
                ==> marked[cell_index(n1, b)],
    ensures
        marked[cell_index(n1, path.last())],
    decreases path.len(),
{
    if path.len() > 1 {
        let prev = path.drop_last();
        assert(is_beam_path(spherical, n1, n2, flip, eligible, prev)) by {
            assert forall|i: int| 0 <= i < prev.len() implies #[trigger] in_grid(
                n1,
                n2,
                prev[i],
            ) by {
                assert(in_grid(n1, n2, path[i]));
            }
            assert forall|i: int| #![trigger prev[i]] 1 <= i < prev.len() implies beam_adjacent(
                spherical,
                n1,
                n2,
                flip,
                prev[i - 1],
                prev[i],
            ) && eligible[cell_index(n1, prev[i])] by {
                assert(path[i] == prev[i]);
            }
        }
        lemma_closed_holds_paths(spherical, n1, n2, flip, eligible, marked, prev);
        let j = path.len() - 1;
        assert(path[j] == path.last());
        assert(in_grid(n1, n2, path[j - 1]));
        assert(in_grid(n1, n2, path[j]));
        assert(beam_adjacent(spherical, n1, n2, flip, path[j - 1], path[j]));
        assert(prev.last() == path[j - 1]);
    }
}

/// Extends a witness path for `a` by one eligible step to `b`.
proof fn lemma_extend_path(
    spherical: bool,
    n1: int,
    n2: int,
    flip: Seq<usize>,
    eligible: Seq<bool>,
    start: Cell,
    a: Cell,
    b: Cell,
)
    requires
        in_main_beam(spherical, n1, n2, flip, eligible, start, a),
        in_grid(n1, n2, b),
        beam_adjacent(spherical, n1, n2, flip, a, b),
        eligible[cell_index(n1, b)],
    ensures
        in_main_beam(spherical, n1, n2, flip, eligible, start, b),
{
    let path = choose|path: Seq<Cell>|
        #[trigger] is_beam_path(spherical, n1, n2, flip, eligible, path) && path[0] == start
            && path.last() == a;
    let p2 = path.push(b);
    assert(p2[0] == start);
    assert(p2.last() == b);
    assert forall|i: int| 0 <= i < p2.len() implies #[trigger] in_grid(n1, n2, p2[i]) by {
        if i < path.len() {
            assert(p2[i] == path[i]);
            assert(in_grid(n1, n2, path[i]));
        }
    }
    assert forall|i: int| #![trigger p2[i]] 1 <= i < p2.len() implies beam_adjacent(
        spherical,
        n1,
        n2,
        flip,
        p2[i - 1],
        p2[i],
    ) && eligible[cell_index(n1, p2[i])] by {
        if i < path.len() {
            assert(p2[i] == path[i]);
            assert(p2[i - 1] == path[i - 1]);
        } else {
            assert(p2[i - 1] == path.last());
        }
    }
    assert(is_beam_path(spherical, n1, n2, flip, eligible, p2));
}

/// The candidate steps out of `(i1, i2)`: the four axis neighbours that lie
/// on the grid and, in the spherical chart, the wrap step off a φ edge.
fn beam_steps(spherical: bool, n1: usize, n2: usize, i1: usize, i2: usize, flip: &[usize]) -> (r:
    Vec<(usize, usize)>)
    requires
        i1 < n1,
        i2 < n2,
        spherical ==> flip_ok(n1 as int, flip@),
    ensures
        forall|j: int|
            0 <= j < r.len() ==> in_grid(n1 as int, n2 as int, (r[j].0 as int, r[j].1 as int))
                && beam_adjacent(
                spherical,
                n1 as int,
                n2 as int,
                flip@,
                (i1 as int, i2 as int),
                (#[trigger] r[j].0 as int, r[j].1 as int),
            ),
        forall|b: Cell|
            in_grid(n1 as int, n2 as int, b) && #[trigger] beam_adjacent(
                spherical,
                n1 as int,
                n2 as int,
                flip@,
                (i1 as int, i2 as int),
                b,
            ) ==> exists|j: int| 0 <= j < r.len() && r[j].0 == b.0 && r[j].1 == b.1,
{
    let mut r: Vec<(usize, usize)> = Vec::new();
    if i1 > 0 {
        r.push((i1 - 1, i2));
    }
    if i1 + 1 < n1 {
        r.push((i1 + 1, i2));
    }
    if i2 > 0 {
        r.push((i1, i2 - 1));
    }
    if i2 + 1 < n2 {
        r.push((i1, i2 + 1));
    }
    let ghost base = r@;
    if spherical {
        if i2 == 0 {
            if let Some(p) = step_spherical_phi(n2, i1, i2, -1, flip[i1]) {
                r.push(p);
            }
        }
        if i2 + 1 == n2 {
            if let Some(p) = step_spherical_phi(n2, i1, i2, 1, flip[i1]) {
                r.push(p);
            }
        }
    }
    proof {
        let a: Cell = (i1 as int, i2 as int);
        assert forall|b: Cell|
            in_grid(n1 as int, n2 as int, b) && #[trigger] beam_adjacent(
                spherical,
                n1 as int,
                n2 as int,
                flip@,
                a,
                b,
            ) implies exists|j: int| 0 <= j < r.len() && r[j].0 == b.0 && r[j].1 == b.1 by {
            if b.1 == a.1 && b.0 == a.0 - 1 {
                assert(r[0].0 == b.0 && r[0].1 == b.1);
            } else if b.1 == a.1 && b.0 == a.0 + 1 {
                let j: int = if i1 > 0 { 1 } else { 0 };
                assert(r[j].0 == b.0 && r[j].1 == b.1);
            } else if b.0 == a.0 && b.1 == a.1 - 1 {
                let j: int = (if i1 > 0 { 1int } else { 0int }) + (if i1 + 1 < n1 { 1int } else { 0int });
                assert(r[j].0 == b.0 && r[j].1 == b.1);
            } else if b.0 == a.0 && b.1 == a.1 + 1 {
                let j: int = (if i1 > 0 { 1int } else { 0int }) + (if i1 + 1 < n1 { 1int } else { 0int })
                    + (if i2 > 0 { 1int } else { 0int });
                assert(r[j].0 == b.0 && r[j].1 == b.1);
            } else if spherical && a.1 == 0 && phi_step(n2 as int, a.0, a.1, -1, flip@[a.0] as int)
                == Some(b) {
                let j = base.len() as int;
                assert(r[j].0 == b.0 && r[j].1 == b.1);
            } else {
                let j = r.len() - 1;
                assert(r[j].0 == b.0 && r[j].1 == b.1);
            }
        }
    }
    r
}

/// Marks the main beam: every cell reached from the peak through eligible
/// cells (the caller's `eligible[k]` is "visible and at least half the
/// peak"). The peak itself is always marked.
#[verifier::rlimit(60)]
pub fn flood_main_beam(
    spherical: bool,
    n1: usize,
    n2: usize,
    i1_peak: usize,
    i2_peak: usize,
    eligible: &[bool],
    flip: &[usize],
) -> (in_beam: Vec<bool>)
    requires
        i1_peak < n1,
        i2_peak < n2,
        n1 * n2 <= usize::MAX,
        eligible.len() == n1 * n2,
        spherical ==> flip_ok(n1 as int, flip@),
    ensures
        in_beam.len() == n1 * n2,
        forall|i1: int, i2: int|
            0 <= i1 < n1 && 0 <= i2 < n2 ==> (#[trigger] in_beam[cell_index(n1 as int, (i1, i2))]
                <==> in_main_beam(
                spherical,
                n1 as int,
                n2 as int,
                flip@,
                eligible@,
                (i1_peak as int, i2_peak as int),
                (i1, i2),
            )),
{
    let ghost g1 = n1 as int;
    let ghost g2 = n2 as int;
    let ghost start: Cell = (i1_peak as int, i2_peak as int);
    let n = n1 * n2;
    let mut in_beam: Vec<bool> = Vec::new();
    while in_beam.len() < n
        invariant
            in_beam.len() <= n,
            forall|k: int| 0 <= k < in_beam.len() ==> !#[trigger] in_beam[k],
        decreases n - in_beam.len(),
    {
        in_beam.push(false);
    }
    proof {
        lemma_cell_index_bounds(g1, g2, start);
        let p = seq![start];
        assert(is_beam_path(spherical, g1, g2, flip@, eligible@, p));
        assert(in_main_beam(spherical, g1, g2, flip@, eligible@, start, start));
    }
    let k0 = idx(i1_peak, i2_peak, n1);
    in_beam.set(k0, true);
    let mut stack: Vec<(usize, usize)> = Vec::new();
    stack.push((i1_peak, i2_peak));
    proof {
        assert forall|c: Cell|
            in_grid(g1, g2, c) && #[trigger] in_beam[cell_index(g1, c)] implies in_main_beam(
            spherical,
            g1,
            g2,
            flip@,
            eligible@,
            start,
            c,
        ) by {
            lemma_cell_index_bounds(g1, g2, c);
            if cell_index(g1, c) != k0 as int {
                assert(!in_beam[cell_index(g1, c)]);
            }
            lemma_cell_index_injective(g1, g2, c, start);
        }
        assert forall|a: Cell, b: Cell|
            #![trigger in_beam[cell_index(g1, a)], beam_adjacent(spherical, g1, g2, flip@, a, b)]
            in_grid(g1, g2, a) && in_grid(g1, g2, b) && in_beam[cell_index(g1, a)]
                && beam_adjacent(spherical, g1, g2, flip@, a, b) && eligible[cell_index(g1, b)]
                && !(exists|j: int| 0 <= j < stack.len() && stack[j].0 == a.0 && stack[j].1 == a.1)
                implies in_beam[cell_index(g1, b)] by {
            lemma_cell_index_bounds(g1, g2, a);
            if cell_index(g1, a) != k0 as int {
                assert(!in_beam[cell_index(g1, a)]);
            }
            lemma_cell_index_injective(g1, g2, a, start);
            assert(stack[0].0 == a.0 && stack[0].1 == a.1);
        }
    }
    loop
        invariant
            n == n1 * n2,
            eligible.len() == n,
            spherical ==> flip_ok(g1, flip@),
            g1 == n1,
            g2 == n2,
            start == (i1_peak as int, i2_peak as int),
            i1_peak < n1,
            i2_peak < n2,
            in_beam.len() == n,
            in_beam[cell_index(g1, start)],
            forall|j: int|
                0 <= j < stack.len() ==> in_grid(g1, g2, (stack[j].0 as int, stack[j].1 as int))
                    && in_beam[cell_index(g1, (#[trigger] stack[j].0 as int, stack[j].1 as int))],
            forall|c: Cell|
                in_grid(g1, g2, c) && #[trigger] in_beam[cell_index(g1, c)] ==> in_main_beam(
                    spherical,
                    g1,
                    g2,
                    flip@,
                    eligible@,
                    start,
                    c,
                ),
            forall|a: Cell, b: Cell|
                #![trigger in_beam[cell_index(g1, a)], beam_adjacent(spherical, g1, g2, flip@, a, b)]
                in_grid(g1, g2, a) && in_grid(g1, g2, b) && in_beam[cell_index(g1, a)]
                    && beam_adjacent(spherical, g1, g2, flip@, a, b) && eligible[cell_index(g1, b)]
                    && !(exists|j: int|
                    0 <= j < stack.len() && stack[j].0 == a.0 && stack[j].1 == a.1)
                    ==> in_beam[cell_index(g1, b)],
        decreases count_false(in_beam@), stack.len(),
    {
        let ghost stack_before = stack@;
        let ghost count_before = count_false(in_beam@);
        let top = stack.pop();
        match top {
            None => {
                proof {
                    assert forall|i1: int, i2: int|
                        0 <= i1 < n1 && 0 <= i2 < n2 implies (#[trigger] in_beam[cell_index(
                            g1,
                            (i1, i2),
                        )] <==> in_main_beam(spherical, g1, g2, flip@, eligible@, start, (i1, i2))) by {
                        if in_main_beam(spherical, g1, g2, flip@, eligible@, start, (i1, i2)) {
                            let path = choose|path: Seq<Cell>|
                                #[trigger] is_beam_path(spherical, g1, g2, flip@, eligible@, path)
                                    && path[0] == start && path.last() == (i1, i2);
                            lemma_closed_holds_paths(
                                spherical,
                                g1,
                                g2,
                                flip@,
                                eligible@,
                                in_beam@,
                                path,
                            );
                        }
                    }
                }
                return in_beam;
            },
            Some((i1, i2)) => {
                let ghost cur: Cell = (i1 as int, i2 as int);
                let ghost before = in_beam@;
                let ghost stack_after_pop = stack@;
                proof {
                    assert(stack_before.len() == stack_after_pop.len() + 1);
                    assert(stack_before.last() == (i1, i2));
                    assert forall|j: int| 0 <= j < stack_after_pop.len() implies stack_after_pop[j] == #[trigger] stack_before[j] by {}
                    assert(in_beam[cell_index(g1, cur)]) by {
                        assert(stack_before[stack_before.len() - 1] == (i1, i2));
                    }
                }
                let steps = beam_steps(spherical, n1, n2, i1, i2, flip);
                let mut t: usize = 0;
                while t < steps.len()
                    invariant
                        n == n1 * n2,
                        eligible.len() == n,
                        spherical ==> flip_ok(g1, flip@),
                        g1 == n1,
                        g2 == n2,
                        start == (i1_peak as int, i2_peak as int),
                        cur == (i1 as int, i2 as int),
                        in_grid(g1, g2, cur),
                        in_beam[cell_index(g1, cur)],
                        0 <= t <= steps.len(),
                        in_beam.len() == n,
                        in_beam[cell_index(g1, start)],
                        stack.len() >= stack_after_pop.len(),
                        forall|j: int|
                            0 <= j < stack_after_pop.len() ==> #[trigger] stack[j]
                                == stack_after_pop[j],
                        count_false(in_beam@) <= count_false(before),
                        stack.len() > stack_after_pop.len() ==> count_false(in_beam@) < count_false(
                            before,
                        ),
                        stack.len() == stack_after_pop.len() ==> in_beam@ == before,
                        forall|c: Cell|
                            in_grid(g1, g2, c) && #[trigger] in_beam[cell_index(g1, c)]
                                && !before[cell_index(g1, c)] ==> exists|j: int|
                                stack_after_pop.len() <= j < stack.len() && stack[j].0 == c.0
                                    && stack[j].1 == c.1,
                        forall|j: int|
                            0 <= j < steps.len() ==> in_grid(
                                g1,
                                g2,
                                (steps[j].0 as int, steps[j].1 as int),
                            ) && beam_adjacent(
                                spherical,
                                g1,
                                g2,
                                flip@,
                                cur,
                                (#[trigger] steps[j].0 as int, steps[j].1 as int),
                            ),
                        forall|b: Cell|
                            in_grid(g1, g2, b) && #[trigger] beam_adjacent(
                                spherical,
                                g1,
                                g2,
                                flip@,
                                cur,
                                b,
                            ) ==> exists|j: int|
                                0 <= j < steps.len() && steps[j].0 == b.0 && steps[j].1 == b.1,
                        forall|j: int|
                            0 <= j < t && eligible[cell_index(
                                g1,
                                (#[trigger] steps[j].0 as int, steps[j].1 as int),
                            )] ==> in_beam[cell_index(g1, (steps[j].0 as int, steps[j].1 as int))],
                        forall|j: int|
                            0 <= j < stack.len() ==> in_grid(
                                g1,
                                g2,
                                (stack[j].0 as int, stack[j].1 as int),
                            ) && in_beam[cell_index(
                                g1,
                                (#[trigger] stack[j].0 as int, stack[j].1 as int),
                            )],
                        forall|c: Cell|
                            in_grid(g1, g2, c) && #[trigger] in_beam[cell_index(g1, c)]
                                ==> in_main_beam(spherical, g1, g2, flip@, eligible@, start, c),
                        forall|c: Cell|
                            in_grid(g1, g2, c) && before[cell_index(g1, c)] ==> #[trigger] in_beam[cell_index(g1, c)],
                        forall|a: Cell, b: Cell|
                            #![trigger in_beam[cell_index(g1, a)], beam_adjacent(spherical, g1, g2, flip@, a, b)]
                            in_grid(g1, g2, a) && in_grid(g1, g2, b) && before[cell_index(g1, a)]
                                && beam_adjacent(spherical, g1, g2, flip@, a, b)
                                && eligible[cell_index(g1, b)] && !(exists|j: int|
                                0 <= j < stack_after_pop.len() && stack_after_pop[j].0 == a.0
                                    && stack_after_pop[j].1 == a.1) && a != cur ==> in_beam[cell_index(
                                g1,
                                b,
                            )],
                    decreases steps.len() - t,
                {
                    let (j1, j2) = steps[t];
                    proof {
                        lemma_cell_index_bounds(g1, g2, (j1 as int, j2 as int));
                        lemma_cell_index_bounds(g1, g2, cur);
                        lemma_cell_index_bounds(g1, g2, start);
                    }
                    let k = idx(j1, j2, n1);
                    let ghost pre = in_beam@;
                    let ghost pre_stack = stack@;
                    if !in_beam[k] && eligible[k] {
                        proof {
                            lemma_extend_path(
                                spherical,
                                g1,
                                g2,
                                flip@,
                                eligible@,
                                start,
                                cur,
                                (j1 as int, j2 as int),
                            );
                            lemma_count_false_mark(in_beam@, k as int);
                        }
                        let ghost prev = in_beam@;
                        let ghost prev_stack = stack@;
                        in_beam.set(k, true);
                        stack.push((j1, j2));
                        proof {
                            assert forall|c: Cell|
                                in_grid(g1, g2, c) && #[trigger] in_beam[cell_index(g1, c)]
                                    && !before[cell_index(g1, c)] implies exists|j: int|
                                    stack_after_pop.len() <= j < stack.len() && stack[j].0 == c.0
                                        && stack[j].1 == c.1 by {
                                lemma_cell_index_bounds(g1, g2, c);
                                if cell_index(g1, c) == k as int {
                                    lemma_cell_index_injective(g1, g2, c, (j1 as int, j2 as int));
                                    let j = stack.len() - 1;
                                    assert(stack[j].0 == c.0 && stack[j].1 == c.1);
                                } else {
                                    assert(prev[cell_index(g1, c)]);
                                    let j = choose|j: int|
                                        stack_after_pop.len() <= j < prev_stack.len() && prev_stack[j].0 == c.0
                                            && prev_stack[j].1 == c.1;
                                    assert(stack[j] == prev_stack[j]);
                                }
                            }
                            assert forall|c: Cell|
                                in_grid(g1, g2, c) && #[trigger] in_beam[cell_index(
                                    g1,
                                    c,
                                )] implies in_main_beam(
                                spherical,
                                g1,
                                g2,
                                flip@,
                                eligible@,
                                start,
                                c,
                            ) by {
                                lemma_cell_index_bounds(g1, g2, c);
                                if cell_index(g1, c) == k as int {
                                    lemma_cell_index_injective(
                                        g1,
                                        g2,
                                        c,
                                        (j1 as int, j2 as int),
                                    );
                                } else {
                                    assert(prev[cell_index(g1, c)]);
                                }
                            }
                            assert forall|c: Cell|
                                in_grid(g1, g2, c) && before[cell_index(
                                    g1,
                                    c,
                                )] implies #[trigger] in_beam[cell_index(g1, c)] by {
                                lemma_cell_index_bounds(g1, g2, c);
                                assert(prev[cell_index(g1, c)]);
                            }
                        }
                    }
                    proof {
                        assert(forall|i: int| 0 <= i < n && pre[i] ==> #[trigger] in_beam@[i]);
                        assert(in_beam[k as int] || !eligible[k as int]);
                        assert forall|a: Cell, b: Cell|
                            #![trigger in_beam[cell_index(g1, a)], beam_adjacent(spherical, g1, g2, flip@, a, b)]
                            in_grid(g1, g2, a) && in_grid(g1, g2, b) && before[cell_index(g1, a)]
                                && beam_adjacent(spherical, g1, g2, flip@, a, b)
                                && eligible[cell_index(g1, b)] && !(exists|j: int|
                                0 <= j < stack_after_pop.len() && stack_after_pop[j].0 == a.0
                                    && stack_after_pop[j].1 == a.1) && a != cur implies in_beam[cell_index(
                                g1,
                                b,
                            )] by {
                            lemma_cell_index_bounds(g1, g2, a);
                            lemma_cell_index_bounds(g1, g2, b);
                            assert(pre[cell_index(g1, a)]);
                            assert(pre[cell_index(g1, b)]);
                        }
                        assert forall|j: int|
                            0 <= j < t + 1 && eligible[cell_index(
                                g1,
                                (#[trigger] steps[j].0 as int, steps[j].1 as int),
                            )] implies in_beam[cell_index(g1, (steps[j].0 as int, steps[j].1 as int))] by {
                            lemma_cell_index_bounds(g1, g2, (steps[j].0 as int, steps[j].1 as int));
                            if j < t {
                                assert(pre[cell_index(g1, (steps[j].0 as int, steps[j].1 as int))]);
                            }
                        }
                        assert forall|j: int|
                            0 <= j < stack.len() implies in_grid(
                                g1,
                                g2,
                                (stack[j].0 as int, stack[j].1 as int),
                            ) && in_beam[cell_index(
                                g1,
                                (#[trigger] stack[j].0 as int, stack[j].1 as int),
                            )] by {
                            if j < pre_stack.len() {
                                assert(stack[j] == pre_stack[j]);
                                lemma_cell_index_bounds(g1, g2, (stack[j].0 as int, stack[j].1 as int));
                                assert(pre[cell_index(g1, (pre_stack[j].0 as int, pre_stack[j].1 as int))]);
                            }
                        }
                    }
                    t = t + 1;
                }
                proof {
                    assert forall|b: Cell|
                        in_grid(g1, g2, b) && beam_adjacent(spherical, g1, g2, flip@, cur, b)
                            && eligible[cell_index(g1, b)] implies #[trigger] in_beam[cell_index(
                        g1,
                        b,
                    )] by {
                        let j = choose|j: int|
                            0 <= j < steps.len() && steps[j].0 == b.0 && steps[j].1 == b.1;
                        assert(eligible[cell_index(g1, (steps[j].0 as int, steps[j].1 as int))]);
                    }
                    assert forall|a: Cell, b: Cell|
                        #![trigger in_beam[cell_index(g1, a)], beam_adjacent(spherical, g1, g2, flip@, a, b)]
                        in_grid(g1, g2, a) && in_grid(g1, g2, b) && in_beam[cell_index(g1, a)]
                            && beam_adjacent(spherical, g1, g2, flip@, a, b)
                            && eligible[cell_index(g1, b)] && !(exists|j: int|
                            0 <= j < stack.len() && stack[j].0 == a.0 && stack[j].1 == a.1)
                            implies in_beam[cell_index(g1, b)] by {
                        if a == cur {
                        } else if before[cell_index(g1, a)] {
                            if exists|j: int|
                                0 <= j < stack_after_pop.len() && stack_after_pop[j].0 == a.0
                                    && stack_after_pop[j].1 == a.1 {
                                let j = choose|j: int|
                                    0 <= j < stack_after_pop.len() && stack_after_pop[j].0 == a.0
                                        && stack_after_pop[j].1 == a.1;
                                assert(stack[j] == stack_after_pop[j]);
                            }
                        } else {
                            // Newly marked this round: it was pushed, so it is on the stack.
                            let j = choose|j: int|
                                stack_after_pop.len() <= j < stack.len() && stack[j].0 == a.0
                                    && stack[j].1 == a.1;
                            assert(false);
                        }
                    }
                }
            },
        }
    }
}

/// Law: the main beam is closed under flood steps. An eligible cell next to
/// a cell of the beam (left, right, up or down on the grid) is in the beam;
/// in the spherical chart so is an eligible cell one φ step across either
/// edge: from `(i1, n2 - 1)` onwards to `(flip[i1], 1)`, and from `(i1, 0)`
/// back to `(flip[i1], n2 - 2)`.
pub proof fn lemma_main_beam_closed(
    spherical: bool,
    n1: int,
    n2: int,
    flip: Seq<usize>,
    eligible: Seq<bool>,
    start: Cell,
    a: Cell,
)
    requires
        in_grid(n1, n2, a),
        in_main_beam(spherical, n1, n2, flip, eligible, start, a),
        spherical ==> flip_ok(n1, flip),
    ensures
        forall|b: Cell|
            in_grid(n1, n2, b) && eligible[cell_index(n1, b)] && ((b.1 == a.1 && (b.0 == a.0 - 1
                || b.0 == a.0 + 1)) || (b.0 == a.0 && (b.1 == a.1 - 1 || b.1 == a.1 + 1)))
                ==> #[trigger] in_main_beam(spherical, n1, n2, flip, eligible, start, b),
        spherical && n2 >= 2 && a.1 == n2 - 1 && eligible[cell_index(n1, (flip[a.0] as int, 1))]
            ==> in_main_beam(spherical, n1, n2, flip, eligible, start, (flip[a.0] as int, 1)),
        spherical && n2 >= 2 && a.1 == 0 && eligible[cell_index(n1, (flip[a.0] as int, n2 - 2))]
            ==> in_main_beam(spherical, n1, n2, flip, eligible, start, (flip[a.0] as int, n2 - 2)),
{
    assert forall|b: Cell|
        in_grid(n1, n2, b) && eligible[cell_index(n1, b)] && ((b.1 == a.1 && (b.0 == a.0 - 1
            || b.0 == a.0 + 1)) || (b.0 == a.0 && (b.1 == a.1 - 1 || b.1 == a.1 + 1)))
            implies #[trigger] in_main_beam(spherical, n1, n2, flip, eligible, start, b) by {
        lemma_extend_path(spherical, n1, n2, flip, eligible, start, a, b);
    }
    if spherical && n2 >= 2 && a.1 == n2 - 1 && eligible[cell_index(n1, (flip[a.0] as int, 1))] {
        let b: Cell = (flip[a.0] as int, 1);
        assert(phi_step(n2, a.0, a.1, 1, flip[a.0] as int) == Some(b));
        lemma_extend_path(spherical, n1, n2, flip, eligible, start, a, b);
    }
    if spherical && n2 >= 2 && a.1 == 0 && eligible[cell_index(n1, (flip[a.0] as int, n2 - 2))] {
        let b: Cell = (flip[a.0] as int, n2 - 2);
        assert(phi_step(n2, a.0, a.1, -1, flip[a.0] as int) == Some(b));
        lemma_extend_path(spherical, n1, n2, flip, eligible, start, a, b);
    }
}

/// Law: the spherical φ step. Inside the φ range it moves one row in
/// direction `dir` on the same column; off the last row (`n2 - 1`) onwards
/// it lands on row 1 of the mirrored column, and off row 0 backwards on row
/// `n2 - 2` of the mirrored column (`(θ, +90°)` and `(-θ, -90°)` are one
/// direction, so the edge row itself is skipped). With fewer than two rows
/// there is no step.
pub proof fn lemma_phi_step_chart(n2: int, i1: int, i2: int, dir: int, f: int)
    requires
        0 <= i2 < n2,
        dir == 1 || dir == -1,
    ensures
        n2 < 2 ==> phi_step(n2, i1, i2, dir, f) is None,
        n2 >= 2 && 0 <= i2 + dir < n2 ==> phi_step(n2, i1, i2, dir, f) == Some((i1, i2 + dir)),
        n2 >= 2 && i2 == n2 - 1 && dir == 1 ==> phi_step(n2, i1, i2, dir, f) == Some((f, 1int)),
        n2 >= 2 && i2 == 0 && dir == -1 ==> phi_step(n2, i1, i2, dir, f) == Some((f, n2 - 2)),
{
}

/// Law: every cell of the main beam other than the peak it grows from is
/// eligible (visible and at least half the peak), and lies on the grid.
pub proof fn lemma_main_beam_eligible(
    spherical: bool,
    n1: int,
    n2: int,
    flip: Seq<usize>,
    eligible: Seq<bool>,
    start: Cell,
    c: Cell,
)
    requires
        in_main_beam(spherical, n1, n2, flip, eligible, start, c),
    ensures
        in_grid(n1, n2, c),
        c != start ==> eligible[cell_index(n1, c)],
{
    let path = choose|path: Seq<Cell>|
        #[trigger] is_beam_path(spherical, n1, n2, flip, eligible, path) && path[0] == start
            && path.last() == c;
    let j = path.len() - 1;
    assert(path[j] == c);
    assert(in_grid(n1, n2, path[j]));
    if j >= 1 {
        assert(eligible[cell_index(n1, path[j])]);
    }
}

} // verus!

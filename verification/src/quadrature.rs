//! Index layout of the Gauss-μ × trapezoid-φ hemisphere quadrature and of
//! the sample panels the radiated-power Gram is assembled from.
//!
//! The flattened grid puts μ outer and φ inner: sample `s = i · n_phi + j`.
use vstd::prelude::*;
use crate::beam::{cell_index, lemma_cell_index_bounds, lemma_cell_index_injective};

verus! {

/// Samples per block of the blocked Gram product.
pub const SAMPLE_BLOCK: usize = 64;

/// Orders and sample count that `set_quadrature(n_mu, n_phi)` uses: each
/// order is raised to at least 1 and the grid has `n_mu · n_phi` samples.
pub fn quadrature_shape(n_mu: u32, n_phi: u32) -> (r: (usize, usize, usize))
    requires
        (if n_mu >= 1 {
            n_mu as int
        } else {
            1
        }) * (if n_phi >= 1 {
            n_phi as int
        } else {
            1
        }) <= usize::MAX,
    ensures
        r.0 == if n_mu >= 1 {
            n_mu as int
        } else {
            1
        },
        r.1 == if n_phi >= 1 {
            n_phi as int
        } else {
            1
        },
        r.2 == r.0 * r.1,
{
    let a: usize = if n_mu >= 1 {
        n_mu as usize
    } else {
        1
    };
    let b: usize = if n_phi >= 1 {
        n_phi as usize
    } else {
        1
    };
    (a, b, a * b)
}

/// Flattened position of μ-node `i`, φ-node `j` (μ outer, φ inner).
pub open spec fn flat_index(i: int, j: int, n_phi: int) -> int {
    i * n_phi + j
}

/// The node pair of flattened sample `s`: `(s / n_phi, s % n_phi)`.
pub open spec fn node_of(s: int, n_phi: int) -> (int, int) {
    (s / n_phi, s % n_phi)
}

/// Flattened position of μ-node `i`, φ-node `j`.
pub fn sample_index(i: usize, j: usize, n_mu: usize, n_phi: usize) -> (s: usize)
    requires
        i < n_mu,
        j < n_phi,
        n_mu * n_phi <= usize::MAX,
    ensures
        s == flat_index(i as int, j as int, n_phi as int),
        s < n_mu * n_phi,
{
    proof {
        lemma_cell_index_bounds(n_phi as int, n_mu as int, (j as int, i as int));
        assert(n_phi * n_mu == n_mu * n_phi) by (nonlinear_arith);
    }
    i * n_phi + j
}

/// Law: the flattened index visits every sample of the product grid exactly
/// once: distinct node pairs give distinct samples, and every sample below
/// `n_mu · n_phi` is the index of the node pair `node_of(s)`.
pub proof fn lemma_sample_index_bijective(n_mu: int, n_phi: int)
    requires
        n_mu >= 1,
        n_phi >= 1,
    ensures
        forall|i1: int, j1: int, i2: int, j2: int|
            0 <= i1 < n_mu && 0 <= j1 < n_phi && 0 <= i2 < n_mu && 0 <= j2 < n_phi
                && #[trigger] flat_index(i1, j1, n_phi) == #[trigger] flat_index(i2, j2, n_phi)
                ==> i1 == i2 && j1 == j2,
        forall|s: int|
            0 <= s < n_mu * n_phi ==> 0 <= (#[trigger] node_of(s, n_phi)).0 < n_mu && 0
                <= node_of(s, n_phi).1 < n_phi && flat_index(
                node_of(s, n_phi).0,
                node_of(s, n_phi).1,
                n_phi,
            ) == s,
{
    assert forall|i1: int, j1: int, i2: int, j2: int|
        0 <= i1 < n_mu && 0 <= j1 < n_phi && 0 <= i2 < n_mu && 0 <= j2 < n_phi
            && #[trigger] flat_index(i1, j1, n_phi) == #[trigger] flat_index(
            i2,
            j2,
            n_phi,
        ) implies i1 == i2 && j1 == j2 by {
        lemma_cell_index_injective(n_phi, n_mu, (j1, i1), (j2, i2));
    }
    assert forall|s: int| 0 <= s < n_mu * n_phi implies 0 <= (#[trigger] node_of(
        s,
        n_phi,
    )).0 < n_mu && 0 <= node_of(s, n_phi).1 < n_phi && flat_index(
        node_of(s, n_phi).0,
        node_of(s, n_phi).1,
        n_phi,
    ) == s by {
        let i = s / n_phi;
        let j = s % n_phi;
        vstd::arithmetic::div_mod::lemma_fundamental_div_mod(s, n_phi);
        vstd::arithmetic::div_mod::lemma_mod_bound(s, n_phi);
        vstd::arithmetic::div_mod::lemma_div_pos_is_pos(s, n_phi);
        assert(i < n_mu) by (nonlinear_arith)
            requires
                s == n_phi * i + j,
                0 <= j,
                s < n_mu * n_phi,
                n_phi >= 1,
        {
            if i >= n_mu {
                assert(n_phi * i >= n_phi * n_mu);
            }
        }
        assert(n_phi * i == i * n_phi) by (nonlinear_arith);
    }
}

/// The sample range `start .. start + count` of a panel.
pub open spec fn spec_window(m_full: int, sample0: int, sample_count: int) -> (int, int) {
    let s0 = if sample0 <= m_full {
        sample0
    } else {
        m_full
    };
    let rest = m_full - s0;
    let sc = if sample_count == 0 {
        rest
    } else if sample_count <= rest {
        sample_count
    } else {
        rest
    };
    (s0, sc)
}

/// Panel of the quadrature grid for `fill_isolated_range`: starts at
/// `sample0` (clipped to the grid) and holds `sample_count` samples, where
/// 0 means "the rest of the grid"; never runs past the last sample.
pub fn sample_window(m_full: usize, sample0: u32, sample_count: u32) -> (r: (usize, usize))
    ensures
        (r.0 as int, r.1 as int) == spec_window(m_full as int, sample0 as int, sample_count as int),
        r.0 + r.1 <= m_full,
{
    let s0 = if (sample0 as usize) <= m_full {
        sample0 as usize
    } else {
        m_full
    };
    let rest = m_full - s0;
    let sc = if sample_count == 0 {
        rest
    } else if (sample_count as usize) <= rest {
        sample_count as usize
    } else {
        rest
    };
    (s0, sc)
}

/// Total length of the panels that start at `starts[0], starts[1], …`,
/// each running to the next start and the last one to the end of the grid.
pub open spec fn panels_total(m_full: int, starts: Seq<int>) -> int
    decreases starts.len(),
{
    if starts.len() == 0 {
        0
    } else if starts.len() == 1 {
        spec_window(m_full, starts[0], 0).1
    } else {
        spec_window(m_full, starts[0], starts[1] - starts[0]).1 + panels_total(
            m_full,
            starts.drop_first(),
        )
    }
}

/// Law: panels cut at increasing starts, the last one left open-ended
/// (count 0), cover the grid from the first start to its end, each panel
/// beginning where the previous one stopped; from start 0 they cover every
/// sample exactly once.
pub proof fn lemma_panels_cover(m_full: int, starts: Seq<int>)
    requires
        starts.len() >= 1,
        0 <= starts[0],
        starts.last() <= m_full,
        forall|i: int| 0 <= i < starts.len() - 1 ==> #[trigger] starts[i] < starts[i + 1],
    ensures
        panels_total(m_full, starts) == m_full - starts[0],
        forall|i: int|
            0 <= i < starts.len() - 1 ==> #[trigger] spec_window(
                m_full,
                starts[i],
                starts[i + 1] - starts[i],
            ) == (starts[i], starts[i + 1] - starts[i]),
    decreases starts.len(),
{
    if starts.len() > 1 {
        let rest = starts.drop_first();
        assert forall|i: int| 0 <= i < rest.len() - 1 implies #[trigger] rest[i] < rest[i + 1] by {
            assert(starts[i + 1] < starts[i + 2]);
        }
        assert(rest.last() == starts.last());
        assert(rest[0] == starts[1]);
        lemma_panels_cover(m_full, rest);
        assert(starts[1] <= m_full) by {
            if starts.len() > 2 {
                lemma_increasing_le_last(starts, 1);
            }
        }
        assert forall|i: int|
            0 <= i < starts.len() - 1 implies #[trigger] spec_window(
            m_full,
            starts[i],
            starts[i + 1] - starts[i],
        ) == (starts[i], starts[i + 1] - starts[i]) by {
            if i > 0 {
                assert(rest[i - 1] == starts[i] && rest[i] == starts[i + 1]);
            }
            lemma_increasing_le_last(starts, i + 1);
            lemma_increasing_ge_first(starts, i);
        }
    }
}

proof fn lemma_increasing_le_last(s: Seq<int>, i: int)
    requires
        0 <= i < s.len(),
        forall|k: int| 0 <= k < s.len() - 1 ==> #[trigger] s[k] < s[k + 1],
    ensures
        s[i] <= s.last(),
    decreases s.len() - i,
{
    if i < s.len() - 1 {
        lemma_increasing_le_last(s, i + 1);
    }
}

proof fn lemma_increasing_ge_first(s: Seq<int>, i: int)
    requires
        0 <= i < s.len(),
        forall|k: int| 0 <= k < s.len() - 1 ==> #[trigger] s[k] < s[k + 1],
    ensures
        s[0] <= s[i],
    decreases i,
{
    if i > 0 {
        lemma_increasing_ge_first(s, i - 1);
    }
}

/// The blocks `[s0, s1)` of at most `SAMPLE_BLOCK` samples, in order, that
/// the Gram product walks over `0 .. m`.
pub fn sample_blocks(m: usize) -> (r: Vec<(usize, usize)>)
    ensures
        m == 0 ==> r.len() == 0,
        m > 0 ==> r.len() > 0 && r[0].0 == 0 && r[r.len() - 1].1 == m,
        forall|i: int|
            0 <= i < r.len() ==> #[trigger] r[i].0 == SAMPLE_BLOCK * i && r[i].0 < r[i].1 && r[i].1
                <= m && r[i].1 - r[i].0 <= SAMPLE_BLOCK,
        forall|i: int| 0 <= i < r.len() - 1 ==> #[trigger] r[i].1 == r[i + 1].0,
{
    let mut r: Vec<(usize, usize)> = Vec::new();
    let mut s0: usize = 0;
    while s0 < m
        invariant
            s0 <= m,
            s0 == m || s0 == SAMPLE_BLOCK * r.len(),
            m > 0 ==> (r.len() > 0 || s0 == 0),
            m == 0 ==> r.len() == 0,
            r.len() > 0 ==> r[r.len() - 1].1 == s0,
            forall|i: int|
                0 <= i < r.len() ==> #[trigger] r[i].0 == SAMPLE_BLOCK * i && r[i].0 < r[i].1
                    && r[i].1 <= m && r[i].1 - r[i].0 <= SAMPLE_BLOCK,
            forall|i: int| 0 <= i < r.len() - 1 ==> #[trigger] r[i].1 == r[i + 1].0,
        decreases m - s0,
    {
        let s1 = if m - s0 > SAMPLE_BLOCK {
            s0 + SAMPLE_BLOCK
        } else {
            m
        };
        r.push((s0, s1));
        s0 = s1;
    }
    r
}

/// Number of node pairs `(i, n-1-i)` that Gauss–Legendre computes for order
/// `n`: `⌈n / 2⌉`.
pub fn gauss_legendre_half(n: usize) -> (h: usize)
    requires
        n >= 1,
    ensures
        h == (n + 1) / 2,
{
    n / 2 + n % 2
}

/// The computed node whose value (or mirror) lands in slot `k`.
pub open spec fn mirror_source(n: int, k: int) -> int {
    if k < (n + 1) / 2 {
        k
    } else {
        n - 1 - k
    }
}

/// Law: mirroring the first `⌈n / 2⌉` nodes fills every node slot
/// `0 .. n`: slot `k` is `i` or `n - 1 - i` for the computed node
/// `i = mirror_source(n, k)`.
pub proof fn lemma_mirror_fills(n: int)
    requires
        n >= 1,
    ensures
        forall|k: int|
            0 <= k < n ==> 0 <= #[trigger] mirror_source(n, k) < (n + 1) / 2 && (k == mirror_source(
                n,
                k,
            ) || k == n - 1 - mirror_source(n, k)),
{
}

} // verus!

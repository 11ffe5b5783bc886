//! Detection of a rectangular product lattice among element positions.
//!
//! Positions are handled as the `u32` bit patterns of their `f32`
//! coordinates: two positions share a column exactly when their x bits are
//! equal. When the `N` elements fill an `nx × ny` product of distinct x and
//! y values, every pair's mutual term depends only on the lag
//! `(|Δi|, |Δj|)`, so `nx · ny` evaluations replace `N²`. Whether the
//! distinct values are evenly spaced is a floating-point question left to the
//! caller.
use vstd::prelude::*;
use crate::beam::{cell_index, in_grid, lemma_cell_index_bounds, lemma_cell_index_injective};

verus! {

pub open spec fn strictly_sorted(s: Seq<u32>) -> bool {
    forall|i: int, j: int| 0 <= i < j < s.len() ==> s[i] < s[j]
}

/// No two elements sit at the same `(x, y)` bit pattern.
pub open spec fn points_distinct(x: Seq<u32>, y: Seq<u32>) -> bool {
    forall|p: int, q: int|
        0 <= p < q < x.len() ==> !(x[p] == x[q] && y[p] == y[q])
}

/// The number of distinct values in `v`.
pub open spec fn distinct_count(v: Seq<u32>) -> nat {
    v.to_set().len()
}

/// Binary search in a strictly increasing sequence: `Ok(i)` where
/// `xs[i] == key`, or `Err(i)`, the position where `key` would be inserted.
pub fn search_sorted(xs: &Vec<u32>, key: u32) -> (r: Result<usize, usize>)
    requires
        strictly_sorted(xs@),
    ensures
        match r {
            Ok(i) => i < xs.len() && xs[i as int] == key,
            Err(i) => i <= xs.len() && (forall|j: int| 0 <= j < i ==> xs[j] < key) && (forall|
                j: int,
            |
                i <= j < xs.len() ==> xs[j] > key),
        },
{
    let mut lo: usize = 0;
    let mut hi: usize = xs.len();
    while lo < hi
        invariant
            lo <= hi <= xs.len(),
            strictly_sorted(xs@),
            forall|j: int| 0 <= j < lo ==> xs[j] < key,
            forall|j: int| hi <= j < xs.len() ==> xs[j] > key,
        decreases hi - lo,
    {
        let mid = lo + (hi - lo) / 2;
        if xs[mid] < key {
            lo = mid + 1;
        } else if xs[mid] > key {
            hi = mid;
        } else {
            return Ok(mid);
        }
    }
    Err(lo)
}

/// The distinct values of `v` in increasing order.
pub fn unique_sorted_bits(v: &[u32]) -> (r: Vec<u32>)
    ensures
        strictly_sorted(r@),
        r@.to_set() == v@.to_set(),
        r.len() == distinct_count(v@),
{
    let mut r: Vec<u32> = Vec::new();
    let mut i: usize = 0;
    while i < v.len()
        invariant
            i <= v.len(),
            strictly_sorted(r@),
            forall|x: u32| r@.contains(x) <==> v@.take(i as int).contains(x),
        decreases v.len() - i,
    {
        let x = v[i];
        let ghost r0 = r@;
        match search_sorted(&r, x) {
            Ok(k) => {
                proof {
                    assert(r@[k as int] == x);
                }
            },
            Err(pos) => {
                let ghost old_r = r@;
                r.insert(pos, x);
                proof {
                    assert forall|a: int, b: int| 0 <= a < b < r.len() implies r[a] < r[b] by {
                        if b < pos {
                            assert(r[a] == old_r[a] && r[b] == old_r[b]);
                        } else if b == pos {
                            assert(r[a] == old_r[a]);
                        } else if a < pos {
                            assert(r[a] == old_r[a] && r[b] == old_r[b - 1]);
                        } else if a == pos {
                            assert(r[b] == old_r[b - 1]);
                        } else {
                            assert(r[a] == old_r[a - 1] && r[b] == old_r[b - 1]);
                        }
                    }
                    assert forall|y: u32| r@.contains(y) implies old_r.contains(y) || y == x by {
                        let j = choose|j: int| 0 <= j < r.len() && r[j] == y;
                        if j < pos {
                            assert(old_r[j] == y);
                        } else if j > pos {
                            assert(old_r[j - 1] == y);
                        }
                    }
                    assert forall|y: u32| old_r.contains(y) implies r@.contains(y) by {
                        let j = choose|j: int| 0 <= j < old_r.len() && old_r[j] == y;
                        if j < pos {
                            assert(r[j] == y);
                        } else {
                            assert(r[j + 1] == y);
                        }
                    }
                    assert(r[pos as int] == x);
                }
            },
        }
        proof {
            assert(v@.take(i as int + 1) =~= v@.take(i as int).push(x));
            let pre = v@.take(i as int);
            let post = v@.take(i as int + 1);
            assert(r@.contains(x));
            assert(forall|y: u32| r@.contains(y) ==> r0.contains(y) || y == x);
            assert(forall|y: u32| r0.contains(y) ==> r@.contains(y));
            assert forall|y: u32| r@.contains(y) <==> post.contains(y) by {
                assert(r0.contains(y) <==> pre.contains(y));
                assert(r0.contains(y) ==> r@.contains(y));
                assert(r@.contains(y) ==> r0.contains(y) || y == x);
                if post.contains(y) && y != x {
                    let j = choose|j: int| 0 <= j < post.len() && post[j] == y;
                    assert(pre[j] == y);
                }
                if pre.contains(y) {
                    let j = choose|j: int| 0 <= j < pre.len() && pre[j] == y;
                    assert(post[j] == y);
                }
                assert(post[i as int] == x);
            }
        }
        i = i + 1;
    }
    proof {
        assert(v@.take(v.len() as int) =~= v@);
        assert(r@.to_set() =~= v@.to_set());
        assert(r@.no_duplicates()) by {
            assert forall|a: int, b: int| 0 <= a < r.len() && 0 <= b < r.len() && a != b implies r[a]
                != r[b] by {
                if a < b {
                    assert(r[a] < r[b]);
                } else {
                    assert(r[b] < r[a]);
                }
            }
        }
        r@.unique_seq_to_set();
    }
    r
}

/// A detected product lattice: `xs`/`ys` are the distinct x and y bit
/// patterns in increasing order and element `p` sits at column `ix[p]`, row
/// `iy[p]`.
pub struct ProductLattice {
    pub nx: usize,
    pub ny: usize,
    pub ix: Vec<usize>,
    pub iy: Vec<usize>,
    pub xs: Vec<u32>,
    pub ys: Vec<u32>,
}

impl ProductLattice {
    /// The lattice describes the positions `x`, `y`.
    pub open spec fn describes(&self, x: Seq<u32>, y: Seq<u32>) -> bool {
        &&& self.nx == self.xs.len()
        &&& self.ny == self.ys.len()
        &&& strictly_sorted(self.xs@)
        &&& strictly_sorted(self.ys@)
        &&& self.xs@.to_set() == x.to_set()
        &&& self.ys@.to_set() == y.to_set()
        &&& self.ix.len() == x.len()
        &&& self.iy.len() == x.len()
        &&& self.nx * self.ny == x.len()
        &&& forall|p: int|
            0 <= p < x.len() ==> #[trigger] self.ix[p] < self.nx && self.iy[p] < self.ny
                && self.xs[self.ix[p] as int] == x[p] && self.ys[self.iy[p] as int] == y[p]
    }

    /// The lag slot of the pair `(p, q)`: `|Δi| · ny + |Δj|`.
    pub open spec fn spec_lag_slot(&self, p: int, q: int) -> int {
        let di = if self.ix[p] >= self.ix[q] {
            self.ix[p] - self.ix[q]
        } else {
            self.ix[q] - self.ix[p]
        };
        let dj = if self.iy[p] >= self.iy[q] {
            self.iy[p] - self.iy[q]
        } else {
            self.iy[q] - self.iy[p]
        };
        di * self.ny + dj
    }

    /// Index into the `nx × ny` table of distinct lags for the pair `(p, q)`.
    pub fn lag_slot(&self, p: usize, q: usize) -> (k: usize)
        requires
            p < self.ix.len(),
            q < self.ix.len(),
            self.iy.len() == self.ix.len(),
            self.ix[p as int] < self.nx,
            self.ix[q as int] < self.nx,
            self.iy[p as int] < self.ny,
            self.iy[q as int] < self.ny,
            self.nx * self.ny <= usize::MAX,
        ensures
            k == self.spec_lag_slot(p as int, q as int),
            k < self.nx * self.ny,
    {
        let di = if self.ix[p] >= self.ix[q] {
            self.ix[p] - self.ix[q]
        } else {
            self.ix[q] - self.ix[p]
        };
        let dj = if self.iy[p] >= self.iy[q] {
            self.iy[p] - self.iy[q]
        } else {
            self.iy[q] - self.iy[p]
        };
        proof {
            lemma_cell_index_bounds(self.ny as int, self.nx as int, (dj as int, di as int));
            assert(self.ny * self.nx == self.nx * self.ny) by (nonlinear_arith);
        }
        di * self.ny + dj
    }
}

/// Law: the lag slot of a pair does not depend on the order of the pair,
/// and an element's lag to itself is slot 0, so a table filled by lag gives
/// a symmetric matrix whose diagonal holds the self term.
pub proof fn lemma_lag_slot_symmetric(l: ProductLattice, p: int, q: int)
    ensures
        l.spec_lag_slot(p, q) == l.spec_lag_slot(q, p),
        l.spec_lag_slot(p, p) == 0,
{
}

/// Column/row pairs of a rectangular product lattice, or `None` when the
/// distinct x and y values do not multiply up to the element count or two
/// elements share a position.
pub fn product_lattice(x: &[u32], y: &[u32]) -> (r: Option<ProductLattice>)
    requires
        x.len() == y.len(),
    ensures
        r is Some <==> (distinct_count(x@) * distinct_count(y@) == x.len() && points_distinct(
            x@,
            y@,
        )),
        r matches Some(l) ==> l.describes(x@, y@),
{
    let n = x.len();
    let xs = unique_sorted_bits(x);
    let ys = unique_sorted_bits(y);
    let nx = xs.len();
    let ny = ys.len();
    match nx.checked_mul(ny) {
        None => {
            return None;
        },
        Some(m) => {
            if m != n {
                return None;
            }
        },
    }
    let mut ix: Vec<usize> = Vec::new();
    let mut iy: Vec<usize> = Vec::new();
    let mut seen: Vec<bool> = Vec::new();
    while seen.len() < n
        invariant
            seen.len() <= n,
            forall|k: int| 0 <= k < seen.len() ==> !#[trigger] seen[k],
        decreases n - seen.len(),
    {
        seen.push(false);
    }
    let mut p: usize = 0;
    while p < n
        invariant
            n == x.len(),
            n == y.len(),
            nx == xs.len(),
            ny == ys.len(),
            nx * ny == n,
            strictly_sorted(xs@),
            strictly_sorted(ys@),
            xs@.to_set() == x@.to_set(),
            ys@.to_set() == y@.to_set(),
            p <= n,
            seen.len() == n,
            ix.len() == p,
            iy.len() == p,
            forall|q: int|
                0 <= q < p ==> #[trigger] ix[q] < nx && iy[q] < ny && xs[ix[q] as int] == x[q]
                    && ys[iy[q] as int] == y[q],
            forall|s: int|
                0 <= s < n ==> (#[trigger] seen[s] <==> exists|q: int|
                    0 <= q < p && cell_index(ny as int, (iy[q] as int, ix[q] as int)) == s),
            forall|a: int, b: int| 0 <= a < b < p ==> !(x[a] == x[b] && y[a] == y[b]),
        decreases n - p,
    {
        proof {
            assert(x@.to_set().contains(x[p as int]));
            assert(y@.to_set().contains(y[p as int]));
            assert(xs@.contains(x[p as int]));
            assert(ys@.contains(y[p as int]));
        }
        let i = match search_sorted(&xs, x[p]) {
            Ok(i) => i,
            Err(_) => {
                proof {
                    let j = choose|j: int| 0 <= j < xs.len() && xs[j] == x[p as int];
                }
                return None;
            },
        };
        let j = match search_sorted(&ys, y[p]) {
            Ok(j) => j,
            Err(_) => {
                proof {
                    let k = choose|k: int| 0 <= k < ys.len() && ys[k] == y[p as int];
                }
                return None;
            },
        };
        proof {
            lemma_cell_index_bounds(ny as int, nx as int, (j as int, i as int));
        }
        let slot = i * ny + j;
        if seen[slot] {
            proof {
                let q = choose|q: int|
                    0 <= q < p && cell_index(ny as int, (iy[q] as int, ix[q] as int)) == slot;
                lemma_cell_index_injective(
                    ny as int,
                    nx as int,
                    (iy[q] as int, ix[q] as int),
                    (j as int, i as int),
                );
                assert(x[q] == x[p as int] && y[q] == y[p as int]);
                assert(!points_distinct(x@, y@));
            }
            return None;
        }
        let ghost old_seen = seen@;
        let ghost old_ix = ix@;
        let ghost old_iy = iy@;
        seen.set(slot, true);
        ix.push(i);
        iy.push(j);
        proof {
            assert forall|q: int|
                0 <= q < p + 1 implies #[trigger] ix[q] < nx && iy[q] < ny && xs[ix[q] as int]
                == x[q] && ys[iy[q] as int] == y[q] by {
                if q < p {
                    assert(ix[q] == old_ix[q] && iy[q] == old_iy[q]);
                }
            }
            assert forall|s: int| 0 <= s < n implies (#[trigger] seen[s] <==> exists|q: int|
                0 <= q < p + 1 && cell_index(ny as int, (iy[q] as int, ix[q] as int)) == s) by {
                if s == slot as int {
                    assert(ix[p as int] == i && iy[p as int] == j);
                } else {
                    if old_seen[s] {
                        let q = choose|q: int|
                            0 <= q < p && cell_index(ny as int, (old_iy[q] as int, old_ix[q] as int))
                                == s;
                        assert(ix[q] == old_ix[q] && iy[q] == old_iy[q]);
                    }
                    if exists|q: int|
                        0 <= q < p + 1 && cell_index(ny as int, (iy[q] as int, ix[q] as int)) == s {
                        let q = choose|q: int|
                            0 <= q < p + 1 && cell_index(ny as int, (iy[q] as int, ix[q] as int))
                                == s;
                        assert(q != p);
                        assert(ix[q] == old_ix[q] && iy[q] == old_iy[q]);
                    }
                }
            }
            assert forall|a: int, b: int| 0 <= a < b < p + 1 implies !(x[a] == x[b] && y[a]
                == y[b]) by {
                if b == p && x[a] == x[b] && y[a] == y[b] {
                    assert(ix[a] < nx && xs[ix[a] as int] == x[a]);
                    assert(ix[a] == i) by {
                        if ix[a] < i {
                            assert(xs[ix[a] as int] < xs[i as int]);
                        } else if ix[a] > i {
                            assert(xs[ix[a] as int] > xs[i as int]);
                        }
                    }
                    assert(iy[a] == j) by {
                        if iy[a] < j {
                            assert(ys[iy[a] as int] < ys[j as int]);
                        } else if iy[a] > j {
                            assert(ys[iy[a] as int] > ys[j as int]);
                        }
                    }
                    assert(old_seen[slot as int]);
                }
            }
        }
        p = p + 1;
    }
    proof {
        assert(p == n);
        assert(forall|q: int| 0 <= q < n ==> #[trigger] ix[q] < nx && iy[q] < ny && xs[ix[q] as int] == x[q]
                    && ys[iy[q] as int] == y[q]);
    }
    let l = ProductLattice { nx, ny, ix, iy, xs, ys };
    proof {
        assert(l.nx == l.xs.len());
        assert(l.ny == l.ys.len());
        assert(strictly_sorted(l.xs@));
        assert(l.xs@.to_set() == x@.to_set());
        assert(l.ix.len() == x.len());
        assert(l.nx * l.ny == x.len());
        assert(forall|q: int| 0 <= q < x@.len() ==> #[trigger] l.ix[q] < l.nx && l.iy[q] < l.ny && l.xs[l.ix[q] as int] == x@[q]
                    && l.ys[l.iy[q] as int] == y@[q]);
    }
    Some(l)
}

} // verus!

//! Size bookkeeping of the radiated-power kernel: which buffers a call fills
//! and with how many entries, and when a call finds nothing to work on.
//!
//! `A` (steering matrix) is `n × m` for the current sample panel, the Gram
//! `P_H` and the impedance `Z` are `n × n`, and matched `S`/`T` are
//! `n × n` for the `n` they were formed from.
use vstd::prelude::*;
use crate::quadrature::{quadrature_shape, sample_window, spec_window};

verus! {

/// Buffer sizes of the radiated-power state.
pub struct PradShape {
    /// `(n_mu, n_phi)` of the quadrature, once set.
    pub quad: Option<(usize, usize)>,
    /// Elements in the current fill.
    pub n: usize,
    /// Samples in the current panel.
    pub m: usize,
    /// Entries of `A` (real and imaginary parts alike).
    pub a_len: usize,
    /// Entries of the Gram.
    pub p_len: usize,
    /// Entries of the impedance `Z`.
    pub z_len: usize,
    /// Order of the matched `S`/`T` (each `s_dim²` entries; 0 when cleared).
    pub s_dim: usize,
}

impl PradShape {
    /// Samples of the full quadrature grid, `n_mu · n_phi`.
    pub open spec fn spec_n_samples(&self) -> int {
        match self.quad {
            Some((a, b)) => a * b,
            None => self.m as int,
        }
    }

    /// The state and result that `fill_isolated_range` leaves.
    pub open spec fn spec_fill(self, n_x: int, n_y: int, sample0: int, sample_count: int) -> (
        PradShape,
        Option<(usize, usize)>,
    ) {
        match self.quad {
            None => (PradShape { n: 0, ..self }, None),
            Some((a, b)) => {
                if n_x != n_y || n_x == 0 {
                    (PradShape { n: 0, ..self }, None)
                } else {
                    let w = spec_window(a * b, sample0, sample_count);
                    if w.1 == 0 {
                        (PradShape { n: 0, m: 0, ..self }, None)
                    } else {
                        (
                            PradShape {
                                n: n_x as usize,
                                m: w.1 as usize,
                                a_len: (n_x * w.1) as usize,
                                ..self
                            },
                            Some((w.0 as usize, w.1 as usize)),
                        )
                    }
                }
            },
        }
    }

    /// `form_gram` succeeds on this state.
    pub open spec fn gram_ready(self) -> bool {
        self.n > 0 && self.m > 0 && self.a_len == self.n * self.m
    }

    /// The state that `form_gram` leaves.
    pub open spec fn spec_form_gram(self) -> PradShape {
        if self.gram_ready() {
            PradShape { p_len: (self.n * self.n) as usize, ..self }
        } else {
            PradShape { p_len: 0, ..self }
        }
    }

    /// A fresh state: no quadrature, no elements, empty buffers.
    pub fn new() -> (s: Self)
        ensures
            s.quad is None,
            s.n == 0,
            s.m == 0,
            s.a_len == 0,
            s.p_len == 0,
            s.z_len == 0,
            s.s_dim == 0,
    {
        PradShape { quad: None, n: 0, m: 0, a_len: 0, p_len: 0, z_len: 0, s_dim: 0 }
    }

    /// `set_quadrature`: orders raised to at least 1, the panel becomes the
    /// whole grid and `A` is emptied.
    pub fn set_quadrature(&mut self, n_mu: u32, n_phi: u32) -> (r: (usize, usize))
        requires
            (if n_mu >= 1 {
                n_mu as int
            } else {
                1
            }) * (if n_phi >= 1 {
                n_phi as int
            } else {
                1
            }) <= usize::MAX,
        ensures
            r.0 == if n_mu >= 1 {
                n_mu as int
            } else {
                1
            },
            r.1 == if n_phi >= 1 {
                n_phi as int
            } else {
                1
            },
            final(self).quad == Some(r),
            final(self).m == r.0 * r.1,
            final(self).a_len == 0,
            final(self).n == old(self).n,
            final(self).p_len == old(self).p_len,
            final(self).z_len == old(self).z_len,
            final(self).s_dim == old(self).s_dim,
    {
        let (a, b, m) = quadrature_shape(n_mu, n_phi);
        self.quad = Some((a, b));
        self.m = m;
        self.a_len = 0;
        (a, b)
    }

    /// `n_samples`: the full grid once a quadrature is set, else the
    /// current panel width.
    pub fn n_samples(&self) -> (r: usize)
        requires
            self.quad matches Some((a, b)) ==> a * b <= usize::MAX,
        ensures
            r == self.spec_n_samples(),
    {
        match self.quad {
            Some((a, b)) => a * b,
            None => self.m,
        }
    }

    /// `fill_isolated_range` for `n_x` x- and `n_y` y-positions: returns the
    /// sample panel `(start, count)` that `A` is filled for, or `None` (no
    /// quadrature, mismatched or empty positions, or an empty panel), in
    /// which case the element count drops to 0.
    pub fn fill_isolated_range(&mut self, n_x: usize, n_y: usize, sample0: u32, sample_count: u32) -> (r:
        Option<(usize, usize)>)
        requires
            old(self).quad matches Some((a, b)) ==> a * b <= usize::MAX && n_x * spec_window(
                a * b,
                sample0 as int,
                sample_count as int,
            ).1 <= usize::MAX,
        ensures
            (*final(self), r) == old(self).spec_fill(
                n_x as int,
                n_y as int,
                sample0 as int,
                sample_count as int,
            ),
    {
        let m_full = match self.quad {
            None => {
                self.n = 0;
                return None;
            },
            Some((a, b)) => a * b,
        };
        if n_x != n_y || n_x == 0 {
            self.n = 0;
            return None;
        }
        let (s0, sc) = sample_window(m_full, sample0, sample_count);
        if sc == 0 {
            self.n = 0;
            self.m = 0;
            return None;
        }
        self.n = n_x;
        self.m = sc;
        self.a_len = n_x * sc;
        Some((s0, sc))
    }

    /// `form_gram`: forms the `n × n` Gram when `A` holds a full `n × m`
    /// panel; otherwise empties it and reports `false`.
    pub fn form_gram(&mut self) -> (ok: bool)
        requires
            old(self).gram_ready() ==> old(self).n * old(self).n <= usize::MAX,
        ensures
            ok == old(self).gram_ready(),
            *final(self) == old(self).spec_form_gram(),
    {
        let ok = if self.n == 0 || self.m == 0 {
            false
        } else {
            match self.n.checked_mul(self.m) {
                Some(nm) => self.a_len == nm,
                None => false,
            }
        };
        if ok {
            self.p_len = self.n * self.n;
        } else {
            self.p_len = 0;
        }
        ok
    }

    /// `compute_j0` for `n_x` x- and `n_y` y-positions: forms an
    /// `n_x × n_x` Gram when a quadrature is set and the positions match and
    /// are not empty; otherwise empties the Gram and reports `false`.
    pub fn compute_j0(&mut self, n_x: usize, n_y: usize) -> (ok: bool)
        requires
            old(self).quad is Some && n_x == n_y && n_x > 0 ==> n_x * n_x <= usize::MAX,
        ensures
            ok == (old(self).quad is Some && n_x == n_y && n_x > 0),
            final(self).n == if ok {
                n_x
            } else {
                0
            },
            final(self).p_len == if ok {
                n_x * n_x
            } else {
                0
            },
            final(self).quad == old(self).quad,
            final(self).m == old(self).m,
            final(self).a_len == old(self).a_len,
            final(self).z_len == old(self).z_len,
            final(self).s_dim == old(self).s_dim,
    {
        if self.quad.is_none() || n_x != n_y || n_x == 0 {
            self.n = 0;
            self.p_len = 0;
            return false;
        }
        self.n = n_x;
        self.p_len = n_x * n_x;
        true
    }

    /// `form_matched_s`: forms `n × n` matched `S`/`T` from the current
    /// Gram when it is `n × n`; otherwise clears them and reports `false`.
    pub fn form_matched_s(&mut self) -> (ok: bool)
        ensures
            ok == (old(self).n > 0 && old(self).p_len == old(self).n * old(self).n),
            final(self).s_dim == if ok {
                old(self).n
            } else {
                0
            },
            final(self).z_len == if ok {
                old(self).p_len
            } else {
                0
            },
            final(self).quad == old(self).quad,
            final(self).n == old(self).n,
            final(self).m == old(self).m,
            final(self).a_len == old(self).a_len,
            final(self).p_len == old(self).p_len,
    {
        let ok = if self.n == 0 {
            false
        } else {
            match self.n.checked_mul(self.n) {
                Some(nn) => self.p_len == nn,
                None => false,
            }
        };
        if ok {
            self.s_dim = self.n;
            self.z_len = self.p_len;
        } else {
            self.s_dim = 0;
            self.z_len = 0;
        }
        ok
    }

    /// The impedance fill of `fill_green_pec_dipole_z`: an `n_x × n_x` `Z`
    /// when the positions match and are not empty; otherwise `Z` is emptied
    /// and the element count drops to 0.
    pub fn fill_z(&mut self, n_x: usize, n_y: usize) -> (ok: bool)
        requires
            n_x == n_y && n_x > 0 ==> n_x * n_x <= usize::MAX,
        ensures
            ok == (n_x == n_y && n_x > 0),
            final(self).n == if ok {
                n_x
            } else {
                0
            },
            final(self).z_len == if ok {
                n_x * n_x
            } else {
                0
            },
            final(self).quad == old(self).quad,
            final(self).m == old(self).m,
            final(self).a_len == old(self).a_len,
            final(self).p_len == old(self).p_len,
            final(self).s_dim == old(self).s_dim,
    {
        if n_x != n_y || n_x == 0 {
            self.n = 0;
            self.z_len = 0;
            return false;
        }
        self.n = n_x;
        self.z_len = n_x * n_x;
        true
    }

    /// `form_from_z`: matched `S`/`T` from the current `n × n` impedance;
    /// otherwise they are cleared and the call reports `false`.
    pub fn form_from_z(&mut self) -> (ok: bool)
        ensures
            ok == (old(self).n > 0 && old(self).z_len == old(self).n * old(self).n),
            final(self).s_dim == if ok {
                old(self).n
            } else {
                0
            },
            final(self).quad == old(self).quad,
            final(self).n == old(self).n,
            final(self).m == old(self).m,
            final(self).a_len == old(self).a_len,
            final(self).p_len == old(self).p_len,
            final(self).z_len == if ok {
                old(self).z_len
            } else {
                0
            },
    {
        let ok = if self.n == 0 {
            false
        } else {
            match self.n.checked_mul(self.n) {
                Some(nn) => self.z_len == nn,
                None => false,
            }
        };
        if ok {
            self.s_dim = self.n;
        } else {
            self.s_dim = 0;
            self.z_len = 0;
        }
        ok
    }
}

/// Law: `compute` (a fill of the whole grid followed by `form_gram`) on
/// matching, non-empty positions after a quadrature is set forms an
/// `N × N` Gram over all `n_mu · n_phi` samples, and the quadrature and the
/// full sample count are left as they were.
pub proof fn lemma_compute_forms_full_gram(s: PradShape, n_x: int)
    requires
        s.quad matches Some((a, b)) && a >= 1 && b >= 1 && a * b <= usize::MAX && n_x * (a * b)
            <= usize::MAX,
        n_x > 0,
        n_x * n_x <= usize::MAX,
    ensures
        ({
            let (f, w) = s.spec_fill(n_x, n_x, 0, 0);
            let g = f.spec_form_gram();
            &&& w == Some((0usize, s.spec_n_samples() as usize))
            &&& f.gram_ready()
            &&& g.n == n_x
            &&& g.m == s.spec_n_samples()
            &&& g.p_len == n_x * n_x
            &&& g.quad == s.quad
            &&& g.spec_n_samples() == s.spec_n_samples()
        }),
{
    let (a, b) = s.quad.unwrap();
    assert(a * b >= 1) by (nonlinear_arith)
        requires
            a >= 1,
            b >= 1,
    ;
    let w = spec_window(a * b, 0, 0);
    assert(w == (0int, a * b));
    assert(n_x <= usize::MAX) by (nonlinear_arith)
        requires
            n_x > 0,
            n_x * n_x <= usize::MAX,
    ;
}

/// Law: every non-empty panel fill leaves `A` ready for `form_gram`, whose
/// Gram is then `n × n` for the filled positions, and a panel fill never
/// changes the full sample count that `n_samples` reports.
pub proof fn lemma_panel_gram_ready(s: PradShape, n_x: int, sample0: int, sample_count: int)
    requires
        s.quad matches Some((a, b)) && a * b <= usize::MAX && n_x * (a * b) <= usize::MAX,
        0 <= n_x,
        n_x * n_x <= usize::MAX,
        0 <= sample0,
        0 <= sample_count,
    ensures
        ({
            let (f, w) = s.spec_fill(n_x, n_x, sample0, sample_count);
            &&& f.spec_n_samples() == s.spec_n_samples()
            &&& w is Some ==> f.gram_ready() && f.n == n_x && f.spec_form_gram().p_len == n_x * n_x
        }),
{
    let (a, b) = s.quad.unwrap();
    let w = spec_window(a * b, sample0, sample_count);
    assert(0 <= w.1 <= a * b);
    assert(n_x * w.1 <= n_x * (a * b)) by (nonlinear_arith)
        requires
            0 <= w.1 <= a * b,
            0 <= n_x,
    ;
    assert(n_x <= usize::MAX) by (nonlinear_arith)
        requires
            0 <= n_x,
            n_x * n_x <= usize::MAX,
    {
        if n_x > 1 {
            assert(n_x * n_x >= n_x);
        }
    }
}

} // verus!

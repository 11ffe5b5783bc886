//! Shape bookkeeping of the far-field kernel: the observation grid, the
//! domain codes, which inputs make a valid call, and which rows a tile covers.
use vstd::prelude::*;

verus! {

pub const DOMAIN_SPHERICAL: u32 = 0;

pub const DOMAIN_UV: u32 = 1;

pub const DOMAIN_LUDWIG3: u32 = 2;

/// Observation coordinate systems of the intensity map.
#[derive(PartialEq, Eq, Structural, Clone, Copy, Debug)]
pub enum Domain {
    /// `(θ, φ)`.
    Spherical,
    /// Direction cosines `(u, v)`.
    Uv,
    /// Ludwig-3 `(azimuth, elevation)`.
    Ludwig3,
}

pub open spec fn spec_domain(code: u32) -> Option<Domain> {
    if code == DOMAIN_SPHERICAL {
        Some(Domain::Spherical)
    } else if code == DOMAIN_UV {
        Some(Domain::Uv)
    } else if code == DOMAIN_LUDWIG3 {
        Some(Domain::Ludwig3)
    } else {
        None
    }
}

/// The domain a code names; any other code names none (and the kernel
/// then leaves the field untouched).
pub fn domain_from_code(code: u32) -> (r: Option<Domain>)
    ensures
        r == spec_domain(code),
{
    if code == DOMAIN_SPHERICAL {
        Some(Domain::Spherical)
    } else if code == DOMAIN_UV {
        Some(Domain::Uv)
    } else if code == DOMAIN_LUDWIG3 {
        Some(Domain::Ludwig3)
    } else {
        None
    }
}

/// Size of an `n1 × n2` observation grid (ax1 inner, ax2 outer).
pub struct GridShape {
    pub n1: usize,
    pub n2: usize,
}

/// Lengths of the inputs handed to the far-field kernel.
pub struct FarfieldLengths {
    /// Element x positions.
    pub x: usize,
    /// Element y positions.
    pub y: usize,
    /// Element magnitudes.
    pub mag: usize,
    /// Element phases.
    pub pha: usize,
    /// Inner-axis samples.
    pub ax1: usize,
    /// Outer-axis samples.
    pub ax2: usize,
    /// Accumulated field buffer.
    pub field: usize,
}

impl GridShape {
    /// The grid that `prepare(n1, n2)` sets up.
    pub fn prepare(n1: u32, n2: u32) -> (g: GridShape)
        ensures
            g.n1 == n1,
            g.n2 == n2,
    {
        GridShape { n1: n1 as usize, n2: n2 as usize }
    }

    /// Number of samples the field buffers get: `n1 · n2`, saturating at
    /// `usize::MAX`.
    pub fn cell_count(&self) -> (n: usize)
        ensures
            n == if self.n1 * self.n2 <= usize::MAX {
                self.n1 * self.n2
            } else {
                usize::MAX as int
            },
    {
        match self.n1.checked_mul(self.n2) {
            Some(n) => n,
            None => usize::MAX,
        }
    }

    /// The inputs describe at least one element with matching per-element
    /// arrays, axes of the prepared sizes and a field buffer of the grid's
    /// size; otherwise a tile does nothing.
    pub fn inputs_ok(&self, lens: &FarfieldLengths) -> (ok: bool)
        ensures
            ok == (lens.x > 0 && lens.x == lens.y && lens.x == lens.mag && lens.x == lens.pha
                && self.n1 > 0 && self.n2 > 0 && lens.ax1 == self.n1 && lens.ax2 == self.n2
                && lens.field == self.n1 * self.n2),
    {
        let n_el = lens.x;
        if !(n_el > 0 && n_el == lens.y && n_el == lens.mag && n_el == lens.pha && self.n1 > 0
            && self.n2 > 0 && lens.ax1 == self.n1 && lens.ax2 == self.n2) {
            return false;
        }
        match self.n1.checked_mul(self.n2) {
            Some(n) => lens.field == n,
            None => false,
        }
    }

    /// Rows `row0 .. row_end` that a tile starting at `row0` with
    /// `row_count` rows covers, clipped to the grid; `None` when that is
    /// empty.
    pub fn tile_rows(&self, row0: u32, row_count: u32) -> (r: Option<(usize, usize)>)
        requires
            row0 + row_count <= usize::MAX,
        ensures
            match r {
                Some((a, b)) => spec_tile_rows(self.n2 as int, row0 as int, row_count as int)
                    == Some((a as int, b as int)),
                None => spec_tile_rows(self.n2 as int, row0 as int, row_count as int) is None,
            },
    {
        let r0 = row0 as usize;
        let want = r0 + row_count as usize;
        let end = if want <= self.n2 {
            want
        } else {
            self.n2
        };
        if r0 >= end {
            None
        } else {
            Some((r0, end))
        }
    }
}

/// The rows `(start, end)` of a tile of `count` rows from `row0` on a grid
/// of `n2` rows, or `None` when none of them is on the grid.
pub open spec fn spec_tile_rows(n2: int, row0: int, count: int) -> Option<(int, int)> {
    let end = if row0 + count <= n2 {
        row0 + count
    } else {
        n2
    };
    if row0 < end {
        Some((row0, end))
    } else {
        None
    }
}

/// Row `r` is accumulated by the tile of `count` rows from `row0`.
pub open spec fn tile_covers(n2: int, row0: int, count: int, r: int) -> bool {
    match spec_tile_rows(n2, row0, count) {
        Some((a, b)) => a <= r < b,
        None => false,
    }
}

/// Law: a tile split in two, the second part starting where the first
/// ends, accumulates the same rows as the whole tile, and no row twice.
pub proof fn lemma_tiles_concatenate(n2: int, row0: int, c1: int, c2: int)
    requires
        0 <= n2,
        0 <= row0,
        0 <= c1,
        0 <= c2,
    ensures
        forall|r: int|
            #[trigger] tile_covers(n2, row0, c1 + c2, r) <==> (tile_covers(n2, row0, c1, r)
                || tile_covers(n2, row0 + c1, c2, r)),
        forall|r: int|
            !(#[trigger] tile_covers(n2, row0, c1, r) && tile_covers(n2, row0 + c1, c2, r)),
{
}

/// Divisor of the normalised intensity: the element count, at least 1.
pub fn intensity_divisor(n_elements: u32) -> (d: u32)
    ensures
        d >= 1,
        d == if n_elements >= 1 {
            n_elements
        } else {
            1
        },
{
    if n_elements >= 1 {
        n_elements
    } else {
        1
    }
}

} // verus!

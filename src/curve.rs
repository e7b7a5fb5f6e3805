//! The curve mapper: a byte index to a cell of a square grid whose side is a
//! power of two, along the Hilbert curve.
use vstd::prelude::*;

verus! {

/// `n` is a power of two (1, 2, 4, ...).
pub open spec fn is_pow2(n: nat) -> bool
    decreases n,
{
    if n == 1 {
        true
    } else if n >= 2 && n % 2 == 0 {
        is_pow2(n / 2)
    } else {
        false
    }
}

/// `n` is the side of the smallest power-of-two square grid that holds `len` cells.
pub open spec fn is_grid_side(n: nat, len: nat) -> bool {
    &&& is_pow2(n)
    &&& n * n >= len
    &&& (n == 1 || (n / 2) * (n / 2) < len)
}

/// The cell `(x, y)` that the Hilbert curve of an `n`-by-`n` grid visits at distance `d`.
pub uninterp spec fn hilbert_point(d: nat, n: nat) -> (nat, nat);

/// Relies on `hilbert_curve::convert_1d_to_2d`: for `n` a power of two and
/// `d < n * n` it returns the cell at distance `d` on the curve, which lies in
/// the grid, and no other distance of the grid maps to that cell.
#[verifier::external_body]
pub(crate) fn to_2d(d: usize, n: usize) -> (r: (usize, usize))
    requires
        is_pow2(n as nat),
        d < n * n,
    ensures
        hilbert_point(d as nat, n as nat) == (r.0 as nat, r.1 as nat),
        r.0 < n,
        r.1 < n,
        forall|e: nat|
            e < n * n && #[trigger] hilbert_point(e, n as nat) == (r.0 as nat, r.1 as nat) ==> e
                == d,
{
    hilbert_curve::convert_1d_to_2d(d, n)
}

/// Side of the smallest power-of-two square grid with room for `len` cells.
pub fn grid_side(len: usize) -> (n: usize)
    requires
        len <= usize::MAX / 4,
    ensures
        is_grid_side(n as nat, len as nat),
        n * n <= usize::MAX,
{
    let mut n: usize = 1;
    while n * n < len
        invariant
            is_pow2(n as nat),
            n == 1 || (n / 2) * (n / 2) < len,
            n * n <= 4 * len || n == 1,
            len <= usize::MAX / 4,
        decreases 4 * len - n * n,
    {
        proof {
            assert(n <= n * n) by (nonlinear_arith)
                requires
                    n >= 1,
            ;
            assert((2 * n) / 2 == n);
            assert((2 * n) * (2 * n) == 4 * (n * n)) by (nonlinear_arith);
            assert(is_pow2((2 * n) as nat));
            assert(n * n < (2 * n) * (2 * n)) by (nonlinear_arith)
                requires
                    n >= 1,
            ;
        }
        n = 2 * n;
    }
    n
}

} // verus!

//! The integer side of the two-dimensional solver: which Fourier modes the
//! two-thirds rule keeps, and zeroing the others.

use vstd::prelude::*;
use crate::flow::line::wavenumber;

verus! {

/// `|k|` for the mode at position `j` of an FFT of length `n`.
pub open spec fn wavenumber_size(n: int, j: int) -> int {
    if wavenumber(n, j) < 0 {
        -wavenumber(n, j)
    } else {
        wavenumber(n, j)
    }
}

/// Whether the two-thirds rule keeps entry `i` of an `n x n` grid in
/// row-major order (`i = y * n + x`): both `|k_x|` and `|k_y|` are at most
/// `floor(n / 3)`.
pub open spec fn kept_mode(n: int, i: int) -> bool {
    &&& wavenumber_size(n, i % n) <= n / 3
    &&& wavenumber_size(n, i / n) <= n / 3
}

/// `|k|` at position `j < n`, computed without leaving `usize`.
fn size_at(n: usize, j: usize) -> (size: usize)
    requires
        j < n,
    ensures
        size == wavenumber_size(n as int, j as int),
{
    if j < n / 2 {
        j
    } else {
        n - j
    }
}

/// The two-thirds rule on an `n x n` grid, one flag per entry in row-major
/// order: `true` where the mode is kept.
pub fn two_thirds_keep(n: usize) -> (keep: Vec<bool>)
    requires
        n * n <= usize::MAX,
    ensures
        keep@.len() == n * n,
        forall|i: int| 0 <= i < n * n ==> #[trigger] keep@[i] == kept_mode(n as int, i),
{
    let total = n * n;
    let cutoff = n / 3;
    let mut keep: Vec<bool> = Vec::new();
    let mut i: usize = 0;
    while i < total
        invariant
            total == n * n,
            cutoff == n / 3,
            i <= total,
            keep@.len() == i,
            forall|m: int| 0 <= m < i ==> #[trigger] keep@[m] == kept_mode(n as int, m),
        decreases total - i,
    {
        assert(n > 0) by (nonlinear_arith)
            requires
                i < total,
                total == n * n,
        ;
        assert(i / n < n) by (nonlinear_arith)
            requires
                i < n * n,
                n > 0,
        ;
        let x = size_at(n, i % n);
        let y = size_at(n, i / n);
        keep.push(x <= cutoff && y <= cutoff);
        i = i + 1;
    }
    keep
}

/// Set to `zero` every entry of `values` whose flag in `keep` is `false`;
/// entries past the end of `keep` are left as they are.
pub fn mask<T: Copy>(values: &mut [T], keep: &[bool], zero: T)
    ensures
        final(values)@.len() == old(values)@.len(),
        forall|i: int|
            0 <= i < old(values)@.len() ==> #[trigger] final(values)@[i] == (if i < keep@.len()
                && !keep@[i] {
                zero
            } else {
                old(values)@[i]
            }),
{
    let n = values.len();
    let ghost start = values@;
    let mut i: usize = 0;
    while i < n && i < keep.len()
        invariant
            n == values@.len(),
            start.len() == n,
            i <= n,
            forall|m: int|
                0 <= m < n ==> #[trigger] values@[m] == (if m < i && m < keep@.len() && !keep@[m] {
                    zero
                } else {
                    start[m]
                }),
        decreases n - i,
    {
        if !keep[i] {
            values[i] = zero;
        }
        i = i + 1;
    }
}

} // verus!

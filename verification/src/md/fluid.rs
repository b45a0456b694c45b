//! The fluid run's set-up rules that need no floating point.

use vstd::prelude::*;
use vstd::string::StringExecFns;

verus! {

/// Why a fluid run could not be set up.
#[derive(Clone, Debug, PartialEq, Eq)]
pub enum FluidError {
    /// A setting breaks the run's contract.
    Configuration(String),
}

impl FluidError {
    /// The failure as the program prints it: `configuration: ...`.
    pub fn describe(&self) -> (text: String)
        ensures
            text@ == (match self {
                FluidError::Configuration(message) => "configuration: "@ + message@,
            }),
    {
        match self {
            FluidError::Configuration(message) => {
                let mut text = "configuration: ".to_owned();
                text.append(message.as_str());
                text
            },
        }
    }
}

/// `n` atoms fill a square lattice of `side` rows of `side` atoms, with an
/// even number of rows so the triangular stacking wraps.
pub open spec fn even_square_side(n: int, side: int) -> bool {
    side > 0 && side * side == n && side % 2 == 0
}

/// The message of a refused atom count.
pub open spec fn square_side_message() -> Seq<char> {
    "n must be a perfect square with an even square root"@
}

/// Two nonnegative integers with equal squares are equal; an integer square
/// root is unique.
proof fn lemma_square_root_unique(a: int, b: int, n: int)
    requires
        0 <= a,
        0 <= b,
        a * a <= n,
        n < (a + 1) * (a + 1),
        b * b == n,
    ensures
        a == b,
{
    if b < a {
        assert(false) by (nonlinear_arith)
            requires
                0 <= b,
                b + 1 <= a,
                a * a <= n,
                b * b == n,
        ;
    } else if b > a {
        assert(false) by (nonlinear_arith)
            requires
                0 <= a,
                a + 1 <= b,
                n < (a + 1) * (a + 1),
                b * b == n,
        ;
    }
}

/// The side of the square lattice that holds `n` atoms.
///
/// Refused unless `n` is the square of a positive even side.
pub fn square_side(n: usize) -> (side: Result<usize, FluidError>)
    ensures
        side matches Ok(s) ==> even_square_side(n as int, s as int),
        side is Err <==> !(exists|s: int| even_square_side(n as int, s)),
        side matches Err(FluidError::Configuration(message)) ==> message@ == square_side_message(),
{
    let target = n as u128;
    let mut lo: u128 = 0;
    let mut hi: u128 = 0x1_0000_0000;
    assert(hi * hi > target) by (nonlinear_arith)
        requires
            hi == 0x1_0000_0000,
            target <= 0xffff_ffff_ffff_ffff,
    ;
    while hi - lo > 1
        invariant
            target == n,
            lo < hi,
            hi <= 0x1_0000_0000,
            lo * lo <= target,
            target < hi * hi,
        decreases hi - lo,
    {
        let mid = lo + (hi - lo) / 2;
        assert(mid * mid <= 0x1_0000_0000 * 0x1_0000_0000) by (nonlinear_arith)
            requires
                mid <= 0x1_0000_0000,
        ;
        if mid * mid <= target {
            lo = mid;
        } else {
            hi = mid;
        }
    }
    proof {
        assert(hi == lo + 1);
        if exists|s: int| even_square_side(n as int, s) {
            let s = choose|s: int| even_square_side(n as int, s);
            lemma_square_root_unique(lo as int, s, n as int);
        }
    }
    if lo > 0 && lo * lo == target && lo % 2 == 0 {
        assert(lo <= target) by (nonlinear_arith)
            requires
                lo > 0,
                lo * lo == target,
        ;
        assert(even_square_side(n as int, lo as int));
        Ok(lo as usize)
    } else {
        proof {
            reveal_strlit("n must be a perfect square with an even square root");
        }
        Err(FluidError::Configuration("n must be a perfect square with an even square root".to_owned()))
    }
}

} // verus!

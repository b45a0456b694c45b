//! The integer bookkeeping of the line's FFT: the bit-reversal permutation
//! that orders its input, and the order of its wavenumbers.

use vstd::prelude::*;
use vstd::arithmetic::div_mod::{
    lemma_fundamental_div_mod, lemma_fundamental_div_mod_converse, lemma_mod_pos_bound,
};

verus! {

/// The integer wavenumber at position `j` of an FFT of length `n`.
pub open spec fn wavenumber(n: int, j: int) -> int {
    if j < n / 2 {
        j
    } else {
        j - n
    }
}

/// The integer wavenumbers in the FFT's order, `0, 1, ..., n/2-1, -n/2, ..., -1`.
pub fn integer_wavenumbers(n: usize) -> (k: Vec<i64>)
    requires
        n <= i64::MAX,
    ensures
        k@.len() == n,
        forall|j: int| 0 <= j < n ==> #[trigger] k@[j] == wavenumber(n as int, j),
{
    let mut k: Vec<i64> = Vec::new();
    let half = n / 2;
    let mut j: usize = 0;
    while j < n
        invariant
            n <= i64::MAX,
            half == n / 2,
            j <= n,
            k@.len() == j,
            forall|i: int| 0 <= i < j ==> #[trigger] k@[i] == wavenumber(n as int, i),
        decreases n - j,
    {
        if j < half {
            k.push(j as i64);
        } else {
            k.push(j as i64 - n as i64);
        }
        j = j + 1;
    }
    k
}

/// `2^b`.
pub open spec fn two_to(b: nat) -> nat
    decreases b,
{
    if b == 0 {
        1
    } else {
        2 * two_to((b - 1) as nat)
    }
}

/// The lowest `b` bits of `i` in reverse order.
pub open spec fn reverse_bits(i: nat, b: nat) -> nat
    decreases b,
{
    if b == 0 {
        0
    } else {
        (i % 2) * two_to((b - 1) as nat) + reverse_bits(i / 2, (b - 1) as nat)
    }
}

/// Adding one to a bit-reversed number: from the top bit of `m` down, clear
/// the set bits, then set the first clear one.
pub open spec fn reverse_increment(j: nat, m: nat) -> nat
    decreases m,
{
    if m == 0 {
        j
    } else if (j / two_to((m - 1) as nat)) % 2 == 1 {
        reverse_increment((j - two_to((m - 1) as nat)) as nat, (m - 1) as nat)
    } else {
        j + two_to((m - 1) as nat)
    }
}

pub proof fn lemma_two_to_positive(b: nat)
    ensures
        two_to(b) >= 1,
    decreases b,
{
    if b > 0 {
        lemma_two_to_positive((b - 1) as nat);
    }
}

/// Reversing `b` bits gives a number below `2^b`.
pub proof fn lemma_reverse_bound(i: nat, b: nat)
    ensures
        reverse_bits(i, b) < two_to(b),
    decreases b,
{
    if b > 0 {
        lemma_reverse_bound(i / 2, (b - 1) as nat);
        lemma_two_to_positive((b - 1) as nat);
        if i % 2 == 0 {
        } else {
            assert(i % 2 == 1);
        }
    }
}

/// `h + w` with `w < h` has quotient one and remainder `w` by `h`.
proof fn lemma_top_split(h: nat, w: nat, top: nat)
    requires
        w < h,
        top == 0 || top == 1,
    ensures
        ((top * h + w) as int) / (h as int) == top,
        ((top * h + w) as int) % (h as int) == w,
{
    lemma_fundamental_div_mod_converse((top * h + w) as int, h as int, top as int, w as int);
}

/// Counting up by one in the natural order is a reverse increment in the
/// bit-reversed order.
pub proof fn lemma_reverse_increment(i: nat, b: nat)
    requires
        i + 1 < two_to(b),
    ensures
        reverse_bits(i + 1, b) == reverse_increment(reverse_bits(i, b), b),
    decreases b,
{
    if b == 0 {
        assert(false);
    } else {
        let h = two_to((b - 1) as nat);
        let w = reverse_bits(i / 2, (b - 1) as nat);
        lemma_reverse_bound(i / 2, (b - 1) as nat);
        if i % 2 == 0 {
            assert((i + 1) / 2 == i / 2);
            assert(reverse_bits(i, b) == 0 * h + w);
            lemma_top_split(h, w, 0);
        } else {
            assert((i + 1) / 2 == i / 2 + 1);
            assert(reverse_bits(i, b) == 1 * h + w);
            lemma_top_split(h, w, 1);
            lemma_reverse_increment(i / 2, (b - 1) as nat);
        }
    }
}

/// Peeling the top bit instead of the bottom one: the reversal of `i` is twice
/// the reversal of its low bits plus its top bit.
pub proof fn lemma_reverse_top(i: nat, b: nat)
    requires
        b >= 1,
        i < two_to(b),
    ensures
        reverse_bits(i, b) == 2 * reverse_bits(i % two_to((b - 1) as nat), (b - 1) as nat) + i
            / two_to((b - 1) as nat),
    decreases b,
{
    let h = two_to((b - 1) as nat);
    lemma_two_to_positive((b - 1) as nat);
    if b == 1 {
        assert(h == 1);
        assert(i % 1 == 0);
        assert(i / 1 == i);
        assert(i < 2);
    } else {
        let q = two_to((b - 2) as nat);
        lemma_two_to_positive((b - 2) as nat);
        assert(h == 2 * q);
        let a = (i as int) / (h as int);
        let r = (i as int) % (h as int);
        lemma_fundamental_div_mod(i as int, h as int);
        lemma_mod_pos_bound(i as int, h as int);
        assert(i == 2 * (q * a + r / 2) + r % 2) by (nonlinear_arith)
            requires
                i == h * a + r,
                h == 2 * q,
                r == 2 * (r / 2) + r % 2,
        ;
        lemma_fundamental_div_mod_converse(i as int, 2, (q as int) * a + r / 2, r % 2);
        assert(0 <= r / 2 < q);
        lemma_fundamental_div_mod_converse(i as int / 2, q as int, a, r / 2);
        assert(i / 2 < h);
        lemma_reverse_top(i / 2, (b - 1) as nat);
        assert(r % 2 == i % 2);
        assert(((i / 2) as int) % (q as int) == r / 2);
        assert(((i / 2) as int) / (q as int) == a);
        let t = (i % 2) as int;
        assert(t * (h as int) == 2 * (t * (q as int))) by (nonlinear_arith)
            requires
                h == 2 * q,
        ;
        assert(reverse_bits(i, b) == t * h + reverse_bits(i / 2, (b - 1) as nat));
        assert(reverse_bits((r as nat), (b - 1) as nat) == t * q + reverse_bits((r / 2) as nat, (b - 2) as nat));
    }
}

/// Reversing twice gives the number back.
pub proof fn lemma_reverse_involution(i: nat, b: nat)
    requires
        i < two_to(b),
    ensures
        reverse_bits(reverse_bits(i, b), b) == i,
    decreases b,
{
    if b == 0 {
    } else {
        let h = two_to((b - 1) as nat);
        let w = reverse_bits(i / 2, (b - 1) as nat);
        let r = reverse_bits(i, b);
        lemma_reverse_bound(i / 2, (b - 1) as nat);
        lemma_reverse_bound(i, b);
        let top = i % 2;
        assert(r == top * h + w);
        lemma_top_split(h, w, top);
        lemma_reverse_top(r, b);
        lemma_reverse_involution(i / 2, (b - 1) as nat);
    }
}

/// Reversing the bits of zero gives zero.
pub proof fn lemma_reverse_zero(b: nat)
    ensures
        reverse_bits(0, b) == 0,
    decreases b,
{
    if b > 0 {
        lemma_reverse_zero((b - 1) as nat);
        assert(0nat % 2 == 0);
        assert(0nat / 2 == 0);
        assert(reverse_bits(0, b) == 0 * two_to((b - 1) as nat) + reverse_bits(0, (b - 1) as nat));
    }
}

/// `n` is `2^b` for some `b`.
pub open spec fn is_power_of_two(n: int) -> bool {
    exists|b: nat| two_to(b) == n
}

/// The `b` with `2^b == n`.
pub open spec fn log2_of(n: int) -> nat {
    choose|b: nat| two_to(b) == n
}

/// Where position `k` of the array takes its entry from once the positions
/// before `i` are done: pairs `(k, reverse(k))` with a member before `i` are
/// exchanged.
pub open spec fn source_after(k: int, b: nat, i: int) -> int {
    let r = reverse_bits(k as nat, b) as int;
    if k < i || r < i {
        r
    } else {
        k
    }
}

/// Put the entries of `a` in bit-reversed order: entry `k` moves to the
/// position whose index is `k` with its `log2(n)` bits reversed.
///
/// The permutation is built in one pass: the reversed index is counted up
/// alongside the index itself, and each pair is exchanged once, from its
/// smaller member.
pub fn bit_reverse<T: Copy>(a: &mut [T])
    requires
        is_power_of_two(old(a)@.len() as int),
    ensures
        final(a)@.len() == old(a)@.len(),
        forall|k: int|
            0 <= k < old(a)@.len() ==> #[trigger] final(a)@[k] == old(a)@[reverse_bits(
                k as nat,
                log2_of(old(a)@.len() as int),
            ) as int],
{
    let n = a.len();
    let ghost b = log2_of(n as int);
    let ghost start = a@;
    let mut j: usize = 0;
    let mut i: usize = 1;
    proof {
        lemma_reverse_zero(b);
        lemma_two_to_positive(b);
        assert forall|k: int| 0 <= k < n implies #[trigger] a@[k] == start[source_after(k, b, 1)] by {
            lemma_reverse_bound(k as nat, b);
            if reverse_bits(k as nat, b) == 0 {
                lemma_reverse_involution(k as nat, b);
            }
        }
    }
    while i < n
        invariant
            n == a@.len(),
            n == two_to(b),
            start.len() == n,
            1 <= i <= n,
            j == reverse_bits((i - 1) as nat, b),
            forall|k: int| 0 <= k < n ==> #[trigger] a@[k] == start[source_after(k, b, i as int)],
        decreases n - i,
    {
        proof {
            lemma_reverse_increment((i - 1) as nat, b);
            lemma_reverse_bound((i - 1) as nat, b);
            lemma_reverse_bound(i as nat, b);
            lemma_two_to_positive((b - 1) as nat);
        }
        let mut bit: usize = n / 2;
        let ghost mut m: nat = b;
        while bit > 0 && (j / bit) % 2 == 1
            invariant
                1 <= b,
                m <= b,
                n == two_to(b),
                bit == (if m == 0 {
                    0
                } else {
                    two_to((m - 1) as nat)
                }),
                j < two_to(m),
                reverse_increment(j as nat, m) == reverse_bits(i as nat, b),
            decreases m,
        {
            proof {
                lemma_two_to_positive((m - 1) as nat);
                if m >= 2 {
                    lemma_two_to_positive((m - 2) as nat);
                }
                lemma_fundamental_div_mod(j as int, bit as int);
                lemma_mod_pos_bound(j as int, bit as int);
                let q = (j as int) / (bit as int);
                assert(0 <= q < 2) by (nonlinear_arith)
                    requires
                        j == bit * q + (j as int) % (bit as int),
                        0 <= (j as int) % (bit as int),
                        j < 2 * bit,
                        bit > 0,
                ;
                assert(q == 1);
                assert(j >= bit && j - bit < bit) by (nonlinear_arith)
                    requires
                        j == bit * q + (j as int) % (bit as int),
                        0 <= (j as int) % (bit as int) < bit,
                        q == 1,
                ;
            }
            j = j - bit;
            bit = bit / 2;
            proof {
                m = (m - 1) as nat;
            }
        }
        j = j + bit;
        assert(j == reverse_bits(i as nat, b));
        let ghost before = a@;
        if i < j {
            let x = a[i];
            let y = a[j];
            a[i] = y;
            a[j] = x;
        }
        proof {
            lemma_reverse_involution(i as nat, b);
            assert forall|k: int| 0 <= k < n implies #[trigger] a@[k] == start[source_after(k, b, i + 1)] by {
                lemma_reverse_bound(k as nat, b);
                lemma_reverse_involution(k as nat, b);
                assert(before[k] == start[source_after(k, b, i as int)]);
            }
        }
        i = i + 1;
    }
    proof {
        assert forall|k: int| 0 <= k < n implies #[trigger] a@[k] == start[reverse_bits(k as nat, b) as int] by {
            assert(a@[k] == start[source_after(k, b, n as int)]);
        }
    }
}

} // verus!

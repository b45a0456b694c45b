//! The course's fixed temperature sweep over several lattice sizes.

use vstd::prelude::*;

verus! {

/// A temperature of the course grid, in hundredths: every tenth from 1.50 to
/// 3.50, and every twentieth from 2.00 to 2.60 near the critical point.
pub open spec fn in_course_grid(x: int) -> bool {
    (150 <= x <= 350 && x % 10 == 0) || (200 <= x <= 260 && x % 5 == 0)
}

/// The course grid in hundredths, ascending and without repeats: the coarse
/// points and the critical points merged.
pub fn course_temperature_hundredths() -> (grid: Vec<i32>)
    ensures
        forall|i: int, j: int| 0 <= i < j < grid@.len() ==> grid@[i] < grid@[j],
        forall|i: int| 0 <= i < grid@.len() ==> in_course_grid(grid@[i] as int),
        forall|x: int| in_course_grid(x) ==> grid@.contains(x as i32),
{
    let mut grid: Vec<i32> = Vec::new();
    let mut x: i32 = 150;
    while x <= 350
        invariant
            150 <= x <= 355,
            x % 5 == 0,
            forall|i: int, j: int| 0 <= i < j < grid@.len() ==> grid@[i] < grid@[j],
            forall|i: int| 0 <= i < grid@.len() ==> #[trigger] grid@[i] < x && in_course_grid(grid@[i] as int),
            forall|y: int| 150 <= y < x && in_course_grid(y) ==> grid@.contains(y as i32),
        decreases 355 - x,
    {
        if x % 10 == 0 || (200 <= x && x <= 260) {
            let ghost before = grid@;
            grid.push(x);
            assert forall|y: int| 150 <= y < x + 5 && in_course_grid(y) implies grid@.contains(y as i32) by {
                if y < x {
                    let k = choose|k: int| 0 <= k < before.len() && before[k] == y as i32;
                    assert(grid@[k] == y as i32);
                } else {
                    assert(grid@[before.len() as int] == x);
                }
            }
        }
        x = x + 5;
    }
    grid
}

/// The seed of one lattice size in the sweep: size 32 draws from `seed + 1000`,
/// every other size from `seed` itself.
pub fn size_seed(l: usize, seed: u64) -> (size_seed: u64)
    requires
        l == 32 ==> seed + 1000 <= u64::MAX,
    ensures
        size_seed == if l == 32 {
            seed + 1000
        } else {
            seed as int
        },
{
    if l == 32 {
        seed + 1000
    } else {
        seed
    }
}

/// How many series rows a sweep wrote.
#[derive(Clone, Copy, Debug, PartialEq, Eq)]
pub struct TemperatureSweepSummary {
    pub rows: usize,
}

} // verus!

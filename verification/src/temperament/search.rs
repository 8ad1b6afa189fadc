//! Enumeration of a box of integer coefficients, the order in which a
//! bounded search over lattice coordinates visits its candidates.
use vstd::prelude::*;

verus! {

/// Every digit before `i` has reached its bound, so a step of the odometer
/// carries past it.
pub open spec fn carries_through(digits: Seq<i64>, bounds: Seq<i64>, i: int) -> bool {
    forall|j: int| 0 <= j < i ==> digits[j] >= bounds[j]
}

/// How many digits take part: the shorter of the two lists.
pub open spec fn paired(digits: Seq<i64>, bounds: Seq<i64>) -> int {
    if digits.len() <= bounds.len() {
        digits.len() as int
    } else {
        bounds.len() as int
    }
}

/// Advances an odometer whose digit `i` runs over `[-bounds[i], bounds[i]]`,
/// least significant first: the first digit below its bound goes up by one
/// and every digit before it returns to its lower end. Returns false when
/// every digit was at its bound, so that the odometer wrapped around and
/// the enumeration is complete. Digits without a bound are left alone.
pub fn advance(coefficients: &mut [i64], bounds: &[i64]) -> (r: bool)
    requires
        forall|i: int|
            0 <= i < paired(old(coefficients)@, bounds@) && carries_through(old(coefficients)@, bounds@, i + 1)
                ==> bounds@[i] != i64::MIN,
    ensures
        final(coefficients)@.len() == old(coefficients)@.len(),
        r == !carries_through(old(coefficients)@, bounds@, paired(old(coefficients)@, bounds@)),
        forall|i: int|
            0 <= i < old(coefficients)@.len() ==> #[trigger] final(coefficients)@[i] == (if i < paired(
                old(coefficients)@,
                bounds@,
            ) && carries_through(old(coefficients)@, bounds@, i + 1) {
                -bounds@[i]
            } else if i < paired(old(coefficients)@, bounds@) && carries_through(old(coefficients)@, bounds@, i) {
                old(coefficients)@[i] + 1
            } else {
                old(coefficients)@[i] as int
            }),
{
    let n: usize = if coefficients.len() <= bounds.len() {
        coefficients.len()
    } else {
        bounds.len()
    };
    let ghost start = coefficients@;
    let mut i: usize = 0;
    while i < n
        invariant
            start == old(coefficients)@,
            n == paired(start, bounds@),
            n <= start.len(),
            n <= bounds@.len(),
            i <= n,
            coefficients@.len() == start.len(),
            carries_through(start, bounds@, i as int),
            forall|j: int|
                0 <= j < paired(start, bounds@) && carries_through(start, bounds@, j + 1) ==> bounds@[j] != i64::MIN,
            forall|j: int| 0 <= j < i ==> #[trigger] coefficients@[j] == -bounds@[j],
            forall|j: int| i <= j < start.len() ==> #[trigger] coefficients@[j] == start[j],
        decreases n - i,
    {
        if coefficients[i] < bounds[i] {
            let next = coefficients[i] + 1;
            coefficients[i] = next;
            proof {
                assert forall|j: int| 0 <= j < start.len() implies #[trigger] coefficients@[j] == (if j < n
                    && carries_through(start, bounds@, j + 1) {
                    -bounds@[j]
                } else if j < n && carries_through(start, bounds@, j) {
                    start[j] + 1
                } else {
                    start[j] as int
                }) by {
                    if j > i {
                        assert(!carries_through(start, bounds@, j));
                    }
                    if j >= i {
                        assert(!carries_through(start, bounds@, j + 1));
                    }
                }
                assert(!carries_through(start, bounds@, n as int));
            }
            return true;
        }
        proof {
            assert(carries_through(start, bounds@, i + 1));
        }
        let low = -bounds[i];
        coefficients[i] = low;
        i += 1;
    }
    proof {
        assert forall|j: int| 0 <= j < start.len() implies #[trigger] coefficients@[j] == (if j < n
            && carries_through(start, bounds@, j + 1) {
            -bounds@[j]
        } else if j < n && carries_through(start, bounds@, j) {
            start[j] + 1
        } else {
            start[j] as int
        }) by {
            if j < n {
                assert(carries_through(start, bounds@, j + 1));
            }
        }
    }
    false
}

} // verus!

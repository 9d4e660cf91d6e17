//! Palindrome radii around each position of a sequence.

use vstd::prelude::*;

verus! {

/// `r` is a palindrome radius at `i`: the slice `s[i-r ..= i+r]` reads the
/// same in both directions.
pub open spec fn pal_radius(s: Seq<char>, i: int, r: int) -> bool {
    forall|t: int| 0 <= t <= r ==> s[i - t] == #[trigger] s[i + t]
}

/// For every position `i` of `s`, the largest `r` such that `s[i-r ..= i+r]`
/// is a palindrome. A window `[left, right]` known to be a palindrome seeds
/// each new position with the radius mirrored around the window's centre,
/// which keeps the total work linear.
pub fn palindrome_radiuses(s: &Vec<char>) -> (rs: Vec<usize>)
    ensures
        rs@.len() == s@.len(),
        forall|i: int|
            0 <= i < s@.len() ==> {
                let r = #[trigger] rs@[i] as int;
                &&& r <= i
                &&& i + r < s@.len()
                &&& pal_radius(s@, i, r)
                &&& (r < i && i + r + 1 < s@.len() ==> s@[i - r - 1] != s@[i + r + 1])
            },
{
    let n = s.len();
    let mut rs: Vec<usize> = Vec::new();
    if n == 0 {
        return rs;
    }
    let mut left: usize = 0;
    let mut right: usize = 0;
    let mut i: usize = 0;
    while i < n
        invariant
            i <= n,
            1 <= n == s@.len(),
            rs@.len() == i,
            left <= right,
            right < n,
            left <= i,
            forall|u: int|
                0 <= u <= right - left ==> #[trigger] s@[left + u] == s@[right - u],
            forall|m: int|
                0 <= m < i ==> {
                    let r = #[trigger] rs@[m] as int;
                    &&& r <= m
                    &&& m + r < n
                    &&& pal_radius(s@, m, r)
                    &&& (r < m && m + r + 1 < n ==> s@[m - r - 1] != s@[m + r + 1])
                },
        decreases n - i,
    {
        let mut r: usize = 0;
        if i <= right {
            let mirror = right - (i - left);
            if mirror < i {
                let seeded = rs[mirror];
                let room = right - i;
                r = if seeded < room {
                    seeded
                } else {
                    room
                };
                proof {
                    let mi = mirror as int;
                    assert forall|t: int| 0 <= t <= r as int implies s@[i - t] == #[trigger] s@[i
                        + t] by {
                        // The window reflects i + t and i - t around its
                        // centre onto mirror - t and mirror + t ...
                        assert(s@[left + ((i + t) - left)] == s@[right - ((i + t) - left)]);
                        assert(s@[left + ((i - t) - left)] == s@[right - ((i - t) - left)]);
                        // ... and the mirrored radius links those two.
                        assert(s@[mi - t] == s@[mi + t]);
                    }
                    assert(pal_radius(s@, i as int, r as int));
                }
            }
        }
        while r < i && i + r + 1 < n && s[i - r - 1] == s[i + r + 1]
            invariant
                i < n,
                n == s@.len(),
                r <= i,
                i + r < n,
                pal_radius(s@, i as int, r as int),
            decreases n - r,
        {
            r += 1;
        }
        rs.push(r);
        if i + r >= right {
            proof {
                assert forall|u: int| 0 <= u <= (i + r) - (i - r) implies #[trigger] s@[(i - r)
                    + u] == s@[(i + r) - u] by {
                    if u <= r as int {
                        assert(s@[i - (r - u)] == s@[i + (r - u)]);
                    } else {
                        assert(s@[i - (u - r)] == s@[i + (u - r)]);
                    }
                }
            }
            left = i - r;
            right = i + r;
        }
        i += 1;
    }
    rs
}

} // verus!

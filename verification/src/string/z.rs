//! Longest common prefix of a sequence with each of its suffixes.

use vstd::prelude::*;

verus! {

/// The prefix of length `k` of `s` matches `s` at position `i`.
pub open spec fn prefix_match(s: Seq<char>, i: int, k: int) -> bool {
    forall|t: int| 0 <= t < k ==> s[t] == #[trigger] s[i + t]
}

/// For every position `i` of `s`, the length of the longest common prefix of
/// `s` and the suffix `s[i..]`; position `0` gets the whole length. A window
/// `[left, right]` known to match the prefix seeds each new position with the
/// value mirrored from `i - left`, which keeps the total work linear.
pub fn z_algorithm(s: &Vec<char>) -> (z: Vec<usize>)
    ensures
        z@.len() == s@.len(),
        s@.len() > 0 ==> z@[0] == s@.len(),
        forall|i: int|
            1 <= i < s@.len() ==> {
                let k = #[trigger] z@[i] as int;
                &&& k <= s@.len() - i
                &&& prefix_match(s@, i, k)
                &&& i + k < s@.len() ==> s@[k] != s@[i + k]
            },
{
    let n = s.len();
    let mut z: Vec<usize> = Vec::new();
    if n == 0 {
        return z;
    }
    z.push(n);
    let mut left: usize = 0;
    let mut right: usize = 0;
    let mut i: usize = 1;
    while i < n
        invariant
            1 <= i <= n,
            n == s@.len(),
            z@.len() == i,
            z@[0] == n,
            left < i,
            left <= right + 1,
            right < n,
            i <= right ==> 1 <= left,
            prefix_match(s@, left as int, right + 1 - left),
            forall|m: int|
                1 <= m < i ==> {
                    let k = #[trigger] z@[m] as int;
                    &&& k <= n - m
                    &&& prefix_match(s@, m, k)
                    &&& m + k < n ==> s@[k] != s@[m + k]
                },
        decreases n - i,
    {
        let mut k: usize = 0;
        if i <= right {
            let mirrored = z[i - left];
            let room = right - i + 1;
            k = if mirrored < room {
                mirrored
            } else {
                room
            };
            proof {
                let j = i - left;
                assert forall|t: int| 0 <= t < k as int implies s@[t] == #[trigger] s@[i + t] by {
                    // The window maps position i + t back to j + t ...
                    assert(s@[j + t] == s@[left + (j + t)]);
                    // ... and the mirrored entry maps j + t back to t.
                    if j > 0 {
                        assert(z@[j as int] as int >= k as int);
                        assert(s@[t] == s@[j + t]);
                    }
                }
                assert(prefix_match(s@, i as int, k as int));
            }
        }
        while i + k < n && s[k] == s[i + k]
            invariant
                1 <= i < n,
                n == s@.len(),
                k <= n - i,
                prefix_match(s@, i as int, k as int),
            decreases n - i - k,
        {
            k += 1;
        }
        z.push(k);
        if right <= i + k {
            left = i;
            right = i + k - 1;
        }
        i += 1;
    }
    z
}

} // verus!

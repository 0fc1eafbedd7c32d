use vstd::prelude::*;

verus! {

/// `z` is the Z-value of position `i` in `s`: `s[i..]` and `s` share a
/// common prefix of exactly `z` bytes.
pub open spec fn z_ok(s: Seq<u8>, i: int, z: int) -> bool {
    &&& 0 <= z <= s.len() - i
    &&& forall|t: int| 0 <= t < z ==> #[trigger] s[i + t] == s[t]
    &&& (i + z == s.len() || s[z] != s[i + z])
}

/// The Z-array of `s`: for every position `i >= 1`, the length of the
/// longest prefix of `s` that also starts at `i` (position `0` is left `0`
/// by convention). Computed with the usual Z-box window in linear time.
pub fn get_z_array(s: &[u8]) -> (z: Vec<usize>)
    ensures
        z@.len() == s@.len(),
        s@.len() > 0 ==> z@[0] == 0,
        forall|i: int| 1 <= i < s@.len() ==> z_ok(s@, i, #[trigger] z@[i] as int),
{
    let n = s.len();
    let mut z: Vec<usize> = Vec::new();
    while z.len() < n
        invariant
            z@.len() <= n,
            forall|j: int| 0 <= j < z@.len() ==> z@[j] == 0usize,
        decreases n - z@.len(),
    {
        z.push(0);
    }

    let mut left: usize = 0;
    let mut right: usize = 0;
    let mut i: usize = 1;
    while i < n
        invariant
            1 <= i,
            n == s@.len(),
            z@.len() == n,
            n > 0 ==> z@[0] == 0usize,
            forall|j: int| 1 <= j < i ==> z_ok(s@, j, #[trigger] z@[j] as int),
            left < i,
            right == 0 || left >= 1,
            left <= right <= n,
            forall|t: int| 0 <= t < right - left ==> #[trigger] s@[left + t] == s@[t],
        decreases n - i,
    {
        if i >= right {
            left = i;
            right = i;
            while right < n && s[right - left] == s[right]
                invariant
                    left == i,
                    i <= right <= n,
                    n == s@.len(),
                    forall|t: int| 0 <= t < right - left ==> #[trigger] s@[left + t] == s@[t],
                decreases n - right,
            {
                right += 1;
            }
            z[i] = right - left;
        } else {
            let k = i - left;
            let zk = z[k];
            if zk < right - i {
                proof {
                    assert(z_ok(s@, k as int, zk as int));
                    assert forall|t: int| 0 <= t < zk implies #[trigger] s@[i + t] == s@[t] by {
                        assert(s@[k + t] == s@[t]);
                        assert(s@[left + (k + t)] == s@[k + t]);
                    }
                    // the mismatch that ends the run at `k` also ends it at `i`
                    assert(k + zk < right - left);
                    assert(s@[left + (k + zk)] == s@[k + zk]);
                }
                z[i] = zk;
            } else {
                proof {
                    assert(z_ok(s@, k as int, zk as int));
                    assert forall|t: int| 0 <= t < right - i implies #[trigger] s@[i + t] == s@[t] by {
                        assert(s@[left + (k + t)] == s@[k + t]);
                        assert(s@[k + t] == s@[t]);
                    }
                }
                left = i;
                while right < n && s[right - left] == s[right]
                    invariant
                        left == i,
                        i <= right <= n,
                        n == s@.len(),
                        forall|t: int| 0 <= t < right - left ==> #[trigger] s@[left + t] == s@[t],
                    decreases n - right,
                {
                    right += 1;
                }
                z[i] = right - left;
            }
        }
        i += 1;
    }
    z
}

} // verus!

//! Element-wise comparison of two snapshots and the byte histogram that
//! downstream analyses (such as an entropy estimate) are computed from.

use vstd::prelude::*;

verus! {

/// How often `b` occurs in `s`.
pub open spec fn count_byte(s: Seq<u8>, b: u8) -> nat
    decreases s.len(),
{
    if s.len() == 0 {
        0
    } else {
        count_byte(s.drop_last(), b) + if s.last() == b {
            1nat
        } else {
            0nat
        }
    }
}

proof fn lemma_count_byte_le_len(s: Seq<u8>, b: u8)
    ensures
        count_byte(s, b) <= s.len(),
    decreases s.len(),
{
    if s.len() > 0 {
        lemma_count_byte_le_len(s.drop_last(), b);
    }
}

/// Position-wise equality of two snapshots, over their common prefix.
pub fn same(a: &[u8], b: &[u8]) -> (r: Vec<bool>)
    ensures
        r@.len() == if a@.len() <= b@.len() {
            a@.len()
        } else {
            b@.len()
        },
        forall|i: int| 0 <= i < r@.len() ==> r@[i] == (a@[i] == b@[i]),
{
    let n = if a.len() <= b.len() {
        a.len()
    } else {
        b.len()
    };
    let mut r: Vec<bool> = Vec::new();
    let mut i: usize = 0;
    while i < n
        invariant
            0 <= i <= n,
            n <= a@.len() && n <= b@.len(),
            r@.len() == i,
            forall|j: int| 0 <= j < i ==> r@[j] == (a@[j] == b@[j]),
        decreases n - i,
    {
        r.push(a[i] == b[i]);
        i = i + 1;
    }
    r
}

/// Position-wise "grew" of two snapshots, over their common prefix:
/// whether the byte in `a` exceeds the byte at the same position in `b`.
pub fn increase(a: &[u8], b: &[u8]) -> (r: Vec<bool>)
    ensures
        r@.len() == if a@.len() <= b@.len() {
            a@.len()
        } else {
            b@.len()
        },
        forall|i: int| 0 <= i < r@.len() ==> r@[i] == (a@[i] > b@[i]),
{
    let n = if a.len() <= b.len() {
        a.len()
    } else {
        b.len()
    };
    let mut r: Vec<bool> = Vec::new();
    let mut i: usize = 0;
    while i < n
        invariant
            0 <= i <= n,
            n <= a@.len() && n <= b@.len(),
            r@.len() == i,
            forall|j: int| 0 <= j < i ==> r@[j] == (a@[j] > b@[j]),
        decreases n - i,
    {
        r.push(a[i] > b[i]);
        i = i + 1;
    }
    r
}

/// Occurrence count of every byte value in a buffer: slot `v` holds how
/// often `v` occurs.  The integer half of an entropy estimate; the
/// floating-point half belongs to the unverified consumer.
pub fn byte_frequencies(data: &[u8]) -> (r: Vec<u64>)
    ensures
        r@.len() == 256,
        forall|v: u8| r@[v as int] == count_byte(data@, v),
{
    let mut counts: Vec<u64> = Vec::new();
    let mut k: usize = 0;
    while k < 256
        invariant
            0 <= k <= 256,
            counts@.len() == k,
            forall|j: int| 0 <= j < k ==> counts@[j] == 0,
        decreases 256 - k,
    {
        counts.push(0);
        k = k + 1;
    }
    proof {
        assert(forall|v: u8| count_byte(data@.take(0), v) == 0);
    }
    let mut i: usize = 0;
    while i < data.len()
        invariant
            0 <= i <= data@.len(),
            counts@.len() == 256,
            forall|v: u8| counts@[v as int] == count_byte(data@.take(i as int), v),
        decreases data@.len() - i,
    {
        let b = data[i];
        let idx = b as usize;
        let c = counts[idx];
        proof {
            lemma_count_byte_le_len(data@.take(i as int), b);
        }
        counts.set(idx, c + 1);
        proof {
            assert forall|v: u8| counts@[v as int] == count_byte(
                data@.take(i + 1),
                v,
            ) by {
                assert(data@.take(i + 1).drop_last() =~= data@.take(i as int));
                assert(data@.take(i + 1).last() == data@[i as int]);
            }
        }
        i = i + 1;
    }
    proof {
        assert(data@.take(data@.len() as int) =~= data@);
    }
    counts
}

} // verus!

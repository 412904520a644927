//! Sorting and distinct-counting helpers for term-id vectors.

use vstd::prelude::*;


verus! {

/// True if `s` is sorted in non-decreasing order.
pub open spec fn sorted_u32(s: Seq<u32>) -> bool {
    forall|i: int, j: int| 0 <= i < j < s.len() ==> #[trigger] s[i] <= #[trigger] s[j]
}

/// True if `s` is sorted strictly.
pub open spec fn strictly_sorted_u32(s: Seq<u32>) -> bool {
    forall|i: int, j: int| 0 <= i < j < s.len() ==> #[trigger] s[i] < #[trigger] s[j]
}

/// Sort the vector in non-decreasing order, keeping exactly the same
/// multiset of elements.
pub fn sort_u32s(v: &mut Vec<u32>)
    ensures
        sorted_u32(final(v)@),
        final(v)@.to_multiset() == old(v)@.to_multiset(),
        final(v)@.len() == old(v)@.len(),
{
    broadcast use vstd::seq_lib::group_to_multiset_ensures;

    let mut out: Vec<u32> = Vec::new();
    let ghost orig = v@;
    while v.len() > 0
        invariant
            out@.to_multiset().add(v@.to_multiset()) == orig.to_multiset(),
            out@.len() + v@.len() == orig.len(),
            sorted_u32(out@),
            forall|i: int, j: int|
                0 <= i < out@.len() && 0 <= j < v@.len() ==> #[trigger] out@[i]
                    <= #[trigger] v@[j],
        decreases v@.len(),
    {
        // Find the index of a minimum of what is left.
        let n = v.len();
        let mut m: usize = 0;
        let mut i: usize = 1;
        while i < n
            invariant
                n == v@.len(),
                0 < n,
                m < i <= n || (i <= 1 && m == 0),
                m < n,
                forall|j: int| 0 <= j < i ==> v@[m as int] <= #[trigger] v@[j],
            decreases n - i,
        {
            if v[i] < v[m] {
                m = i;
            }
            i = i + 1;
        }
        let ghost vbefore = v@;
        let ghost obefore = out@;
        let x = v.remove(m);
        out.push(x);
        proof {
            vbefore.to_multiset_ensures();
            obefore.to_multiset_ensures();
            assert(vbefore.remove(m as int).to_multiset() =~= vbefore.to_multiset().remove(x));
            assert(obefore.push(x).to_multiset() =~= obefore.to_multiset().insert(x));
            assert(vbefore.to_multiset().count(x) > 0) by {
                assert(vbefore.contains(x));
            }
            assert(out@.to_multiset().add(v@.to_multiset()) =~= orig.to_multiset());
            assert forall|i2: int, j2: int|
                0 <= i2 < out@.len() && 0 <= j2 < v@.len() implies #[trigger] out@[i2]
                <= #[trigger] v@[j2] by {
                if j2 < m {
                    assert(v@[j2] == vbefore[j2]);
                } else {
                    assert(v@[j2] == vbefore[j2 + 1]);
                }
                if i2 < obefore.len() {
                    assert(out@[i2] == obefore[i2]);
                } else {
                    assert(out@[i2] == x);
                }
            }
        }
    }
    *v = out;
}

/// The number of runs of equal values in a sorted sequence, which for a
/// sorted sequence is the number of distinct values.
pub open spec fn spec_run_count(s: Seq<u32>) -> int
    decreases s.len(),
{
    if s.len() == 0 {
        0
    } else if s.len() == 1 {
        1
    } else if s[s.len() - 1] == s[s.len() - 2] {
        spec_run_count(s.drop_last())
    } else {
        spec_run_count(s.drop_last()) + 1
    }
}

/// Count the distinct values of `v`, which must come sorted.
pub fn count_distinct_sorted(v: &Vec<u32>) -> (r: usize)
    requires
        sorted_u32(v@),
    ensures
        r == spec_run_count(v@),
        r <= v@.len(),
{
    let n = v.len();
    if n == 0 {
        return 0;
    }
    let mut count: usize = 1;
    let mut i: usize = 1;
    proof {
        lemma_run_count_bounds(v@.take(1));
    }
    while i < n
        invariant
            n == v@.len(),
            1 <= i <= n,
            count == spec_run_count(v@.take(i as int)),
            count <= i,
        decreases n - i,
    {
        proof {
            assert(v@.take(i + 1).drop_last() =~= v@.take(i as int));
            assert(v@.take(i + 1)[i as int] == v@[i as int]);
        }
        if v[i] != v[i - 1] {
            count = count + 1;
        }
        i = i + 1;
    }
    proof {
        assert(v@.take(n as int) =~= v@);
    }
    count
}

proof fn lemma_run_count_bounds(s: Seq<u32>)
    ensures
        0 <= spec_run_count(s) <= s.len(),
        s.len() > 0 ==> spec_run_count(s) >= 1,
    decreases s.len(),
{
    if s.len() > 1 {
        lemma_run_count_bounds(s.drop_last());
    }
}

} // verus!

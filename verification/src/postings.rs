//! The reverse map from term id to the set of templates whose columns
//! hold that term, stored compactly: most terms appear in one template.

use vstd::prelude::*;
use crate::groups::DocGroup;
use crate::prelim::PreliminaryIndex;

verus! {

/// A compact set of template ids: empty, a single id, or a sorted,
/// deduplicated vector.
#[derive(Debug, Clone)]
pub enum TemplateIdSet {
    Single(Option<u32>),
    Many(Vec<u32>),
}

/// The ids a set holds, in increasing order.
pub open spec fn tids(s: TemplateIdSet) -> Seq<u32> {
    match s {
        TemplateIdSet::Single(o) => match o {
            Option::None => Seq::empty(),
            Option::Some(x) => seq![x],
        },
        TemplateIdSet::Many(v) => v@,
    }
}

/// True if the set holds `x`.
pub open spec fn tset_contains(s: TemplateIdSet, x: u32) -> bool {
    tids(s).contains(x)
}

/// The ids are strictly increasing, hence pairwise distinct.
pub open spec fn tset_wf(s: TemplateIdSet) -> bool {
    forall|i: int, j: int|
        0 <= i < j < tids(s).len() ==> #[trigger] tids(s)[i] < #[trigger] tids(s)[j]
}

/// `x` put into its place in a sorted sequence; present values stay put.
pub open spec fn sorted_insert(s: Seq<u32>, x: u32) -> Seq<u32>
    decreases s.len(),
{
    if s.len() == 0 {
        seq![x]
    } else if x < s[0] {
        seq![x] + s
    } else if x == s[0] {
        s
    } else {
        seq![s[0]] + sorted_insert(s.drop_first(), x)
    }
}

/// What a sorted insert guarantees: order kept, membership is the old
/// membership plus `x`, and the length grows exactly on a fresh value.
pub proof fn lemma_sorted_insert_props(s: Seq<u32>, x: u32)
    requires
        forall|i: int, j: int| 0 <= i < j < s.len() ==> #[trigger] s[i] < #[trigger] s[j],
    ensures
        forall|i: int, j: int|
            0 <= i < j < sorted_insert(s, x).len() ==> #[trigger] sorted_insert(s, x)[i]
                < #[trigger] sorted_insert(s, x)[j],
        forall|y: u32| sorted_insert(s, x).contains(y) <==> (s.contains(y) || y == x),
        sorted_insert(s, x).len() == s.len() + (if s.contains(x) {
            0int
        } else {
            1int
        }),
    decreases s.len(),
{
    let r = sorted_insert(s, x);
    if s.len() == 0 {
        assert forall|y: u32| r.contains(y) implies (s.contains(y) || y == x) by {
            let w = choose|w: int| 0 <= w < r.len() && r[w] == y;
        }
        assert(r.contains(x)) by {
            assert(r[0] == x);
        }
        assert(!s.contains(x));
    } else if x < s[0] {
        assert forall|y: u32| r.contains(y) implies (s.contains(y) || y == x) by {
            let w = choose|w: int| 0 <= w < r.len() && r[w] == y;
            if w > 0 {
                assert(s[w - 1] == y);
            }
        }
        assert forall|y: u32| s.contains(y) || y == x implies r.contains(y) by {
            if y == x {
                assert(r[0] == y);
            } else {
                let w = choose|w: int| 0 <= w < s.len() && s[w] == y;
                assert(r[w + 1] == y);
            }
        }
        assert(!s.contains(x)) by {
            if s.contains(x) {
                let w = choose|w: int| 0 <= w < s.len() && s[w] == x;
                if w > 0 {
                    assert(s[0] < s[w]);
                }
            }
        }
    } else if x == s[0] {
        assert(s.contains(x)) by {
            assert(s[0] == x);
        }
    } else {
        let tail = s.drop_first();
        assert forall|i: int, j: int|
            0 <= i < j < tail.len() implies #[trigger] tail[i] < #[trigger] tail[j] by {
            assert(s[i + 1] < s[j + 1]);
        }
        lemma_sorted_insert_props(tail, x);
        let rt = sorted_insert(tail, x);
        assert(r =~= seq![s[0]] + rt);
        // Every element of the recursive result is above the head.
        assert forall|i: int, j: int|
            0 <= i < j < r.len() implies #[trigger] r[i] < #[trigger] r[j] by {
            if i == 0 && j > 0 {
                let y = rt[j - 1];
                assert(rt.contains(y)) by {
                    assert(rt[j - 1] == y);
                }
                if tail.contains(y) {
                    let w = choose|w: int| 0 <= w < tail.len() && tail[w] == y;
                    assert(s[0] < s[w + 1]);
                } else {
                    assert(y == x);
                }
            } else if i > 0 {
                assert(rt[i - 1] < rt[j - 1]);
            }
        }
        assert forall|y: u32| r.contains(y) implies (s.contains(y) || y == x) by {
            let w = choose|w: int| 0 <= w < r.len() && r[w] == y;
            if w == 0 {
                assert(s[0] == y);
            } else {
                assert(rt[w - 1] == y);
                assert(rt.contains(y)) by {
                    assert(rt[w - 1] == y);
                }
                if tail.contains(y) {
                    let w2 = choose|w2: int| 0 <= w2 < tail.len() && tail[w2] == y;
                    assert(s[w2 + 1] == y);
                }
            }
        }
        assert forall|y: u32| s.contains(y) || y == x implies r.contains(y) by {
            if y == x {
                assert(rt.contains(x));
                let w = choose|w: int| 0 <= w < rt.len() && rt[w] == x;
                assert(r[w + 1] == x);
            } else {
                let w = choose|w: int| 0 <= w < s.len() && s[w] == y;
                if w == 0 {
                    assert(r[0] == y);
                } else {
                    assert(tail[w - 1] == y);
                    assert(tail.contains(y)) by {
                        assert(tail[w - 1] == y);
                    }
                    assert(rt.contains(y));
                    let w2 = choose|w2: int| 0 <= w2 < rt.len() && rt[w2] == y;
                    assert(r[w2 + 1] == y);
                }
            }
        }
        assert(s.contains(x) == tail.contains(x)) by {
            if s.contains(x) {
                let w = choose|w: int| 0 <= w < s.len() && s[w] == x;
                assert(w != 0);
                assert(tail[w - 1] == x);
                assert(tail.contains(x)) by {
                    assert(tail[w - 1] == x);
                }
            }
            if tail.contains(x) {
                let w = choose|w: int| 0 <= w < tail.len() && tail[w] == x;
                assert(s[w + 1] == x);
            }
        }
    }
}

/// Put `x` into a strictly sorted vector, keeping it sorted; a present
/// value is left alone.
pub fn sorted_insert_vec(vec: &mut Vec<u32>, x: u32)
    requires
        forall|i: int, j: int|
            0 <= i < j < old(vec)@.len() ==> #[trigger] old(vec)@[i] < #[trigger] old(vec)@[j],
    ensures
        final(vec)@ == sorted_insert(old(vec)@, x),
{
    let n = vec.len();
    let mut i: usize = 0;
    while i < n && vec[i] < x
        invariant
            n == vec@.len(),
            vec@ == old(vec)@,
            i <= n,
            forall|j: int| 0 <= j < i ==> #[trigger] vec@[j] < x,
        decreases n - i,
    {
        i = i + 1;
    }
    if i < n && vec[i] == x {
        proof {
            lemma_sorted_insert_eq(vec@, x, i as int);
        }
        return ;
    }
    proof {
        lemma_sorted_insert_at(vec@, x, i as int);
    }
    vec.insert(i, x);
}

/// Inserting a value found at `pos` changes nothing.
proof fn lemma_sorted_insert_eq(s: Seq<u32>, x: u32, pos: int)
    requires
        forall|i: int, j: int| 0 <= i < j < s.len() ==> #[trigger] s[i] < #[trigger] s[j],
        0 <= pos < s.len(),
        s[pos] == x,
    ensures
        sorted_insert(s, x) == s,
    decreases s.len(),
{
    if pos == 0 {
    } else {
        assert(s[0] < s[pos]);
        let tail = s.drop_first();
        assert forall|i: int, j: int|
            0 <= i < j < tail.len() implies #[trigger] tail[i] < #[trigger] tail[j] by {
            assert(s[i + 1] < s[j + 1]);
        }
        assert(tail[pos - 1] == x);
        lemma_sorted_insert_eq(tail, x, pos - 1);
        assert(sorted_insert(s, x) =~= s);
    }
}

/// Inserting a missing value places it at the first position whose entry
/// exceeds it.
proof fn lemma_sorted_insert_at(s: Seq<u32>, x: u32, pos: int)
    requires
        forall|i: int, j: int| 0 <= i < j < s.len() ==> #[trigger] s[i] < #[trigger] s[j],
        0 <= pos <= s.len(),
        forall|i: int| 0 <= i < pos ==> #[trigger] s[i] < x,
        pos < s.len() ==> s[pos] != x && !(s[pos] < x),
    ensures
        sorted_insert(s, x) == s.insert(pos, x),
    decreases s.len(),
{
    if s.len() == 0 {
        assert(sorted_insert(s, x) =~= s.insert(0, x));
    } else if pos == 0 {
        assert(x < s[0]);
        assert(sorted_insert(s, x) =~= s.insert(0, x));
    } else {
        assert(s[0] < x);
        let tail = s.drop_first();
        assert forall|i: int, j: int|
            0 <= i < j < tail.len() implies #[trigger] tail[i] < #[trigger] tail[j] by {
            assert(s[i + 1] < s[j + 1]);
        }
        assert forall|i: int| 0 <= i < pos - 1 implies #[trigger] tail[i] < x by {
            assert(s[i + 1] < x);
        }
        lemma_sorted_insert_at(tail, x, pos - 1);
        assert(sorted_insert(s, x) =~= s.insert(pos, x));
    }
}

impl TemplateIdSet {
    /// The empty set.
    pub fn new() -> (r: TemplateIdSet)
        ensures
            tids(r) =~= Seq::<u32>::empty(),
            tset_wf(r),
    {
        TemplateIdSet::Single(None)
    }

    /// Add one template id, keeping the ids sorted and deduplicated: a
    /// present id is a no-op, a fresh one lands in its sorted place.
    pub fn insert(&mut self, template_id: u32)
        requires
            tset_wf(*old(self)),
        ensures
            tset_wf(*final(self)),
            tids(*final(self)) == sorted_insert(tids(*old(self)), template_id),
            forall|y: u32|
                #[trigger] tset_contains(*final(self), y) <==> (tset_contains(*old(self), y) || y
                    == template_id),
            *old(self) == TemplateIdSet::Single(None::<u32>) ==> *final(self)
                == TemplateIdSet::Single(Some(template_id)),
            (*old(self)) is Single && (*old(self))->Single_0 == Some(template_id) ==> *final(self)
                == *old(self),
            (*old(self)) is Single && (*old(self))->Single_0 is Some && (*old(self))->Single_0
                != Some(template_id) ==> (*final(self)) is Many,
            (*old(self)) is Many ==> (*final(self)) is Many,
    {
        let ghost pre = tids(*self);
        proof {
            lemma_sorted_insert_props(pre, template_id);
        }
        match self {
            TemplateIdSet::Single(opt) => {
                match opt {
                    Some(existing) => {
                        if *existing == template_id {
                            proof {
                                assert(pre[0] == template_id);
                                lemma_sorted_insert_eq(pre, template_id, 0);
                            }
                        } else if template_id < *existing {
                            let v2: u32 = *existing;
                            let mut v: Vec<u32> = Vec::new();
                            v.push(template_id);
                            v.push(v2);
                            proof {
                                assert(v@ =~= seq![template_id] + pre);
                            }
                            *self = TemplateIdSet::Many(v);
                        } else {
                            let v2: u32 = *existing;
                            let mut v: Vec<u32> = Vec::new();
                            v.push(v2);
                            v.push(template_id);
                            proof {
                                assert(pre.drop_first() =~= Seq::<u32>::empty());
                                assert(v@ =~= seq![pre[0]] + sorted_insert(
                                    pre.drop_first(),
                                    template_id,
                                ));
                            }
                            *self = TemplateIdSet::Many(v);
                        }
                    },
                    None => {
                        proof {
                            assert(seq![template_id] =~= sorted_insert(pre, template_id));
                        }
                        *self = TemplateIdSet::Single(Some(template_id));
                    },
                }
            },
            TemplateIdSet::Many(v) => {
                sorted_insert_vec(v, template_id);
            },
        }
    }

    /// Append the set's ids to `out`.
    pub fn copy_into_vec(&self, out: &mut Vec<u32>)
        ensures
            final(out)@ == old(out)@ + tids(*self),
    {
        match self {
            TemplateIdSet::Single(opt) => {
                match opt {
                    Some(id) => {
                        out.push(*id);
                        proof {
                            assert(out@ =~= old(out)@ + tids(*self));
                        }
                    },
                    None => {
                        proof {
                            assert(out@ =~= old(out)@ + tids(*self));
                        }
                    },
                }
            },
            TemplateIdSet::Many(v) => {
                let n = v.len();
                let mut i: usize = 0;
                while i < n
                    invariant
                        n == v@.len(),
                        i <= n,
                        out@ == old(out)@ + v@.take(i as int),
                    decreases n - i,
                {
                    proof {
                        assert((old(out)@ + v@.take(i as int)).push(v@[i as int]) =~= old(out)@
                            + v@.take(i + 1));
                    }
                    out.push(v[i]);
                    i = i + 1;
                }
                proof {
                    assert(v@.take(n as int) =~= v@);
                }
            },
        }
    }
}

/// True if some column of the group holds `tid`.
pub open spec fn group_has_term(g: DocGroup, tid: u32) -> bool {
    exists|c: int, r: int|
        0 <= c < g.columns@.len() && 0 <= r < g.columns@[c]@.len() && #[trigger] g.columns@[c]@[r]
            == tid
}

/// For every term id, the set of template positions (in group order) whose
/// columns hold it: entry `tid` lists exactly the groups with `tid` in a
/// column.
pub fn term_id_idx_to_template_ids(ix: &PreliminaryIndex) -> (r: Vec<TemplateIdSet>)
    requires
        ix.wf(),
        ix.doc_groups.entries@.len() <= u32::MAX,
    ensures
        r@.len() == ix.term_hash_map.regular.next_term_id,
        forall|t: int| 0 <= t < r@.len() ==> tset_wf(#[trigger] r@[t]),
        forall|t: int, x: u32|
            0 <= t < r@.len() && #[trigger] tset_contains(r@[t], x) ==> x
                < ix.doc_groups.entries@.len() && group_has_term(
                ix.doc_groups.entries@[x as int].1,
                t as u32,
            ),
        forall|g: int, tid: u32|
            0 <= g < ix.doc_groups.entries@.len() && tid < r@.len() && group_has_term(
                #[trigger] ix.doc_groups.entries@[g].1,
                tid,
            ) ==> #[trigger] tset_contains(r@[tid as int], g as u32),
{
    let num_terms = ix.term_hash_map.regular.num_terms();
    let mut out: Vec<TemplateIdSet> = Vec::new();
    let mut t: usize = 0;
    while t < num_terms
        invariant
            t <= num_terms,
            out@.len() == t,
            forall|t2: int|
                0 <= t2 < t ==> tids(#[trigger] out@[t2]) =~= Seq::<u32>::empty() && tset_wf(
                    out@[t2],
                ),
        decreases num_terms - t,
    {
        out.push(TemplateIdSet::new());
        t = t + 1;
    }
    let ghost entries = ix.doc_groups.entries@;
    let ngroups = ix.doc_groups.entries.len();
    let mut g: usize = 0;
    while g < ngroups
        invariant
            ix.wf(),
            ngroups == entries.len(),
            entries == ix.doc_groups.entries@,
            ngroups <= u32::MAX,
            g <= ngroups,
            out@.len() == ix.term_hash_map.regular.next_term_id,
            num_terms == out@.len(),
            forall|t2: int| 0 <= t2 < out@.len() ==> tset_wf(#[trigger] out@[t2]),
            forall|t2: int, x: u32|
                0 <= t2 < out@.len() && #[trigger] tset_contains(out@[t2], x) ==> x < entries.len()
                    && group_has_term(entries[x as int].1, t2 as u32),
            forall|g2: int, tid: u32|
                0 <= g2 < g && tid < out@.len() && group_has_term(
                    #[trigger] entries[g2].1,
                    tid,
                ) ==> #[trigger] tset_contains(out@[tid as int], g2 as u32),
        decreases ngroups - g,
    {
        let ncols = ix.doc_groups.entries[g].1.columns.len();
        let mut c: usize = 0;
        while c < ncols
            invariant
                ix.wf(),
                ngroups == entries.len(),
                entries == ix.doc_groups.entries@,
                ngroups <= u32::MAX,
                g < ngroups,
                ncols == entries[g as int].1.columns@.len(),
                c <= ncols,
                out@.len() == ix.term_hash_map.regular.next_term_id,
                num_terms == out@.len(),
                forall|t2: int| 0 <= t2 < out@.len() ==> tset_wf(#[trigger] out@[t2]),
                forall|t2: int, x: u32|
                    0 <= t2 < out@.len() && #[trigger] tset_contains(out@[t2], x) ==> x
                        < entries.len() && group_has_term(entries[x as int].1, t2 as u32),
                forall|g2: int, tid: u32|
                    0 <= g2 < g && tid < out@.len() && group_has_term(
                        #[trigger] entries[g2].1,
                        tid,
                    ) ==> #[trigger] tset_contains(out@[tid as int], g2 as u32),
                forall|c2: int, r2: int|
                    0 <= c2 < c && 0 <= r2 < entries[g as int].1.columns@[c2]@.len()
                        ==> tset_contains(
                        out@[#[trigger] entries[g as int].1.columns@[c2]@[r2] as int],
                        g as u32,
                    ),
            decreases ncols - c,
        {
            let nrows = ix.doc_groups.entries[g].1.columns[c].len();
            let mut row: usize = 0;
            while row < nrows
                invariant
                    ix.wf(),
                    ngroups == entries.len(),
                    entries == ix.doc_groups.entries@,
                    ngroups <= u32::MAX,
                    g < ngroups,
                    c < ncols,
                    ncols == entries[g as int].1.columns@.len(),
                    nrows == entries[g as int].1.columns@[c as int]@.len(),
                    row <= nrows,
                    out@.len() == ix.term_hash_map.regular.next_term_id,
                    num_terms == out@.len(),
                    forall|t2: int| 0 <= t2 < out@.len() ==> tset_wf(#[trigger] out@[t2]),
                    forall|t2: int, x: u32|
                        0 <= t2 < out@.len() && #[trigger] tset_contains(out@[t2], x) ==> x
                            < entries.len() && group_has_term(entries[x as int].1, t2 as u32),
                    forall|g2: int, tid: u32|
                        0 <= g2 < g && tid < out@.len() && group_has_term(
                            #[trigger] entries[g2].1,
                            tid,
                        ) ==> #[trigger] tset_contains(out@[tid as int], g2 as u32),
                    forall|c2: int, r2: int|
                        0 <= c2 < c && 0 <= r2 < entries[g as int].1.columns@[c2]@.len()
                            ==> tset_contains(
                            out@[#[trigger] entries[g as int].1.columns@[c2]@[r2] as int],
                            g as u32,
                        ),
                    forall|r2: int|
                        0 <= r2 < row ==> tset_contains(
                            out@[#[trigger] entries[g as int].1.columns@[c as int]@[r2] as int],
                            g as u32,
                        ),
                decreases nrows - row,
            {
                let tid = ix.doc_groups.entries[g].1.columns[c][row];
                proof {
                    assert(entries[g as int].1.ids_below(ix.term_hash_map.regular.next_term_id));
                    assert(entries[g as int].1.columns@[c as int]@[row as int] < out@.len());
                }
                let ghost outpre = out@;
                let slot = vstd::std_specs::vec::vec_index_mut(&mut out, tid as usize);
                slot.insert(g as u32);
                proof {
                    assert(out@ =~= outpre.update(tid as int, out@[tid as int]));
                    assert(group_has_term(entries[g as int].1, tid)) by {
                        assert(entries[g as int].1.columns@[c as int]@[row as int] == tid);
                    }
                    assert forall|t2: int, x: u32|
                        0 <= t2 < out@.len() && #[trigger] tset_contains(out@[t2], x) implies x
                        < entries.len() && group_has_term(entries[x as int].1, t2 as u32) by {
                        if t2 != tid {
                            assert(out@[t2] == outpre[t2]);
                        } else {
                            if !tset_contains(outpre[t2], x) {
                                assert(x == g as u32);
                            }
                        }
                    }
                    assert forall|g2: int, tid2: u32|
                        0 <= g2 < g && tid2 < out@.len() && group_has_term(
                            #[trigger] entries[g2].1,
                            tid2,
                        ) implies #[trigger] tset_contains(out@[tid2 as int], g2 as u32) by {
                        assert(tset_contains(outpre[tid2 as int], g2 as u32));
                        if tid2 != tid {
                            assert(out@[tid2 as int] == outpre[tid2 as int]);
                        }
                    }
                    assert forall|c2: int, r2: int|
                        0 <= c2 < c && 0 <= r2 < entries[g as int].1.columns@[c2]@.len()
                            implies tset_contains(
                        out@[#[trigger] entries[g as int].1.columns@[c2]@[r2] as int],
                        g as u32,
                    ) by {
                        let v = entries[g as int].1.columns@[c2]@[r2];
                        assert(tset_contains(outpre[v as int], g as u32));
                    }
                    assert forall|r2: int|
                        0 <= r2 < row + 1 implies tset_contains(
                        out@[#[trigger] entries[g as int].1.columns@[c as int]@[r2] as int],
                        g as u32,
                    ) by {
                        let v = entries[g as int].1.columns@[c as int]@[r2];
                        if r2 < row {
                            assert(tset_contains(outpre[v as int], g as u32));
                        } else {
                            assert(v == tid);
                            assert(tset_contains(out@[tid as int], g as u32));
                        }
                    }
                }
                row = row + 1;
            }
            c = c + 1;
        }
        proof {
            assert forall|g2: int, tid: u32|
                0 <= g2 < g + 1 && tid < out@.len() && group_has_term(
                    #[trigger] entries[g2].1,
                    tid,
                ) implies #[trigger] tset_contains(out@[tid as int], g2 as u32) by {
                if g2 == g {
                    let (c2, r2) = choose|c2: int, r2: int|
                        0 <= c2 < entries[g2].1.columns@.len() && 0 <= r2 < entries[
                        g2].1.columns@[c2]@.len() && #[trigger] entries[g2].1.columns@[c2]@[r2]
                            == tid;
                    assert(tset_contains(out@[tid as int], g as u32));
                }
            }
        }
        g = g + 1;
    }
    out
}

} // verus!

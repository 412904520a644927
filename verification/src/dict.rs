//! The dictionary: all terms sorted lexicographically, each with the list
//! of templates it appears in, and the old-to-new id mapping that the
//! sorted order induces.

use vstd::prelude::*;
use crate::postings::{TemplateIdSet, tids, tset_wf, tset_contains};
use crate::sortutil::{sort_u32s, sorted_u32, strictly_sorted_u32};

verus! {

/// Strict lexicographic order on byte strings.
pub open spec fn lex_lt(a: Seq<u8>, b: Seq<u8>) -> bool
    decreases a.len(),
{
    if b.len() == 0 {
        false
    } else if a.len() == 0 {
        true
    } else if a[0] < b[0] {
        true
    } else if a[0] > b[0] {
        false
    } else {
        lex_lt(a.drop_first(), b.drop_first())
    }
}

/// Non-strict lexicographic order.
pub open spec fn lex_le(a: Seq<u8>, b: Seq<u8>) -> bool {
    lex_lt(a, b) || a == b
}

/// The order is total.
pub proof fn lemma_lex_total(a: Seq<u8>, b: Seq<u8>)
    ensures
        lex_lt(a, b) || lex_lt(b, a) || a == b,
    decreases a.len(),
{
    if a.len() == 0 && b.len() == 0 {
        assert(a =~= b);
    } else if a.len() > 0 && b.len() > 0 && a[0] == b[0] {
        lemma_lex_total(a.drop_first(), b.drop_first());
        if a.drop_first() == b.drop_first() {
            assert(a.drop_first().len() == b.drop_first().len());
            assert(a.len() == b.len());
            assert(a =~= b) by {
                assert forall|i: int| 0 <= i < a.len() implies a[i] == b[i] by {
                    if i > 0 {
                        assert(a.drop_first()[i - 1] == a[i]);
                        assert(b.drop_first()[i - 1] == b[i]);
                        assert(a.drop_first()[i - 1] == b.drop_first()[i - 1]);
                    }
                }
            }
        }
    }
}

/// The order is irreflexive and asymmetric.
pub proof fn lemma_lex_asym(a: Seq<u8>, b: Seq<u8>)
    ensures
        lex_lt(a, b) ==> !lex_lt(b, a),
        !lex_lt(a, a),
    decreases a.len(),
{
    if a.len() > 0 && b.len() > 0 && a[0] == b[0] {
        lemma_lex_asym(a.drop_first(), b.drop_first());
    }
    if a.len() > 0 {
        lemma_lex_asym(a.drop_first(), a.drop_first());
    }
}

/// The order is transitive.
pub proof fn lemma_lex_trans(a: Seq<u8>, b: Seq<u8>, c: Seq<u8>)
    ensures
        lex_lt(a, b) && lex_lt(b, c) ==> lex_lt(a, c),
    decreases a.len(),
{
    if a.len() > 0 && b.len() > 0 && c.len() > 0 && a[0] == b[0] && b[0] == c[0] {
        lemma_lex_trans(a.drop_first(), b.drop_first(), c.drop_first());
    }
}

/// Compare two byte strings; true exactly when `a` comes strictly before
/// `b` lexicographically.
pub fn lex_less(a: &[u8], b: &[u8]) -> (r: bool)
    ensures
        r == lex_lt(a@, b@),
    decreases a@.len(),
{
    let mut i: usize = 0;
    let alen = a.len();
    let blen = b.len();
    let ghost av = a@;
    let ghost bv = b@;
    proof {
        assert(av.skip(0) =~= av);
        assert(bv.skip(0) =~= bv);
    }
    while i < alen && i < blen
        invariant
            alen == av.len(),
            blen == bv.len(),
            av == a@,
            bv == b@,
            i <= alen,
            i <= blen,
            forall|j: int| 0 <= j < i ==> av[j] == bv[j],
            lex_lt(av, bv) == lex_lt(av.skip(i as int), bv.skip(i as int)),
        decreases alen - i,
    {
        let ghost asub = av.skip(i as int);
        let ghost bsub = bv.skip(i as int);
        if a[i] < b[i] {
            proof {
                assert(asub[0] == av[i as int] && bsub[0] == bv[i as int]);
            }
            return true;
        }
        if a[i] > b[i] {
            proof {
                assert(asub[0] == av[i as int] && bsub[0] == bv[i as int]);
            }
            return false;
        }
        proof {
            assert(asub[0] == av[i as int] && bsub[0] == bv[i as int]);
            assert(asub.drop_first() =~= av.skip(i + 1));
            assert(bsub.drop_first() =~= bv.skip(i + 1));
        }
        i = i + 1;
    }
    proof {
        if i >= alen {
            assert(av.skip(i as int).len() == 0);
        } else {
            assert(bv.skip(i as int).len() == 0);
        }
    }
    alen < blen
}

/// One dictionary entry: a term and the sorted list of templates whose
/// columns hold it.
#[derive(Debug, Clone)]
pub struct DictEntry {
    pub term: Vec<u8>,
    pub template_ids: Vec<u32>,
}

/// Entries are strictly increasing lexicographically by term.
pub open spec fn entries_strictly_sorted(es: Seq<DictEntry>) -> bool {
    forall|i: int, j: int|
        0 <= i < j < es.len() ==> lex_lt((#[trigger] es[i]).term@, (#[trigger] es[j]).term@)
}

/// What the selection-sort loop keeps true between iterations.
pub open spec fn sort_inv(
    orig: Seq<(Vec<u8>, u32)>,
    out: Seq<(Vec<u8>, u32)>,
    v: Seq<(Vec<u8>, u32)>,
) -> bool {
    &&& out.len() + v.len() == orig.len()
    &&& forall|i: int, j: int|
        0 <= i < j < out.len() ==> lex_le((#[trigger] out[i]).0@, (#[trigger] out[j]).0@)
    &&& forall|i: int, j: int|
        0 <= i < out.len() && 0 <= j < v.len() ==> lex_le(
            (#[trigger] out[i]).0@,
            (#[trigger] v[j]).0@,
        )
}

/// Removing a minimal element and appending it to the sorted output keeps
/// the selection-sort invariant.
proof fn lemma_sort_step(
    orig: Seq<(Vec<u8>, u32)>,
    obefore: Seq<(Vec<u8>, u32)>,
    vbefore: Seq<(Vec<u8>, u32)>,
    m: int,
)
    requires
        sort_inv(orig, obefore, vbefore),
        0 <= m < vbefore.len(),
        forall|j: int| 0 <= j < vbefore.len() ==> lex_le(vbefore[m].0@, (#[trigger] vbefore[j]).0@),
    ensures
        sort_inv(orig, obefore.push(vbefore[m]), vbefore.remove(m)),
{
    let out = obefore.push(vbefore[m]);
    let v = vbefore.remove(m);
    let x = vbefore[m];
    assert forall|i2: int, j2: int|
        0 <= i2 < out.len() && 0 <= j2 < v.len() implies lex_le(
        (#[trigger] out[i2]).0@,
        (#[trigger] v[j2]).0@,
    ) by {
        let w = if j2 < m {
            j2
        } else {
            j2 + 1
        };
        assert(v[j2] == vbefore[w]);
        if i2 < obefore.len() {
            assert(out[i2] == obefore[i2]);
            assert(lex_le(obefore[i2].0@, vbefore[w].0@));
        } else {
            assert(out[i2] == x);
            assert(lex_le(vbefore[m].0@, vbefore[w].0@));
        }
    }
    assert forall|i2: int, j2: int|
        0 <= i2 < j2 < out.len() implies lex_le((#[trigger] out[i2]).0@, (#[trigger] out[j2]).0@) by {
        if j2 == out.len() - 1 {
            assert(out[i2] == obefore[i2]);
            assert(lex_le(obefore[i2].0@, vbefore[m].0@));
        } else {
            assert(out[i2] == obefore[i2] && out[j2] == obefore[j2]);
        }
    }
}

/// Sort `(term, old id)` pairs lexicographically by term.
fn sort_terms(input: Vec<(Vec<u8>, u32)>) -> (r: Vec<(Vec<u8>, u32)>)
    ensures
        forall|i: int, j: int|
            0 <= i < j < r@.len() ==> lex_le((#[trigger] r@[i]).0@, (#[trigger] r@[j]).0@),
{
    let ghost orig = input@;
    let mut v = input;
    let mut out: Vec<(Vec<u8>, u32)> = Vec::new();
    while v.len() > 0
        invariant
            sort_inv(orig, out@, v@),
        decreases v@.len(),
    {
        // Select a minimal remaining term.
        let n = v.len();
        let mut m: usize = 0;
        let mut i: usize = 1;
        while i < n
            invariant
                n == v@.len(),
                0 < n,
                m < n,
                i <= n,
                forall|j: int| 0 <= j < i ==> lex_le(v@[m as int].0@, (#[trigger] v@[j]).0@),
            decreases n - i,
        {
            if lex_less(v[i].0.as_slice(), v[m].0.as_slice()) {
                proof {
                    assert forall|j: int|
                        0 <= j < i + 1 implies lex_le(v@[i as int].0@, (#[trigger] v@[j]).0@) by {
                        lemma_lex_trans(v@[i as int].0@, v@[m as int].0@, v@[j].0@);
                        lemma_lex_total(v@[i as int].0@, v@[j].0@);
                        lemma_lex_asym(v@[m as int].0@, v@[j].0@);
                        lemma_lex_asym(v@[i as int].0@, v@[m as int].0@);
                        if v@[m as int].0@ == v@[j].0@ {
                        }
                    }
                }
                m = i;
            } else {
                proof {
                    lemma_lex_total(v@[m as int].0@, v@[i as int].0@);
                }
            }
            i = i + 1;
        }
        let ghost vbefore = v@;
        let ghost obefore = out@;
        let x = v.remove(m);
        out.push(x);
        proof {
            lemma_sort_step(orig, obefore, vbefore, m as int);
            assert(out@ =~= obefore.push(vbefore[m as int]));
            assert(v@ =~= vbefore.remove(m as int));
        }
    }
    out
}

/// Keep only the first of each run of equal values in a sorted vector.
fn dedup_sorted(v: &mut Vec<u32>)
    requires
        sorted_u32(old(v)@),
    ensures
        strictly_sorted_u32(final(v)@),
        forall|x: u32| final(v)@.contains(x) == old(v)@.contains(x),
{
    let ghost orig = v@;
    let mut out: Vec<u32> = Vec::new();
    let n = v.len();
    let mut i: usize = 0;
    while i < n
        invariant
            n == v@.len(),
            v@ == orig,
            sorted_u32(orig),
            i <= n,
            strictly_sorted_u32(out@),
            forall|x: u32| out@.contains(x) ==> orig.contains(x),
            forall|j: int| 0 <= j < i ==> out@.contains(#[trigger] orig[j]),
            out@.len() > 0 && i > 0 ==> out@.last() == orig[i - 1],
            out@.len() > 0 ==> i > 0,
            i > 0 ==> out@.len() > 0,
        decreases n - i,
    {
        let keep = if out.len() == 0 {
            true
        } else {
            out[out.len() - 1] != v[i]
        };
        let ghost opre = out@;
        if keep {
            out.push(v[i]);
            proof {
                assert forall|i2: int, j2: int|
                    0 <= i2 < j2 < out@.len() implies #[trigger] out@[i2] < #[trigger] out@[j2] by {
                    if j2 == out@.len() - 1 && i2 < j2 && opre.len() > 0 {
                        assert(out@[i2] == opre[i2]);
                        assert(opre[i2] <= opre[opre.len() - 1]) by {
                            if i2 < opre.len() - 1 {
                            }
                        }
                        assert(orig[i - 1] <= orig[i as int]);
                    }
                }
                assert forall|x: u32| out@.contains(x) implies orig.contains(x) by {
                    let w = choose|w: int| 0 <= w < out@.len() && out@[w] == x;
                    if w < opre.len() {
                        assert(opre[w] == x);
                    } else {
                        assert(orig[i as int] == x);
                    }
                }
                assert forall|j: int| 0 <= j < i + 1 implies out@.contains(#[trigger] orig[j]) by {
                    if j < i {
                        assert(opre.contains(orig[j]));
                        let w = choose|w: int| 0 <= w < opre.len() && opre[w] == orig[j];
                        assert(out@[w] == orig[j]);
                    } else {
                        assert(out@[out@.len() - 1] == orig[j]);
                    }
                }
            }
        } else {
            proof {
                assert(out@.last() == orig[i - 1]);
                assert(orig[i as int] == out@.last());
                assert(out@.contains(orig[i as int])) by {
                    assert(out@[out@.len() - 1] == orig[i as int]);
                }
                assert forall|j: int| 0 <= j < i + 1 implies out@.contains(#[trigger] orig[j]) by {}
            }
        }
        i = i + 1;
    }
    proof {
        assert forall|x: u32| orig.contains(x) implies out@.contains(x) by {
            let w = choose|w: int| 0 <= w < orig.len() && orig[w] == x;
        }
    }
    *v = out;
}

/// Sort all `(term, old id)` pairs by term, walk the runs of equal terms
/// assigning contiguous new ids, union the posting lists of each run, and
/// skip terms with no postings (terms that appear only as constants).
///
/// Returns the dictionary entries, in strictly increasing term order
/// (which is how the dictionary is written), and the old-to-new id map.
/// The coverage and backing of the result are checked outright before it
/// is returned; a failed check would be a bug in the builder, never bad
/// input, and surfaces as `Corrupt`.
#[verifier::rlimit(60)]
pub fn build_dictionary(
    terms: &Vec<(Vec<u8>, u32)>,
    sets: &Vec<TemplateIdSet>,
) -> (r: Result<(Vec<DictEntry>, Vec<u32>), crate::IndexError>)
    ensures
        r is Ok ==> ({
            let entries = r->Ok_0.0;
            let old_to_new = r->Ok_0.1;
            &&& entries_strictly_sorted(entries@)
            &&& forall|e: int|
                0 <= e < entries@.len() ==> strictly_sorted_u32(
                    (#[trigger] entries@[e]).template_ids@,
                )
            &&& forall|e: int|
                0 <= e < entries@.len() ==> (#[trigger] entries@[e]).template_ids@.len() > 0
            &&& old_to_new@.len() == sets@.len()
            &&& spec_mapping_covers(entries@, old_to_new@, terms@, sets@)
            &&& spec_dictionary_backed(entries@, terms@, sets@)
        }),
        r is Err ==> r->Err_0 == crate::IndexError::Corrupt,
{
    let num_terms = sets.len();
    let mut pairs: Vec<(Vec<u8>, u32)> = Vec::new();
    let tn = terms.len();
    let mut ti: usize = 0;
    while ti < tn
        invariant
            tn == terms@.len(),
            ti <= tn,
        decreases tn - ti,
    {
        let bytes = vstd::slice::slice_to_vec(terms[ti].0.as_slice());
        pairs.push((bytes, terms[ti].1));
        ti = ti + 1;
    }
    let sorted = sort_terms(pairs);
    let ghost sv = sorted@;
    let mut old_to_new: Vec<u32> = Vec::new();
    let mut t0: usize = 0;
    while t0 < num_terms
        invariant
            t0 <= num_terms,
            old_to_new@.len() == t0,
        decreases num_terms - t0,
    {
        old_to_new.push(0);
        t0 = t0 + 1;
    }
    let mut entries: Vec<DictEntry> = Vec::new();
    let total = sorted.len();
    let mut i: usize = 0;
    while i < total
        invariant
            total == sv.len(),
            sv == sorted@,
            i <= total,
            old_to_new@.len() == num_terms,
            forall|i2: int, j2: int|
                0 <= i2 < j2 < sv.len() ==> lex_le((#[trigger] sv[i2]).0@, (#[trigger] sv[j2]).0@),
            entries_strictly_sorted(entries@),
            forall|e: int|
                0 <= e < entries@.len() ==> strictly_sorted_u32(
                    (#[trigger] entries@[e]).template_ids@,
                ),
            forall|e: int|
                0 <= e < entries@.len() ==> (#[trigger] entries@[e]).template_ids@.len() > 0,
            forall|e: int, p: int|
                0 <= e < entries@.len() && i <= p < sv.len() ==> lex_lt(
                    (#[trigger] entries@[e]).term@,
                    (#[trigger] sv[p]).0@,
                ),
        decreases total - i,
    {
        let run_term = vstd::slice::slice_to_vec(sorted[i].0.as_slice());
        let mut posting: Vec<u32> = Vec::new();
        let mut j: usize = i;
        loop
            invariant
                total == sv.len(),
                sv == sorted@,
                i <= j <= total,
                i < total,
                run_term@ == sv[i as int].0@,
                old_to_new@.len() == num_terms,
                forall|p: int| i <= p < j ==> (#[trigger] sv[p]).0@ == run_term@,
            ensures
                i < j <= total,
                total == sv.len(),
                sv == sorted@,
                run_term@ == sv[i as int].0@,
                old_to_new@.len() == num_terms,
                forall|p: int| i <= p < j ==> (#[trigger] sv[p]).0@ == run_term@,
                j < total ==> sv[j as int].0@ != run_term@,
            decreases total - j + (if j == i { 1int } else { 0int }),
        {
            if j >= total {
                break ;
            }
            if j > i {
                let same = crate::fastcmp::fast_short_slice_compare(
                    sorted[j].0.as_slice(),
                    run_term.as_slice(),
                );
                if !same {
                    break ;
                }
            }
            let old_id = sorted[j].1;
            if (old_id as usize) < sets.len() {
                sets[old_id as usize].copy_into_vec(&mut posting);
                if (old_id as usize) < old_to_new.len() && entries.len() <= u32::MAX as usize {
                    let e_len32: u32 = entries.len() as u32;
                    let slot = vstd::std_specs::vec::vec_index_mut(
                        &mut old_to_new,
                        old_id as usize,
                    );
                    *slot = e_len32;
                }
            }
            j = j + 1;
        }
        // Sort and deduplicate the union.
        sort_u32s(&mut posting);
        dedup_sorted(&mut posting);
        let ghost epre = entries@;
        if posting.len() > 0 {
            entries.push(DictEntry { term: run_term, template_ids: posting });
        }
        proof {
            let run_end = j as int;
            assert forall|p: int| run_end <= p < sv.len() implies lex_lt(
                sv[i as int].0@,
                (#[trigger] sv[p]).0@,
            ) by {
                assert(sv[run_end - 1].0@ == run_term@);
                if p == run_end {
                    assert(lex_le(sv[run_end - 1].0@, sv[p].0@));
                    lemma_lex_total(sv[p].0@, run_term@);
                } else {
                    assert(lex_le(sv[run_end - 1].0@, sv[run_end].0@));
                    assert(lex_le(sv[run_end].0@, sv[p].0@));
                    lemma_lex_total(sv[run_end].0@, run_term@);
                    lemma_lex_trans(run_term@, sv[run_end].0@, sv[p].0@);
                    if sv[run_end].0@ == sv[p].0@ {
                        assert(lex_lt(run_term@, sv[p].0@));
                    }
                }
            }
            if posting@.len() > 0 {
                assert forall|e: int, p: int|
                    0 <= e < entries@.len() && run_end <= p < sv.len() implies lex_lt(
                    (#[trigger] entries@[e]).term@,
                    (#[trigger] sv[p]).0@,
                ) by {
                    if e < epre.len() {
                        assert(entries@[e] == epre[e]);
                        assert(lex_lt(epre[e].term@, sv[i as int].0@));
                        lemma_lex_trans(epre[e].term@, sv[i as int].0@, sv[p].0@);
                    } else {
                        assert(entries@[e].term@ == run_term@);
                    }
                }
                assert forall|i2: int, j2: int|
                    0 <= i2 < j2 < entries@.len() implies lex_lt(
                    (#[trigger] entries@[i2]).term@,
                    (#[trigger] entries@[j2]).term@,
                ) by {
                    if j2 == entries@.len() - 1 {
                        assert(entries@[i2] == epre[i2]);
                        assert(lex_lt(epre[i2].term@, sv[i as int].0@));
                    } else {
                        assert(entries@[i2] == epre[i2] && entries@[j2] == epre[j2]);
                    }
                }
            }
        }
        i = j;
    }
    if !mapping_covers(&entries, &old_to_new, terms, sets) {
        return Err(crate::IndexError::Corrupt);
    }
    if !dictionary_backed(&entries, terms, sets) {
        return Err(crate::IndexError::Corrupt);
    }
    Ok((entries, old_to_new))
}

/// Some input pair holds exactly `term` and lists template `x` in its
/// posting set.
pub open spec fn pair_backs(
    terms: Seq<(Vec<u8>, u32)>,
    sets: Seq<TemplateIdSet>,
    term: Seq<u8>,
    x: u32,
) -> bool {
    exists|p: int|
        0 <= p < terms.len() && (#[trigger] terms[p]).0@ == term && terms[p].1 < sets.len()
            && tset_contains(sets[terms[p].1 as int], x)
}

/// One entry is backed: each template id it lists comes from some input
/// pair holding exactly this term.
pub open spec fn entry_backed(
    entry: DictEntry,
    terms: Seq<(Vec<u8>, u32)>,
    sets: Seq<TemplateIdSet>,
) -> bool {
    forall|w: int|
        0 <= w < entry.template_ids@.len() ==> pair_backs(
            terms,
            sets,
            entry.term@,
            #[trigger] entry.template_ids@[w],
        )
}

/// An entry whose template ids each carry a recorded witness pair is
/// backed.
proof fn lemma_entry_backed_from_witnesses(
    entry: DictEntry,
    terms: Seq<(Vec<u8>, u32)>,
    sets: Seq<TemplateIdSet>,
    ws: Seq<int>,
)
    requires
        ws.len() == entry.template_ids@.len(),
        forall|w2: int|
            0 <= w2 < ws.len() ==> 0 <= #[trigger] ws[w2] < terms.len() && terms[ws[w2]].0@
                == entry.term@ && terms[ws[w2]].1 < sets.len() && tset_contains(
                sets[terms[ws[w2]].1 as int],
                entry.template_ids@[w2],
            ),
    ensures
        entry_backed(entry, terms, sets),
{
    assert forall|w: int|
        0 <= w < entry.template_ids@.len() implies pair_backs(
        terms,
        sets,
        entry.term@,
        #[trigger] entry.template_ids@[w],
    ) by {
        let pw = ws[w];
        assert(0 <= pw < terms.len() && terms[pw].0@ == entry.term@ && terms[pw].1 < sets.len()
            && tset_contains(sets[terms[pw].1 as int], entry.template_ids@[w]));
    }
}

/// Every `(term, template id)` pair of the dictionary is backed by some
/// input pair: the term occurs in the input, and that input term's posting
/// set lists the template.
pub open spec fn spec_dictionary_backed(
    entries: Seq<DictEntry>,
    terms: Seq<(Vec<u8>, u32)>,
    sets: Seq<TemplateIdSet>,
) -> bool {
    forall|e: int| 0 <= e < entries.len() ==> entry_backed(#[trigger] entries[e], terms, sets)
}

/// Decide whether the dictionary is backed by the terms; the result is
/// exactly [`spec_dictionary_backed`].
pub fn dictionary_backed(
    entries: &Vec<DictEntry>,
    terms: &Vec<(Vec<u8>, u32)>,
    sets: &Vec<TemplateIdSet>,
) -> (r: bool)
    ensures
        r == spec_dictionary_backed(entries@, terms@, sets@),
{
    let ne = entries.len();
    let mut e: usize = 0;
    while e < ne
        invariant
            ne == entries@.len(),
            e <= ne,
            forall|e2: int|
                0 <= e2 < e ==> entry_backed(#[trigger] entries@[e2], terms@, sets@),
        decreases ne - e,
    {
        let nw = entries[e].template_ids.len();
        let mut w: usize = 0;
        let ghost mut ws: Seq<int> = Seq::empty();
        while w < nw
            invariant
                ne == entries@.len(),
                e < ne,
                nw == entries@[e as int].template_ids@.len(),
                w <= nw,
                forall|e2: int|
                    0 <= e2 < e ==> entry_backed(#[trigger] entries@[e2], terms@, sets@),
                ws.len() == w,
                forall|w2: int|
                    0 <= w2 < w ==> 0 <= #[trigger] ws[w2] < terms@.len() && terms@[ws[w2]].0@
                        == entries@[e as int].term@ && terms@[ws[w2]].1 < sets@.len()
                        && tset_contains(
                        sets@[terms@[ws[w2]].1 as int],
                        entries@[e as int].template_ids@[w2],
                    ),
            decreases nw - w,
        {
            let x = entries[e].template_ids[w];
            let np = terms.len();
            let mut p: usize = 0;
            let mut found = false;
            while p < np && !found
                invariant
                    np == terms@.len(),
                    p <= np,
                    e < ne,
                    ne == entries@.len(),
                    w < nw,
                    nw == entries@[e as int].template_ids@.len(),
                    x == entries@[e as int].template_ids@[w as int],
                    found ==> p < np && terms@[p as int].0@ == entries@[e as int].term@
                        && terms@[p as int].1 < sets@.len() && tset_contains(
                        sets@[terms@[p as int].1 as int],
                        x,
                    ),
                    !found ==> forall|p2: int|
                        0 <= p2 < p ==> !((#[trigger] terms@[p2]).0@ == entries@[e as int].term@
                            && terms@[p2].1 < sets@.len() && tset_contains(
                            sets@[terms@[p2].1 as int],
                            x,
                        )),
                ensures
                    found ==> p < np && terms@[p as int].0@ == entries@[e as int].term@
                        && terms@[p as int].1 < sets@.len() && tset_contains(
                        sets@[terms@[p as int].1 as int],
                        x,
                    ),
                    !found ==> forall|p2: int|
                        0 <= p2 < np ==> !((#[trigger] terms@[p2]).0@ == entries@[e as int].term@
                            && terms@[p2].1 < sets@.len() && tset_contains(
                            sets@[terms@[p2].1 as int],
                            x,
                        )),
                decreases np - p + (if found { 0int } else { 1int }),
            {
                let same = crate::fastcmp::fast_short_slice_compare(
                    terms[p].0.as_slice(),
                    entries[e].term.as_slice(),
                );
                if same && (terms[p].1 as usize) < sets.len() {
                    let mut listed: Vec<u32> = Vec::new();
                    sets[terms[p].1 as usize].copy_into_vec(&mut listed);
                    let mut q: usize = 0;
                    let m = listed.len();
                    let mut hit = false;
                    while q < m && !hit
                        invariant
                            m == listed@.len(),
                            q <= m,
                            listed@ == tids(sets@[terms@[p as int].1 as int]),
                            p < np,
                            np == terms@.len(),
                            hit ==> tset_contains(sets@[terms@[p as int].1 as int], x),
                            !hit ==> forall|q2: int|
                                0 <= q2 < q ==> tids(sets@[terms@[p as int].1 as int])[q2] != x,
                        decreases m - q + (if hit { 0int } else { 1int }),
                    {
                        if listed[q] == x {
                            hit = true;
                            proof {
                                assert(tids(sets@[terms@[p as int].1 as int])[q as int] == x);
                                assert(tids(sets@[terms@[p as int].1 as int]).contains(x)) by {
                                    assert(tids(sets@[terms@[p as int].1 as int])[q as int] == x);
                                }
                            }
                        } else {
                            q = q + 1;
                        }
                    }
                    if hit {
                        found = true;
                        proof {
                            assert(terms@[p as int].0@ == entries@[e as int].term@
                                && terms@[p as int].1 < sets@.len() && tset_contains(
                                sets@[terms@[p as int].1 as int],
                                x,
                            ));
                        }
                        break ;
                    } else {
                        proof {
                            assert(!tset_contains(sets@[terms@[p as int].1 as int], x)) by {
                                if tset_contains(sets@[terms@[p as int].1 as int], x) {
                                    let q2 = choose|q2: int|
                                        0 <= q2 < tids(sets@[terms@[p as int].1 as int]).len()
                                            && tids(sets@[terms@[p as int].1 as int])[q2] == x;
                                    assert(false);
                                }
                            }
                        }
                        p = p + 1;
                    }
                } else {
                    p = p + 1;
                }
            }
            if !found {
                proof {
                    assert(!entry_backed(entries@[e as int], terms@, sets@)) by {
                        assert(entries@[e as int].template_ids@[w as int] == x);
                        if entry_backed(entries@[e as int], terms@, sets@) {
                            assert(pair_backs(terms@, sets@, entries@[e as int].term@, x));
                            let p2 = choose|p2: int|
                                0 <= p2 < terms@.len() && (#[trigger] terms@[p2]).0@ == entries@[
                                e as int].term@ && terms@[p2].1 < sets@.len() && tset_contains(
                                    sets@[terms@[p2].1 as int],
                                    x,
                                );
                            assert(false);
                        }
                    }
                    assert(!spec_dictionary_backed(entries@, terms@, sets@));
                }
                return false;
            }
            proof {
                ws = ws.push(p as int);
            }
            w = w + 1;
        }
        proof {
            lemma_entry_backed_from_witnesses(entries@[e as int], terms@, sets@, ws);
        }
        e = e + 1;
    }
    true
}

/// The old-to-new map covers the terms: every term id with a non-empty
/// posting set points at a dictionary entry holding exactly that term's
/// bytes, and the entry's template list includes all of the id's
/// templates.
pub open spec fn spec_mapping_covers(
    entries: Seq<DictEntry>,
    old_to_new: Seq<u32>,
    terms: Seq<(Vec<u8>, u32)>,
    sets: Seq<TemplateIdSet>,
) -> bool {
    forall|p: int|
        0 <= p < terms.len() ==> {
            let id = (#[trigger] terms[p]).1;
            id < sets.len() && id < old_to_new.len() && (tids(sets[id as int]).len() > 0 ==> {
                &&& old_to_new[id as int] < entries.len()
                &&& entries[old_to_new[id as int] as int].term@ == terms[p].0@
                &&& forall|w: int|
                    0 <= w < tids(sets[id as int]).len()
                        ==> entries[old_to_new[id as int] as int].template_ids@.contains(
                        #[trigger] tids(sets[id as int])[w],
                    )
            })
        }
}

/// Decide whether the old-to-new map covers the terms; the result is
/// exactly [`spec_mapping_covers`]. The dictionary builder checks this
/// before handing its result out and treats a failure as a fatal internal
/// error.
pub fn mapping_covers(
    entries: &Vec<DictEntry>,
    old_to_new: &Vec<u32>,
    terms: &Vec<(Vec<u8>, u32)>,
    sets: &Vec<TemplateIdSet>,
) -> (r: bool)
    ensures
        r == spec_mapping_covers(entries@, old_to_new@, terms@, sets@),
{
    let n = terms.len();
    let mut p: usize = 0;
    while p < n
        invariant
            n == terms@.len(),
            p <= n,
            forall|p2: int|
                0 <= p2 < p ==> {
                    let id = (#[trigger] terms@[p2]).1;
                    id < sets@.len() && id < old_to_new@.len() && (tids(
                        sets@[id as int],
                    ).len() > 0 ==> {
                        &&& old_to_new@[id as int] < entries@.len()
                        &&& entries@[old_to_new@[id as int] as int].term@ == terms@[p2].0@
                        &&& forall|w: int|
                            0 <= w < tids(sets@[id as int]).len()
                                ==> entries@[old_to_new@[id as int] as int].template_ids@.contains(
                                #[trigger] tids(sets@[id as int])[w],
                            )
                    })
                },
        decreases n - p,
    {
        let id = terms[p].1;
        if (id as usize) >= sets.len() || (id as usize) >= old_to_new.len() {
            return false;
        }
        let mut listed: Vec<u32> = Vec::new();
        sets[id as usize].copy_into_vec(&mut listed);
        if listed.len() > 0 {
            let new_id = old_to_new[id as usize];
            if (new_id as usize) >= entries.len() {
                return false;
            }
            let entry = &entries[new_id as usize];
            if !crate::fastcmp::fast_short_slice_compare(
                entry.term.as_slice(),
                terms[p].0.as_slice(),
            ) {
                return false;
            }
            let m = listed.len();
            let mut w: usize = 0;
            while w < m
                invariant
                    m == listed@.len(),
                    listed@ == tids(sets@[id as int]),
                    w <= m,
                    n == terms@.len(),
                    p < n,
                    id == terms@[p as int].1,
                    id < sets@.len(),
                    id < old_to_new@.len(),
                    listed@.len() > 0,
                    new_id < entries@.len(),
                    new_id == old_to_new@[id as int],
                    entries@[new_id as int].term@ == terms@[p as int].0@,
                    forall|w2: int|
                        0 <= w2 < w ==> entries@[new_id as int].template_ids@.contains(
                            #[trigger] tids(sets@[id as int])[w2],
                        ),
                decreases m - w,
            {
                let x = listed[w];
                let mut found = false;
                let tl = entries[new_id as usize].template_ids.len();
                let mut q: usize = 0;
                while q < tl && !found
                    invariant
                        tl == entries@[new_id as int].template_ids@.len(),
                        new_id < entries@.len(),
                        q <= tl,
                        found ==> entries@[new_id as int].template_ids@.contains(x),
                        !found ==> forall|q2: int|
                            0 <= q2 < q ==> entries@[new_id as int].template_ids@[q2] != x,
                    decreases tl - q + (if found { 0int } else { 1int }),
                {
                    if entries[new_id as usize].template_ids[q] == x {
                        found = true;
                        proof {
                            assert(entries@[new_id as int].template_ids@[q as int] == x);
                        }
                    } else {
                        q = q + 1;
                    }
                }
                if !found {
                    proof {
                        assert(!entries@[new_id as int].template_ids@.contains(x)) by {
                            if entries@[new_id as int].template_ids@.contains(x) {
                                let q2 = choose|q2: int|
                                    0 <= q2 < entries@[new_id as int].template_ids@.len()
                                        && entries@[new_id as int].template_ids@[q2] == x;
                                assert(false);
                            }
                        }
                        assert(tids(sets@[id as int])[w as int] == x);
                        assert(!spec_mapping_covers(entries@, old_to_new@, terms@, sets@)) by {
                            let pp = p as int;
                            assert(terms@[pp].1 == id);
                            assert(tids(sets@[id as int]).len() > 0);
                        }
                    }
                    return false;
                }
                proof {
                    assert(tids(sets@[id as int])[w as int] == x);
                }
                w = w + 1;
            }
        } else {
            proof {
                assert(tids(sets@[id as int]).len() == 0);
            }
        }
        p = p + 1;
    }
    true
}

} // verus!

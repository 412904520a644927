//! Post-ingestion transforms: merging structurally equivalent templates,
//! splitting high-frequency constants out of a column, and assigning
//! contiguous template ids. Neither transform changes the total number of
//! documents.

use vstd::prelude::*;
use crate::groups::{DocGroup, ConstTemplateToken, IndexingTemplateToken, IndexingTemplate, TemplateTokenWithPos, spec_column_owned, spec_filter_rows};
use crate::prelim::{PreliminaryIndex, spec_total_docs, groups_ids_below, lemma_total_docs_bounds, lemma_total_docs_remove, lemma_total_docs_insert};
use crate::termmap::IndexingTermmap;
use crate::sortutil::sort_u32s;
use crate::IndexError;
use crate::TemplateId;

verus! {

/// Document-count threshold under which a constant slot is treated as a
/// variable when templates are compared for merging.
pub const MERGE_CONSTANT_SUPPORT: usize = 1000;

/// Document-count threshold under which a whitespace slot is treated as a
/// variable when templates are compared for merging.
pub const MERGE_WHITESPACE_SUPPORT: usize = 100;

/// How one slot takes part in a merge comparison: a well-supported
/// constant must match byte for byte, a well-supported whitespace run must
/// match in length, and everything else merges freely.
#[derive(Debug, Clone)]
pub enum MergeableTokenGroup {
    Constant(Vec<u8>),
    Variable,
    Whitespace(u32),
}

/// The merge class of one slot, given the group's document count.
pub open spec fn spec_mergeable_kind(t: IndexingTemplateToken, num_docs: int) -> MergeableTokenGroup {
    match t {
        IndexingTemplateToken::Constant(ct) => if num_docs < MERGE_CONSTANT_SUPPORT {
            MergeableTokenGroup::Variable
        } else {
            MergeableTokenGroup::Constant(ct.text)
        },
        IndexingTemplateToken::Variable { .. } => MergeableTokenGroup::Variable,
        IndexingTemplateToken::Whitespace(n) => if num_docs < MERGE_WHITESPACE_SUPPORT {
            MergeableTokenGroup::Variable
        } else {
            MergeableTokenGroup::Whitespace(n)
        },
    }
}

impl MergeableTokenGroup {
    /// The merge class of `token` for a group of `num_docs` documents.
    pub fn from_token(token: &IndexingTemplateToken, num_docs: usize) -> (r: MergeableTokenGroup)
        ensures
            match (r, spec_mergeable_kind(*token, num_docs as int)) {
                (MergeableTokenGroup::Variable, MergeableTokenGroup::Variable) => true,
                (MergeableTokenGroup::Whitespace(a), MergeableTokenGroup::Whitespace(b)) => a == b,
                (MergeableTokenGroup::Constant(a), MergeableTokenGroup::Constant(b)) => a@ == b@,
                _ => false,
            },
    {
        match token {
            IndexingTemplateToken::Constant(ct) => {
                if num_docs < MERGE_CONSTANT_SUPPORT {
                    MergeableTokenGroup::Variable
                } else {
                    MergeableTokenGroup::Constant(vstd::slice::slice_to_vec(ct.text.as_slice()))
                }
            },
            IndexingTemplateToken::Variable { .. } => MergeableTokenGroup::Variable,
            IndexingTemplateToken::Whitespace(n) => {
                if num_docs < MERGE_WHITESPACE_SUPPORT {
                    MergeableTokenGroup::Variable
                } else {
                    MergeableTokenGroup::Whitespace(*n)
                }
            },
        }
    }
}

/// The byte encoding of one slot's merge class: a tag, then the
/// whitespace count or the length-prefixed constant bytes.
pub open spec fn spec_sig_slot(t: IndexingTemplateToken, num_docs: int) -> Seq<u8> {
    match spec_mergeable_kind(t, num_docs) {
        MergeableTokenGroup::Variable => seq![0u8],
        MergeableTokenGroup::Whitespace(n) => seq![1u8] + vstd::bytes::spec_u32_to_le_bytes(n),
        MergeableTokenGroup::Constant(text) => seq![2u8] + vstd::bytes::spec_u32_to_le_bytes(
            if text@.len() > u32::MAX {
                u32::MAX
            } else {
                text@.len() as u32
            },
        ) + text@,
    }
}

/// The merge signature of one stored group.
pub open spec fn group_sig(e: (u64, DocGroup)) -> Seq<u8> {
    spec_signature(e.1.template.tokens@, e.1.num_docs as int)
}

/// The merge signature of a template: its slots' merge classes, encoded
/// slot by slot.
pub open spec fn spec_signature(tokens: Seq<TemplateTokenWithPos>, num_docs: int) -> Seq<u8>
    decreases tokens.len(),
{
    if tokens.len() == 0 {
        Seq::empty()
    } else {
        spec_signature(tokens.drop_last(), num_docs) + spec_sig_slot(
            tokens.last().token,
            num_docs,
        )
    }
}

/// Append the merge signature of one group to `out` as bytes. Slots encode
/// as tagged, length-prefixed records, so equal byte strings mean equal
/// signatures.
fn signature_bytes(group: &DocGroup) -> (r: Vec<u8>)
    requires
        group.wf(),
    ensures
        r@ == spec_signature(group.template.tokens@, group.num_docs as int),
{
    let mut out: Vec<u8> = Vec::new();
    let n = group.template.tokens.len();
    let num_docs = group.num_docs;
    let mut j: usize = 0;
    proof {
        assert(group.template.tokens@.take(0) =~= Seq::<TemplateTokenWithPos>::empty());
    }
    while j < n
        invariant
            n == group.template.tokens@.len(),
            j <= n,
            group.wf(),
            num_docs == group.num_docs,
            out@ == spec_signature(group.template.tokens@.take(j as int), num_docs as int),
        decreases n - j,
    {
        proof {
            assert(group.template.tokens@.take(j + 1).drop_last() =~= group.template.tokens@.take(
                j as int,
            ));
            assert(group.template.tokens@.take(j + 1).last() == group.template.tokens@[j as int]);
        }
        let ghost slot = spec_sig_slot(group.template.tokens@[j as int].token, num_docs as int);
        let ghost opre = out@;
        let kind = MergeableTokenGroup::from_token(&group.template.tokens[j].token, num_docs);
        match kind {
            MergeableTokenGroup::Variable => {
                out.push(0u8);
                proof {
                    assert(out@ =~= opre + slot);
                }
            },
            MergeableTokenGroup::Whitespace(count) => {
                out.push(1u8);
                let mut b = vstd::bytes::u32_to_le_bytes(count);
                out.append(&mut b);
                proof {
                    assert(out@ =~= opre + slot);
                }
            },
            MergeableTokenGroup::Constant(text) => {
                out.push(2u8);
                let len32 = if text.len() > u32::MAX as usize {
                    u32::MAX
                } else {
                    text.len() as u32
                };
                let mut b = vstd::bytes::u32_to_le_bytes(len32);
                out.append(&mut b);
                let mut t = text;
                out.append(&mut t);
                proof {
                    assert(out@ =~= opre + slot);
                }
            },
        }
        j = j + 1;
    }
    proof {
        assert(group.template.tokens@.take(n as int) =~= group.template.tokens@);
    }
    out
}

/// True if the slot's merge class is `Variable`.
fn slot_merges_freely(token: &IndexingTemplateToken, num_docs: usize) -> (r: bool)
    ensures
        r == (spec_mergeable_kind(*token, num_docs as int) is Variable),
{
    match token {
        IndexingTemplateToken::Constant(_) => num_docs < MERGE_CONSTANT_SUPPORT,
        IndexingTemplateToken::Variable { .. } => true,
        IndexingTemplateToken::Whitespace(_) => num_docs < MERGE_WHITESPACE_SUPPORT,
    }
}

/// Merge templates whose structural signatures agree, until no two
/// signatures are equal: slots that merge freely are promoted to
/// variables in both groups, and the later group's columns are
/// concatenated onto the earlier group's. The total number of documents
/// over all groups never changes, whether or not the pass runs to
/// completion.
pub fn merge_templates(ix: &mut PreliminaryIndex) -> (r: Result<(), IndexError>)
    requires
        old(ix).wf(),
    ensures
        final(ix).wf(),
        spec_total_docs(final(ix).doc_groups.entries@) == spec_total_docs(
            old(ix).doc_groups.entries@,
        ),
        final(ix).doc_groups.entries@.len() <= old(ix).doc_groups.entries@.len(),
        r is Err ==> r->Err_0 == IndexError::TermCapacity || r->Err_0 == IndexError::Corrupt,
        r is Ok ==> forall|a: int, b: int|
            0 <= a < b < final(ix).doc_groups.entries@.len() ==> #[trigger] group_sig(
                final(ix).doc_groups.entries@[a],
            ) != #[trigger] group_sig(final(ix).doc_groups.entries@[b]),
{
    loop
        invariant
            ix.wf(),
            spec_total_docs(ix.doc_groups.entries@) == spec_total_docs(
                old(ix).doc_groups.entries@,
            ),
            ix.doc_groups.entries@.len() <= old(ix).doc_groups.entries@.len(),
        ensures
            ix.wf(),
            spec_total_docs(ix.doc_groups.entries@) == spec_total_docs(
                old(ix).doc_groups.entries@,
            ),
            ix.doc_groups.entries@.len() <= old(ix).doc_groups.entries@.len(),
            forall|a: int, b: int|
                0 <= a < b < ix.doc_groups.entries@.len() ==> #[trigger] group_sig(
                    ix.doc_groups.entries@[a],
                ) != #[trigger] group_sig(ix.doc_groups.entries@[b]),
        decreases ix.doc_groups.entries@.len(),
    {
        let n = ix.doc_groups.entries.len();
        // Find the first pair of groups with equal signatures.
        let mut pair_a: usize = n;
        let mut pair_b: usize = n;
        let mut a: usize = 0;
        while a < n && pair_a == n
            invariant
                n == ix.doc_groups.entries@.len(),
                a <= n,
                ix.wf(),
                pair_a == n || (pair_a < pair_b < n),
                pair_a == n ==> forall|a2: int, b2: int|
                    0 <= a2 < a && a2 < b2 < n ==> #[trigger] group_sig(
                        ix.doc_groups.entries@[a2],
                    ) != #[trigger] group_sig(ix.doc_groups.entries@[b2]),
            decreases n - a + (if pair_a == n { 1int } else { 0int }),
        {
            let sig_a = signature_bytes(&ix.doc_groups.entries[a].1);
            let mut b = a + 1;
            while b < n && pair_a == n
                invariant
                    n == ix.doc_groups.entries@.len(),
                    a < b <= n || (b == a + 1 && a < n),
                    a < n,
                    ix.wf(),
                    sig_a@ == group_sig(ix.doc_groups.entries@[a as int]),
                    pair_a == n || (pair_a < pair_b < n),
                    pair_a == n ==> forall|a2: int, b2: int|
                        0 <= a2 < a && a2 < b2 < n ==> #[trigger] group_sig(
                            ix.doc_groups.entries@[a2],
                        ) != #[trigger] group_sig(ix.doc_groups.entries@[b2]),
                    pair_a == n ==> forall|b2: int|
                        a < b2 < b ==> #[trigger] group_sig(ix.doc_groups.entries@[b2])
                            != group_sig(ix.doc_groups.entries@[a as int]),
                decreases n - b + (if pair_a == n { 1int } else { 0int }),
            {
                let sig_b = signature_bytes(&ix.doc_groups.entries[b].1);
                if crate::fastcmp::fast_short_slice_compare(sig_a.as_slice(), sig_b.as_slice()) {
                    pair_a = a;
                    pair_b = b;
                } else {
                    b = b + 1;
                }
            }
            if pair_a == n {
                proof {
                    assert forall|a2: int, b2: int|
                        0 <= a2 < a + 1 && a2 < b2 < n implies #[trigger] group_sig(
                        ix.doc_groups.entries@[a2],
                    ) != #[trigger] group_sig(ix.doc_groups.entries@[b2]) by {
                        if a2 == a {
                            assert(group_sig(ix.doc_groups.entries@[b2]) != group_sig(
                                ix.doc_groups.entries@[a as int],
                            ));
                        }
                    }
                }
                a = a + 1;
            }
        }
        if pair_a >= n {
            return Ok(());
        }
        // Merge group pair_b into group pair_a; an unalignable pair with
        // equal signatures would be an internal inconsistency.
        match merge_pair(ix, pair_a, pair_b) {
            Ok(_) => {},
            Err(e) => {
                return Err(e);
            },
        }
    }
}

/// Merge entry `b` into entry `a` (with `a < b`): promote every freely
/// merging slot of both to a variable, concatenate the columns, remove
/// both old entries and file the merged group under a fresh salted key.
/// Returns `Ok(false)` and changes nothing if the two templates cannot be
/// aligned.
fn merge_pair(ix: &mut PreliminaryIndex, a: usize, b: usize) -> (r: Result<(), IndexError>)
    requires
        old(ix).wf(),
        a < b < old(ix).doc_groups.entries@.len(),
    ensures
        final(ix).wf(),
        spec_total_docs(final(ix).doc_groups.entries@) == spec_total_docs(
            old(ix).doc_groups.entries@,
        ),
        r is Ok ==> final(ix).doc_groups.entries@.len() == old(ix).doc_groups.entries@.len() - 1,
        r is Err ==> final(ix).doc_groups.entries@.len() <= old(ix).doc_groups.entries@.len(),
        r is Err ==> r->Err_0 == IndexError::TermCapacity || r->Err_0 == IndexError::Corrupt,
{
    let len_a = ix.doc_groups.entries[a].1.template.tokens.len();
    let len_b = ix.doc_groups.entries[b].1.template.tokens.len();
    if len_a != len_b {
        return Err(IndexError::Corrupt);
    }
    // Take both groups out; `a < b`, so remove `b` first.
    let ghost pre = ix.doc_groups.entries@;
    let entry_b = ix.doc_groups.entries.remove(b);
    let entry_a = ix.doc_groups.entries.remove(a);
    let mut ga = entry_a.1;
    let mut gb = entry_b.1;
    let num_a = ga.num_docs;
    let num_b = gb.num_docs;
    proof {
        lemma_total_docs_remove(pre, b as int);
        lemma_total_docs_remove(pre.remove(b as int), a as int);
        assert(pre.remove(b as int)[a as int] == pre[a as int]);
        assert forall|i: int|
            0 <= i < ix.doc_groups.entries@.len() implies (
        #[trigger] ix.doc_groups.entries@[i]).1.wf() && ix.doc_groups.entries@[i].1.ids_below(
            ix.term_hash_map.regular.next_term_id,
        ) by {
            if i < a {
                assert(ix.doc_groups.entries@[i] == pre[i]);
            } else if i + 1 < b {
                assert(ix.doc_groups.entries@[i] == pre[i + 1]);
            } else {
                assert(ix.doc_groups.entries@[i] == pre[i + 2]);
            }
        }
    }
    // Promote every slot that merges freely, in both groups.
    let nslots = len_a;
    let mut j: usize = 0;
    let mut capacity_ok = true;
    let mut aligned = true;
    while j < nslots
        invariant
            nslots == ga.template.tokens@.len(),
            nslots == gb.template.tokens@.len(),
            j <= nslots,
            ga.wf(),
            gb.wf(),
            ga.num_docs == num_a,
            gb.num_docs == num_b,
            ix.term_hash_map.regular.wf(),
            ga.ids_below(ix.term_hash_map.regular.next_term_id),
            gb.ids_below(ix.term_hash_map.regular.next_term_id),
            ix.doc_groups.wf(),
            groups_ids_below(ix.doc_groups.entries@, ix.term_hash_map.regular.next_term_id),
            spec_total_docs(ix.doc_groups.entries@) == spec_total_docs(pre) - num_a - num_b,
            ix.doc_groups.entries@.len() == pre.len() - 2,
            capacity_ok && aligned ==> forall|p: int|
                0 <= p < j ==> ((#[trigger] ga.template.tokens@[p]).token is Variable <==> (
                #[trigger] gb.template.tokens@[p]).token is Variable),
        decreases nslots - j,
    {
        let free_a = slot_merges_freely(&ga.template.tokens[j].token, num_a);
        let free_b = slot_merges_freely(&gb.template.tokens[j].token, num_b);
        if free_a || free_b {
            if ix.term_hash_map.regular.next_term_id >= u32::MAX - 2 || (
            ix.term_hash_map.regular.next_term_id as usize) + 2 > usize::MAX / 16 {
                capacity_ok = false;
            } else {
                ga.convert_to_variable(j, &mut ix.term_hash_map);
                gb.convert_to_variable(j, &mut ix.term_hash_map);
            }
        }
        if capacity_ok {
            let va = ga.template.tokens[j].token.is_variable();
            let vb = gb.template.tokens[j].token.is_variable();
            if va != vb {
                aligned = false;
            }
        }
        j = j + 1;
    }
    if !capacity_ok {
        // Put both groups back; totals are unaffected.
        ix.doc_groups.insert_new_group(ga);
        ix.doc_groups.insert_new_group(gb);
        return Err(IndexError::TermCapacity);
    }
    if !aligned {
        ix.doc_groups.insert_new_group(ga);
        ix.doc_groups.insert_new_group(gb);
        return Err(IndexError::Corrupt);
    }
    if num_a > usize::MAX - num_b {
        ix.doc_groups.insert_new_group(ga);
        ix.doc_groups.insert_new_group(gb);
        return Err(IndexError::TermCapacity);
    }
    ga.append(&gb);
    ix.doc_groups.insert_new_group(ga);
    Ok(())
}

/// Assign contiguous template ids in group order and copy each group's
/// document count into its template.
pub fn assign_template_ids(ix: &mut PreliminaryIndex)
    requires
        old(ix).wf(),
        old(ix).doc_groups.entries@.len() <= u32::MAX,
    ensures
        final(ix).wf(),
        spec_total_docs(final(ix).doc_groups.entries@) == spec_total_docs(
            old(ix).doc_groups.entries@,
        ),
        final(ix).doc_groups.entries@.len() == old(ix).doc_groups.entries@.len(),
        ({
            let es = final(ix).doc_groups.entries@;
            forall|i: int|
                0 <= i < es.len() ==> (#[trigger] es[i]).1.template.template_id.0 == i
                    && es[i].1.template.num_docs == es[i].1.num_docs
        }),
        ({
            let es = final(ix).doc_groups.entries@;
            let os = old(ix).doc_groups.entries@;
            forall|i: int|
                0 <= i < es.len() ==> (#[trigger] es[i]).0 == os[i].0 && es[i].1.columns
                    == os[i].1.columns && es[i].1.num_docs == os[i].1.num_docs
                    && es[i].1.template.tokens == os[i].1.template.tokens
        }),
{
    let n = ix.doc_groups.entries.len();
    let mut i: usize = 0;
    while i < n
        invariant
            n == ix.doc_groups.entries@.len(),
            i <= n,
            n <= u32::MAX,
            ix.wf(),
            spec_total_docs(ix.doc_groups.entries@) == spec_total_docs(
                old(ix).doc_groups.entries@,
            ),
            forall|p: int|
                0 <= p < i ==> (#[trigger] ix.doc_groups.entries@[p]).1.template.template_id.0 == p
                    && ix.doc_groups.entries@[p].1.template.num_docs
                    == ix.doc_groups.entries@[p].1.num_docs,
            forall|p: int|
                0 <= p < n ==> (#[trigger] ix.doc_groups.entries@[p]).0 == old(
                    ix,
                ).doc_groups.entries@[p].0 && ix.doc_groups.entries@[p].1.columns == old(
                    ix,
                ).doc_groups.entries@[p].1.columns && ix.doc_groups.entries@[p].1.num_docs == old(
                    ix,
                ).doc_groups.entries@[p].1.num_docs && ix.doc_groups.entries@[p].1.template.tokens
                    == old(ix).doc_groups.entries@[p].1.template.tokens,
        decreases n - i,
    {
        let ghost pre = ix.doc_groups.entries@;
        let mut entry = ix.doc_groups.entries.remove(i);
        entry.1.template.template_id = TemplateId(i as u32);
        entry.1.template.num_docs = entry.1.num_docs;
        let ghost eg = entry;
        let ghost mid = ix.doc_groups.entries@;
        ix.doc_groups.entries.insert(i, entry);
        proof {
            lemma_total_docs_remove(pre, i as int);
            lemma_total_docs_insert(mid, i as int, eg);
            assert(ix.doc_groups.entries@ =~= pre.update(i as int, eg));
            assert forall|p: int|
                0 <= p < ix.doc_groups.entries@.len() implies (
            #[trigger] ix.doc_groups.entries@[p]).1.wf() && ix.doc_groups.entries@[p].1.ids_below(
                ix.term_hash_map.regular.next_term_id,
            ) by {
                if p != i {
                    assert(ix.doc_groups.entries@[p] == pre[p]);
                } else {
                    assert(eg.1.columns == pre[p].1.columns);
                }
            }
        }
        i = i + 1;
    }
}


/// How many entries of `s` equal `x`.
pub open spec fn count_val(s: Seq<u32>, x: u32) -> int
    decreases s.len(),
{
    if s.len() == 0 {
        0
    } else {
        count_val(s.drop_last(), x) + (if s.last() == x {
            1int
        } else {
            0int
        })
    }
}

proof fn lemma_count_val_bounds(s: Seq<u32>, x: u32)
    ensures
        0 <= count_val(s, x) <= s.len(),
    decreases s.len(),
{
    if s.len() > 0 {
        lemma_count_val_bounds(s.drop_last(), x);
    }
}

/// A value missing from the sequence counts zero.
proof fn lemma_count_val_absent(s: Seq<u32>, x: u32)
    requires
        !s.contains(x),
    ensures
        count_val(s, x) == 0,
    decreases s.len(),
{
    if s.len() > 0 {
        assert(!s.drop_last().contains(x)) by {
            if s.drop_last().contains(x) {
                let w = choose|w: int| 0 <= w < s.drop_last().len() && s.drop_last()[w] == x;
                assert(s[w] == x);
            }
        }
        lemma_count_val_absent(s.drop_last(), x);
        assert(s.last() != x) by {
            assert(s[s.len() - 1] == s.last());
        }
    }
}

/// In a sorted sequence, the count of a value is the width of its run.
proof fn lemma_sorted_count_window(s: Seq<u32>, x: u32, lo: int, hi: int)
    requires
        crate::sortutil::sorted_u32(s),
        0 <= lo <= hi <= s.len(),
        forall|i: int| lo <= i < hi ==> #[trigger] s[i] == x,
        forall|i: int| 0 <= i < lo ==> #[trigger] s[i] != x,
        forall|i: int| hi <= i < s.len() ==> #[trigger] s[i] != x,
    ensures
        count_val(s, x) == hi - lo,
    decreases s.len(),
{
    if s.len() == 0 {
    } else {
        let d = s.drop_last();
        if s.last() == x {
            assert(hi == s.len());
            assert(lo < hi);
            lemma_sorted_count_window(d, x, lo, hi - 1);
        } else {
            assert(hi <= s.len() - 1 || lo == hi);
            if lo == hi {
                assert(!s.contains(x)) by {
                    if s.contains(x) {
                        let w = choose|w: int| 0 <= w < s.len() && s[w] == x;
                        if w < lo {
                        } else {
                        }
                    }
                }
                lemma_count_val_absent(s, x);
            } else {
                lemma_sorted_count_window(d, x, lo, hi);
            }
        }
    }
}

/// Recursive counting agrees with the multiset count.
proof fn lemma_count_val_multiset(s: Seq<u32>, x: u32)
    ensures
        count_val(s, x) == s.to_multiset().count(x),
    decreases s.len(),
{
    broadcast use vstd::seq_lib::group_to_multiset_ensures;

    s.to_multiset_ensures();
    if s.len() == 0 {
        assert(s.to_multiset() =~= vstd::multiset::Multiset::empty());
    } else {
        let d = s.drop_last();
        d.to_multiset_ensures();
        lemma_count_val_multiset(d, x);
        assert(d.push(s.last()) =~= s);
        assert(s.to_multiset() =~= d.to_multiset().insert(s.last()));
    }
}

/// Filtering rows never increases a value's count.
proof fn lemma_filter_count_le(col: Seq<u32>, keep: Seq<bool>, x: u32)
    ensures
        count_val(spec_filter_rows(col, keep), x) <= count_val(col, x),
    decreases col.len(),
{
    if col.len() > 0 {
        lemma_filter_count_le(col.drop_last(), keep, x);
        let f = spec_filter_rows(col, keep);
        let fd = spec_filter_rows(col.drop_last(), keep);
        if col.len() - 1 < keep.len() && keep[col.len() - 1] {
            assert(f =~= fd.push(col.last()));
            assert(f.drop_last() =~= fd);
        }
    }
}

/// The rows to keep when a term is split out of a column: those whose
/// entry differs from the term.
pub open spec fn spec_keep_mask(col: Seq<u32>, term_id: u32) -> Seq<bool> {
    Seq::new(col.len(), |i: int| col[i] != term_id)
}

/// The rows to move: those whose entry equals the term.
pub open spec fn spec_move_mask(col: Seq<u32>, term_id: u32) -> Seq<bool> {
    Seq::new(col.len(), |i: int| col[i] == term_id)
}

/// How many entries of `keep` are true.
pub open spec fn count_true(keep: Seq<bool>) -> int
    decreases keep.len(),
{
    if keep.len() == 0 {
        0
    } else {
        count_true(keep.drop_last()) + if keep.last() {
            1int
        } else {
            0int
        }
    }
}

proof fn lemma_count_true_bounds(keep: Seq<bool>)
    ensures
        0 <= count_true(keep) <= keep.len(),
    decreases keep.len(),
{
    if keep.len() > 0 {
        lemma_count_true_bounds(keep.drop_last());
    }
}

/// Filtering by `keep` leaves exactly `count_true(keep)` rows.
proof fn lemma_filter_rows_len(col: Seq<u32>, keep: Seq<bool>)
    requires
        col.len() == keep.len(),
    ensures
        spec_filter_rows(col, keep).len() == count_true(keep),
    decreases col.len(),
{
    if col.len() > 0 {
        lemma_filter_rows_len(col.drop_last(), keep.drop_last());
        assert(spec_filter_rows(col.drop_last(), keep.drop_last()) =~= spec_filter_rows(
            col.drop_last(),
            keep,
        )) by {
            lemma_filter_rows_prefix(col.drop_last(), keep.drop_last(), keep);
        }
    }
}

/// Filtering only looks at the first `col.len()` entries of `keep`.
proof fn lemma_filter_rows_prefix(col: Seq<u32>, keep1: Seq<bool>, keep2: Seq<bool>)
    requires
        col.len() <= keep1.len(),
        col.len() <= keep2.len(),
        forall|i: int| 0 <= i < col.len() ==> keep1[i] == keep2[i],
    ensures
        spec_filter_rows(col, keep1) == spec_filter_rows(col, keep2),
    decreases col.len(),
{
    if col.len() > 0 {
        lemma_filter_rows_prefix(col.drop_last(), keep1, keep2);
    }
}

/// Every row of a filtered column is a row of the column.
proof fn lemma_filter_rows_values(col: Seq<u32>, keep: Seq<bool>)
    ensures
        forall|i: int|
            0 <= i < spec_filter_rows(col, keep).len() ==> col.contains(
                #[trigger] spec_filter_rows(col, keep)[i],
            ),
    decreases col.len(),
{
    if col.len() > 0 {
        lemma_filter_rows_values(col.drop_last(), keep);
        let f = spec_filter_rows(col, keep);
        let fr = spec_filter_rows(col.drop_last(), keep);
        assert forall|i: int| 0 <= i < f.len() implies col.contains(#[trigger] f[i]) by {
            if col.len() - 1 < keep.len() && keep[col.len() - 1] && i == f.len() - 1 {
                assert(f[i] == col.last());
                assert(col[col.len() - 1] == col.last());
            } else {
                assert(f[i] == fr[i]);
                assert(col.drop_last().contains(fr[i]));
                let w = choose|w: int| 0 <= w < col.drop_last().len() && col.drop_last()[w] == fr[i];
                assert(col[w] == fr[i]);
            }
        }
    }
}

/// A value's count is at least the width of any run of it.
proof fn lemma_count_ge_window(s: Seq<u32>, x: u32, lo: int, hi: int)
    requires
        0 <= lo <= hi <= s.len(),
        forall|i: int| lo <= i < hi ==> #[trigger] s[i] == x,
    ensures
        count_val(s, x) >= hi - lo,
    decreases s.len(),
{
    if s.len() > 0 {
        lemma_count_val_bounds(s, x);
        if hi == s.len() {
            if lo < hi {
                lemma_count_ge_window(s.drop_last(), x, lo, hi - 1);
            }
        } else {
            lemma_count_ge_window(s.drop_last(), x, lo, hi);
        }
    }
}

/// A sorted scan for a value occurring more than `threshold` times: `Some`
/// returns such a value; `None` means no value of the column exceeds the
/// threshold.
fn find_frequent(col: &Vec<u32>, threshold: u32) -> (r: Option<u32>)
    ensures
        match r {
            Some(t) => col@.contains(t) && count_val(col@, t) > threshold,
            None => forall|x: u32| count_val(col@, x) <= threshold,
        },
{
    broadcast use vstd::seq_lib::group_to_multiset_ensures;

    let mut copy: Vec<u32> = Vec::new();
    let n = col.len();
    let mut i: usize = 0;
    while i < n
        invariant
            n == col@.len(),
            i <= n,
            copy@ =~= col@.take(i as int),
        decreases n - i,
    {
        proof {
            assert(col@.take(i + 1) =~= col@.take(i as int).push(col@[i as int]));
        }
        copy.push(col[i]);
        i = i + 1;
    }
    proof {
        assert(copy@ =~= col@);
    }
    sort_u32s(&mut copy);
    let m = copy.len();
    if m == 0 {
        proof {
            assert forall|x: u32| count_val(col@, x) <= threshold by {
                assert(!col@.contains(x)) by {
                    col@.to_multiset_ensures();
                    copy@.to_multiset_ensures();
                    if col@.contains(x) {
                        assert(col@.to_multiset().count(x) > 0);
                        assert(copy@.to_multiset().count(x) > 0);
                    }
                }
                lemma_count_val_absent(col@, x);
            }
        }
        return None;
    }
    if threshold == 0 {
        let t = copy[0];
        proof {
            copy@.to_multiset_ensures();
            col@.to_multiset_ensures();
            assert(copy@.contains(t)) by {
                assert(copy@[0] == t);
            }
            assert(copy@.to_multiset().count(t) > 0);
            assert(col@.to_multiset().count(t) > 0);
            assert(col@.contains(t)) by {
                if !col@.contains(t) {
                    assert(col@.to_multiset().count(t) == 0);
                }
            }
            lemma_count_ge_window(copy@, t, 0, 1);
            lemma_count_val_multiset(copy@, t);
            lemma_count_val_multiset(col@, t);
        }
        return Some(t);
    }
    let mut run_start: usize = 0;
    let mut j: usize = 1;
    while j < m
        invariant
            m == copy@.len(),
            m == col@.len(),
            copy@.to_multiset() == col@.to_multiset(),
            crate::sortutil::sorted_u32(copy@),
            run_start < j <= m,
            threshold >= 1,
            forall|i2: int|
                run_start <= i2 < j ==> #[trigger] copy@[i2] == copy@[run_start as int],
            run_start == 0 || copy@[run_start - 1] != copy@[run_start as int],
            j - run_start <= threshold,
            forall|i2: int|
                0 <= i2 < run_start ==> count_val(copy@, #[trigger] copy@[i2]) <= threshold,
        decreases m - j,
    {
        if copy[j] != copy[run_start] {
            proof {
                let x = copy@[run_start as int];
                // The closed run pins the count of its value.
                assert forall|i2: int| 0 <= i2 < run_start implies #[trigger] copy@[i2] != x by {
                    assert(copy@[i2] <= copy@[run_start - 1]);
                    assert(copy@[run_start - 1] <= x);
                }
                assert forall|i2: int| j <= i2 < m implies #[trigger] copy@[i2] != x by {
                    assert(copy@[j as int] <= copy@[i2]);
                    assert(x <= copy@[j as int]);
                }
                lemma_sorted_count_window(copy@, x, run_start as int, j as int);
                assert forall|i2: int|
                    0 <= i2 < j implies count_val(copy@, #[trigger] copy@[i2]) <= threshold by {
                    if i2 >= run_start {
                        assert(copy@[i2] == x);
                    }
                }
            }
            run_start = j;
        } else {
            if j - run_start >= threshold as usize {
                let t = copy[j];
                proof {
                    copy@.to_multiset_ensures();
                    col@.to_multiset_ensures();
                    assert(copy@.contains(t)) by {
                        assert(copy@[j as int] == t);
                    }
                    assert(copy@.to_multiset().count(t) > 0);
                    assert(col@.to_multiset().count(t) > 0);
                    assert(col@.contains(t)) by {
                        if !col@.contains(t) {
                            assert(col@.to_multiset().count(t) == 0);
                        }
                    }
                    assert(t == copy@[run_start as int]);
                    lemma_count_ge_window(copy@, t, run_start as int, j + 1);
                    lemma_count_val_multiset(copy@, t);
                    lemma_count_val_multiset(col@, t);
                }
                return Some(t);
            }
        }
        j = j + 1;
    }
    proof {
        let x = copy@[run_start as int];
        assert forall|i2: int| 0 <= i2 < run_start implies #[trigger] copy@[i2] != x by {
            assert(copy@[i2] <= copy@[run_start - 1]);
            assert(copy@[run_start - 1] <= x);
        }
        lemma_sorted_count_window(copy@, x, run_start as int, m as int);
        assert forall|x2: u32| count_val(col@, x2) <= threshold by {
            copy@.to_multiset_ensures();
            col@.to_multiset_ensures();
            lemma_count_val_multiset(copy@, x2);
            lemma_count_val_multiset(col@, x2);
            if copy@.contains(x2) {
                let w = choose|w: int| 0 <= w < copy@.len() && copy@[w] == x2;
                if w < run_start {
                    assert(count_val(copy@, copy@[w]) <= threshold);
                } else {
                    assert(copy@[w] == x);
                    assert(count_val(copy@, x) == m - run_start);
                }
            } else {
                lemma_count_val_absent(copy@, x2);
            }
        }
    }
    None
}

/// How one template slot changes when column `column_index` is split
/// out: the split variable becomes a constant of its class, later
/// variables shift their column index down by one, everything else is
/// copied unchanged.
pub open spec fn spec_split_slot(
    old_t: IndexingTemplateToken,
    column_index: int,
    new_t: IndexingTemplateToken,
) -> bool {
    match old_t {
        IndexingTemplateToken::Variable { is_id_like, column_index: ci, token_type } => if ci
            == column_index {
            new_t is Constant && new_t->Constant_0.token_type == token_type
        } else if ci < column_index {
            new_t == old_t
        } else {
            new_t == (IndexingTemplateToken::Variable {
                is_id_like,
                column_index: (ci - 1) as usize,
                token_type,
            })
        },
        IndexingTemplateToken::Constant(ct) => new_t is Constant && new_t->Constant_0.token_type
            == ct.token_type && new_t->Constant_0.text@ == ct.text@,
        IndexingTemplateToken::Whitespace(n) => new_t == IndexingTemplateToken::Whitespace(n),
    }
}

/// Move every row whose entry in column `column_index` equals `term_id`
/// into a new group. The new group's template replaces that variable slot
/// by the term's constant bytes and shifts the later column indexes down;
/// the original group keeps the other rows. Document counts split exactly.
pub fn move_term_id_to_new_group(
    group: &mut DocGroup,
    term_id: u32,
    column_index: usize,
    term_hash_map: &IndexingTermmap,
) -> (r: DocGroup)
    requires
        old(group).wf(),
        column_index < old(group).columns@.len(),
        term_hash_map.regular.wf(),
        term_id < term_hash_map.regular.next_term_id,
        old(group).ids_below(term_hash_map.regular.next_term_id),
    ensures
        final(group).wf(),
        r.wf(),
        final(group).num_docs + r.num_docs == old(group).num_docs,
        final(group).columns@.len() == old(group).columns@.len(),
        final(group).template.tokens@.len() == old(group).template.tokens@.len(),
        final(group).ids_below(term_hash_map.regular.next_term_id),
        r.ids_below(term_hash_map.regular.next_term_id),
        (exists|row: int|
            0 <= row < old(group).columns@[column_index as int]@.len() && old(
                group,
            ).columns@[column_index as int]@[row] == term_id) ==> r.num_docs >= 1,
        // The original group keeps exactly the rows whose split-column
        // entry differs from the term; the new group gets the rest, with
        // the split column removed.
        forall|c: int|
            0 <= c < old(group).columns@.len() ==> (#[trigger] final(group).columns@[c])@
                == spec_filter_rows(
                old(group).columns@[c]@,
                spec_keep_mask(old(group).columns@[column_index as int]@, term_id),
            ),
        r.columns@.len() == old(group).columns@.len() - 1,
        forall|c2: int|
            0 <= c2 < r.columns@.len() ==> (#[trigger] r.columns@[c2])@ == spec_filter_rows(
                old(group).columns@[(if c2 < column_index {
                    c2
                } else {
                    c2 + 1
                })]@,
                spec_move_mask(old(group).columns@[column_index as int]@, term_id),
            ),
        forall|p: int|
            0 <= p < old(group).template.tokens@.len() ==> spec_split_slot(
                (#[trigger] old(group).template.tokens@[p]).token,
                column_index as int,
                r.template.tokens@[p].token,
            ),
        // The split slot's new constant bytes are the bytes the term map
        // holds for `term_id`.
        forall|p: int|
            0 <= p < old(group).template.tokens@.len() && (#[trigger] old(
                group,
            ).template.tokens@[p]).token is Variable && old(
                group,
            ).template.tokens@[p].token->column_index == column_index
                ==> crate::termmap::spec_term_for(
                term_hash_map.regular,
                r.template.tokens@[p].token->Constant_0.text@,
                term_id,
            ),
{
    let ghost pre = *group;
    let num_docs = group.num_docs;
    // Mark the rows to move.
    let mut marked: Vec<bool> = Vec::new();
    let mut kept: Vec<bool> = Vec::new();
    let mut moved_count: usize = 0;
    let mut row: usize = 0;
    while row < num_docs
        invariant
            group == old(group),
            num_docs == group.num_docs,
            group.wf(),
            column_index < group.columns@.len(),
            row <= num_docs,
            marked@.len() == row,
            kept@.len() == row,
            forall|x: int|
                0 <= x < row ==> #[trigger] marked@[x] == (group.columns@[column_index as int]@[x]
                    == term_id),
            forall|x: int| 0 <= x < row ==> #[trigger] kept@[x] == !marked@[x],
            moved_count == count_true(marked@),
            moved_count + count_true(kept@) == row,
        decreases num_docs - row,
    {
        proof {
            lemma_count_true_bounds(marked@);
        }
        let hit = group.columns[column_index][row] == term_id;
        let ghost mpre = marked@;
        let ghost kpre = kept@;
        marked.push(hit);
        kept.push(!hit);
        if hit {
            moved_count = moved_count + 1;
        }
        proof {
            assert(marked@.drop_last() =~= mpre);
            assert(kept@.drop_last() =~= kpre);
            assert(count_true(marked@) == count_true(mpre) + (if hit {
                1int
            } else {
                0int
            }));
            assert(count_true(kept@) == count_true(kpre) + (if !hit {
                1int
            } else {
                0int
            }));
        }
        row = row + 1;
    }
    proof {
        assert(marked@ =~= spec_move_mask(pre.columns@[column_index as int]@, term_id));
        assert(kept@ =~= spec_keep_mask(pre.columns@[column_index as int]@, term_id));
    }
    // Build the moved columns, in order, skipping the split column.
    let ncols = group.columns.len();
    let mut moved_cols: Vec<Vec<u32>> = Vec::new();
    let mut c: usize = 0;
    while c < ncols
        invariant
            group == old(group),
            ncols == group.columns@.len(),
            group.wf(),
            num_docs == group.num_docs,
            marked@.len() == num_docs,
            column_index < ncols,
            c <= ncols,
            moved_cols@.len() == (if c <= column_index {
                c as int
            } else {
                c - 1
            }),
            forall|c2: int|
                0 <= c2 < moved_cols@.len() ==> (#[trigger] moved_cols@[c2])@ == spec_filter_rows(
                    group.columns@[(if c2 < column_index {
                        c2
                    } else {
                        c2 + 1
                    })]@,
                    marked@,
                ),
        decreases ncols - c,
    {
        if c != column_index {
            let ghost colv = group.columns@[c as int]@;
            let col = &group.columns[c];
            let mut out: Vec<u32> = Vec::new();
            let mut r2: usize = 0;
            proof {
                assert(colv.take(0) =~= Seq::<u32>::empty());
            }
            while r2 < num_docs
                invariant
                    colv == col@,
                    colv.len() == num_docs,
                    marked@.len() == num_docs,
                    r2 <= num_docs,
                    out@ == spec_filter_rows(colv.take(r2 as int), marked@),
                decreases num_docs - r2,
            {
                proof {
                    assert(colv.take(r2 + 1).drop_last() =~= colv.take(r2 as int));
                    assert(colv.take(r2 + 1).last() == colv[r2 as int]);
                    assert(colv.take(r2 + 1).len() == r2 + 1);
                }
                if marked[r2] {
                    out.push(col[r2]);
                }
                r2 = r2 + 1;
            }
            proof {
                assert(colv.take(num_docs as int) =~= colv);
            }
            moved_cols.push(out);
        }
        c = c + 1;
    }
    // Build the new template.
    let term_text = term_hash_map.find_term_for_term_id(term_id);
    let nslots = group.template.tokens.len();
    let mut new_tokens: Vec<TemplateTokenWithPos> = Vec::new();
    let mut j: usize = 0;
    while j < nslots
        invariant
            group == old(group),
            nslots == group.template.tokens@.len(),
            group.wf(),
            column_index < group.columns@.len(),
            j <= nslots,
            new_tokens@.len() == j,
            forall|p: int|
                0 <= p < j ==> (#[trigger] new_tokens@[p]).token_index == p,
            forall|p: int|
                0 <= p < j ==> ((#[trigger] new_tokens@[p]).token is Variable <==> (
                group.template.tokens@[p].token is Variable
                    && group.template.tokens@[p].token->column_index != column_index)),
            forall|p: int|
                0 <= p < j && (#[trigger] new_tokens@[p]).token is Variable
                    ==> new_tokens@[p].token->column_index == (
                if group.template.tokens@[p].token->column_index < column_index {
                    group.template.tokens@[p].token->column_index as int
                } else {
                    group.template.tokens@[p].token->column_index - 1
                }),
            forall|p: int|
                0 <= p < j && (#[trigger] new_tokens@[p]).token is Constant
                    ==> new_tokens@[p].token->Constant_0.text@.len() <= u32::MAX,
            forall|p: int|
                0 <= p < j ==> spec_split_slot(
                    (#[trigger] group.template.tokens@[p]).token,
                    column_index as int,
                    new_tokens@[p].token,
                ),
            forall|p: int|
                0 <= p < j && (#[trigger] group.template.tokens@[p]).token is Variable
                    && group.template.tokens@[p].token->column_index == column_index
                    ==> new_tokens@[p].token->Constant_0.text@ == term_text@,
            term_text@.len() <= u32::MAX,
            crate::termmap::spec_term_for(term_hash_map.regular, term_text@, term_id),
        decreases nslots - j,
    {
        let slot: IndexingTemplateToken;
        match &group.template.tokens[j].token {
            IndexingTemplateToken::Variable { is_id_like, column_index: ci, token_type } => {
                if *ci == column_index {
                    slot = IndexingTemplateToken::Constant(
                        ConstTemplateToken::new(
                            *token_type,
                            vstd::slice::slice_to_vec(term_text.as_slice()),
                        ),
                    );
                } else if *ci < column_index {
                    slot = IndexingTemplateToken::Variable {
                        is_id_like: *is_id_like,
                        column_index: *ci,
                        token_type: *token_type,
                    };
                } else {
                    slot = IndexingTemplateToken::Variable {
                        is_id_like: *is_id_like,
                        column_index: *ci - 1,
                        token_type: *token_type,
                    };
                }
            },
            IndexingTemplateToken::Constant(ct) => {
                slot = IndexingTemplateToken::Constant(
                    ConstTemplateToken::new(
                        ct.token_type,
                        vstd::slice::slice_to_vec(ct.text.as_slice()),
                    ),
                );
            },
            IndexingTemplateToken::Whitespace(nws) => {
                slot = IndexingTemplateToken::Whitespace(*nws);
            },
        }
        new_tokens.push(TemplateTokenWithPos { token: slot, token_index: j as u32 });
        j = j + 1;
    }
    let new_group = DocGroup {
        template: IndexingTemplate {
            template_id: TemplateId(0),
            num_docs: 0,
            tokens: new_tokens,
        },
        columns: moved_cols,
        num_docs: moved_count,
    };
    proof {
        lemma_count_true_bounds(marked@);
        // The new template's variable slots stay in bounds and distinct.
        assert forall|p: int|
            0 <= p < new_group.template.tokens@.len() && (
            #[trigger] new_group.template.tokens@[p]).token is Variable
                implies new_group.template.tokens@[p].token->column_index
            < new_group.columns@.len() by {
            assert(pre.template.tokens@[p].token is Variable);
            assert(pre.template.tokens@[p].token->column_index < pre.columns@.len());
        }
        assert forall|p1: int, p2: int|
            0 <= p1 < new_group.template.tokens@.len() && 0 <= p2
                < new_group.template.tokens@.len() && p1 != p2 && (
            #[trigger] new_group.template.tokens@[p1]).token is Variable && (
            #[trigger] new_group.template.tokens@[p2]).token is Variable
                implies new_group.template.tokens@[p1].token->column_index
            != new_group.template.tokens@[p2].token->column_index by {
            assert(pre.template.tokens@[p1].token is Variable);
            assert(pre.template.tokens@[p2].token is Variable);
            assert(pre.template.tokens@[p1].token->column_index != pre.template.tokens@[p2].token
                ->column_index);
        }
        // The new group is well formed.
        assert forall|c2: int|
            0 <= c2 < new_group.columns@.len() implies (#[trigger] new_group.columns@[c2])@.len()
            == new_group.num_docs by {
            lemma_filter_rows_len(
                pre.columns@[(if c2 < column_index {
                    c2
                } else {
                    c2 + 1
                })]@,
                marked@,
            );
        }
        assert forall|c2: int|
            0 <= c2 < new_group.columns@.len() implies #[trigger] spec_column_owned(
            new_group.template.tokens@,
            c2,
        ) by {
            let oldc = if c2 < column_index {
                c2
            } else {
                c2 + 1
            };
            assert(spec_column_owned(pre.template.tokens@, oldc));
            let p = choose|p: int|
                0 <= p < pre.template.tokens@.len() && (#[trigger] pre.template.tokens@[p]).token
                    is Variable && pre.template.tokens@[p].token->column_index == oldc;
            assert(new_group.template.tokens@[p].token is Variable
                && new_group.template.tokens@[p].token->column_index == c2);
        }
        // New ids come from old columns, so they stay below the bound.
        assert forall|c2: int, r3: int|
            0 <= c2 < new_group.columns@.len() && 0 <= r3 < new_group.columns@[c2]@.len()
                implies #[trigger] new_group.columns@[c2]@[r3]
            < term_hash_map.regular.next_term_id by {
            let oldc = if c2 < column_index {
                c2
            } else {
                c2 + 1
            };
            lemma_filter_rows_values(pre.columns@[oldc]@, marked@);
            assert(pre.columns@[oldc]@.contains(new_group.columns@[c2]@[r3]));
            let w = choose|w: int|
                0 <= w < pre.columns@[oldc]@.len() && pre.columns@[oldc]@[w]
                    == new_group.columns@[c2]@[r3];
            assert(pre.columns@[oldc]@[w] < term_hash_map.regular.next_term_id);
        }
        if exists|row2: int|
            0 <= row2 < pre.columns@[column_index as int]@.len() && pre.columns@[
            column_index as int]@[row2] == term_id {
            let row2 = choose|row2: int|
                0 <= row2 < pre.columns@[column_index as int]@.len() && pre.columns@[
                column_index as int]@[row2] == term_id;
            assert(marked@[row2]);
            lemma_count_true_at(marked@, row2);
        }
    }
    // Shrink the original group to the kept rows.
    group.remove_rows(&kept);
    group.num_docs = num_docs - moved_count;
    proof {
        assert forall|c2: int|
            0 <= c2 < group.columns@.len() implies (#[trigger] group.columns@[c2])@.len()
            == group.num_docs by {
            lemma_filter_rows_len(pre.columns@[c2]@, kept@);
        }
        assert forall|c2: int, r3: int|
            0 <= c2 < group.columns@.len() && 0 <= r3 < group.columns@[c2]@.len()
                implies #[trigger] group.columns@[c2]@[r3]
            < term_hash_map.regular.next_term_id by {
            lemma_filter_rows_values(pre.columns@[c2]@, kept@);
            assert(pre.columns@[c2]@.contains(group.columns@[c2]@[r3]));
            let w = choose|w: int|
                0 <= w < pre.columns@[c2]@.len() && pre.columns@[c2]@[w]
                    == group.columns@[c2]@[r3];
            assert(pre.columns@[c2]@[w] < term_hash_map.regular.next_term_id);
        }
    }
    new_group
}

/// If some entry is true, at least one entry is counted.
proof fn lemma_count_true_at(keep: Seq<bool>, i: int)
    requires
        0 <= i < keep.len(),
        keep[i],
    ensures
        count_true(keep) >= 1,
    decreases keep.len(),
{
    if i == keep.len() - 1 {
        lemma_count_true_bounds(keep.drop_last());
    } else {
        lemma_count_true_at(keep.drop_last(), i);
    }
}

/// Every column of the group stays at or below the threshold for every
/// value.
pub open spec fn column_counts_bounded(g: DocGroup, threshold: u32) -> bool {
    forall|c: int, x: u32|
        0 <= c < g.columns@.len() ==> #[trigger] count_val(g.columns@[c]@, x) <= threshold
}

/// The first `c` columns of the group stay at or below the threshold.
pub open spec fn columns_bounded_upto(g: DocGroup, c: int, threshold: u32) -> bool {
    forall|c2: int, x: u32|
        0 <= c2 < c && c2 < g.columns@.len() ==> #[trigger] count_val(g.columns@[c2]@, x)
            <= threshold
}

/// For each group and column, move every term id whose frequency exceeds
/// `threshold` out into a group of its own. The total number of documents
/// never changes, and afterwards no column of the original groups holds a
/// value more than `threshold` times. Split-created groups are appended
/// and not re-scanned.
pub fn split_templates(ix: &mut PreliminaryIndex, threshold: u32)
    requires
        old(ix).wf(),
    ensures
        final(ix).wf(),
        spec_total_docs(final(ix).doc_groups.entries@) == spec_total_docs(
            old(ix).doc_groups.entries@,
        ),
        final(ix).doc_groups.entries@.len() >= old(ix).doc_groups.entries@.len(),
        forall|g: int|
            0 <= g < old(ix).doc_groups.entries@.len() ==> column_counts_bounded(
                (#[trigger] final(ix).doc_groups.entries@[g]).1,
                threshold,
            ),
{
    let n = ix.doc_groups.entries.len();
    let mut gi: usize = 0;
    while gi < n
        invariant
            ix.wf(),
            gi <= n,
            n <= ix.doc_groups.entries@.len(),
            spec_total_docs(ix.doc_groups.entries@) == spec_total_docs(
                old(ix).doc_groups.entries@,
            ),
            forall|g2: int|
                0 <= g2 < gi ==> column_counts_bounded(
                    (#[trigger] ix.doc_groups.entries@[g2]).1,
                    threshold,
                ),
        decreases n - gi,
    {
        let ncols = ix.doc_groups.entries[gi].1.columns.len();
        let mut c: usize = 0;
        proof {
            assert(columns_bounded_upto(ix.doc_groups.entries@[gi as int].1, 0, threshold));
        }
        while c < ncols
            invariant
                ix.wf(),
                gi < n,
                n <= ix.doc_groups.entries@.len(),
                c <= ncols,
                ncols == ix.doc_groups.entries@[gi as int].1.columns@.len(),
                spec_total_docs(ix.doc_groups.entries@) == spec_total_docs(
                    old(ix).doc_groups.entries@,
                ),
                forall|g2: int|
                    0 <= g2 < gi ==> column_counts_bounded(
                        (#[trigger] ix.doc_groups.entries@[g2]).1,
                        threshold,
                    ),
                columns_bounded_upto(ix.doc_groups.entries@[gi as int].1, c as int, threshold),
            decreases ncols - c,
        {
            let mut keep_splitting = true;
            while keep_splitting
                invariant
                    ix.wf(),
                    gi < n,
                    n <= ix.doc_groups.entries@.len(),
                    c < ncols,
                    ncols == ix.doc_groups.entries@[gi as int].1.columns@.len(),
                    spec_total_docs(ix.doc_groups.entries@) == spec_total_docs(
                        old(ix).doc_groups.entries@,
                    ),
                    forall|g2: int|
                        0 <= g2 < gi ==> column_counts_bounded(
                            (#[trigger] ix.doc_groups.entries@[g2]).1,
                            threshold,
                        ),
                    columns_bounded_upto(ix.doc_groups.entries@[gi as int].1, c as int, threshold),
                    !keep_splitting ==> forall|x: u32|
                        count_val(
                            ix.doc_groups.entries@[gi as int].1.columns@[c as int]@,
                            x,
                        ) <= threshold,
                decreases ix.doc_groups.entries@[gi as int].1.num_docs + (if keep_splitting {
                    1int
                } else {
                    0int
                }),
            {
                let ghost pre = ix.doc_groups.entries@;
                let mut entry = ix.doc_groups.entries.remove(gi);
                proof {
                    lemma_total_docs_remove(pre, gi as int);
                }
                let found = find_frequent(&entry.1.columns[c], threshold);
                match found {
                    None => {
                        let ghost eg = entry;
                        let ghost mid = ix.doc_groups.entries@;
                        ix.doc_groups.entries.insert(gi, entry);
                        proof {
                            lemma_total_docs_insert(mid, gi as int, eg);
                            assert(ix.doc_groups.entries@ =~= pre);
                        }
                        keep_splitting = false;
                    },
                    Some(t) => {
                        let ghost gpre = entry.1;
                        let new_group = move_term_id_to_new_group(
                            &mut entry.1,
                            t,
                            c,
                            &ix.term_hash_map,
                        );
                        let ghost eg = entry;
                        let ghost mid = ix.doc_groups.entries@;
                        ix.doc_groups.entries.insert(gi, entry);
                        proof {
                            lemma_total_docs_insert(mid, gi as int, eg);
                            assert forall|i2: int|
                                0 <= i2 < ix.doc_groups.entries@.len() implies (
                            #[trigger] ix.doc_groups.entries@[i2]).1.wf()
                                && ix.doc_groups.entries@[i2].1.ids_below(
                                ix.term_hash_map.regular.next_term_id,
                            ) by {
                                if i2 != gi {
                                    if i2 < gi {
                                        assert(ix.doc_groups.entries@[i2] == pre[i2]);
                                    } else {
                                        assert(ix.doc_groups.entries@[i2] == pre[i2]);
                                    }
                                }
                            }
                            // Earlier groups are untouched; earlier columns of
                            // this group only lost rows.
                            assert forall|g2: int|
                                0 <= g2 < gi implies column_counts_bounded(
                                (#[trigger] ix.doc_groups.entries@[g2]).1,
                                threshold,
                            ) by {
                                assert(ix.doc_groups.entries@[g2] == pre[g2]);
                            }
                            assert(columns_bounded_upto(
                                ix.doc_groups.entries@[gi as int].1,
                                c as int,
                                threshold,
                            )) by {
                                assert forall|c2: int, x: u32|
                                    0 <= c2 < c && c2
                                        < ix.doc_groups.entries@[gi as int].1.columns@.len()
                                        implies #[trigger] count_val(
                                    ix.doc_groups.entries@[gi as int].1.columns@[c2]@,
                                    x,
                                ) <= threshold by {
                                    assert(ix.doc_groups.entries@[gi as int].1 == eg.1);
                                    assert(eg.1.columns@[c2]@ == spec_filter_rows(
                                        gpre.columns@[c2]@,
                                        spec_keep_mask(gpre.columns@[c as int]@, t),
                                    ));
                                    lemma_filter_count_le(
                                        gpre.columns@[c2]@,
                                        spec_keep_mask(gpre.columns@[c as int]@, t),
                                        x,
                                    );
                                    assert(count_val(gpre.columns@[c2]@, x) <= threshold);
                                }
                            }
                        }
                        ix.doc_groups.insert_new_group(new_group);
                        proof {
                            assert forall|g2: int|
                                0 <= g2 < gi implies column_counts_bounded(
                                (#[trigger] ix.doc_groups.entries@[g2]).1,
                                threshold,
                            ) by {}
                        }
                    },
                }
            }
            proof {
                assert(columns_bounded_upto(
                    ix.doc_groups.entries@[gi as int].1,
                    c + 1,
                    threshold,
                )) by {
                    assert forall|c2: int, x: u32|
                        0 <= c2 < c + 1 && c2 < ix.doc_groups.entries@[gi as int].1.columns@.len()
                            implies #[trigger] count_val(
                        ix.doc_groups.entries@[gi as int].1.columns@[c2]@,
                        x,
                    ) <= threshold by {
                        if c2 == c {
                            assert(count_val(
                                ix.doc_groups.entries@[gi as int].1.columns@[c as int]@,
                                x,
                            ) <= threshold);
                        }
                    }
                }
            }
            c = c + 1;
        }
        proof {
            assert(column_counts_bounded(ix.doc_groups.entries@[gi as int].1, threshold)) by {
                assert forall|c2: int, x: u32|
                    0 <= c2 < ix.doc_groups.entries@[gi as int].1.columns@.len()
                        implies #[trigger] count_val(
                    ix.doc_groups.entries@[gi as int].1.columns@[c2]@,
                    x,
                ) <= threshold by {
                    assert(c2 < ncols);
                }
            }
        }
        gi = gi + 1;
    }
}

} // verus!

//! The preliminary index: ingestion groups lines by the fingerprint of
//! their token-type sequence and grows one [`DocGroup`] per fingerprint.

use vstd::prelude::*;
use crate::tokenizer::{Token, tokenize, spec_tokens_in_range, lemma_tokenize_in_range, MAX_TOKENS};
use crate::termmap::IndexingTermmap;
use crate::groups::{DocGroup, fingerprint_tokens, fingerprint_types, tm_headroom, spec_token_type_bytes};
use crate::hashes::fx64_of;
use crate::IndexError;
use vstd::string::StringSliceAdditionalSpecFns;

verus! {

/// Identifies a group: the (possibly salted) fingerprint it is filed
/// under.
#[derive(Debug, Clone, Copy, PartialEq, Eq, Structural)]
pub struct GroupId {
    pub key: u64,
}

/// All document groups, in insertion order, keyed by fingerprint.
pub struct DocGroups {
    /// The groups, each under its key. Keys of groups made by merging or
    /// splitting are salted and may repeat; lookups take the first match.
    pub entries: Vec<(u64, DocGroup)>,
    /// Salt for the keys of reinserted groups, bumped on every reinsertion.
    pub next_group_salt: u64,
}

/// The sum of the document counts of all groups.
pub open spec fn spec_total_docs(s: Seq<(u64, DocGroup)>) -> int
    decreases s.len(),
{
    if s.len() == 0 {
        0
    } else {
        spec_total_docs(s.drop_last()) + s.last().1.num_docs
    }
}

/// Every group is well formed.
pub open spec fn groups_wf(s: Seq<(u64, DocGroup)>) -> bool {
    forall|i: int| 0 <= i < s.len() ==> (#[trigger] s[i]).1.wf()
}

/// Every term id in every column of every group is below `bound`.
pub open spec fn groups_ids_below(s: Seq<(u64, DocGroup)>, bound: u32) -> bool {
    forall|i: int| 0 <= i < s.len() ==> (#[trigger] s[i]).1.ids_below(bound)
}

/// Every part of the sum is at most the sum.
pub proof fn lemma_total_docs_bounds(s: Seq<(u64, DocGroup)>)
    ensures
        spec_total_docs(s) >= 0,
        forall|i: int| 0 <= i < s.len() ==> (#[trigger] s[i]).1.num_docs <= spec_total_docs(s),
    decreases s.len(),
{
    if s.len() > 0 {
        lemma_total_docs_bounds(s.drop_last());
        assert forall|i: int|
            0 <= i < s.len() implies (#[trigger] s[i]).1.num_docs <= spec_total_docs(s) by {
            if i < s.len() - 1 {
                assert(s[i] == s.drop_last()[i]);
            }
        }
    }
}

pub proof fn lemma_total_docs_push(s: Seq<(u64, DocGroup)>, e: (u64, DocGroup))
    ensures
        spec_total_docs(s.push(e)) == spec_total_docs(s) + e.1.num_docs,
{
    assert(s.push(e).drop_last() =~= s);
}

pub proof fn lemma_total_docs_remove(s: Seq<(u64, DocGroup)>, i: int)
    requires
        0 <= i < s.len(),
    ensures
        spec_total_docs(s.remove(i)) == spec_total_docs(s) - s[i].1.num_docs,
    decreases s.len(),
{
    if i == s.len() - 1 {
        assert(s.remove(i) =~= s.drop_last());
    } else {
        assert(s.remove(i).drop_last() =~= s.drop_last().remove(i));
        assert(s.remove(i).last() == s.last());
        lemma_total_docs_remove(s.drop_last(), i);
        assert(s.drop_last()[i] == s[i]);
    }
}

pub proof fn lemma_total_docs_insert(s: Seq<(u64, DocGroup)>, i: int, e: (u64, DocGroup))
    requires
        0 <= i <= s.len(),
    ensures
        spec_total_docs(s.insert(i, e)) == spec_total_docs(s) + e.1.num_docs,
    decreases s.len(),
{
    if i == s.len() {
        assert(s.insert(i, e) =~= s.push(e));
        lemma_total_docs_push(s, e);
    } else {
        assert(s.insert(i, e).drop_last() =~= s.drop_last().insert(i, e));
        assert(s.insert(i, e).last() == s.last());
        lemma_total_docs_insert(s.drop_last(), i, e);
    }
}

/// The least index of a group whose key is `fp` and whose template has
/// `k` slots, or -1 when there is none.
pub open spec fn spec_first_match(s: Seq<(u64, DocGroup)>, fp: u64, k: int) -> int
    decreases s.len(),
{
    if s.len() == 0 {
        -1
    } else if s[0].0 == fp && s[0].1.template.tokens@.len() == k {
        0
    } else if spec_first_match(s.drop_first(), fp, k) < 0 {
        -1
    } else {
        spec_first_match(s.drop_first(), fp, k) + 1
    }
}

/// A matching index with a match-free prefix is the first match.
proof fn lemma_first_match_at(s: Seq<(u64, DocGroup)>, fp: u64, k: int, g: int)
    requires
        0 <= g < s.len(),
        s[g].0 == fp && s[g].1.template.tokens@.len() == k,
        forall|h: int|
            0 <= h < g ==> !((#[trigger] s[h]).0 == fp && s[h].1.template.tokens@.len() == k),
    ensures
        spec_first_match(s, fp, k) == g,
    decreases g,
{
    if g > 0 {
        let t = s.drop_first();
        assert(t[g - 1] == s[g]);
        assert forall|h: int|
            0 <= h < g - 1 implies !((#[trigger] t[h]).0 == fp && t[h].1.template.tokens@.len()
            == k) by {
            assert(t[h] == s[h + 1]);
        }
        lemma_first_match_at(t, fp, k, g - 1);
    }
}

/// With no matching group at all, the first match is -1.
proof fn lemma_first_match_none(s: Seq<(u64, DocGroup)>, fp: u64, k: int)
    requires
        forall|h: int|
            0 <= h < s.len() ==> !((#[trigger] s[h]).0 == fp && s[h].1.template.tokens@.len()
                == k),
    ensures
        spec_first_match(s, fp, k) == -1,
    decreases s.len(),
{
    if s.len() > 0 {
        let t = s.drop_first();
        assert forall|h: int|
            0 <= h < t.len() implies !((#[trigger] t[h]).0 == fp && t[h].1.template.tokens@.len()
            == k) by {
            assert(t[h] == s[h + 1]);
        }
        lemma_first_match_none(t, fp, k);
    }
}

impl DocGroups {
    /// The states the collection keeps itself in.
    pub open spec fn wf(self) -> bool {
        groups_wf(self.entries@)
    }

    /// Room for the whole collection to keep growing: bounds every
    /// group's size comfortably below the machine limits.
    pub open spec fn has_room(self) -> bool {
        spec_total_docs(self.entries@) * 100 + 300 <= usize::MAX
    }

    /// An empty collection.
    pub fn new() -> (r: DocGroups)
        ensures
            r.wf(),
            r.entries@.len() == 0,
            r.next_group_salt == 0,
            spec_total_docs(r.entries@) == 0,
    {
        DocGroups { entries: Vec::new(), next_group_salt: 0 }
    }

    /// Total number of groups.
    pub fn num_groups(&self) -> (r: usize)
        ensures
            r == self.entries@.len(),
    {
        self.entries.len()
    }

    /// Total number of groups.
    pub fn len(&self) -> (r: usize)
        ensures
            r == self.entries@.len(),
    {
        self.entries.len()
    }

    /// Insert one tokenized line: the line joins the first group whose key
    /// is the line's fingerprint and whose template has the same number of
    /// slots; if there is none, a fresh group is opened under that
    /// fingerprint.
    pub fn insert(&mut self, tokens: &Vec<Token>, line: &[u8], term_hash_map: &mut IndexingTermmap)
        requires
            old(self).wf(),
            old(self).has_room(),
            spec_tokens_in_range(tokens@, line@.len() as int),
            line@.len() <= u32::MAX,
            tokens@.len() <= u32::MAX,
            old(term_hash_map).regular.wf(),
            tm_headroom(*old(term_hash_map), 2 * tokens@.len() as int),
            groups_ids_below(old(self).entries@, old(term_hash_map).regular.next_term_id),
        ensures
            final(self).wf(),
            spec_total_docs(final(self).entries@) == spec_total_docs(old(self).entries@) + 1,
            final(term_hash_map).regular.wf(),
            old(term_hash_map).regular.next_term_id <= final(term_hash_map).regular.next_term_id
                <= old(term_hash_map).regular.next_term_id + 2 * tokens@.len(),
            groups_ids_below(final(self).entries@, final(term_hash_map).regular.next_term_id),
            // Grouping law, no match: a fresh one-line group is appended
            // under the line's fingerprint; nothing else moves.
            spec_first_match(
                old(self).entries@,
                fx64_of(spec_token_type_bytes(tokens@)),
                tokens@.len() as int,
            ) < 0 ==> final(self).entries@.len() == old(self).entries@.len() + 1 && (forall|j: int|
                0 <= j < old(self).entries@.len() ==> #[trigger] final(self).entries@[j] == old(
                    self,
                ).entries@[j]) && final(self).entries@.last().0 == fx64_of(
                spec_token_type_bytes(tokens@),
            ) && final(self).entries@.last().1.num_docs == 1
                && final(self).entries@.last().1.template.tokens@.len() == tokens@.len(),
            // Grouping law, match: the line joins the first group whose
            // key is the fingerprint and whose template has as many slots
            // as the line has tokens; every other group is untouched.
            spec_first_match(
                old(self).entries@,
                fx64_of(spec_token_type_bytes(tokens@)),
                tokens@.len() as int,
            ) >= 0 ==> final(self).entries@.len() == old(self).entries@.len() && (forall|j: int|
                0 <= j < old(self).entries@.len() && j != spec_first_match(
                    old(self).entries@,
                    fx64_of(spec_token_type_bytes(tokens@)),
                    tokens@.len() as int,
                ) ==> #[trigger] final(self).entries@[j] == old(self).entries@[j]) && final(self).entries@[spec_first_match(
                old(self).entries@,
                fx64_of(spec_token_type_bytes(tokens@)),
                tokens@.len() as int,
            )].0 == old(self).entries@[spec_first_match(
                old(self).entries@,
                fx64_of(spec_token_type_bytes(tokens@)),
                tokens@.len() as int,
            )].0 && final(self).entries@[spec_first_match(
                old(self).entries@,
                fx64_of(spec_token_type_bytes(tokens@)),
                tokens@.len() as int,
            )].1.num_docs == old(self).entries@[spec_first_match(
                old(self).entries@,
                fx64_of(spec_token_type_bytes(tokens@)),
                tokens@.len() as int,
            )].1.num_docs + 1,
    {
        let fp = fingerprint_tokens(tokens);
        let n = self.entries.len();
        let mut found: usize = n;
        let mut i: usize = 0;
        while i < n && found == n
            invariant
                n == self.entries@.len(),
                i <= n,
                self.entries@ == old(self).entries@,
                fp == fx64_of(spec_token_type_bytes(tokens@)),
                found == n || (found < n && self.entries@[found as int].0 == fp
                    && self.entries@[found as int].1.template.tokens@.len() == tokens@.len()),
                forall|j: int|
                    0 <= j < (if found == n {
                        i as int
                    } else {
                        found as int
                    }) ==> !((#[trigger] self.entries@[j]).0 == fp
                        && self.entries@[j].1.template.tokens@.len() == tokens@.len()),
            decreases n - i + (if found == n { 1int } else { 0int }),
        {
            let matches_key = self.entries[i].0 == fp;
            let matches_len = self.entries[i].1.template.tokens.len() == tokens.len();
            if matches_key && matches_len {
                found = i;
            } else {
                i = i + 1;
            }
        }
        proof {
            lemma_total_docs_bounds(self.entries@);
            if found < n {
                lemma_first_match_at(
                    self.entries@,
                    fp,
                    tokens@.len() as int,
                    found as int,
                );
            } else {
                lemma_first_match_none(self.entries@, fp, tokens@.len() as int);
            }
        }
        if found < self.entries.len() {
            let ghost pre = self.entries@;
            let mut entry = self.entries.remove(found);
            proof {
                lemma_total_docs_remove(pre, found as int);
                assert(entry.1.wf());
                assert(entry.1.ids_below(term_hash_map.regular.next_term_id));
                assert(entry.1.num_docs <= spec_total_docs(pre));
            }
            entry.1.push(tokens, line, term_hash_map);
            let ghost eg = entry;
            let ghost mid = self.entries@;
            self.entries.insert(found, entry);
            proof {
                lemma_total_docs_insert(mid, found as int, eg);
                assert(mid =~= pre.remove(found as int));
                assert forall|i2: int|
                    0 <= i2 < self.entries@.len() implies (#[trigger] self.entries@[i2]).1.wf()
                    && self.entries@[i2].1.ids_below(term_hash_map.regular.next_term_id) by {
                    if i2 < found {
                        assert(self.entries@[i2] == pre[i2]);
                    } else if i2 == found {
                    } else {
                        assert(self.entries@[i2] == pre[i2]);
                    }
                }
            }
        } else {
            let group = DocGroup::new(tokens, line);
            let ghost pre = self.entries@;
            self.entries.push((fp, group));
            proof {
                lemma_total_docs_push(pre, (fp, group));
                assert forall|i2: int|
                    0 <= i2 < self.entries@.len() implies (#[trigger] self.entries@[i2]).1.wf()
                    && self.entries@[i2].1.ids_below(term_hash_map.regular.next_term_id) by {
                    if i2 < pre.len() {
                        assert(self.entries@[i2] == pre[i2]);
                    }
                }
            }
        }
    }

    /// File a rebuilt group (from merging or splitting) under a fresh
    /// salted key, never touching any existing group.
    pub fn insert_new_group(&mut self, group: DocGroup)
        requires
            old(self).wf(),
            group.wf(),
        ensures
            final(self).wf(),
            final(self).entries@.len() == old(self).entries@.len() + 1,
            final(self).entries@.last().1 == group,
            forall|i: int|
                0 <= i < old(self).entries@.len() ==> #[trigger] final(self).entries@[i] == old(
                    self,
                ).entries@[i],
            spec_total_docs(final(self).entries@) == spec_total_docs(old(self).entries@)
                + group.num_docs,
            forall|b: u32|
                groups_ids_below(old(self).entries@, b) && group.ids_below(b)
                    ==> #[trigger] groups_ids_below(final(self).entries@, b),
    {
        let salt = self.next_group_salt;
        self.next_group_salt = self.next_group_salt.wrapping_add(1);
        let base = fingerprint_types(&group.template.tokens);
        let key = base.wrapping_add(salt);
        let ghost pre = self.entries@;
        self.entries.push((key, group));
        proof {
            lemma_total_docs_push(pre, (key, group));
            assert forall|i2: int|
                0 <= i2 < self.entries@.len() implies (#[trigger] self.entries@[i2]).1.wf() by {
                if i2 < pre.len() {
                    assert(self.entries@[i2] == pre[i2]);
                }
            }
            assert forall|b: u32|
                groups_ids_below(pre, b) && group.ids_below(b) implies #[trigger] groups_ids_below(
                self.entries@,
                b,
            ) by {
                assert forall|i2: int|
                    0 <= i2 < self.entries@.len() implies (#[trigger] self.entries@[i2]).1.ids_below(
                    b,
                ) by {
                    if i2 < pre.len() {
                        assert(self.entries@[i2] == pre[i2]);
                    }
                }
            }
        }
    }
}

/// The output of ingestion: the term map and the document groups.
pub struct PreliminaryIndex {
    pub term_hash_map: IndexingTermmap,
    pub doc_groups: DocGroups,
}

impl PreliminaryIndex {
    /// What ingestion guarantees of its output.
    pub open spec fn wf(self) -> bool {
        &&& self.term_hash_map.regular.wf()
        &&& self.doc_groups.wf()
        &&& groups_ids_below(self.doc_groups.entries@, self.term_hash_map.regular.next_term_id)
    }
}

/// The inputs for which ingestion always succeeds: every line fits the
/// positions a token can address, and the whole input stays far below the
/// term-id space.
pub open spec fn spec_lines_in_range(lines: Seq<String>) -> bool {
    &&& forall|i: int|
        0 <= i < lines.len() ==> vstd::utf8::encode_utf8((#[trigger] lines[i])@).len() <= u32::MAX
    &&& 202 * lines.len() + 202 <= u32::MAX
    &&& 202 * lines.len() + 202 <= usize::MAX / 16
    &&& lines.len() < usize::MAX / 200
}

/// Ingest all lines: tokenize each and file it into its group. Fails only
/// when a line is longer than `u32::MAX` bytes or the term-id space runs
/// short; for inputs within those limits (`spec_lines_in_range`) success
/// is guaranteed.
pub fn preliminary_index(lines: &Vec<String>) -> (r: Result<PreliminaryIndex, IndexError>)
    ensures
        match r {
            Ok(ix) => {
                &&& ix.wf()
                &&& spec_total_docs(ix.doc_groups.entries@) == lines@.len()
            },
            Err(e) => e == IndexError::TermCapacity || e == IndexError::LineTooLong,
        },
        spec_lines_in_range(lines@) ==> r is Ok,
{
    let mut term_hash_map = IndexingTermmap::new();
    let mut preliminary_docs = DocGroups::new();
    let n = lines.len();
    let mut i: usize = 0;
    // Headroom one line can consume in the term map, and the cap on the
    // term counter under which a line is still accepted.
    let per_line: u32 = 2 * (MAX_TOKENS as u32) + 2;
    let cap32: u32 = u32::MAX - per_line;
    let cap_usize: usize = usize::MAX / 16;
    while i < n
        invariant
            n == lines@.len(),
            i <= n,
            per_line == 2 * MAX_TOKENS + 2,
            cap32 == u32::MAX - per_line,
            cap_usize == usize::MAX / 16,
            term_hash_map.regular.wf(),
            preliminary_docs.wf(),
            spec_total_docs(preliminary_docs.entries@) == i,
            groups_ids_below(preliminary_docs.entries@, term_hash_map.regular.next_term_id),
            spec_lines_in_range(lines@) ==> term_hash_map.regular.next_term_id <= 202 * i,
        decreases n - i,
    {
        let lstr = lines[i].as_str();
        if lstr.as_bytes().len() > u32::MAX as usize {
            proof {
                assert(lstr.spec_bytes().len() > u32::MAX);
                if spec_lines_in_range(lines@) {
                    assert(vstd::utf8::encode_utf8(lines@[i as int]@).len() <= u32::MAX);
                }
            }
            return Err(IndexError::LineTooLong);
        }
        if term_hash_map.regular.next_term_id > cap32 || (term_hash_map.regular.next_term_id
            as usize) + (per_line as usize) > cap_usize {
            proof {
                if spec_lines_in_range(lines@) {
                    assert(term_hash_map.regular.next_term_id <= 202 * i);
                    assert(202 * i + 202 <= 202 * n + 202);
                }
            }
            return Err(IndexError::TermCapacity);
        }
        // Keep far below the machine limit on total documents.
        if i >= usize::MAX / 200 {
            proof {
                if spec_lines_in_range(lines@) {
                    assert(i < n);
                }
            }
            return Err(IndexError::TermCapacity);
        }
        let tokens = tokenize(lstr);
        proof {
            let s = lstr.spec_bytes();
            lemma_tokenize_in_range(s, 0, 0);
            crate::tokenizer::lemma_tokenize_max(s, 0, 0);
            assert(spec_total_docs(preliminary_docs.entries@) * 100 + 300 <= usize::MAX);
        }
        preliminary_docs.insert(&tokens, lstr.as_bytes(), &mut term_hash_map);
        i = i + 1;
    }
    Ok(PreliminaryIndex { term_hash_map, doc_groups: preliminary_docs })
}

} // verus!

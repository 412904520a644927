//! The index writer pipeline: tokenize and group the lines, merge and
//! optionally split templates, assign ids, build the dictionary and the
//! old-to-new map, and produce every on-disk payload as plain values.

use vstd::prelude::*;
use crate::prelim::{preliminary_index, spec_total_docs};
use crate::patterns::{merge_templates, split_templates, assign_template_ids};
use crate::postings::term_id_idx_to_template_ids;
use crate::dict::{build_dictionary, spec_mapping_covers, spec_dictionary_backed, DictEntry, entries_strictly_sorted, lex_lt, lemma_lex_trans};
use crate::postings::TemplateIdSet;
use crate::templates::TemplateWithMeta;
use crate::columns::{column_bytes_and_remap, zstd_compress, zstd_of, unzstd_of, spec_column_payload};
use crate::groups::DocGroup;
use crate::templates::frozen_matches;
use crate::IndexError;


verus! {

/// The zstd level columns are compressed with.
pub const COLUMN_ZSTD_LEVEL: i32 = 6;

/// Everything the writer computes: the payload of each output file, as
/// plain values.
pub struct IndexArtifacts {
    /// The dictionary entries, in strictly increasing term order.
    pub dictionary: Vec<DictEntry>,
    /// The old-to-new term id map the sorted order induced.
    pub old_to_new: Vec<u32>,
    /// The frozen templates, in template-id order.
    pub templates: Vec<TemplateWithMeta>,
    /// For each template, in id order, its compressed column stream.
    pub column_blobs: Vec<Vec<u8>>,
    /// The `(term, old id)` pairs the dictionary was built from.
    pub terms: Ghost<Seq<(Vec<u8>, u32)>>,
    /// The per-term posting sets the dictionary was built from.
    pub postings: Ghost<Seq<TemplateIdSet>>,
    /// The document groups the templates were frozen from.
    pub source_groups: Ghost<Seq<DocGroup>>,
}

impl IndexArtifacts {
    /// What the pipeline guarantees of its output.
    pub open spec fn wf(self) -> bool {
        &&& entries_strictly_sorted(self.dictionary@)
        &&& self.templates@.len() == self.column_blobs@.len()
        &&& forall|i: int|
            0 <= i < self.templates@.len() ==> (#[trigger] self.templates@[i]).template_id.0 == i
    }

    /// The total number of documents over all templates.
    pub open spec fn spec_docs(self) -> int {
        spec_meta_docs(self.templates@)
    }
}

impl IndexArtifacts {
    /// Assemble artifacts from values loaded back off disk; the recorded
    /// dictionary witnesses are empty for a loaded index.
    pub fn assemble(
        dictionary: Vec<DictEntry>,
        old_to_new: Vec<u32>,
        templates: Vec<TemplateWithMeta>,
        column_blobs: Vec<Vec<u8>>,
    ) -> (r: IndexArtifacts)
        ensures
            r.dictionary == dictionary,
            r.old_to_new == old_to_new,
            r.templates == templates,
            r.column_blobs == column_blobs,
    {
        IndexArtifacts {
            dictionary,
            old_to_new,
            templates,
            column_blobs,
            terms: Ghost(Seq::empty()),
            postings: Ghost(Seq::empty()),
            source_groups: Ghost(Seq::empty()),
        }
    }
}

/// The sum of the document counts of frozen templates.
pub open spec fn spec_meta_docs(ts: Seq<TemplateWithMeta>) -> int
    decreases ts.len(),
{
    if ts.len() == 0 {
        0
    } else {
        spec_meta_docs(ts.drop_last()) + ts.last().num_docs
    }
}

/// Drives indexing for one output folder's worth of lines.
pub struct IndexWriter {
    /// The split threshold, if splitting is enabled.
    pub split_threshold: Option<u32>,
}

impl IndexWriter {
    /// A writer with default settings: merging on, splitting off.
    pub fn new() -> (r: IndexWriter)
        ensures
            r.split_threshold is None,
    {
        IndexWriter { split_threshold: None }
    }

    /// A writer that also splits high-frequency constants out of columns.
    pub fn with_split_threshold(threshold: u32) -> (r: IndexWriter)
        ensures
            r.split_threshold == Some(threshold),
    {
        IndexWriter { split_threshold: Some(threshold) }
    }

    /// Run the whole pipeline over the lines. On success the artifacts are
    /// well formed, they hold exactly one document per input line, the
    /// dictionary is strictly sorted, and the old-to-new map covers every
    /// term with a posting.
    pub fn index(&self, lines: &Vec<String>) -> (r: Result<IndexArtifacts, IndexError>)
        ensures
            r is Ok ==> r->Ok_0.wf() && r->Ok_0.spec_docs() == lines@.len()
                && spec_mapping_covers(
                r->Ok_0.dictionary@,
                r->Ok_0.old_to_new@,
                r->Ok_0.terms@,
                r->Ok_0.postings@,
            ) && spec_dictionary_backed(
                r->Ok_0.dictionary@,
                r->Ok_0.terms@,
                r->Ok_0.postings@,
            ),
            r is Ok ==> ({
                let a = r->Ok_0;
                &&& a.source_groups@.len() == a.templates@.len()
                &&& forall|i: int|
                    0 <= i < a.templates@.len() ==> {
                        let g = (#[trigger] a.source_groups@[i]);
                        &&& a.column_blobs@[i]@ == zstd_of(
                            spec_column_payload(g, a.old_to_new@),
                            COLUMN_ZSTD_LEVEL as int,
                        )
                        &&& unzstd_of(a.column_blobs@[i]@) == spec_column_payload(g, a.old_to_new@)
                        &&& a.templates@[i].num_docs == g.num_docs
                        &&& a.templates@[i].template.parts@.len() == g.template.tokens@.len()
                        &&& forall|j: int|
                            0 <= j < g.template.tokens@.len() ==> frozen_matches(
                                #[trigger] a.templates@[i].template.parts@[j],
                                g.template.tokens@[j].token,
                            )
                    }
            }),
    {
        let mut ix = match preliminary_index(lines) {
            Ok(ix) => ix,
            Err(e) => {
                return Err(e);
            },
        };
        match self.split_threshold {
            Some(threshold) => {
                split_templates(&mut ix, threshold);
            },
            None => {},
        }
        match merge_templates(&mut ix) {
            Ok(_) => {},
            Err(e) => {
                return Err(e);
            },
        }
        if ix.doc_groups.entries.len() > u32::MAX as usize {
            return Err(IndexError::TermCapacity);
        }
        assign_template_ids(&mut ix);
        let term_id_idx = term_id_idx_to_template_ids(&ix);
        let terms = ix.term_hash_map.regular.iter();
        let (dictionary, old_to_new) = match build_dictionary(&terms, &term_id_idx) {
            Ok(pair) => pair,
            Err(e) => {
                return Err(e);
            },
        };
        // Freeze the templates and compress the columns, in id order.
        let mut templates: Vec<TemplateWithMeta> = Vec::new();
        let mut column_blobs: Vec<Vec<u8>> = Vec::new();
        let ghost mut gs: Seq<DocGroup> = Seq::empty();
        let ngroups = ix.doc_groups.entries.len();
        let mut g: usize = 0;
        while g < ngroups
            invariant
                ngroups == ix.doc_groups.entries@.len(),
                g <= ngroups,
                ix.wf(),
                templates@.len() == g,
                column_blobs@.len() == g,
                gs.len() == g,
                forall|i: int|
                    0 <= i < ngroups ==> (
                    #[trigger] ix.doc_groups.entries@[i]).1.template.template_id.0 == i
                        && ix.doc_groups.entries@[i].1.template.num_docs
                        == ix.doc_groups.entries@[i].1.num_docs,
                forall|i: int|
                    0 <= i < g ==> (#[trigger] templates@[i]).template_id.0 == i,
                forall|i: int|
                    0 <= i < g ==> {
                        let gi = (#[trigger] gs[i]);
                        &&& column_blobs@[i]@ == zstd_of(
                            spec_column_payload(gi, old_to_new@),
                            COLUMN_ZSTD_LEVEL as int,
                        )
                        &&& unzstd_of(column_blobs@[i]@) == spec_column_payload(gi, old_to_new@)
                        &&& templates@[i].num_docs == gi.num_docs
                        &&& templates@[i].template.parts@.len() == gi.template.tokens@.len()
                        &&& forall|j: int|
                            0 <= j < gi.template.tokens@.len() ==> frozen_matches(
                                #[trigger] templates@[i].template.parts@[j],
                                gi.template.tokens@[j].token,
                            )
                    },
                spec_meta_docs(templates@) == spec_total_docs(
                    ix.doc_groups.entries@.take(g as int),
                ),
                spec_total_docs(ix.doc_groups.entries@) == lines@.len(),
            decreases ngroups - g,
        {
            let group = &ix.doc_groups.entries[g].1;
            let meta = TemplateWithMeta::from_indexing(&group.template);
            proof {
                assert(ix.doc_groups.entries@.take(g + 1).drop_last() =~= ix.doc_groups.entries@.take(
                    g as int,
                ));
                assert(ix.doc_groups.entries@.take(g + 1).last() == ix.doc_groups.entries@[g as int]);
                assert(templates@.push(meta).drop_last() =~= templates@);
            }
            templates.push(meta);
            let bytes = column_bytes_and_remap(group, &old_to_new);
            let blob = match zstd_compress(&bytes, COLUMN_ZSTD_LEVEL) {
                Some(b) => b,
                None => {
                    return Err(IndexError::Corrupt);
                },
            };
            column_blobs.push(blob);
            proof {
                gs = gs.push(*group);
            }
            g = g + 1;
        }
        proof {
            assert(ix.doc_groups.entries@.take(ngroups as int) =~= ix.doc_groups.entries@);
        }
        Ok(
            IndexArtifacts {
                dictionary,
                old_to_new,
                templates,
                column_blobs,
                terms: Ghost(terms@),
                postings: Ghost(term_id_idx@),
                source_groups: Ghost(gs),
            },
        )
    }
}

/// Adjacent strict lexicographic order extends to all pairs.
proof fn lemma_adjacent_lex(es: Seq<DictEntry>, i: int, j: int)
    requires
        forall|k: int|
            0 <= k < es.len() - 1 ==> lex_lt((#[trigger] es[k]).term@, es[k + 1].term@),
        0 <= i < j < es.len(),
    ensures
        lex_lt(es[i].term@, es[j].term@),
    decreases j - i,
{
    if j == i + 1 {
        assert(lex_lt(es[i].term@, es[i + 1].term@));
    } else {
        lemma_adjacent_lex(es, i, j - 1);
        assert(lex_lt(es[j - 1].term@, es[j].term@));
        lemma_lex_trans(es[i].term@, es[j - 1].term@, es[j].term@);
    }
}

/// Decide whether loaded artifacts are well formed: the dictionary is
/// strictly sorted and the templates carry their positions as ids, one
/// column blob each. Callers outside the verified code run this before
/// searching, so that a corrupt index never reaches `search`.
pub fn artifacts_well_formed(a: &IndexArtifacts) -> (r: bool)
    ensures
        r == a.wf(),
{
    if a.templates.len() != a.column_blobs.len() {
        return false;
    }
    let nt = a.templates.len();
    let mut i: usize = 0;
    while i < nt
        invariant
            nt == a.templates@.len(),
            i <= nt,
            forall|p: int|
                0 <= p < i ==> (#[trigger] a.templates@[p]).template_id.0 == p,
        decreases nt - i,
    {
        if a.templates[i].template_id.0 as usize != i {
            return false;
        }
        i = i + 1;
    }
    let ne = a.dictionary.len();
    let mut e: usize = 0;
    while e + 1 < ne
        invariant
            ne == a.dictionary@.len(),
            e < ne || ne == 0 || e == 0,
            e <= ne,
            forall|k: int|
                0 <= k < e ==> lex_lt((#[trigger] a.dictionary@[k]).term@, a.dictionary@[k
                    + 1].term@),
        decreases ne - e,
    {
        if !crate::dict::lex_less(
            a.dictionary[e].term.as_slice(),
            a.dictionary[e + 1].term.as_slice(),
        ) {
            proof {
                assert(!lex_lt(a.dictionary@[e as int].term@, a.dictionary@[e + 1].term@));
            }
            return false;
        }
        e = e + 1;
    }
    proof {
        assert forall|i2: int, j2: int|
            0 <= i2 < j2 < a.dictionary@.len() implies lex_lt(
            (#[trigger] a.dictionary@[i2]).term@,
            (#[trigger] a.dictionary@[j2]).term@,
        ) by {
            lemma_adjacent_lex(a.dictionary@, i2, j2);
        }
    }
    true
}

} // verus!

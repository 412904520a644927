//! Search over a built index: look the term up in the dictionary, find
//! the templates that may hold it, scan their columns, and reconstruct
//! the matching lines.

use vstd::prelude::*;
use vstd::string::StringSliceAdditionalSpecFns;
use crate::dict::DictEntry;
use crate::templates::{MatchResult, spec_template_match, spec_reconstruct};
use crate::columns::{parse_columns, zstd_decompress, Columns};
use crate::writer::IndexArtifacts;
use crate::strutil::bytes_to_string;
use crate::{Doc, IndexError, TemplateId};

verus! {

/// How many hits one template contributes at most.
pub const MAX_HITS_PER_TEMPLATE: usize = 10;

/// How many documents a full-template scan returns: all of them, capped
/// by the hit limit.
pub open spec fn spec_capped_hits(num_docs: int, max_hits: Option<usize>) -> int {
    match max_hits {
        Option::Some(m) => if (m as int) < num_docs {
            m as int
        } else {
            num_docs
        },
        Option::None => num_docs,
    }
}

/// How many of the documents carry the given template id.
pub open spec fn count_docs_for(docs: Seq<Doc>, id: u32) -> int
    decreases docs.len(),
{
    if docs.len() == 0 {
        0
    } else {
        count_docs_for(docs.drop_last(), id) + (if docs.last().template_id.0 == id {
            1int
        } else {
            0int
        })
    }
}

/// Helper step for counting a run of same-id documents.
proof fn lemma_count_docs_empty_prefix(pre: Seq<Doc>, id: u32, before: Seq<Doc>, after: Seq<Doc>)
    ensures
        true,
{
}

/// A dictionary hit: the term's new id and the templates it appears in.
#[derive(Debug, Clone)]
pub struct SearchResult {
    pub term_id: u32,
    pub template_ids: Vec<u32>,
}

impl SearchResult {
    /// The term's id (its position in the sorted dictionary).
    pub fn term_id(&self) -> (r: u32)
        ensures
            r == self.term_id,
    {
        self.term_id
    }

    /// The templates whose columns hold the term.
    pub fn template_ids(&self) -> (r: &Vec<u32>)
        ensures
            r == &self.template_ids,
    {
        &self.template_ids
    }
}

/// Look one term up in the dictionary: `Some` exactly when an entry holds
/// these bytes, with the entry's position as the term id.
pub fn search_single_term(entries: &Vec<DictEntry>, term: &[u8]) -> (r: Option<SearchResult>)
    requires
        entries@.len() <= u32::MAX,
    ensures
        match r {
            Some(res) => res.term_id < entries@.len() && entries@[res.term_id as int].term@
                == term@ && res.template_ids@ == entries@[res.term_id as int].template_ids@,
            None => forall|e: int| 0 <= e < entries@.len() ==> (#[trigger] entries@[e]).term@
                != term@,
        },
{
    let n = entries.len();
    let mut i: usize = 0;
    while i < n
        invariant
            n == entries@.len(),
            n <= u32::MAX,
            i <= n,
            forall|e: int| 0 <= e < i ==> (#[trigger] entries@[e]).term@ != term@,
        decreases n - i,
    {
        if crate::fastcmp::fast_short_slice_compare(entries[i].term.as_slice(), term) {
            let ids = vstd::slice::slice_to_vec(entries[i].template_ids.as_slice());
            return Some(SearchResult { term_id: i as u32, template_ids: ids });
        }
        i = i + 1;
    }
    None
}

/// The term bytes stored under a dictionary position, as a string.
pub fn get_term_for_ord(entries: &Vec<DictEntry>, term_ord: u32) -> (r: Option<String>)
    ensures
        (term_ord < entries@.len()) == (r is Some),
{
    if (term_ord as usize) < entries.len() {
        Some(bytes_to_string(entries[term_ord as usize].term.as_slice()))
    } else {
        None
    }
}

/// Decompress and re-slice one template's columns, then collect up to
/// `max_hits` matching documents; each hit is the document's term ids in
/// slot order.
pub fn search_in_zstd_column(
    artifacts: &IndexArtifacts,
    match_term: Option<u32>,
    template_id: TemplateId,
    max_hits: Option<usize>,
) -> (r: Result<Vec<Vec<u32>>, IndexError>)
    requires
        artifacts.wf(),
        template_id.0 < artifacts.templates@.len(),
    ensures
        r is Ok ==> (match max_hits {
            Option::Some(m) => r->Ok_0@.len() <= m,
            Option::None => true,
        }),
        r is Ok && match_term is None ==> r->Ok_0@.len() == spec_capped_hits(
            artifacts.templates@[template_id.0 as int].num_docs as int,
            max_hits,
        ),
{
    let num_docs = artifacts.templates[template_id.0 as usize].num_docs;
    let blob = &artifacts.column_blobs[template_id.0 as usize];
    let data = match zstd_decompress(blob) {
        Some(d) => d,
        None => {
            return Err(IndexError::Corrupt);
        },
    };
    let columns: Columns = if num_docs == 0 {
        Columns::new(Vec::new())
    } else {
        parse_columns(&data, num_docs)
    };
    let mut ok = true;
    let ncols = columns.data.len();
    let mut c: usize = 0;
    while c < ncols
        invariant
            ncols == columns.data@.len(),
            c <= ncols,
            ok ==> forall|c2: int|
                0 <= c2 < c ==> (#[trigger] columns.data@[c2]).data@.len() <= u32::MAX,
        decreases ncols - c,
    {
        if columns.data[c].data.len() > u32::MAX as usize {
            ok = false;
        }
        c = c + 1;
    }
    if !ok {
        return Err(IndexError::Corrupt);
    }
    // A full match means every document of the template matches, including
    // templates with no variable columns at all.
    let doc_ids: Vec<u32> = match match_term {
        Some(t) => columns.get_doc_ids(Some(t)),
        None => {
            let mut all: Vec<u32> = Vec::new();
            let cap = match max_hits {
                Some(m) => if m < num_docs {
                    m
                } else {
                    num_docs
                },
                None => num_docs,
            };
            proof {
                assert(cap as int == spec_capped_hits(
                    artifacts.templates@[template_id.0 as int].num_docs as int,
                    max_hits,
                ));
            }
            let mut d: usize = 0;
            while d < cap
                invariant
                    d <= cap,
                    cap <= num_docs,
                    all@.len() == d,
                decreases cap - d,
            {
                if d > u32::MAX as usize {
                    return Err(IndexError::Corrupt);
                }
                all.push(d as u32);
                d = d + 1;
            }
            all
        },
    };
    proof {
        if match_term is None {
            assert(doc_ids@.len() == spec_capped_hits(
                artifacts.templates@[template_id.0 as int].num_docs as int,
                max_hits,
            ));
        }
    }
    let mut hits: Vec<Vec<u32>> = Vec::new();
    let n = doc_ids.len();
    let mut i: usize = 0;
    while i < n
        invariant
            n == doc_ids@.len(),
            i <= n,
            match max_hits {
                Option::Some(m) => hits@.len() <= m,
                Option::None => true,
            },
            match_term is None ==> hits@.len() == i && n == spec_capped_hits(
                artifacts.templates@[template_id.0 as int].num_docs as int,
                max_hits,
            ),
        decreases n - i,
    {
        let full = match max_hits {
            Some(m) => hits.len() >= m,
            None => false,
        };
        if full {
            proof {
                if match_term is None {
                    assert(false);
                }
            }
            return Ok(hits);
        }
        let term_ids = columns.get_term_ids(doc_ids[i]);
        hits.push(term_ids);
        i = i + 1;
    }
    Ok(hits)
}

/// Search one term: find the dictionary hit, match every template, scan
/// the columns of templates that may hold the term, and return the
/// matching documents.
pub fn search(artifacts: &IndexArtifacts, query: &str) -> (r: Result<Vec<Doc>, IndexError>)
    requires
        artifacts.wf(),
        artifacts.dictionary@.len() <= u32::MAX,
    ensures
        r is Ok ==> ({
            let docs = r->Ok_0@;
            let q = query.spec_bytes();
            &&& forall|d: int|
                0 <= d < docs.len() ==> (#[trigger] docs[d]).template_id.0
                    < artifacts.templates@.len() && !(spec_template_match(
                    artifacts.templates@[docs[d].template_id.0 as int].template.parts@,
                    q,
                ) is NoMatch)
            &&& forall|t: int|
                0 <= t < artifacts.templates@.len() && spec_template_match(
                    (#[trigger] artifacts.templates@[t]).template.parts@,
                    q,
                ) is Full ==> count_docs_for(docs, t as u32) == spec_capped_hits(
                    artifacts.templates@[t].num_docs as int,
                    Some(MAX_HITS_PER_TEMPLATE),
                )
        }),
{
    let ghost q = query.spec_bytes();
    let search_result = search_single_term(&artifacts.dictionary, query.as_bytes());
    let mut matching: Vec<Doc> = Vec::new();
    let n = artifacts.templates.len();
    let mut t: usize = 0;
    while t < n
        invariant
            artifacts.wf(),
            n == artifacts.templates@.len(),
            t <= n,
            q == query.spec_bytes(),
            forall|d: int|
                0 <= d < matching@.len() ==> (#[trigger] matching@[d]).template_id.0 < t && !(
                spec_template_match(
                    artifacts.templates@[matching@[d].template_id.0 as int].template.parts@,
                    q,
                ) is NoMatch),
            forall|t2: int|
                0 <= t2 < t && spec_template_match(
                    (#[trigger] artifacts.templates@[t2]).template.parts@,
                    q,
                ) is Full ==> count_docs_for(matching@, t2 as u32) == spec_capped_hits(
                    artifacts.templates@[t2].num_docs as int,
                    Some(MAX_HITS_PER_TEMPLATE),
                ),
            forall|id: u32| id >= t ==> count_docs_for(matching@, id) == 0,
        decreases n - t,
    {
        proof {
            assert(artifacts.templates@[t as int].template_id.0 == t);
        }
        let template_id = artifacts.templates[t].template_id;
        let match_result = artifacts.templates[t].template.check_match(query);
        let docs: Option<Vec<Vec<u32>>> = match match_result {
            MatchResult::Full => {
                match search_in_zstd_column(
                    artifacts,
                    None,
                    template_id,
                    Some(MAX_HITS_PER_TEMPLATE),
                ) {
                    Ok(d) => Some(d),
                    Err(e) => {
                        return Err(e);
                    },
                }
            },
            MatchResult::VariableMayMatch => {
                let mut found: Option<Vec<Vec<u32>>> = None;
                match &search_result {
                    Some(res) => {
                        let mut listed = false;
                        let m = res.template_ids.len();
                        let mut k: usize = 0;
                        while k < m
                            invariant
                                m == res.template_ids@.len(),
                                k <= m,
                            decreases m - k,
                        {
                            if res.template_ids[k] == template_id.0 {
                                listed = true;
                            }
                            k = k + 1;
                        }
                        if listed {
                            let term_id = res.term_id;
                            match search_in_zstd_column(
                                artifacts,
                                Some(term_id),
                                template_id,
                                Some(MAX_HITS_PER_TEMPLATE),
                            ) {
                                Ok(d) => {
                                    found = Some(d);
                                },
                                Err(e) => {
                                    return Err(e);
                                },
                            }
                        }
                    },
                    None => {},
                }
                found
            },
            MatchResult::NoMatch => None,
        };
        let ghost pre = matching@;
        let ghost had_docs = docs is Some;
        let ghost appended: int = match docs {
            Option::Some(ref ds) => ds@.len() as int,
            Option::None => 0,
        };
        match docs {
            Some(ds) => {
                let nd = ds.len();
                let mut d: usize = 0;
                while d < nd
                    invariant
                        nd == ds@.len(),
                        d <= nd,
                        t < n,
                        template_id.0 == t,
                        matching@.len() == pre.len() + d,
                        forall|d2: int|
                            0 <= d2 < pre.len() ==> #[trigger] matching@[d2] == pre[d2],
                        forall|d2: int|
                            pre.len() <= d2 < matching@.len() ==> (
                            #[trigger] matching@[d2]).template_id.0 == t,
                        count_docs_for(matching@, t as u32) == d,
                        forall|id: u32|
                            id != t as u32 ==> count_docs_for(matching@, id) == count_docs_for(
                                pre,
                                id,
                            ),
                    decreases nd - d,
                {
                    let term_ids = vstd::slice::slice_to_vec(ds[d].as_slice());
                    let ghost before = matching@;
                    matching.push(Doc { template_id, term_ids });
                    proof {
                        assert(matching@.drop_last() =~= before);
                        assert forall|id: u32|
                            id != t as u32 implies count_docs_for(matching@, id)
                            == count_docs_for(pre, id) by {
                            assert(count_docs_for(matching@, id) == count_docs_for(before, id));
                        }
                        lemma_count_docs_empty_prefix(pre, t as u32, before, matching@);
                    }
                    d = d + 1;
                }
            },
            None => {},
        }
        proof {
            let cur = matching@;
            assert forall|t2: int|
                0 <= t2 < t + 1 && spec_template_match(
                    (#[trigger] artifacts.templates@[t2]).template.parts@,
                    q,
                ) is Full implies count_docs_for(cur, t2 as u32) == spec_capped_hits(
                artifacts.templates@[t2].num_docs as int,
                Some(MAX_HITS_PER_TEMPLATE),
            ) by {
                if t2 < t {
                    if t2 as u32 != t as u32 {
                        assert(count_docs_for(cur, t2 as u32) == count_docs_for(pre, t2 as u32));
                    }
                } else {
                    assert(spec_template_match(
                        artifacts.templates@[t as int].template.parts@,
                        q,
                    ) is Full);
                    assert(docs is Some);
                    assert(count_docs_for(cur, t as u32) == docs->0@.len());
                }
            }
            assert forall|id: u32| id >= t + 1 implies count_docs_for(cur, id) == 0 by {
                if id != t as u32 {
                    assert(count_docs_for(cur, id) == count_docs_for(pre, id));
                }
            }
        }
        t = t + 1;
    }
    Ok(matching)
}

/// Reconstruct each document to its line: constants verbatim, variables
/// looked up in the dictionary by term id. Fails with `Corrupt` exactly
/// when some document's ids do not reconstruct.
pub fn retrieve_docs(artifacts: &IndexArtifacts, docs: &Vec<Doc>) -> (r: Result<
    Vec<String>,
    IndexError,
>)
    requires
        artifacts.wf(),
        forall|d: int|
            0 <= d < docs@.len() ==> (#[trigger] docs@[d]).template_id.0
                < artifacts.templates@.len(),
    ensures
        r is Ok ==> ({
            let lines = r->Ok_0@;
            &&& lines.len() == docs@.len()
            &&& forall|i: int|
                0 <= i < docs@.len() ==> {
                    let rec = spec_reconstruct(
                        artifacts.templates@[(#[trigger] docs@[i]).template_id.0 as int].template.parts@,
                        docs@[i].term_ids@,
                        artifacts.dictionary@,
                    );
                    rec is Some && (vstd::utf8::valid_utf8(rec->0) ==> vstd::utf8::encode_utf8(
                        lines[i]@,
                    ) == rec->0)
                }
        }),
{
    let mut out: Vec<String> = Vec::new();
    let n = docs.len();
    let mut i: usize = 0;
    while i < n
        invariant
            artifacts.wf(),
            n == docs@.len(),
            i <= n,
            out@.len() == i,
            forall|d: int|
                0 <= d < docs@.len() ==> (#[trigger] docs@[d]).template_id.0
                    < artifacts.templates@.len(),
            forall|d: int|
                0 <= d < i ==> {
                    let rec = spec_reconstruct(
                        artifacts.templates@[(#[trigger] docs@[d]).template_id.0 as int].template.parts@,
                        docs@[d].term_ids@,
                        artifacts.dictionary@,
                    );
                    rec is Some && (vstd::utf8::valid_utf8(rec->0) ==> vstd::utf8::encode_utf8(
                        out@[d]@,
                    ) == rec->0)
                },
        decreases n - i,
    {
        let doc = &docs[i];
        let template = &artifacts.templates[doc.template_id.0 as usize].template;
        match template.reconstruct(&doc.term_ids, &artifacts.dictionary) {
            Some(line) => {
                out.push(line);
            },
            None => {
                return Err(IndexError::Corrupt);
            },
        }
        i = i + 1;
    }
    Ok(out)
}

/// A document count never exceeds the list's length.
proof fn lemma_count_docs_le(docs: Seq<Doc>, id: u32)
    ensures
        0 <= count_docs_for(docs, id) <= docs.len(),
    decreases docs.len(),
{
    if docs.len() > 0 {
        lemma_count_docs_le(docs.drop_last(), id);
    }
}

/// Search, then reconstruct each matching document to its line. On
/// success, every template with a fully matching constant contributes at
/// least its capped document count to the result.
pub fn search_and_retrieve(artifacts: &IndexArtifacts, query: &str) -> (r: Result<
    Vec<String>,
    IndexError,
>)
    requires
        artifacts.wf(),
        artifacts.dictionary@.len() <= u32::MAX,
    ensures
        r is Ok ==> (forall|t: int|
            0 <= t < artifacts.templates@.len() && spec_template_match(
                (#[trigger] artifacts.templates@[t]).template.parts@,
                query.spec_bytes(),
            ) is Full ==> r->Ok_0@.len() >= spec_capped_hits(
                artifacts.templates@[t].num_docs as int,
                Some(MAX_HITS_PER_TEMPLATE),
            )),
{
    let docs = match search(artifacts, query) {
        Ok(d) => d,
        Err(e) => {
            return Err(e);
        },
    };
    let r = retrieve_docs(artifacts, &docs);
    proof {
        if r is Ok {
            assert forall|t: int|
                0 <= t < artifacts.templates@.len() && spec_template_match(
                    (#[trigger] artifacts.templates@[t]).template.parts@,
                    query.spec_bytes(),
                ) is Full implies r->Ok_0@.len() >= spec_capped_hits(
                artifacts.templates@[t].num_docs as int,
                Some(MAX_HITS_PER_TEMPLATE),
            ) by {
                lemma_count_docs_le(docs@, t as u32);
            }
        }
    }
    r
}

} // verus!

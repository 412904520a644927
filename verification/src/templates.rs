//! Frozen templates: the shape each document group is reduced to once
//! ingestion ends, with matching and line reconstruction over them.

use vstd::prelude::*;
use vstd::string::StringSliceAdditionalSpecFns;
use crate::groups::{IndexingTemplate, IndexingTemplateToken};
use crate::dict::DictEntry;
use crate::strutil::bytes_to_string;
use crate::TemplateId;

verus! {

/// How a template relates to a query term.
#[derive(Debug, PartialEq, Eq, Structural, Clone, Copy)]
pub enum MatchResult {
    Full,
    NoMatch,
    VariableMayMatch,
}

/// One frozen template slot.
#[derive(Debug, Clone)]
pub enum TemplateToken {
    Constant(Vec<u8>),
    Variable,
    Whitespace(u32),
}

/// A frozen template: an ordered list of slots.
#[derive(Debug, Clone)]
pub struct Template {
    pub parts: Vec<TemplateToken>,
}

/// A frozen template with its id and document count.
#[derive(Debug, Clone)]
pub struct TemplateWithMeta {
    pub num_docs: usize,
    pub template_id: TemplateId,
    pub template: Template,
}

impl TemplateWithMeta {
    /// The number of documents the template holds.
    pub fn num_docs(&self) -> (r: usize)
        ensures
            r == self.num_docs,
    {
        self.num_docs
    }

    /// Freeze a template under construction: constants keep their bytes,
    /// variables forget their column bookkeeping, whitespace keeps its
    /// count.
    pub fn from_indexing(t: &IndexingTemplate) -> (r: TemplateWithMeta)
        ensures
            r.template_id == t.template_id,
            r.num_docs == t.num_docs,
            r.template.parts@.len() == t.tokens@.len(),
            forall|j: int|
                0 <= j < t.tokens@.len() ==> frozen_matches(
                    #[trigger] r.template.parts@[j],
                    t.tokens@[j].token,
                ),
    {
        let mut parts: Vec<TemplateToken> = Vec::new();
        let n = t.tokens.len();
        let mut j: usize = 0;
        while j < n
            invariant
                n == t.tokens@.len(),
                j <= n,
                parts@.len() == j,
                forall|p: int|
                    0 <= p < j ==> frozen_matches(#[trigger] parts@[p], t.tokens@[p].token),
            decreases n - j,
        {
            let part = match &t.tokens[j].token {
                IndexingTemplateToken::Constant(ct) => TemplateToken::Constant(
                    vstd::slice::slice_to_vec(ct.text.as_slice()),
                ),
                IndexingTemplateToken::Variable { .. } => TemplateToken::Variable,
                IndexingTemplateToken::Whitespace(nws) => TemplateToken::Whitespace(*nws),
            };
            parts.push(part);
            j = j + 1;
        }
        TemplateWithMeta { num_docs: t.num_docs, template_id: t.template_id, template: Template { parts } }
    }
}

/// The relation between a frozen slot and the slot it was frozen from.
pub open spec fn frozen_matches(f: TemplateToken, t: IndexingTemplateToken) -> bool {
    match t {
        IndexingTemplateToken::Constant(ct) => f is Constant && f->Constant_0@ == ct.text@,
        IndexingTemplateToken::Variable { .. } => f is Variable,
        IndexingTemplateToken::Whitespace(n) => f == TemplateToken::Whitespace(n),
    }
}

/// What matching one slot against a term yields.
pub open spec fn spec_token_match(t: TemplateToken, term: Seq<u8>) -> MatchResult {
    match t {
        TemplateToken::Constant(c) => if c@ == term {
            MatchResult::Full
        } else {
            MatchResult::NoMatch
        },
        TemplateToken::Variable => MatchResult::VariableMayMatch,
        TemplateToken::Whitespace(_) => if term.len() == 0 {
            MatchResult::Full
        } else {
            MatchResult::NoMatch
        },
    }
}

/// What matching a whole template yields: `Full` if any slot matches
/// fully, otherwise `VariableMayMatch` if any slot is a variable,
/// otherwise `NoMatch`.
pub open spec fn spec_template_match(parts: Seq<TemplateToken>, term: Seq<u8>) -> MatchResult
    decreases parts.len(),
{
    if parts.len() == 0 {
        MatchResult::NoMatch
    } else {
        let head = spec_token_match(parts[0], term);
        let rest = spec_template_match(parts.drop_first(), term);
        if head is Full || rest is Full {
            MatchResult::Full
        } else if head is VariableMayMatch || rest is VariableMayMatch {
            MatchResult::VariableMayMatch
        } else {
            MatchResult::NoMatch
        }
    }
}

impl TemplateToken {
    /// Match one slot against a term.
    pub fn check_match(&self, term: &str) -> (r: MatchResult)
        ensures
            r == spec_token_match(*self, term.spec_bytes()),
    {
        match self {
            TemplateToken::Constant(constant) => {
                if crate::fastcmp::fast_short_slice_compare(
                    constant.as_slice(),
                    term.as_bytes(),
                ) {
                    MatchResult::Full
                } else {
                    MatchResult::NoMatch
                }
            },
            TemplateToken::Variable => MatchResult::VariableMayMatch,
            TemplateToken::Whitespace(_) => {
                if term.as_bytes().len() == 0 {
                    MatchResult::Full
                } else {
                    MatchResult::NoMatch
                }
            },
        }
    }
}

impl Template {
    /// Match the template against a term: the strongest slot result wins.
    pub fn check_match(&self, term: &str) -> (r: MatchResult)
        ensures
            r == spec_template_match(self.parts@, term.spec_bytes()),
    {
        let ghost tb = term.spec_bytes();
        let n = self.parts.len();
        let mut saw_variable = false;
        let mut i: usize = 0;
        proof {
            assert(self.parts@.skip(0) =~= self.parts@);
        }
        while i < n
            invariant
                n == self.parts@.len(),
                i <= n,
                tb == term.spec_bytes(),
                spec_template_match(self.parts@, tb) == (if saw_variable {
                    join_match(MatchResult::VariableMayMatch, spec_template_match(
                        self.parts@.skip(i as int),
                        tb,
                    ))
                } else {
                    spec_template_match(self.parts@.skip(i as int), tb)
                }),
            decreases n - i,
        {
            proof {
                assert(self.parts@.skip(i as int)[0] == self.parts@[i as int]);
                assert(self.parts@.skip(i as int).drop_first() =~= self.parts@.skip(i + 1));
            }
            let result = self.parts[i].check_match(term);
            match result {
                MatchResult::Full => {
                    proof {
                        assert(spec_token_match(self.parts@.skip(i as int)[0], tb) is Full);
                        lemma_join_full(self.parts@.skip(i as int), tb);
                    }
                    return MatchResult::Full;
                },
                MatchResult::VariableMayMatch => {
                    saw_variable = true;
                },
                MatchResult::NoMatch => {},
            }
            i = i + 1;
        }
        proof {
            assert(self.parts@.skip(n as int) =~= Seq::<TemplateToken>::empty());
        }
        if saw_variable {
            MatchResult::VariableMayMatch
        } else {
            MatchResult::NoMatch
        }
    }

    /// Render the template shape: constants verbatim, `?` per variable,
    /// spaces for whitespace.
    pub fn ser_readable(&self) -> (r: String)
        ensures
            vstd::utf8::valid_utf8(spec_readable(self.parts@)) ==> vstd::utf8::encode_utf8(r@)
                == spec_readable(self.parts@),
    {
        let mut out: Vec<u8> = Vec::new();
        let n = self.parts.len();
        let mut i: usize = 0;
        proof {
            assert(self.parts@.skip(0) =~= self.parts@);
            assert(out@ + spec_readable(self.parts@) =~= spec_readable(self.parts@));
        }
        while i < n
            invariant
                n == self.parts@.len(),
                i <= n,
                spec_readable(self.parts@) == out@ + spec_readable(self.parts@.skip(i as int)),
            decreases n - i,
        {
            proof {
                let sk = self.parts@.skip(i as int);
                assert(sk[0] == self.parts@[i as int]);
                assert(sk.drop_first() =~= self.parts@.skip(i + 1));
            }
            let ghost base = out@;
            match &self.parts[i] {
                TemplateToken::Constant(bytes) => {
                    let mut copy = vstd::slice::slice_to_vec(bytes.as_slice());
                    out.append(&mut copy);
                },
                TemplateToken::Variable => {
                    out.push(0x3f);
                    proof {
                        assert(out@ =~= base + seq![0x3fu8]);
                    }
                },
                TemplateToken::Whitespace(nws) => {
                    let count = *nws;
                    let mut k: u32 = 0;
                    while k < count
                        invariant
                            k <= count,
                            out@ == base + Seq::new(k as nat, |q: int| 0x20u8),
                        decreases count - k,
                    {
                        out.push(0x20);
                        proof {
                            assert(out@ =~= base + Seq::new((k + 1) as nat, |q: int| 0x20u8));
                        }
                        k = k + 1;
                    }
                },
            }
            proof {
                assert(out@ =~= base + spec_readable_part(self.parts@[i as int]));
                assert(spec_readable(self.parts@) =~= out@ + spec_readable(
                    self.parts@.skip(i + 1),
                ));
            }
            i = i + 1;
        }
        proof {
            assert(self.parts@.skip(n as int) =~= Seq::<TemplateToken>::empty());
            assert(spec_readable(self.parts@) =~= out@);
        }
        bytes_to_string(out.as_slice())
    }

    /// Rebuild a document's bytes: constants verbatim, each variable's
    /// term looked up in the dictionary by its id, whitespace as spaces.
    /// Returns `None` when a term id is out of the dictionary's range or
    /// the template needs more term ids than the document has.
    pub fn reconstruct_bytes(&self, term_ids: &Vec<u32>, entries: &Vec<DictEntry>) -> (r: Option<
        Vec<u8>,
    >)
        ensures
            r is Some ==> spec_reconstruct(self.parts@, term_ids@, entries@) is Some && r->0@
                == spec_reconstruct(self.parts@, term_ids@, entries@)->0,
            r is None ==> spec_reconstruct(self.parts@, term_ids@, entries@) is None,
    {
        let mut out: Vec<u8> = Vec::new();
        let mut idx: usize = 0;
        let n = self.parts.len();
        let mut i: usize = 0;
        proof {
            assert(self.parts@.skip(0) =~= self.parts@);
            assert(term_ids@.skip(0) =~= term_ids@);
        }
        while i < n
            invariant
                n == self.parts@.len(),
                i <= n,
                idx <= term_ids@.len(),
                spec_reconstruct(self.parts@, term_ids@, entries@) == (match spec_reconstruct(
                    self.parts@.skip(i as int),
                    term_ids@.skip(idx as int),
                    entries@,
                ) {
                    Option::Some(rest) => Option::Some(out@ + rest),
                    Option::None => Option::None::<Seq<u8>>,
                }),
            decreases n - i,
        {
            proof {
                assert(self.parts@.skip(i as int)[0] == self.parts@[i as int]);
                assert(self.parts@.skip(i as int).drop_first() =~= self.parts@.skip(i + 1));
            }
            let ghost opre0 = out@;
            let ghost ids_pre = term_ids@.skip(idx as int);
            match &self.parts[i] {
                TemplateToken::Constant(bytes) => {
                    let mut copy = vstd::slice::slice_to_vec(bytes.as_slice());
                    out.append(&mut copy);
                    proof {
                        lemma_reconstruct_step(
                            opre0,
                            self.parts@[i as int]->Constant_0@,
                            self.parts@.skip(i + 1),
                            ids_pre,
                            entries@,
                        );
                    }
                },
                TemplateToken::Variable => {
                    if idx >= term_ids.len() {
                        proof {
                            assert(spec_reconstruct(
                                self.parts@.skip(i as int),
                                term_ids@.skip(idx as int),
                                entries@,
                            ) is None);
                        }
                        return None;
                    }
                    let tid = term_ids[idx];
                    proof {
                        assert(term_ids@.skip(idx as int)[0] == term_ids@[idx as int]);
                    }
                    if (tid as usize) >= entries.len() {
                        proof {
                            assert(spec_reconstruct(
                                self.parts@.skip(i as int),
                                term_ids@.skip(idx as int),
                                entries@,
                            ) is None);
                        }
                        return None;
                    }
                    proof {
                        assert(term_ids@.skip(idx as int).drop_first() =~= term_ids@.skip(
                            idx + 1,
                        ));
                    }
                    let mut copy = vstd::slice::slice_to_vec(
                        entries[tid as usize].term.as_slice(),
                    );
                    out.append(&mut copy);
                    idx = idx + 1;
                    proof {
                        lemma_reconstruct_step(
                            opre0,
                            entries@[tid as int].term@,
                            self.parts@.skip(i + 1),
                            term_ids@.skip(idx as int),
                            entries@,
                        );
                    }
                },
                TemplateToken::Whitespace(nws) => {
                    let count = *nws;
                    let ghost opre = out@;
                    let mut k: u32 = 0;
                    while k < count
                        invariant
                            k <= count,
                            out@ =~= opre + Seq::new(k as nat, |q: int| 0x20u8),
                        decreases count - k,
                    {
                        out.push(0x20);
                        k = k + 1;
                        proof {
                            assert(out@ =~= opre + Seq::new(k as nat, |q: int| 0x20u8));
                        }
                    }
                    proof {
                        lemma_reconstruct_step(
                            opre0,
                            Seq::new(count as nat, |q: int| 0x20u8),
                            self.parts@.skip(i + 1),
                            ids_pre,
                            entries@,
                        );
                    }
                },
            }
            i = i + 1;
        }
        proof {
            assert(self.parts@.skip(n as int) =~= Seq::<TemplateToken>::empty());
        }
        Some(out)
    }

    /// Rebuild a document as a string; see [`Template::reconstruct_bytes`].
    pub fn reconstruct(&self, term_ids: &Vec<u32>, entries: &Vec<DictEntry>) -> (r: Option<String>)
        ensures
            r is Some ==> spec_reconstruct(self.parts@, term_ids@, entries@) is Some,
            r is None ==> spec_reconstruct(self.parts@, term_ids@, entries@) is None,
            r is Some ==> (vstd::utf8::valid_utf8(
                spec_reconstruct(self.parts@, term_ids@, entries@)->0,
            ) ==> vstd::utf8::encode_utf8(r->0@) == spec_reconstruct(
                self.parts@,
                term_ids@,
                entries@,
            )->0),
    {
        match self.reconstruct_bytes(term_ids, entries) {
            Some(bytes) => Some(bytes_to_string(bytes.as_slice())),
            None => None,
        }
    }
}

/// The bytes a template reconstructs to, given the document's term ids in
/// slot order, or `None` when ids run out or point outside the dictionary.
pub open spec fn spec_reconstruct(
    parts: Seq<TemplateToken>,
    term_ids: Seq<u32>,
    entries: Seq<DictEntry>,
) -> Option<Seq<u8>>
    decreases parts.len(),
{
    if parts.len() == 0 {
        Option::Some(Seq::empty())
    } else {
        let (piece, rest_ids) = match parts[0] {
            TemplateToken::Constant(c) => (Option::Some(c@), term_ids),
            TemplateToken::Variable => {
                if term_ids.len() == 0 {
                    (Option::None::<Seq<u8>>, term_ids)
                } else if term_ids[0] >= entries.len() {
                    (Option::None::<Seq<u8>>, term_ids)
                } else {
                    (Option::Some(entries[term_ids[0] as int].term@), term_ids.drop_first())
                }
            },
            TemplateToken::Whitespace(nws) => (
                Option::Some(Seq::new(nws as nat, |q: int| 0x20u8)),
                term_ids,
            ),
        };
        match piece {
            Option::None => Option::None,
            Option::Some(pb) => match spec_reconstruct(parts.drop_first(), rest_ids, entries) {
                Option::None => Option::None,
                Option::Some(rb) => Option::Some(pb + rb),
            },
        }
    }
}

/// The readable shape of one slot: its bytes, `?`, or spaces.
pub open spec fn spec_readable_part(t: TemplateToken) -> Seq<u8> {
    match t {
        TemplateToken::Constant(c) => c@,
        TemplateToken::Variable => seq![0x3fu8],
        TemplateToken::Whitespace(nws) => Seq::new(nws as nat, |q: int| 0x20u8),
    }
}

/// The readable shape of a template: the slots' shapes in order.
pub open spec fn spec_readable(parts: Seq<TemplateToken>) -> Seq<u8>
    decreases parts.len(),
{
    if parts.len() == 0 {
        Seq::empty()
    } else {
        spec_readable_part(parts[0]) + spec_readable(parts.drop_first())
    }
}

/// The combination of two match results, strongest first.
pub open spec fn join_match(a: MatchResult, b: MatchResult) -> MatchResult {
    if a is Full || b is Full {
        MatchResult::Full
    } else if a is VariableMayMatch || b is VariableMayMatch {
        MatchResult::VariableMayMatch
    } else {
        MatchResult::NoMatch
    }
}

/// Appending a piece associates with the rest of the reconstruction.
proof fn lemma_reconstruct_step(
    out: Seq<u8>,
    piece: Seq<u8>,
    parts: Seq<TemplateToken>,
    ids: Seq<u32>,
    entries: Seq<DictEntry>,
)
    ensures
        spec_reconstruct(parts, ids, entries) is Some ==> (out + piece) + spec_reconstruct(
            parts,
            ids,
            entries,
        )->0 =~= out + (piece + spec_reconstruct(parts, ids, entries)->0),
{
}

proof fn lemma_join_full(parts: Seq<TemplateToken>, term: Seq<u8>)
    requires
        parts.len() > 0,
        spec_token_match(parts[0], term) is Full,
    ensures
        spec_template_match(parts, term) is Full,
{
}

/// The list of frozen templates, in template-id order.
pub struct Templates {
    pub templates: Vec<TemplateWithMeta>,
}

impl Templates {
    /// Template ids equal positions.
    pub open spec fn wf(self) -> bool {
        forall|i: int|
            0 <= i < self.templates@.len() ==> (#[trigger] self.templates@[i]).template_id.0 == i
    }

    /// The template with the given id.
    pub fn get_template(&self, template_id: TemplateId) -> (r: &TemplateWithMeta)
        requires
            template_id.0 < self.templates@.len(),
        ensures
            r == self.templates@[template_id.0 as int],
    {
        &self.templates[template_id.0 as usize]
    }

    /// All templates, in id order.
    pub fn iter(&self) -> (r: &Vec<TemplateWithMeta>)
        ensures
            r == self.templates,
    {
        &self.templates
    }

    /// How many templates there are.
    pub fn len(&self) -> (r: usize)
        ensures
            r == self.templates@.len(),
    {
        self.templates.len()
    }
}

} // verus!

//! Grouping: lines whose token-type sequences agree share one document
//! group. A group holds a template of constant, variable and whitespace
//! slots, and one column of term ids per variable slot.

use vstd::prelude::*;
use crate::tokenizer::{Token, TokenType, spec_token_type, spec_type_id, spec_token_text, spec_tokens_in_range};
use crate::termmap::{IndexingTermmap, spec_intern_regular};
use crate::hashes::{fx_hash64, fx64_of};
use crate::fastcmp::fast_short_slice_compare;
use crate::sortutil::{sort_u32s, count_distinct_sorted};
use crate::TemplateId;
use vstd::multiset::Multiset;

verus! {

/// Once a group holds this many documents, each of its columns is checked
/// once for being id-like.
pub const ID_LIKE_CHECK_AT: usize = 10000;

/// A constant slot: every document of the group has exactly these bytes
/// at this position.
#[derive(Debug, Clone, PartialEq, Eq)]
pub struct ConstTemplateToken {
    /// The class of the token this constant came from.
    pub token_type: TokenType,
    /// The constant bytes.
    pub text: Vec<u8>,
}

impl ConstTemplateToken {
    /// A constant slot with the given class and bytes.
    pub fn new(token_type: TokenType, text: Vec<u8>) -> (r: ConstTemplateToken)
        ensures
            r.token_type == token_type,
            r.text == text,
    {
        ConstTemplateToken { token_type, text }
    }
}

/// One slot of a template under construction.
#[derive(Debug, Clone, PartialEq, Eq)]
pub enum IndexingTemplateToken {
    Constant(ConstTemplateToken),
    Variable { is_id_like: bool, column_index: usize, token_type: TokenType },
    Whitespace(u32),
}

impl IndexingTemplateToken {
    /// A fresh variable slot that is not yet id-like.
    pub fn new_variable(column_index: usize, token_type: TokenType) -> (r: IndexingTemplateToken)
        ensures
            r == (IndexingTemplateToken::Variable { is_id_like: false, column_index, token_type }),
    {
        IndexingTemplateToken::Variable { column_index, is_id_like: false, token_type }
    }

    /// True exactly for a variable slot.
    pub fn is_variable(&self) -> (r: bool)
        ensures
            r == (self is Variable),
    {
        matches!(self, IndexingTemplateToken::Variable { .. })
    }

    /// The class of the token this slot stands for.
    pub fn token_type(&self) -> (r: TokenType)
        ensures
            r == spec_itt_type(*self),
    {
        match self {
            IndexingTemplateToken::Constant(ct) => ct.token_type,
            IndexingTemplateToken::Variable { token_type, .. } => *token_type,
            IndexingTemplateToken::Whitespace(_) => TokenType::Whitespace,
        }
    }
}

/// True if some variable slot of the template owns column `c`.
pub open spec fn spec_column_owned(tokens: Seq<TemplateTokenWithPos>, c: int) -> bool {
    exists|j: int|
        0 <= j < tokens.len() && (#[trigger] tokens[j]).token is Variable
            && tokens[j].token->column_index == c
}

/// The bytes a non-variable slot interns when it is promoted: a
/// constant's bytes, or that many spaces for whitespace.
pub open spec fn spec_slot_text(t: IndexingTemplateToken) -> Seq<u8> {
    match t {
        IndexingTemplateToken::Constant(ct) => ct.text@,
        IndexingTemplateToken::Whitespace(n) => Seq::new(n as nat, |q: int| 0x20u8),
        IndexingTemplateToken::Variable { .. } => Seq::empty(),
    }
}

/// The class of a template slot.
pub open spec fn spec_itt_type(t: IndexingTemplateToken) -> TokenType {
    match t {
        IndexingTemplateToken::Constant(ct) => ct.token_type,
        IndexingTemplateToken::Variable { token_type, .. } => token_type,
        IndexingTemplateToken::Whitespace(_) => TokenType::Whitespace,
    }
}

/// A template slot together with the position it came from in the token
/// sequence of the group's first line.
#[derive(Debug, Clone, PartialEq, Eq)]
pub struct TemplateTokenWithPos {
    pub token: IndexingTemplateToken,
    /// The index in the token sequence.
    pub token_index: u32,
}

/// A template under construction.
#[derive(Debug, Clone)]
pub struct IndexingTemplate {
    pub template_id: TemplateId,
    pub num_docs: usize,
    pub tokens: Vec<TemplateTokenWithPos>,
}

/// A group of documents sharing one template.
#[derive(Debug, Clone)]
pub struct DocGroup {
    pub template: IndexingTemplate,
    /// One column of term ids per variable slot.
    pub columns: Vec<Vec<u32>>,
    pub num_docs: usize,
}

impl DocGroup {
    /// The group invariant: every column has exactly `num_docs` entries;
    /// each variable slot owns a distinct column, and every column is owned
    /// by some variable slot; slot positions are the identity.
    pub open spec fn wf(self) -> bool {
        &&& forall|c: int|
            0 <= c < self.columns@.len() ==> (#[trigger] self.columns@[c])@.len() == self.num_docs
        &&& forall|j: int|
            0 <= j < self.template.tokens@.len() && (#[trigger] self.template.tokens@[j]).token
                is Variable ==> self.template.tokens@[j].token->column_index < self.columns@.len()
        &&& forall|j1: int, j2: int|
            0 <= j1 < self.template.tokens@.len() && 0 <= j2 < self.template.tokens@.len() && j1
                != j2 && (#[trigger] self.template.tokens@[j1]).token is Variable && (
            #[trigger] self.template.tokens@[j2]).token is Variable
                ==> self.template.tokens@[j1].token->column_index
                != self.template.tokens@[j2].token->column_index
        &&& forall|c: int|
            0 <= c < self.columns@.len() ==> #[trigger] spec_column_owned(
                self.template.tokens@,
                c,
            )
        &&& forall|j: int|
            0 <= j < self.template.tokens@.len() ==> (
            #[trigger] self.template.tokens@[j]).token_index == j
        &&& forall|j: int|
            0 <= j < self.template.tokens@.len() && (#[trigger] self.template.tokens@[j]).token
                is Constant ==> self.template.tokens@[j].token->Constant_0.text@.len()
                <= u32::MAX
        &&& self.template.tokens@.len() <= u32::MAX
    }

    /// True if every term id stored in a column is below `bound`.
    pub open spec fn ids_below(self, bound: u32) -> bool {
        forall|c: int, r: int|
            0 <= c < self.columns@.len() && 0 <= r < self.columns@[c]@.len()
                ==> #[trigger] self.columns@[c]@[r] < bound
    }

    /// Total number of values over all columns.
    pub fn vals_in_columns(&self) -> (r: usize)
        requires
            self.wf(),
            self.columns@.len() * self.num_docs <= usize::MAX,
        ensures
            r == self.columns@.len() * self.num_docs,
    {
        let mut total: usize = 0;
        let mut c: usize = 0;
        let n = self.columns.len();
        while c < n
            invariant
                self.wf(),
                n == self.columns@.len(),
                c <= n,
                n * self.num_docs <= usize::MAX,
                total == c * self.num_docs,
            decreases n - c,
        {
            proof {
                assert((c + 1) * self.num_docs == c * self.num_docs + self.num_docs) by (
                nonlinear_arith);
                assert((c + 1) * self.num_docs <= n * self.num_docs) by (nonlinear_arith)
                    requires
                        c + 1 <= n,
                        self.num_docs >= 0,
                ;
            }
            total = total + self.columns[c].len();
            c = c + 1;
        }
        total
    }

    /// Keep, in every column, exactly the rows marked `true`.
    pub fn remove_rows(&mut self, keep: &Vec<bool>)
        requires
            old(self).wf(),
            keep@.len() == old(self).num_docs,
        ensures
            final(self).template == old(self).template,
            final(self).num_docs == old(self).num_docs,
            final(self).columns@.len() == old(self).columns@.len(),
            forall|c: int|
                0 <= c < final(self).columns@.len() ==> (#[trigger] final(self).columns@[c])@
                    == spec_filter_rows(old(self).columns@[c]@, keep@),
    {
        let ncols = self.columns.len();
        let mut c: usize = 0;
        while c < ncols
            invariant
                ncols == self.columns@.len(),
                c <= ncols,
                self.template == old(self).template,
                self.num_docs == old(self).num_docs,
                keep@.len() == old(self).num_docs,
                forall|c2: int|
                    0 <= c2 < ncols ==> (#[trigger] old(self).columns@[c2])@.len() == old(self).num_docs,
                forall|c2: int|
                    c <= c2 < ncols ==> (#[trigger] self.columns@[c2]) == old(self).columns@[c2],
                forall|c2: int|
                    0 <= c2 < c ==> (#[trigger] self.columns@[c2])@ == spec_filter_rows(
                        old(self).columns@[c2]@,
                        keep@,
                    ),
            decreases ncols - c,
        {
            let ghost colv = self.columns@[c as int]@;
            let mut out: Vec<u32> = Vec::new();
            let col = &self.columns[c];
            let mut row: usize = 0;
            let n = col.len();
            proof {
                assert(colv.take(0) =~= Seq::<u32>::empty());
            }
            while row < n
                invariant
                    n == colv.len(),
                    colv == col@,
                    n == keep@.len(),
                    row <= n,
                    out@ == spec_filter_rows(colv.take(row as int), keep@),
                decreases n - row,
            {
                proof {
                    assert(colv.take(row + 1).drop_last() =~= colv.take(row as int));
                    assert(colv.take(row + 1).last() == colv[row as int]);
                    assert(colv.take(row + 1).len() == row + 1);
                }
                if keep[row] {
                    out.push(col[row]);
                }
                row = row + 1;
            }
            proof {
                assert(colv.take(n as int) =~= colv);
            }
            self.columns.set(c, out);
            c = c + 1;
        }
    }

    /// Collect the variable columns in template order: the column of the
    /// first variable slot first.
    pub fn iter_columns(&self) -> (r: Vec<Vec<u32>>)
        requires
            self.wf(),
        ensures
            r@.len() == spec_columns_in_template_order(
                self.template.tokens@,
                self.columns@,
            ).len(),
            forall|i: int|
                0 <= i < r@.len() ==> (#[trigger] r@[i])@ == spec_columns_in_template_order(
                    self.template.tokens@,
                    self.columns@,
                )[i],
    {
        let mut out: Vec<Vec<u32>> = Vec::new();
        let n = self.template.tokens.len();
        let mut j: usize = 0;
        proof {
            assert(self.template.tokens@.take(0) =~= Seq::<TemplateTokenWithPos>::empty());
        }
        while j < n
            invariant
                self.wf(),
                n == self.template.tokens@.len(),
                j <= n,
                out@.len() == spec_columns_in_template_order(
                    self.template.tokens@.take(j as int),
                    self.columns@,
                ).len(),
                forall|i: int|
                    0 <= i < out@.len() ==> (#[trigger] out@[i])@
                        == spec_columns_in_template_order(
                        self.template.tokens@.take(j as int),
                        self.columns@,
                    )[i],
            decreases n - j,
        {
            proof {
                assert(self.template.tokens@.take(j + 1).drop_last() =~= self.template.tokens@.take(
                    j as int,
                ));
                assert(self.template.tokens@.take(j + 1).last() == self.template.tokens@[j as int]);
            }
            match &self.template.tokens[j].token {
                IndexingTemplateToken::Variable { column_index, .. } => {
                    let copy = vstd::slice::slice_to_vec(self.columns[*column_index].as_slice());
                    out.push(copy);
                },
                _ => {},
            }
            j = j + 1;
        }
        proof {
            assert(self.template.tokens@.take(n as int) =~= self.template.tokens@);
        }
        out
    }
}

/// The rows of `col` marked `true` in `keep`, in order.
pub open spec fn spec_filter_rows(col: Seq<u32>, keep: Seq<bool>) -> Seq<u32>
    decreases col.len(),
{
    if col.len() == 0 {
        Seq::empty()
    } else if col.len() - 1 < keep.len() && keep[col.len() - 1] {
        spec_filter_rows(col.drop_last(), keep).push(col.last())
    } else {
        spec_filter_rows(col.drop_last(), keep)
    }
}

/// The variable columns of a template, in the order of its variable slots.
pub open spec fn spec_columns_in_template_order(
    tokens: Seq<TemplateTokenWithPos>,
    columns: Seq<Vec<u32>>,
) -> Seq<Seq<u32>>
    decreases tokens.len(),
{
    if tokens.len() == 0 {
        Seq::empty()
    } else {
        let rest = spec_columns_in_template_order(tokens.drop_last(), columns);
        match tokens.last().token {
            IndexingTemplateToken::Variable { column_index, .. } => if column_index
                < columns.len() {
                rest.push(columns[column_index as int]@)
            } else {
                rest
            },
            _ => rest,
        }
    }
}

/// The token-type bytes of a token sequence, as fed to the fingerprint.
pub open spec fn spec_token_type_bytes(tokens: Seq<Token>) -> Seq<u8> {
    Seq::new(tokens.len(), |i: int| spec_type_id(spec_token_type(tokens[i])))
}

/// The token-type bytes of a template.
pub open spec fn spec_template_type_bytes(tokens: Seq<TemplateTokenWithPos>) -> Seq<u8> {
    Seq::new(tokens.len(), |i: int| spec_type_id(spec_itt_type(tokens[i].token)))
}

/// The structural fingerprint of a line: a 64-bit hash over the sequence
/// of its token-type ids.
pub fn fingerprint_tokens(tokens: &Vec<Token>) -> (r: u64)
    ensures
        r == fx64_of(spec_token_type_bytes(tokens@)),
{
    let mut bytes: Vec<u8> = Vec::new();
    let n = tokens.len();
    let mut i: usize = 0;
    while i < n
        invariant
            n == tokens@.len(),
            i <= n,
            bytes@ =~= spec_token_type_bytes(tokens@).take(i as int),
        decreases n - i,
    {
        bytes.push(tokens[i].token_type().type_id());
        proof {
            assert(bytes@ =~= spec_token_type_bytes(tokens@).take(i + 1));
        }
        i = i + 1;
    }
    proof {
        assert(bytes@ =~= spec_token_type_bytes(tokens@));
    }
    fx_hash64(&bytes)
}

/// The structural fingerprint of a template's token types.
pub fn fingerprint_types(tokens: &Vec<TemplateTokenWithPos>) -> (r: u64)
    ensures
        r == fx64_of(spec_template_type_bytes(tokens@)),
{
    let mut bytes: Vec<u8> = Vec::new();
    let n = tokens.len();
    let mut i: usize = 0;
    while i < n
        invariant
            n == tokens@.len(),
            i <= n,
            bytes@ =~= spec_template_type_bytes(tokens@).take(i as int),
        decreases n - i,
    {
        bytes.push(tokens[i].token.token_type().type_id());
        proof {
            assert(bytes@ =~= spec_template_type_bytes(tokens@).take(i + 1));
        }
        i = i + 1;
    }
    proof {
        assert(bytes@ =~= spec_template_type_bytes(tokens@));
    }
    fx_hash64(&bytes)
}

/// Intern the text of one token and return its term id.
pub fn get_term_id(
    token: &Token,
    line: &[u8],
    term_hash_map: &mut IndexingTermmap,
    is_id_like: bool,
) -> (r: u32)
    requires
        old(term_hash_map).regular.wf(),
        old(term_hash_map).regular.next_term_id < u32::MAX,
        old(term_hash_map).regular.map.len < usize::MAX / 16,
        token.span_in_range(line@.len() as int),
        line@.len() <= u32::MAX,
    ensures
        final(term_hash_map).regular.wf(),
        r < final(term_hash_map).regular.next_term_id,
        old(term_hash_map).regular.next_term_id <= final(term_hash_map).regular.next_term_id <= old(
            term_hash_map,
        ).regular.next_term_id + 1,
{
    let text = token.to_bytes(line);
    term_hash_map.mutate_or_create(text.as_slice(), is_id_like)
}

/// True if at least 98 of every 100 values in the column are distinct.
pub fn check_is_id_like(column: &Vec<u32>) -> (r: bool)
    requires
        column@.len() * 100 <= usize::MAX,
    ensures
        r == (100 * column@.to_multiset().dom().len() >= 98 * column@.len()),
{
    let mut copy: Vec<u32> = Vec::new();
    let n = column.len();
    let mut i: usize = 0;
    while i < n
        invariant
            n == column@.len(),
            i <= n,
            copy@ =~= column@.take(i as int),
        decreases n - i,
    {
        proof {
            assert(column@.take(i + 1) =~= column@.take(i as int).push(column@[i as int]));
        }
        copy.push(column[i]);
        i = i + 1;
    }
    proof {
        assert(copy@ =~= column@);
    }
    sort_u32s(&mut copy);
    let unique = count_distinct_sorted(&copy);
    proof {
        lemma_run_count_is_distinct(copy@);
        assert(copy@.to_multiset().dom() =~= column@.to_multiset().dom());
    }
    100 * unique >= 98 * n
}

/// In a sorted sequence, the number of runs equals the number of distinct
/// values.
proof fn lemma_run_count_is_distinct(s: Seq<u32>)
    requires
        crate::sortutil::sorted_u32(s),
    ensures
        crate::sortutil::spec_run_count(s) == s.to_multiset().dom().len(),
    decreases s.len(),
{
    broadcast use vstd::seq_lib::group_to_multiset_ensures;

    if s.len() == 0 {
        assert(s.to_multiset() =~= Multiset::<u32>::empty());
        assert(s.to_multiset().dom() =~= Set::<u32>::empty());
    } else {
        let prefix = s.drop_last();
        let x = s.last();
        lemma_run_count_is_distinct(prefix);
        assert(prefix.push(x) =~= s);
        assert(s.to_multiset() =~= prefix.to_multiset().insert(x));
        assert(s.to_multiset().dom() =~= prefix.to_multiset().dom().insert(x));
        if s.len() >= 2 && s[s.len() - 1] == s[s.len() - 2] {
            assert(prefix.contains(x)) by {
                assert(prefix[prefix.len() - 1] == x);
            }
            assert(prefix.to_multiset().count(x) > 0);
            assert(prefix.to_multiset().dom().contains(x));
            assert(prefix.to_multiset().dom().insert(x) =~= prefix.to_multiset().dom());
        } else {
            assert(!prefix.contains(x)) by {
                if prefix.contains(x) {
                    let i = choose|i: int| 0 <= i < prefix.len() && prefix[i] == x;
                    // Sorted: s[i] <= s[len-2] <= s[len-1] == x == s[i], so the
                    // last two entries would be equal.
                    assert(s[i] == x);
                    if s.len() >= 2 {
                        assert(s[i] <= s[s.len() - 2] <= s[s.len() - 1]);
                    }
                }
            }
            assert(prefix.to_multiset().count(x) == 0);
            assert(!prefix.to_multiset().dom().contains(x));
            vstd::multiset::axiom_multiset_always_finite(prefix.to_multiset());
            vstd::set::axiom_set_insert_len(prefix.to_multiset().dom(), x);
        }
    }
}


/// The relation between a token of the first line and the slot the fresh
/// template gets for it: whitespace keeps its count, everything else
/// becomes a constant with the token's bytes and class.
pub open spec fn slot_matches_token(slot: IndexingTemplateToken, t: Token, line: Seq<u8>) -> bool {
    match t {
        Token::Whitespace(n) => slot == IndexingTemplateToken::Whitespace(n),
        _ => {
            &&& slot is Constant
            &&& slot->Constant_0.token_type == spec_token_type(t)
            &&& slot->Constant_0.text@ == spec_token_text(t, line)
        },
    }
}

/// Headroom in the term map for `n` more interned terms.
pub open spec fn tm_headroom(tm: IndexingTermmap, n: int) -> bool {
    &&& tm.regular.next_term_id + n <= u32::MAX
    &&& tm.regular.next_term_id + n <= usize::MAX / 16
}

impl DocGroup {
    /// Open a group from the first line: every non-whitespace token becomes
    /// a constant slot; no columns yet; one document.
    pub fn new(tokens: &Vec<Token>, line: &[u8]) -> (r: DocGroup)
        requires
            spec_tokens_in_range(tokens@, line@.len() as int),
            tokens@.len() <= u32::MAX,
            line@.len() <= u32::MAX,
        ensures
            r.wf(),
            r.num_docs == 1,
            r.columns@.len() == 0,
            r.template.tokens@.len() == tokens@.len(),
            forall|j: int|
                0 <= j < tokens@.len() ==> slot_matches_token(
                    (#[trigger] r.template.tokens@[j]).token,
                    tokens@[j],
                    line@,
                ),
            forall|b: u32| r.ids_below(b),
    {
        let mut template_tokens: Vec<TemplateTokenWithPos> = Vec::new();
        let n = tokens.len();
        let mut j: usize = 0;
        while j < n
            invariant
                n == tokens@.len(),
                n <= u32::MAX,
                j <= n,
                spec_tokens_in_range(tokens@, line@.len() as int),
                line@.len() <= u32::MAX,
                template_tokens@.len() == j,
                forall|p: int|
                    0 <= p < j ==> slot_matches_token(
                        (#[trigger] template_tokens@[p]).token,
                        tokens@[p],
                        line@,
                    ) && template_tokens@[p].token_index == p && !(template_tokens@[p].token
                        is Variable),
                forall|p: int|
                    0 <= p < j && (#[trigger] template_tokens@[p]).token is Constant
                        ==> template_tokens@[p].token->Constant_0.text@.len() <= u32::MAX,
            decreases n - j,
        {
            let token = &tokens[j];
            proof {
                assert(tokens@[j as int].span_in_range(line@.len() as int));
            }
            let slot: IndexingTemplateToken = match token {
                Token::Whitespace(num) => IndexingTemplateToken::Whitespace(*num),
                _ => {
                    let text = token.to_bytes(line);
                    IndexingTemplateToken::Constant(
                        ConstTemplateToken::new(token.token_type(), text),
                    )
                },
            };
            template_tokens.push(TemplateTokenWithPos { token: slot, token_index: j as u32 });
            j = j + 1;
        }
        let r = DocGroup {
            template: IndexingTemplate {
                template_id: TemplateId(0),
                num_docs: 0,
                tokens: template_tokens,
            },
            columns: Vec::new(),
            num_docs: 1,
        };
        r
    }

    /// Push one more line of the same shape into the group. A constant slot
    /// whose bytes disagree with the new line is promoted to a variable; a
    /// variable slot interns the token and appends its id to the column;
    /// whitespace slots are untouched. Once the group reaches
    /// `ID_LIKE_CHECK_AT` documents, each column is classified as id-like
    /// or not.
    pub fn push(&mut self, tokens: &Vec<Token>, line: &[u8], term_hash_map: &mut IndexingTermmap)
        requires
            old(self).wf(),
            spec_tokens_in_range(tokens@, line@.len() as int),
            line@.len() <= u32::MAX,
            old(self).template.tokens@.len() == tokens@.len(),
            old(self).num_docs < usize::MAX,
            old(self).num_docs * 100 <= usize::MAX - 200,
            old(term_hash_map).regular.wf(),
            tm_headroom(*old(term_hash_map), 2 * tokens@.len() as int),
            old(self).ids_below(old(term_hash_map).regular.next_term_id),
        ensures
            final(self).wf(),
            final(self).num_docs == old(self).num_docs + 1,
            final(self).template.tokens@.len() == old(self).template.tokens@.len(),
            final(term_hash_map).regular.wf(),
            old(term_hash_map).regular.next_term_id <= final(term_hash_map).regular.next_term_id
                <= old(term_hash_map).regular.next_term_id + 2 * tokens@.len(),
            final(self).ids_below(final(term_hash_map).regular.next_term_id),
            // A variable slot keeps its column, which gains exactly the
            // line's interned id at the end.
            forall|p: int|
                0 <= p < old(self).template.tokens@.len() && (#[trigger] old(self).template.tokens@[p]).token is Variable ==> final(self).template.tokens@[p].token
                    is Variable && final(self).template.tokens@[p].token->column_index == old(self).template.tokens@[p].token->column_index && old(self).columns@[old(self).template.tokens@[p].token->column_index as int]@.is_prefix_of(
                    final(self).columns@[old(self).template.tokens@[p].token->column_index as int]@,
                ),
            // A constant slot stays exactly when its bytes equal the
            // line's token text; otherwise it is promoted to a variable
            // over a fresh column.
            forall|p: int|
                0 <= p < old(self).template.tokens@.len() && (#[trigger] old(self).template.tokens@[p]).token is Constant ==> (if old(self).template.tokens@[p].token->Constant_0.text@ == spec_token_text(
                    tokens@[p],
                    line@,
                ) {
                    final(self).template.tokens@[p] == old(self).template.tokens@[p]
                } else {
                    final(self).template.tokens@[p].token is Variable && final(self).template.tokens@[p].token->column_index >= old(self).columns@.len()
                }),
            // Whitespace slots are untouched.
            forall|p: int|
                0 <= p < old(self).template.tokens@.len() && (#[trigger] old(self).template.tokens@[p]).token is Whitespace ==> final(self).template.tokens@[p]
                    == old(self).template.tokens@[p],
    {
        let ghost n0 = old(term_hash_map).regular.next_term_id;
        let n = self.template.tokens.len();
        let num_docs = self.num_docs;
        let mut j: usize = 0;
        while j < n
            invariant
                n == self.template.tokens@.len(),
                n == tokens@.len(),
                j <= n,
                num_docs == self.num_docs,
                num_docs == old(self).num_docs,
                num_docs < usize::MAX,
                num_docs * 100 <= usize::MAX - 200,
                spec_tokens_in_range(tokens@, line@.len() as int),
                line@.len() <= u32::MAX,
                term_hash_map.regular.wf(),
                n0 <= term_hash_map.regular.next_term_id <= n0 + 2 * j,
                tm_headroom(*old(term_hash_map), 2 * n),
                n0 == old(term_hash_map).regular.next_term_id,
                // structure
                forall|p: int|
                    0 <= p < n ==> (#[trigger] self.template.tokens@[p]).token_index == p,
                forall|p: int|
                    0 <= p < n && (#[trigger] self.template.tokens@[p]).token is Constant
                        ==> self.template.tokens@[p].token->Constant_0.text@.len() <= u32::MAX,
                n <= u32::MAX,
                forall|p: int|
                    0 <= p < n && (#[trigger] self.template.tokens@[p]).token is Variable
                        ==> self.template.tokens@[p].token->column_index < self.columns@.len(),
                forall|p1: int, p2: int|
                    0 <= p1 < n && 0 <= p2 < n && p1 != p2 && (
                    #[trigger] self.template.tokens@[p1]).token is Variable && (
                    #[trigger] self.template.tokens@[p2]).token is Variable
                        ==> self.template.tokens@[p1].token->column_index
                        != self.template.tokens@[p2].token->column_index,
                forall|c: int|
                    0 <= c < self.columns@.len() ==> #[trigger] spec_column_owned(
                        self.template.tokens@,
                        c,
                    ),
                // columns of slots already handled grew by one; the rest not yet
                forall|p: int|
                    0 <= p < n && (#[trigger] self.template.tokens@[p]).token is Variable
                        ==> self.columns@[self.template.tokens@[p].token->column_index as int]@.len() == (
                        if p < j {
                            num_docs + 1
                        } else {
                            num_docs as int
                        }),
                self.ids_below(term_hash_map.regular.next_term_id),
                // slots not yet handled are untouched, as are the columns
                // the original group owned
                forall|p: int|
                    j <= p < n ==> #[trigger] self.template.tokens@[p] == old(self).template.tokens@[p],
                forall|c: int|
                    0 <= c < old(self).columns@.len() ==> old(self).columns@[c]@.is_prefix_of((#[trigger] self.columns@[c])@),
                old(self).columns@.len() <= self.columns@.len(),
                // per-slot laws for the handled prefix
                forall|p: int|
                    0 <= p < j && (#[trigger] old(self).template.tokens@[p]).token is Variable
                        ==> self.template.tokens@[p].token is Variable
                        && self.template.tokens@[p].token->column_index == old(self).template.tokens@[p].token->column_index,
                forall|p: int|
                    0 <= p < j && (#[trigger] old(self).template.tokens@[p]).token is Constant
                        ==> (if old(self).template.tokens@[p].token->Constant_0.text@
                        == spec_token_text(tokens@[p], line@) {
                        self.template.tokens@[p] == old(self).template.tokens@[p]
                    } else {
                        self.template.tokens@[p].token is Variable
                            && self.template.tokens@[p].token->column_index >= old(
                            self,
                        ).columns@.len()
                    }),
                forall|p: int|
                    0 <= p < j && (#[trigger] old(self).template.tokens@[p]).token is Whitespace
                        ==> self.template.tokens@[p] == old(self).template.tokens@[p],
            decreases n - j,
        {
            let ghost pre = *self;
            let slot_is_const: bool;
            let slot_is_var: bool;
            match &self.template.tokens[j].token {
                IndexingTemplateToken::Constant(_) => {
                    slot_is_const = true;
                    slot_is_var = false;
                },
                IndexingTemplateToken::Variable { .. } => {
                    slot_is_const = false;
                    slot_is_var = true;
                },
                IndexingTemplateToken::Whitespace(_) => {
                    slot_is_const = false;
                    slot_is_var = false;
                },
            }
            if slot_is_const {
                let token = &tokens[j];
                let token_bytes = token.to_bytes(line);
                let same: bool;
                let existing_text: Vec<u8>;
                let existing_type: TokenType;
                match &self.template.tokens[j].token {
                    IndexingTemplateToken::Constant(existing_ct) => {
                        same = fast_short_slice_compare(
                            existing_ct.text.as_slice(),
                            token_bytes.as_slice(),
                        );
                        existing_text = vstd::slice::slice_to_vec(existing_ct.text.as_slice());
                        existing_type = existing_ct.token_type;
                    },
                    _ => {
                        proof {
                            assert(false);
                        }
                        same = true;
                        existing_text = Vec::new();
                        existing_type = TokenType::Word;
                    },
                }
                if !same {
                    // Promote the constant to a variable: a fresh column gets
                    // the old constant's id for every earlier document, then
                    // the new token's id.
                    let ct_id = get_term_id(token, line, term_hash_map, false);
                    let term_id = term_hash_map.mutate_or_create(existing_text.as_slice(), false);
                    let column_index = self.columns.len();
                    let mut new_column: Vec<u32> = Vec::new();
                    let mut d: usize = 0;
                    while d < num_docs
                        invariant
                            d <= num_docs,
                            new_column@.len() == d,
                            forall|x: int| 0 <= x < d ==> #[trigger] new_column@[x] == term_id,
                        decreases num_docs - d,
                    {
                        new_column.push(term_id);
                        d = d + 1;
                    }
                    new_column.push(ct_id);
                    self.columns.push(new_column);
                    let token_type = token.token_type();
                    self.template.tokens.set(
                        j,
                        TemplateTokenWithPos {
                            token: IndexingTemplateToken::new_variable(column_index, token_type),
                            token_index: j as u32,
                        },
                    );
                    proof {
                        assert forall|c: int|
                            0 <= c < self.columns@.len() implies #[trigger] spec_column_owned(
                            self.template.tokens@,
                            c,
                        ) by {
                            if c < pre.columns@.len() {
                                assert(spec_column_owned(pre.template.tokens@, c));
                                let p = choose|p: int|
                                    0 <= p < pre.template.tokens@.len() && (
                                    #[trigger] pre.template.tokens@[p]).token is Variable
                                        && pre.template.tokens@[p].token->column_index == c;
                                assert(p != j);
                                assert(self.template.tokens@[p] == pre.template.tokens@[p]);
                            } else {
                                assert(self.template.tokens@[j as int].token is Variable
                                    && self.template.tokens@[j as int].token->column_index == c);
                            }
                        }
                    }
                }
            } else if slot_is_var {
                let ci: usize;
                let idl: bool;
                let tty: TokenType;
                match &self.template.tokens[j].token {
                    IndexingTemplateToken::Variable { column_index, is_id_like, token_type } => {
                        ci = *column_index;
                        idl = *is_id_like;
                        tty = *token_type;
                    },
                    _ => {
                        proof {
                            assert(false);
                        }
                        ci = 0;
                        idl = false;
                        tty = TokenType::Word;
                    },
                }
                let token = &tokens[j];
                let term_id = get_term_id(token, line, term_hash_map, idl);
                let col = vstd::std_specs::vec::vec_index_mut(&mut self.columns, ci);
                col.push(term_id);
                proof {
                    assert forall|c: int|
                        0 <= c < self.columns@.len() implies #[trigger] spec_column_owned(
                        self.template.tokens@,
                        c,
                    ) by {
                        assert(spec_column_owned(pre.template.tokens@, c));
                    }
                }
                if num_docs == ID_LIKE_CHECK_AT {
                    let flag = check_is_id_like(&self.columns[ci]);
                    self.template.tokens.set(
                        j,
                        TemplateTokenWithPos {
                            token: IndexingTemplateToken::Variable {
                                is_id_like: flag,
                                column_index: ci,
                                token_type: tty,
                            },
                            token_index: j as u32,
                        },
                    );
                    proof {
                        assert forall|c: int|
                            0 <= c < self.columns@.len() implies #[trigger] spec_column_owned(
                            self.template.tokens@,
                            c,
                        ) by {
                            assert(spec_column_owned(pre.template.tokens@, c));
                            let p = choose|p: int|
                                0 <= p < pre.template.tokens@.len() && (
                                #[trigger] pre.template.tokens@[p]).token is Variable
                                    && pre.template.tokens@[p].token->column_index == c;
                            if p == j {
                                assert(self.template.tokens@[p].token is Variable
                                    && self.template.tokens@[p].token->column_index == c);
                            } else {
                                assert(self.template.tokens@[p] == pre.template.tokens@[p]);
                            }
                        }
                    }
                }
            }
            j = j + 1;
        }
        self.num_docs = self.num_docs + 1;
        proof {
            assert forall|c: int|
                0 <= c < self.columns@.len() implies (#[trigger] self.columns@[c])@.len()
                == self.num_docs by {
                assert(spec_column_owned(self.template.tokens@, c));
                let p = choose|p: int|
                    0 <= p < self.template.tokens@.len() && (
                    #[trigger] self.template.tokens@[p]).token is Variable
                        && self.template.tokens@[p].token->column_index == c;
                assert(self.columns@[c]@.len() == num_docs + 1);
            }
        }
    }

    /// Turn the slot at `token_idx` into a variable: the constant's bytes
    /// (or, for whitespace, that many spaces) are interned, and a fresh
    /// column repeats that id for every document of the group. A slot that
    /// already is a variable is left alone.
    pub fn convert_to_variable(&mut self, token_idx: usize, term_hash_map: &mut IndexingTermmap)
        requires
            old(self).wf(),
            token_idx < old(self).template.tokens@.len(),
            old(term_hash_map).regular.wf(),
            tm_headroom(*old(term_hash_map), 1),
            old(self).ids_below(old(term_hash_map).regular.next_term_id),
        ensures
            final(self).wf(),
            final(self).num_docs == old(self).num_docs,
            final(self).template.tokens@.len() == old(self).template.tokens@.len(),
            final(self).template.tokens@[token_idx as int].token is Variable,
            forall|p: int|
                0 <= p < old(self).template.tokens@.len() && p != token_idx
                    ==> #[trigger] final(self).template.tokens@[p] == old(self).template.tokens@[p],
            final(term_hash_map).regular.wf(),
            old(term_hash_map).regular.next_term_id <= final(term_hash_map).regular.next_term_id
                <= old(term_hash_map).regular.next_term_id + 1,
            final(self).ids_below(final(term_hash_map).regular.next_term_id),
            old(self).template.tokens@[token_idx as int].token is Variable ==> *final(self) == *old(
                self,
            ) && *final(term_hash_map) == *old(term_hash_map),
            !(old(self).template.tokens@[token_idx as int].token is Variable) ==> ({
                let text = spec_slot_text(old(self).template.tokens@[token_idx as int].token);
                let m0 = old(term_hash_map).regular.hashed();
                let n0 = old(term_hash_map).regular.next_term_id;
                let id = spec_intern_regular(m0, n0, crate::hashmap::trunc_key(text)).1;
                &&& final(term_hash_map).regular.hashed() == spec_intern_regular(
                    m0,
                    n0,
                    crate::hashmap::trunc_key(text),
                ).0
                &&& final(self).columns@.len() == old(self).columns@.len() + 1
                &&& final(self).columns@.last()@ == Seq::new(
                    old(self).num_docs as nat,
                    |q: int| id,
                )
                &&& final(self).template.tokens@[token_idx as int].token
                    == (IndexingTemplateToken::Variable {
                    is_id_like: false,
                    column_index: old(self).columns@.len() as usize,
                    token_type: spec_itt_type(old(self).template.tokens@[token_idx as int].token),
                })
                &&& forall|c: int|
                    0 <= c < old(self).columns@.len() ==> #[trigger] final(self).columns@[c]
                        == old(self).columns@[c]
            }),
    {
        let ghost pre = *self;
        let is_var: bool;
        let text: Vec<u8>;
        let tty: TokenType;
        match &self.template.tokens[token_idx].token {
            IndexingTemplateToken::Constant(existing_ct) => {
                is_var = false;
                text = vstd::slice::slice_to_vec(existing_ct.text.as_slice());
                tty = existing_ct.token_type;
            },
            IndexingTemplateToken::Whitespace(num) => {
                is_var = false;
                let count = *num;
                let mut spaces: Vec<u8> = Vec::new();
                let mut i: u32 = 0;
                while i < count
                    invariant
                        i <= count,
                        spaces@ =~= Seq::new(i as nat, |q: int| 0x20u8),
                    decreases count - i,
                {
                    spaces.push(0x20u8);
                    i = i + 1;
                    proof {
                        assert(spaces@ =~= Seq::new(i as nat, |q: int| 0x20u8));
                    }
                }
                text = spaces;
                tty = TokenType::Whitespace;
            },
            IndexingTemplateToken::Variable { .. } => {
                is_var = true;
                text = Vec::new();
                tty = TokenType::Word;
            },
        }
        if is_var {
            return ;
        }
        proof {
            assert(text@ == spec_slot_text(old(self).template.tokens@[token_idx as int].token));
            assert(tty == spec_itt_type(old(self).template.tokens@[token_idx as int].token));
        }
        let term_id = term_hash_map.mutate_or_create(text.as_slice(), false);
        let column_index = self.columns.len();
        let num_docs = self.num_docs;
        let mut new_column: Vec<u32> = Vec::new();
        let mut d: usize = 0;
        while d < num_docs
            invariant
                d <= num_docs,
                new_column@.len() == d,
                forall|x: int| 0 <= x < d ==> #[trigger] new_column@[x] == term_id,
            decreases num_docs - d,
        {
            new_column.push(term_id);
            d = d + 1;
        }
        proof {
            assert(new_column@ =~= Seq::new(old(self).num_docs as nat, |q: int| term_id));
        }
        self.columns.push(new_column);
        self.template.tokens.set(
            token_idx,
            TemplateTokenWithPos {
                token: IndexingTemplateToken::new_variable(column_index, tty),
                token_index: token_idx as u32,
            },
        );
        proof {
            assert forall|c: int|
                0 <= c < self.columns@.len() implies #[trigger] spec_column_owned(
                self.template.tokens@,
                c,
            ) by {
                if c < pre.columns@.len() {
                    assert(spec_column_owned(pre.template.tokens@, c));
                    let p = choose|p: int|
                        0 <= p < pre.template.tokens@.len() && (
                        #[trigger] pre.template.tokens@[p]).token is Variable
                            && pre.template.tokens@[p].token->column_index == c;
                    assert(p != token_idx);
                    assert(self.template.tokens@[p] == pre.template.tokens@[p]);
                } else {
                    assert(self.template.tokens@[token_idx as int].token is Variable
                        && self.template.tokens@[token_idx as int].token->column_index == c);
                }
            }
        }
    }

    /// Concatenate another group of the same shape onto this one: the
    /// column of each variable slot is extended with the other group's
    /// column for the same slot, and the document counts add up.
    pub fn append(&mut self, other: &DocGroup)
        requires
            old(self).wf(),
            other.wf(),
            old(self).template.tokens@.len() == other.template.tokens@.len(),
            forall|p: int|
                0 <= p < other.template.tokens@.len() ==> ((#[trigger] old(self).template.tokens@[p]).token
                    is Variable <==> (#[trigger] other.template.tokens@[p]).token is Variable),
            old(self).num_docs + other.num_docs <= usize::MAX,
        ensures
            final(self).wf(),
            final(self).num_docs == old(self).num_docs + other.num_docs,
            final(self).template == old(self).template,
            final(self).columns@.len() == old(self).columns@.len(),
            forall|p: int|
                0 <= p < old(self).template.tokens@.len() && (#[trigger] old(self).template.tokens@[p]).token is Variable ==> final(self).columns@[old(self).template.tokens@[p].token->column_index as int]@ == old(self).columns@[old(self).template.tokens@[p].token->column_index as int]@ + other.columns@[
                    other.template.tokens@[p].token->column_index as int]@,
            forall|b: u32|
                old(self).ids_below(b) && other.ids_below(b) ==> #[trigger] final(self).ids_below(
                    b,
                ),
    {
        let ghost pre = *self;
        let n = self.template.tokens.len();
        let num_docs = self.num_docs;
        let onum = other.num_docs;
        let mut j: usize = 0;
        while j < n
            invariant
                n == self.template.tokens@.len(),
                n == other.template.tokens@.len(),
                j <= n,
                self.template == pre.template,
                self.num_docs == pre.num_docs,
                self.columns@.len() == pre.columns@.len(),
                pre.wf(),
                other.wf(),
                num_docs == pre.num_docs,
                onum == other.num_docs,
                forall|p: int|
                    0 <= p < n ==> ((#[trigger] pre.template.tokens@[p]).token is Variable <==> (
                    #[trigger] other.template.tokens@[p]).token is Variable),
                // processed slots extended, unprocessed untouched
                forall|p: int|
                    0 <= p < n && (#[trigger] pre.template.tokens@[p]).token is Variable
                        ==> self.columns@[pre.template.tokens@[p].token->column_index as int]@ == (if p
                        < j {
                        pre.columns@[pre.template.tokens@[p].token->column_index as int]@
                            + other.columns@[other.template.tokens@[p].token->column_index as int]@
                    } else {
                        pre.columns@[pre.template.tokens@[p].token->column_index as int]@
                    }),
                forall|b: u32|
                    pre.ids_below(b) && other.ids_below(b) ==> #[trigger] self.ids_below(b),
            decreases n - j,
        {
            let ghost mid = *self;
            let tgt_is_var: bool;
            let tgt_ci: usize;
            match &self.template.tokens[j].token {
                IndexingTemplateToken::Variable { column_index, .. } => {
                    tgt_is_var = true;
                    tgt_ci = *column_index;
                },
                _ => {
                    tgt_is_var = false;
                    tgt_ci = 0;
                },
            }
            if tgt_is_var {
                let src_ci: usize;
                match &other.template.tokens[j].token {
                    IndexingTemplateToken::Variable { column_index, .. } => {
                        src_ci = *column_index;
                    },
                    _ => {
                        proof {
                            assert(false);
                        }
                        src_ci = 0;
                    },
                }
                let src = vstd::slice::slice_to_vec(other.columns[src_ci].as_slice());
                let col = vstd::std_specs::vec::vec_index_mut(&mut self.columns, tgt_ci);
                let mut src_mut = src;
                col.append(&mut src_mut);
                proof {
                    assert forall|p: int|
                        0 <= p < n && (#[trigger] pre.template.tokens@[p]).token
                            is Variable implies self.columns@[pre.template.tokens@[p].token
                        ->column_index as int]@ == (if p < j + 1 {
                        pre.columns@[pre.template.tokens@[p].token->column_index as int]@
                            + other.columns@[other.template.tokens@[p].token->column_index as int]@
                    } else {
                        pre.columns@[pre.template.tokens@[p].token->column_index as int]@
                    }) by {
                        let cip = pre.template.tokens@[p].token->column_index;
                        if p == j {
                            assert(cip == tgt_ci);
                        } else {
                            assert(cip != tgt_ci);
                            assert(self.columns@[cip as int] == mid.columns@[cip as int]);
                        }
                    }
                    assert forall|b: u32|
                        pre.ids_below(b) && other.ids_below(b) implies #[trigger] self.ids_below(
                        b,
                    ) by {
                        assert(mid.ids_below(b));
                        assert forall|c: int, r2: int|
                            0 <= c < self.columns@.len() && 0 <= r2 < self.columns@[c]@.len()
                                implies #[trigger] self.columns@[c]@[r2] < b by {
                            if c == tgt_ci {
                                if r2 < mid.columns@[c]@.len() {
                                    assert(self.columns@[c]@[r2] == mid.columns@[c]@[r2]);
                                } else {
                                    assert(self.columns@[c]@[r2] == other.columns@[src_ci as int]@[
                                        r2 - mid.columns@[c]@.len()]);
                                }
                            } else {
                                assert(self.columns@[c]@[r2] == mid.columns@[c]@[r2]);
                            }
                        }
                    }
                }
            }
            j = j + 1;
        }
        let ghost after_loop = *self;
        self.num_docs = num_docs + onum;
        proof {
            assert forall|c: int|
                0 <= c < self.columns@.len() implies (#[trigger] self.columns@[c])@.len()
                == self.num_docs by {
                assert(spec_column_owned(self.template.tokens@, c));
                let p = choose|p: int|
                    0 <= p < self.template.tokens@.len() && (
                    #[trigger] self.template.tokens@[p]).token is Variable
                        && self.template.tokens@[p].token->column_index == c;
                assert(other.template.tokens@[p].token is Variable);
                assert(other.columns@[other.template.tokens@[p].token->column_index as int]@.len()
                    == other.num_docs);
            }
            assert forall|b: u32|
                pre.ids_below(b) && other.ids_below(b) implies #[trigger] self.ids_below(b) by {
                assert(after_loop.ids_below(b));
                assert forall|c: int, r2: int|
                    0 <= c < self.columns@.len() && 0 <= r2 < self.columns@[c]@.len()
                        implies #[trigger] self.columns@[c]@[r2] < b by {
                    assert(self.columns@[c]@[r2] == after_loop.columns@[c]@[r2]);
                }
            }
        }
    }
}

} // verus!

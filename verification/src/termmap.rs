//! The term map: assigns dense `u32` term ids to byte-string terms.
//!
//! Two sub-stores share one `next_term_id` counter. The *regular* store is
//! the arena hash map, which deduplicates: the same term always gets the
//! same id. The *id-like* store is an append-only flat log
//! `[len: u32 LE | bytes | id: u32 LE]*` with no deduplication, used for
//! near-unique terms where hashing has no value.

use vstd::prelude::*;
use vstd::bytes::{spec_u32_to_le_bytes, u32_to_le_bytes, u32_from_le_bytes};
use crate::arena::MemoryArena;
use crate::hashmap::{SharedArenaHashMap, trunc_key};

verus! {

/// The flat-log encoding of one id-like record.
pub open spec fn enc_unique(term: Seq<u8>, id: u32) -> Seq<u8> {
    spec_u32_to_le_bytes(term.len() as u32) + term + spec_u32_to_le_bytes(id)
}

/// The flat-log encoding of a list of id-like records.
pub open spec fn enc_uniques(l: Seq<(Seq<u8>, u32)>) -> Seq<u8>
    decreases l.len(),
{
    if l.len() == 0 {
        Seq::empty()
    } else {
        enc_unique(l[0].0, l[0].1) + enc_uniques(l.drop_first())
    }
}

/// What a regular (deduplicating) intern does to the model: an existing
/// term keeps its id; a new term gets the next id.
pub open spec fn spec_intern_regular(m: Map<Seq<u8>, u32>, next: u32, k: Seq<u8>) -> (
    Map<Seq<u8>, u32>,
    u32,
    u32,
) {
    if m.contains_key(k) {
        (m, m[k], next)
    } else {
        (m.insert(k, next), next, (next + 1) as u32)
    }
}

/// What an id-like intern does to the model: always a fresh record with
/// the next id.
pub open spec fn spec_intern_id_like(l: Seq<(Seq<u8>, u32)>, next: u32, k: Seq<u8>) -> (
    Seq<(Seq<u8>, u32)>,
    u32,
    u32,
) {
    (l.push((k, next)), next, (next + 1) as u32)
}

/// Regular interning is idempotent: interning the same term again returns
/// the same id and changes nothing.
pub proof fn lemma_intern_regular_idempotent(m: Map<Seq<u8>, u32>, next: u32, k: Seq<u8>)
    requires
        next < u32::MAX,
    ensures
        ({
            let (m1, id1, n1) = spec_intern_regular(m, next, k);
            let (m2, id2, n2) = spec_intern_regular(m1, n1, k);
            id2 == id1 && m2 == m1 && n2 == n1
        }),
{
}

/// Id-like interning always allocates a fresh id, and successive id-like
/// interns return strictly increasing ids.
pub proof fn lemma_intern_id_like_fresh(
    l: Seq<(Seq<u8>, u32)>,
    next: u32,
    k1: Seq<u8>,
    k2: Seq<u8>,
)
    requires
        next + 1 < u32::MAX,
    ensures
        ({
            let (l1, id1, n1) = spec_intern_id_like(l, next, k1);
            let (l2, id2, n2) = spec_intern_id_like(l1, n1, k2);
            id2 > id1 && l2[l2.len() - 1] == (k2, id2) && l2[l2.len() - 2] == (k1, id1)
        }),
{
    let (l1, id1, n1) = spec_intern_id_like(l, next, k1);
    let (l2, id2, n2) = spec_intern_id_like(l1, n1, k2);
    assert(l2[l2.len() - 2] == l1[l1.len() - 1]);
}

/// The regular term map: a deduplicating arena hash map plus the id-like
/// flat log, sharing one id counter.
pub struct RegularTermMap {
    /// The deduplicating store.
    pub map: SharedArenaHashMap<u32>,
    /// The arena holding the hashed keys.
    pub arena: MemoryArena,
    /// The id-like flat log, as raw bytes.
    pub unique_terms: Vec<u8>,
    /// The id the next interned term will get.
    pub next_term_id: u32,
    /// The id-like records, as the log encodes them.
    pub uniques: Ghost<Seq<(Seq<u8>, u32)>>,
}

impl RegularTermMap {
    /// The terms of the deduplicating store.
    pub open spec fn hashed(self) -> Map<Seq<u8>, u32> {
        self.map.spec_map(self.arena@)
    }

    /// The states the term map keeps itself in: the log encodes exactly
    /// `uniques`, ids are consistent with the counter, and every id below
    /// the counter belongs to some term.
    pub open spec fn wf(self) -> bool {
        &&& self.map.inv(self.arena@)
        &&& self.unique_terms@ == enc_uniques(self.uniques@)
        &&& self.map.len + self.uniques@.len() == self.next_term_id
        &&& forall|k: Seq<u8>| #[trigger]
            self.hashed().contains_key(k) ==> self.hashed()[k] < self.next_term_id && k.len()
                <= crate::hashmap::MAX_KEY_LEN
        &&& forall|j: int|
            0 <= j < self.uniques@.len() ==> (#[trigger] self.uniques@[j]).1 < self.next_term_id
                && self.uniques@[j].0.len() <= u32::MAX
        &&& forall|id: u32| id < self.next_term_id ==> self.spec_has_term_id(id)
        &&& forall|k1: Seq<u8>, k2: Seq<u8>|
            #[trigger] self.hashed().contains_key(k1) && #[trigger] self.hashed().contains_key(k2)
                && k1 != k2 ==> self.hashed()[k1] != self.hashed()[k2]
        &&& forall|j1: int, j2: int|
            0 <= j1 < self.uniques@.len() && 0 <= j2 < self.uniques@.len() && j1 != j2 ==> (
            #[trigger] self.uniques@[j1]).1 != (#[trigger] self.uniques@[j2]).1
        &&& forall|k: Seq<u8>, j: int|
            #[trigger] self.hashed().contains_key(k) && 0 <= j < self.uniques@.len()
                ==> self.hashed()[k] != (#[trigger] self.uniques@[j]).1
    }

    /// True if `id` was handed out, either to a hashed or to an id-like
    /// term.
    pub open spec fn spec_has_term_id(self, id: u32) -> bool {
        (exists|k: Seq<u8>| #[trigger] self.hashed().contains_key(k) && self.hashed()[k] == id)
            || (exists|j: int|
            0 <= j < self.uniques@.len() && (#[trigger] self.uniques@[j]).1 == id)
    }

    /// An empty term map.
    pub fn new() -> (r: RegularTermMap)
        ensures
            r.wf(),
            r.next_term_id == 0,
            r.hashed() == Map::<Seq<u8>, u32>::empty(),
            r.uniques@ =~= Seq::<(Seq<u8>, u32)>::empty(),
    {
        let r = RegularTermMap {
            map: SharedArenaHashMap::with_capacity(4),
            arena: MemoryArena::new(),
            unique_terms: Vec::new(),
            next_term_id: 0,
            uniques: Ghost(Seq::empty()),
        };
        r
    }

    /// Append one record to the id-like flat log.
    fn push_unique(&mut self, bytes: &[u8], id: u32)
        requires
            old(self).wf(),
            bytes@.len() <= u32::MAX,
        ensures
            final(self).unique_terms@ == enc_uniques(
                old(self).uniques@.push((bytes@, id)),
            ),
            final(self).uniques@ == old(self).uniques@.push((bytes@, id)),
            final(self).map == old(self).map,
            final(self).arena == old(self).arena,
            final(self).next_term_id == old(self).next_term_id,
    {
        let len32: u32 = bytes.len() as u32;
        let mut prefix = u32_to_le_bytes(len32);
        self.unique_terms.append(&mut prefix);
        let mut i: usize = 0;
        let ghost mid = self.unique_terms@;
        while i < bytes.len()
            invariant
                i <= bytes@.len(),
                self.unique_terms@ =~= mid + bytes@.take(i as int),
                self.map == old(self).map,
                self.arena == old(self).arena,
                self.next_term_id == old(self).next_term_id,
                self.uniques == old(self).uniques,
            decreases bytes@.len() - i,
        {
            proof {
                assert(bytes@.take(i + 1) =~= bytes@.take(i as int).push(bytes@[i as int]));
            }
            self.unique_terms.push(bytes[i]);
            i = i + 1;
        }
        let mut suffix = u32_to_le_bytes(id);
        self.unique_terms.append(&mut suffix);
        proof {
            assert(bytes@.take(bytes@.len() as int) =~= bytes@);
            self.uniques@ = old(self).uniques@.push((bytes@, id));
            lemma_enc_uniques_push(old(self).uniques@, bytes@, id);
            assert(self.unique_terms@ =~= enc_uniques(old(self).uniques@) + enc_unique(
                bytes@,
                id,
            ));
        }
    }

    /// Intern a term: deduplicating for a regular term, always fresh for an
    /// id-like one. Returns the term's id.
    pub fn mutate_or_create(&mut self, key: &[u8], is_id_like: bool) -> (r: u32)
        requires
            old(self).wf(),
            old(self).next_term_id < u32::MAX,
            old(self).map.len < usize::MAX / 16,
            key@.len() <= u32::MAX,
        ensures
            final(self).wf(),
            (if is_id_like {
                let (l1, id, n1) = spec_intern_id_like(
                    old(self).uniques@,
                    old(self).next_term_id,
                    key@,
                );
                final(self).uniques@ == l1 && r == id && final(self).next_term_id == n1
                    && final(self).hashed() == old(self).hashed()
            } else {
                let (m1, id, n1) = spec_intern_regular(
                    old(self).hashed(),
                    old(self).next_term_id,
                    trunc_key(key@),
                );
                final(self).hashed() == m1 && r == id && final(self).next_term_id == n1
                    && final(self).uniques@ == old(self).uniques@
            }),
            r < final(self).next_term_id,
    {
        if is_id_like {
            let id = self.next_term_id;
            self.push_unique(key, id);
            self.next_term_id = self.next_term_id + 1;
            proof {
                let s = *self;
                assert(s.map == old(self).map && s.arena == old(self).arena);
                assert(s.hashed() == old(self).hashed());
                assert forall|id2: u32| id2 < s.next_term_id implies s.spec_has_term_id(id2) by {
                    if id2 < old(self).next_term_id {
                        assert(old(self).spec_has_term_id(id2));
                        if exists|kk: Seq<u8>| #[trigger]
                            old(self).hashed().contains_key(kk) && old(self).hashed()[kk]
                                == id2 {
                            let kk = choose|kk: Seq<u8>| #[trigger]
                                old(self).hashed().contains_key(kk) && old(self).hashed()[kk]
                                    == id2;
                            assert(s.hashed().contains_key(kk) && s.hashed()[kk] == id2);
                        } else {
                            let j = choose|j: int|
                                0 <= j < old(self).uniques@.len() && (#[trigger] old(
                                    self,
                                ).uniques@[j]).1 == id2;
                            assert(s.uniques@[j].1 == id2);
                        }
                    } else {
                        assert(s.uniques@[s.uniques@.len() - 1].1 == id2);
                    }
                }
            }
            id
        } else {
            match self.map.get(key, &self.arena) {
                Some(id) => {
                    proof {
                        assert(self.hashed().insert(trunc_key(key@), id) =~= self.hashed());
                    }
                    id
                },
                None => {
                    let id = self.next_term_id;
                    self.map.insert_or_update(key, id, &mut self.arena);
                    self.next_term_id = self.next_term_id + 1;
                    proof {
                        let s = *self;
                        let k = trunc_key(key@);
                        assert(s.hashed() == old(self).hashed().insert(k, id));
                        assert forall|k2: Seq<u8>| #[trigger]
                            s.hashed().contains_key(k2) implies s.hashed()[k2]
                            < s.next_term_id by {
                            if k2 != k {
                                assert(old(self).hashed().contains_key(k2));
                            }
                        }
                        assert forall|id2: u32|
                            id2 < s.next_term_id implies s.spec_has_term_id(id2) by {
                            if id2 < old(self).next_term_id {
                                assert(old(self).spec_has_term_id(id2));
                                if exists|k2: Seq<u8>| #[trigger]
                                    old(self).hashed().contains_key(k2) && old(self).hashed()[k2]
                                        == id2 {
                                    let k2 = choose|k2: Seq<u8>| #[trigger]
                                        old(self).hashed().contains_key(k2) && old(
                                            self,
                                        ).hashed()[k2] == id2;
                                    if k2 == k {
                                        assert(false);
                                    }
                                    assert(s.hashed().contains_key(k2) && s.hashed()[k2] == id2);
                                } else {
                                    let j = choose|j: int|
                                        0 <= j < old(self).uniques@.len() && (#[trigger] old(
                                            self,
                                        ).uniques@[j]).1 == id2;
                                    assert(s.uniques@[j].1 == id2);
                                }
                            } else {
                                assert(s.hashed().contains_key(k) && s.hashed()[k] == id2);
                            }
                        }
                    }
                    id
                },
            }
        }
    }

    /// How many term ids have been handed out.
    pub fn num_terms(&self) -> (r: usize)
        ensures
            r == self.next_term_id,
    {
        self.next_term_id as usize
    }

    /// The records of the id-like flat log, decoded.
    pub fn iter_unique(&self) -> (r: Vec<(Vec<u8>, u32)>)
        requires
            self.wf(),
        ensures
            r@.len() == self.uniques@.len(),
            forall|j: int|
                0 <= j < r@.len() ==> (#[trigger] r@[j]).0@ == self.uniques@[j].0 && r@[j].1
                    == self.uniques@[j].1,
    {
        let mut out: Vec<(Vec<u8>, u32)> = Vec::new();
        let buf = self.unique_terms.as_slice();
        let total = self.unique_terms.len();
        let mut pos: usize = 0;
        let ghost l = self.uniques@;
        let mut k: usize = 0;
        proof {
            assert(l.skip(0) =~= l);
        }
        while pos < total
            invariant
                buf@ == self.unique_terms@,
                total == buf@.len(),
                self.unique_terms@ == enc_uniques(l),
                l == self.uniques@,
                forall|j: int|
                    0 <= j < l.len() ==> (#[trigger] l[j]).0.len() <= u32::MAX,
                l.len() <= u32::MAX,
                0 <= k <= l.len(),
                out@.len() == k,
                forall|j: int|
                    0 <= j < k ==> (#[trigger] out@[j]).0@ == l[j].0 && out@[j].1 == l[j].1,
                pos <= total,
                buf@.skip(pos as int) == enc_uniques(l.skip(k as int)),
            decreases total - pos,
        {
            let ghost rest = l.skip(k as int);
            proof {
                assert(rest.len() > 0) by {
                    if rest.len() == 0 {
                        assert(enc_uniques(rest) =~= Seq::<u8>::empty());
                    }
                }
                assert(rest[0] == l[k as int]);
                assert(rest.drop_first() =~= l.skip(k as int + 1));
                assert(enc_uniques(rest) == enc_unique(rest[0].0, rest[0].1) + enc_uniques(
                    rest.drop_first(),
                ));
                vstd::bytes::lemma_auto_spec_u32_to_from_le_bytes();
                assert(enc_uniques(rest).len() >= 8 + rest[0].0.len());
            }
            proof {
                let termlen = l[k as int].0.len();
                assert(buf@.skip(pos as int).len() == total - pos);
                assert(total - pos >= 8 + termlen);
                assert(buf@.subrange(pos as int, pos + 4) =~= buf@.skip(pos as int).subrange(
                    0,
                    4,
                ));
                assert(buf@.skip(pos as int).subrange(0, 4) =~= spec_u32_to_le_bytes(
                    l[k as int].0.len() as u32,
                ));
            }
            let len = u32_from_le_bytes(vstd::slice::slice_subrange(buf, pos, pos + 4)) as usize;
            proof {
                vstd::bytes::lemma_auto_spec_u32_to_from_le_bytes();
                assert(len == l[k as int].0.len());
            }
            let term = vstd::slice::slice_subrange(buf, pos + 4, pos + 4 + len);
            proof {
                assert(buf@.subrange(pos + 4, pos + 4 + len) =~= buf@.skip(pos as int).subrange(
                    4,
                    4 + len,
                ));
                assert(buf@.skip(pos as int).subrange(4, 4 + len) =~= l[k as int].0);
            }
            let idbytes = vstd::slice::slice_subrange(buf, pos + 4 + len, pos + 8 + len);
            proof {
                assert(buf@.subrange(pos + 4 + len, pos + 8 + len) =~= buf@.skip(
                    pos as int,
                ).subrange(4 + len, 8 + len));
                assert(buf@.skip(pos as int).subrange(4 + len, 8 + len) =~= spec_u32_to_le_bytes(
                    l[k as int].1,
                ));
            }
            let id = u32_from_le_bytes(idbytes);
            proof {
                vstd::bytes::lemma_auto_spec_u32_to_from_le_bytes();
                assert(id == l[k as int].1);
            }
            out.push((vstd::slice::slice_to_vec(term), id));
            proof {
                assert(buf@.skip(pos + 8 + len) =~= buf@.skip(pos as int).skip(8 + len));
                assert(buf@.skip(pos as int).skip(8 + len) =~= enc_uniques(
                    l.skip(k as int + 1),
                ));
            }
            pos = pos + 8 + len;
            k = k + 1;
        }
        proof {
            let rest = l.skip(k as int);
            if rest.len() > 0 {
                vstd::bytes::lemma_auto_spec_u32_to_from_le_bytes();
                assert(enc_uniques(rest).len() >= 8 + rest[0].0.len());
                assert(buf@.skip(pos as int).len() == 0);
            }
            assert(k == l.len());
        }
        out
    }

    /// All `(term, id)` pairs of both stores: the hashed terms first, then
    /// the id-like log in insertion order. Terms from the id-like log may
    /// repeat.
    pub fn iter(&self) -> (r: Vec<(Vec<u8>, u32)>)
        requires
            self.wf(),
        ensures
            r@.len() == self.next_term_id,
            forall|j: int|
                0 <= j < r@.len() ==> ((#[trigger] r@[j]).1 < self.next_term_id && (
                self.hashed().contains_key(r@[j].0@) && self.hashed()[r@[j].0@] == r@[j].1
                    || exists|u: int|
                    0 <= u < self.uniques@.len() && (#[trigger] self.uniques@[u]) == (
                        r@[j].0@,
                        r@[j].1,
                    ))),
            forall|k: Seq<u8>| #[trigger]
                self.hashed().contains_key(k) ==> exists|j: int|
                    0 <= j < r@.len() && r@[j].0@ == k && r@[j].1 == self.hashed()[k],
            forall|u: int|
                0 <= u < self.uniques@.len() ==> exists|j: int|
                    0 <= j < r@.len() && r@[j].0@ == (#[trigger] self.uniques@[u]).0 && r@[j].1
                        == self.uniques@[u].1,
            forall|id: u32| #[trigger] self.spec_has_term_id(id) ==> exists|j: int|
                0 <= j < r@.len() && r@[j].1 == id,
            forall|j1: int, j2: int|
                0 <= j1 < r@.len() && 0 <= j2 < r@.len() && j1 != j2 ==> (#[trigger] r@[j1]).1 != (
                #[trigger] r@[j2]).1,
    {
        let mut r = self.map.iter(&self.arena);
        let ghost rh = r@;
        let ghost hn = r@.len() as int;
        let mut uniq = self.iter_unique();
        let ghost uq = uniq@;
        proof {
            assert(hn == self.map.len);
        }
        r.append(&mut uniq);
        proof {
            let s = *self;
            assert(r@ =~= rh + uq);
            assert(r@.len() == s.next_term_id);
            assert forall|j: int|
                0 <= j < r@.len() implies ((#[trigger] r@[j]).1 < s.next_term_id && (
            s.hashed().contains_key(r@[j].0@) && s.hashed()[r@[j].0@] == r@[j].1 || exists|u: int|
                0 <= u < s.uniques@.len() && (#[trigger] s.uniques@[u]) == (
                    r@[j].0@,
                    r@[j].1,
                ))) by {
                if j < hn {
                    assert(r@[j] == rh[j]);
                    assert(s.hashed().contains_key(rh[j].0@) && s.hashed()[rh[j].0@] == rh[j].1);
                } else {
                    assert(r@[j] == uq[j - hn]);
                    assert(uq[j - hn].0@ == s.uniques@[j - hn].0 && uq[j - hn].1 == s.uniques@[j
                        - hn].1);
                    assert(s.uniques@[j - hn] == (r@[j].0@, r@[j].1));
                    assert(s.uniques@[j - hn].1 < s.next_term_id);
                }
            }
            assert forall|k: Seq<u8>| #[trigger] s.hashed().contains_key(k) implies exists|j: int|
                0 <= j < r@.len() && r@[j].0@ == k && r@[j].1 == s.hashed()[k] by {
                let j = choose|j: int| 0 <= j < rh.len() && rh[j].0@ == k;
                assert(r@[j] == rh[j]);
                assert(r@[j].0@ == k && r@[j].1 == s.hashed()[k]);
            }
            assert forall|u: int|
                0 <= u < s.uniques@.len() implies exists|j: int|
                0 <= j < r@.len() && r@[j].0@ == (#[trigger] s.uniques@[u]).0 && r@[j].1
                    == s.uniques@[u].1 by {
                assert(r@[hn + u] == uq[u]);
                assert(r@[hn + u].0@ == s.uniques@[u].0 && r@[hn + u].1 == s.uniques@[u].1);
            }
            assert forall|j1: int, j2: int|
                0 <= j1 < r@.len() && 0 <= j2 < r@.len() && j1 != j2 implies (
            #[trigger] r@[j1]).1 != (#[trigger] r@[j2]).1 by {
                if j1 < hn && j2 < hn {
                    assert(r@[j1] == rh[j1] && r@[j2] == rh[j2]);
                    assert(s.hashed().contains_key(rh[j1].0@) && s.hashed()[rh[j1].0@]
                        == rh[j1].1);
                    assert(s.hashed().contains_key(rh[j2].0@) && s.hashed()[rh[j2].0@]
                        == rh[j2].1);
                    assert(rh[j1].0@ != rh[j2].0@);
                } else if j1 < hn {
                    assert(r@[j1] == rh[j1] && r@[j2] == uq[j2 - hn]);
                    assert(s.hashed().contains_key(rh[j1].0@) && s.hashed()[rh[j1].0@]
                        == rh[j1].1);
                    assert(uq[j2 - hn].1 == s.uniques@[j2 - hn].1);
                } else if j2 < hn {
                    assert(r@[j2] == rh[j2] && r@[j1] == uq[j1 - hn]);
                    assert(s.hashed().contains_key(rh[j2].0@) && s.hashed()[rh[j2].0@]
                        == rh[j2].1);
                    assert(uq[j1 - hn].1 == s.uniques@[j1 - hn].1);
                } else {
                    assert(r@[j1] == uq[j1 - hn] && r@[j2] == uq[j2 - hn]);
                    assert(uq[j1 - hn].1 == s.uniques@[j1 - hn].1);
                    assert(uq[j2 - hn].1 == s.uniques@[j2 - hn].1);
                }
            }
            assert forall|id: u32| #[trigger] s.spec_has_term_id(id) implies exists|j: int|
                0 <= j < r@.len() && r@[j].1 == id by {
                if exists|k: Seq<u8>| #[trigger] s.hashed().contains_key(k) && s.hashed()[k]
                    == id {
                    let k = choose|k: Seq<u8>| #[trigger] s.hashed().contains_key(k)
                        && s.hashed()[k] == id;
                    let j = choose|j: int| 0 <= j < rh.len() && rh[j].0@ == k;
                    assert(r@[j] == rh[j]);
                    assert(r@[j].1 == id);
                } else {
                    let u = choose|u: int|
                        0 <= u < s.uniques@.len() && (#[trigger] s.uniques@[u]).1 == id;
                    assert(r@[hn + u] == uq[u]);
                    assert(r@[hn + u].1 == id);
                }
            }
        }
        r
    }

    /// Find the term that was given `id`. Linear scan of both stores;
    /// expensive, used only when templates are split.
    pub fn find_term_for_term_id(&self, term_id: u32) -> (r: Vec<u8>)
        requires
            self.wf(),
            term_id < self.next_term_id,
        ensures
            spec_term_for(*self, r@, term_id),
            self.hashed().contains_key(r@) && self.hashed()[r@] == term_id || exists|u: int|
                0 <= u < self.uniques@.len() && (#[trigger] self.uniques@[u]) == (r@, term_id),
            r@.len() <= u32::MAX,
    {
        let mut all = self.iter();
        let n = all.len();
        let mut i: usize = 0;
        while i < n
            invariant
                self.wf(),
                term_id < self.next_term_id,
                n == all@.len(),
                i <= n,
                n == self.next_term_id,
                forall|j: int|
                    0 <= j < all@.len() ==> ((#[trigger] all@[j]).1 < self.next_term_id && (
                    self.hashed().contains_key(all@[j].0@) && self.hashed()[all@[j].0@]
                        == all@[j].1 || exists|u: int|
                        0 <= u < self.uniques@.len() && (#[trigger] self.uniques@[u]) == (
                            all@[j].0@,
                            all@[j].1,
                        ))),
                forall|id: u32| #[trigger] self.spec_has_term_id(id) ==> exists|j: int|
                    0 <= j < all@.len() && all@[j].1 == id,
                forall|j: int| 0 <= j < i ==> (#[trigger] all@[j]).1 != term_id,
            decreases n - i,
        {
            if all[i].1 == term_id {
                let (term, _) = all.remove(i);
                return term;
            }
            i = i + 1;
        }
        proof {
            assert(self.spec_has_term_id(term_id));
            let j = choose|j: int| 0 <= j < all@.len() && all@[j].1 == term_id;
            assert(all@[j].1 == term_id);
            assert(false);
        }
        unreached()
    }
}

proof fn lemma_enc_uniques_push(l: Seq<(Seq<u8>, u32)>, term: Seq<u8>, id: u32)
    ensures
        enc_uniques(l.push((term, id))) == enc_uniques(l) + enc_unique(term, id),
    decreases l.len(),
{
    let l2 = l.push((term, id));
    if l.len() == 0 {
        assert(l2.drop_first() =~= Seq::<(Seq<u8>, u32)>::empty());
        assert(enc_uniques(l2.drop_first()) =~= Seq::<u8>::empty());
        assert(l2[0] == (term, id));
        assert(enc_uniques(l2) =~= enc_unique(term, id));
        assert(enc_uniques(l) + enc_unique(term, id) =~= enc_unique(term, id));
    } else {
        assert(l2.drop_first() =~= l.drop_first().push((term, id)));
        lemma_enc_uniques_push(l.drop_first(), term, id);
        assert(l2[0] == l[0]);
        assert(enc_uniques(l2) =~= enc_uniques(l) + enc_unique(term, id));
    }
}

/// The store maps `term` to `id`: through the hashed map for regular
/// terms, or through the unique list for id-like terms.
pub open spec fn spec_term_for(m: RegularTermMap, term: Seq<u8>, id: u32) -> bool {
    m.hashed().contains_key(term) && m.hashed()[term] == id || exists|u: int|
        0 <= u < m.uniques@.len() && (#[trigger] m.uniques@[u]) == (term, id)
}

/// The façade over the term stores that the indexing pipeline uses.
pub struct IndexingTermmap {
    /// The shared store with both interning strategies.
    pub regular: RegularTermMap,
}

impl IndexingTermmap {
    /// An empty term map.
    pub fn new() -> (r: IndexingTermmap)
        ensures
            r.regular.wf(),
            r.regular.next_term_id == 0,
            r.regular.hashed() == Map::<Seq<u8>, u32>::empty(),
            r.regular.uniques@ =~= Seq::<(Seq<u8>, u32)>::empty(),
    {
        IndexingTermmap { regular: RegularTermMap::new() }
    }

    /// Intern a term; see [`RegularTermMap::mutate_or_create`].
    pub fn mutate_or_create(&mut self, key: &[u8], is_id_like: bool) -> (r: u32)
        requires
            old(self).regular.wf(),
            old(self).regular.next_term_id < u32::MAX,
            old(self).regular.map.len < usize::MAX / 16,
            key@.len() <= u32::MAX,
        ensures
            final(self).regular.wf(),
            (if is_id_like {
                let (l1, id, n1) = spec_intern_id_like(
                    old(self).regular.uniques@,
                    old(self).regular.next_term_id,
                    key@,
                );
                final(self).regular.uniques@ == l1 && r == id && final(self).regular.next_term_id
                    == n1 && final(self).regular.hashed() == old(self).regular.hashed()
            } else {
                let (m1, id, n1) = spec_intern_regular(
                    old(self).regular.hashed(),
                    old(self).regular.next_term_id,
                    trunc_key(key@),
                );
                final(self).regular.hashed() == m1 && r == id && final(self).regular.next_term_id
                    == n1 && final(self).regular.uniques@ == old(self).regular.uniques@
            }),
            r < final(self).regular.next_term_id,
            old(self).regular.next_term_id <= final(self).regular.next_term_id <= old(
                self,
            ).regular.next_term_id + 1,
    {
        self.regular.mutate_or_create(key, is_id_like)
    }

    /// Find the term that was given `id`; see
    /// [`RegularTermMap::find_term_for_term_id`].
    pub fn find_term_for_term_id(&self, term_id: u32) -> (r: Vec<u8>)
        requires
            self.regular.wf(),
            term_id < self.regular.next_term_id,
        ensures
            self.regular.hashed().contains_key(r@) && self.regular.hashed()[r@] == term_id
                || exists|u: int|
                0 <= u < self.regular.uniques@.len() && (#[trigger] self.regular.uniques@[u]) == (
                    r@,
                    term_id,
                ),
            r@.len() <= u32::MAX,
    {
        self.regular.find_term_for_term_id(term_id)
    }
}

} // verus!

//! A hash map specialised for byte-string keys whose bytes live in a shared
//! [`MemoryArena`]. Values are stored inline in the table; keys are hashed
//! with MurmurHash2 and found by linear probing; the table doubles once it
//! is half full.

use vstd::prelude::*;
use vstd::arithmetic::div_mod::{lemma_add_mod_noop, lemma_mod_bound, lemma_small_mod};
use crate::arena::{Addr, MemoryArena, key_at_wf, spec_key_at, lemma_key_at_extend};
use crate::hashes::{murmur2, murmur2_of};

verus! {

/// One table entry: where the key lives in the arena, its cached hash, and
/// the stored value.
#[derive(Clone, Copy)]
pub struct KeyValue<V: Copy> {
    pub key_addr: usize,
    pub hash: u32,
    pub value: V,
}

/// Keys longer than this are truncated before hashing and storing, so that
/// the stored length prefix fits in two bytes.
pub const MAX_KEY_LEN: usize = 65535;

/// A key as the map stores it: truncated to `MAX_KEY_LEN` bytes.
pub open spec fn trunc_key(k: Seq<u8>) -> Seq<u8> {
    if k.len() <= MAX_KEY_LEN {
        k
    } else {
        k.take(MAX_KEY_LEN as int)
    }
}

/// The slot probed at step `t` for hash `h` in a table of `size` buckets.
pub open spec fn slot_of(h: u32, t: int, size: int) -> int
    recommends
        size >= 1,
{
    ((h as int) + 1 + t) % size
}

/// How many buckets of the table are occupied.
pub open spec fn count_some<V: Copy>(t: Seq<Option<KeyValue<V>>>) -> int
    decreases t.len(),
{
    if t.len() == 0 {
        0
    } else {
        count_some(t.drop_last()) + if t.last() is Some {
            1int
        } else {
            0int
        }
    }
}

proof fn lemma_count_some_le<V: Copy>(t: Seq<Option<KeyValue<V>>>)
    ensures
        0 <= count_some(t) <= t.len(),
    decreases t.len(),
{
    if t.len() > 0 {
        lemma_count_some_le(t.drop_last());
    }
}

proof fn lemma_count_some_update<V: Copy>(
    t: Seq<Option<KeyValue<V>>>,
    i: int,
    v: Option<KeyValue<V>>,
)
    requires
        0 <= i < t.len(),
    ensures
        count_some(t.update(i, v)) == count_some(t) - (if t[i] is Some {
            1int
        } else {
            0int
        }) + (if v is Some {
            1int
        } else {
            0int
        }),
    decreases t.len(),
{
    let t2 = t.update(i, v);
    if i == t.len() - 1 {
        assert(t2.drop_last() =~= t.drop_last());
    } else {
        assert(t2.drop_last() =~= t.drop_last().update(i, v));
        lemma_count_some_update(t.drop_last(), i, v);
    }
}

proof fn lemma_count_some_all<V: Copy>(t: Seq<Option<KeyValue<V>>>)
    requires
        forall|j: int| 0 <= j < t.len() ==> (#[trigger] t[j]) is Some,
    ensures
        count_some(t) == t.len(),
    decreases t.len(),
{
    if t.len() > 0 {
        lemma_count_some_all(t.drop_last());
    }
}

proof fn lemma_count_some_take_step<V: Copy>(t: Seq<Option<KeyValue<V>>>, i: int)
    requires
        0 <= i < t.len(),
    ensures
        count_some(t.take(i + 1)) == count_some(t.take(i)) + (if t[i] is Some {
            1int
        } else {
            0int
        }),
{
    assert(t.take(i + 1).drop_last() =~= t.take(i));
    assert(t.take(i + 1).last() == t[i]);
}

// ---------------------------------------------------------------------------
// Table invariants
// ---------------------------------------------------------------------------

/// The key of the occupied bucket `i`.
pub open spec fn bucket_key<V: Copy>(t: Seq<Option<KeyValue<V>>>, arena: Seq<u8>, i: int) -> Seq<
    u8,
> {
    spec_key_at(arena, t[i].unwrap().key_addr as int)
}

/// An occupied bucket points at a real key record whose hash it caches.
pub open spec fn bucket_wf<V: Copy>(t: Seq<Option<KeyValue<V>>>, arena: Seq<u8>, i: int) -> bool {
    &&& key_at_wf(arena, t[i].unwrap().key_addr as int)
    &&& t[i].unwrap().hash == murmur2_of(bucket_key(t, arena, i))
}

/// The first `d` probed slots for hash `h` are all occupied.
pub open spec fn path_clear<V: Copy>(t: Seq<Option<KeyValue<V>>>, h: u32, d: int) -> bool {
    forall|x: int| 0 <= x < d ==> t[#[trigger] slot_of(h, x, t.len() as int)] is Some
}

/// The occupied bucket `i` can be reached by probing from its own hash
/// without meeting an empty slot.
pub open spec fn bucket_findable<V: Copy>(t: Seq<Option<KeyValue<V>>>, i: int) -> bool {
    exists|d: int|
        0 <= d < t.len() && #[trigger] slot_of(t[i].unwrap().hash, d, t.len() as int) == i
            && path_clear(t, t[i].unwrap().hash, d)
}

/// The whole-table invariant: occupied buckets are well formed, hold
/// pairwise distinct keys, and each is findable from its hash.
pub open spec fn table_wf<V: Copy>(t: Seq<Option<KeyValue<V>>>, arena: Seq<u8>) -> bool {
    &&& t.len() >= 2
    &&& forall|i: int| 0 <= i < t.len() && (#[trigger] t[i]) is Some ==> bucket_wf(t, arena, i)
    &&& forall|i: int, j: int|
        0 <= i < t.len() && 0 <= j < t.len() && i != j && (#[trigger] t[i]) is Some && (
        #[trigger] t[j]) is Some ==> bucket_key(t, arena, i) != bucket_key(t, arena, j)
    &&& forall|i: int| 0 <= i < t.len() && (#[trigger] t[i]) is Some ==> bucket_findable(t, i)
}

/// True if some occupied bucket holds `k`.
pub open spec fn table_has_key<V: Copy>(t: Seq<Option<KeyValue<V>>>, arena: Seq<u8>, k: Seq<u8>) -> bool {
    exists|i: int| 0 <= i < t.len() && (#[trigger] t[i]) is Some && bucket_key(t, arena, i) == k
}

/// The bucket that holds `k`.
pub open spec fn table_index_of<V: Copy>(t: Seq<Option<KeyValue<V>>>, arena: Seq<u8>, k: Seq<u8>) -> int {
    choose|i: int| 0 <= i < t.len() && (#[trigger] t[i]) is Some && bucket_key(t, arena, i) == k
}

/// The value stored for `k`.
pub open spec fn table_val<V: Copy>(t: Seq<Option<KeyValue<V>>>, arena: Seq<u8>, k: Seq<u8>) -> V {
    t[table_index_of(t, arena, k)].unwrap().value
}

/// The table as a map from key bytes to values.
pub open spec fn as_map<V: Copy>(t: Seq<Option<KeyValue<V>>>, arena: Seq<u8>) -> Map<Seq<u8>, V> {
    Map::new(|k: Seq<u8>| table_has_key(t, arena, k), |k: Seq<u8>| table_val(t, arena, k))
}

/// An occupied bucket's key maps to that bucket's value.
proof fn lemma_table_val<V: Copy>(t: Seq<Option<KeyValue<V>>>, arena: Seq<u8>, i: int)
    requires
        table_wf(t, arena),
        0 <= i < t.len(),
        t[i] is Some,
    ensures
        table_has_key(t, arena, bucket_key(t, arena, i)),
        table_val(t, arena, bucket_key(t, arena, i)) == t[i].unwrap().value,
{
    let k = bucket_key(t, arena, i);
    assert(0 <= i < t.len() && t[i] is Some && bucket_key(t, arena, i) == k);
    let j = table_index_of(t, arena, k);
    if j != i {
        assert(bucket_key(t, arena, i) != bucket_key(t, arena, j));
    }
}

// ---------------------------------------------------------------------------
// Probe arithmetic
// ---------------------------------------------------------------------------

proof fn lemma_slot_step(h: u32, t: int, size: int)
    requires
        size >= 2,
        t >= 0,
    ensures
        slot_of(h, t + 1, size) == (slot_of(h, t, size) + 1) % size,
{
    lemma_add_mod_noop((h as int) + 1 + t, 1, size);
    lemma_small_mod(1, size as nat);
    lemma_mod_bound((h as int) + 1 + t, size);
    lemma_mod_bound((slot_of(h, t, size) + 1) as int, size);
}

proof fn lemma_slot_start(h: u32, size: int)
    requires
        size >= 2,
    ensures
        slot_of(h, 0, size) == ((h as int) % size + 1) % size,
{
    lemma_add_mod_noop(h as int, 1, size);
    lemma_small_mod(1, size as nat);
}

/// Every index is probed within `size` steps.
proof fn lemma_slot_covers(h: u32, j: int, size: int)
    requires
        size >= 1,
        0 <= j < size,
    ensures
        exists|t: int| 0 <= t < size && #[trigger] slot_of(h, t, size) == j,
{
    let d = (j - (h as int) - 1) % size;
    lemma_mod_bound(j - (h as int) - 1, size);
    vstd::arithmetic::div_mod::lemma_add_mod_noop_right((h as int) + 1, j - (h as int) - 1, size);
    lemma_small_mod(j as nat, size as nat);
    assert(slot_of(h, d, size) == ((h as int) + 1 + (j - (h as int) - 1) % size) % size);
    assert(((h as int) + 1 + (j - (h as int) - 1) % size) % size == ((h as int) + 1 + (j - (h
        as int) - 1)) % size);
    assert(((h as int) + 1 + (j - (h as int) - 1)) % size == j % size);
    assert(slot_of(h, d, size) == j);
}

/// If every probed slot in a full cycle is occupied, the whole table is.
proof fn lemma_full_cycle<V: Copy>(t: Seq<Option<KeyValue<V>>>, h: u32)
    requires
        t.len() >= 1,
        forall|x: int|
            0 <= x < t.len() ==> t[#[trigger] slot_of(h, x, t.len() as int)] is Some,
    ensures
        count_some(t) == t.len(),
{
    let size = t.len() as int;
    assert forall|j: int| 0 <= j < t.len() implies (#[trigger] t[j]) is Some by {
        lemma_slot_covers(h, j, size);
        let x = choose|x: int| 0 <= x < size && #[trigger] slot_of(h, x, size) == j;
        assert(t[slot_of(h, x, size)] is Some);
    }
    lemma_count_some_all(t);
}

/// If a probe from `h` meets pairwise different keys and then an empty
/// slot, no bucket anywhere holds `k`.
proof fn lemma_probe_absent<V: Copy>(
    t: Seq<Option<KeyValue<V>>>,
    arena: Seq<u8>,
    k: Seq<u8>,
    h: u32,
    cap: int,
)
    requires
        table_wf(t, arena),
        h == murmur2_of(k),
        0 <= cap,
        forall|x: int|
            0 <= x < cap ==> t[#[trigger] slot_of(h, x, t.len() as int)] is Some,
        forall|x: int|
            0 <= x < cap ==> bucket_key(t, arena, #[trigger] slot_of(h, x, t.len() as int)) != k,
        t[slot_of(h, cap, t.len() as int)] is None,
    ensures
        !table_has_key(t, arena, k),
{
    let size = t.len() as int;
    if table_has_key(t, arena, k) {
        let i = choose|i: int|
            0 <= i < t.len() && (#[trigger] t[i]) is Some && bucket_key(t, arena, i) == k;
        assert(t[i] is Some && bucket_key(t, arena, i) == k);
        assert(bucket_wf(t, arena, i));
        assert(t[i].unwrap().hash == h);
        assert(bucket_findable(t, i));
        let d = choose|d: int|
            0 <= d < t.len() && #[trigger] slot_of(t[i].unwrap().hash, d, t.len() as int) == i
                && path_clear(t, t[i].unwrap().hash, d);
        if d < cap {
            assert(bucket_key(t, arena, slot_of(h, d, size)) != k);
        } else if d == cap {
            assert(t[slot_of(h, d, size)] is Some);
        } else {
            assert(t[slot_of(h, cap, size)] is Some);
        }
    }
}

/// Growing the arena changes no bucket and no key.
proof fn lemma_wf_extend<V: Copy>(t: Seq<Option<KeyValue<V>>>, arena: Seq<u8>, ext: Seq<u8>)
    requires
        table_wf(t, arena),
    ensures
        table_wf(t, arena + ext),
        forall|i: int|
            0 <= i < t.len() && (#[trigger] t[i]) is Some ==> bucket_key(t, arena + ext, i)
                == bucket_key(t, arena, i),
        as_map(t, arena + ext) == as_map(t, arena),
{
    assert forall|i: int| 0 <= i < t.len() && (#[trigger] t[i]) is Some implies bucket_wf(
        t,
        arena + ext,
        i,
    ) && bucket_key(t, arena + ext, i) == bucket_key(t, arena, i) by {
        lemma_key_at_extend(arena, ext, t[i].unwrap().key_addr as int);
    }
    assert forall|k: Seq<u8>|
        table_has_key(t, arena + ext, k) == table_has_key(t, arena, k) by {
        if table_has_key(t, arena, k) {
            let i = choose|i: int|
                0 <= i < t.len() && (#[trigger] t[i]) is Some && bucket_key(t, arena, i) == k;
            assert(bucket_key(t, arena + ext, i) == k);
        }
        if table_has_key(t, arena + ext, k) {
            let i = choose|i: int|
                0 <= i < t.len() && (#[trigger] t[i]) is Some && bucket_key(t, arena + ext, i)
                    == k;
            assert(bucket_key(t, arena, i) == k);
        }
    }
    assert(as_map(t, arena + ext) =~= as_map(t, arena)) by {
        assert forall|k: Seq<u8>| #[trigger] table_has_key(t, arena, k) implies table_val(
            t,
            arena + ext,
            k,
        ) == table_val(t, arena, k) by {
            let i = table_index_of(t, arena, k);
            assert(t[i] is Some && bucket_key(t, arena, i) == k);
            assert(bucket_key(t, arena + ext, i) == k);
            lemma_table_val(t, arena + ext, i);
            lemma_table_val(t, arena, i);
        }
    }
}

// ---------------------------------------------------------------------------
// The map
// ---------------------------------------------------------------------------

/// A linear-probing hash map whose keys live in a shared arena. `V` is
/// stored inline, so lookups touch the arena only for the key bytes.
pub struct SharedArenaHashMap<V: Copy> {
    /// The bucket table; its size stays a power of two.
    pub table: Vec<Option<KeyValue<V>>>,
    /// Table size minus one.
    pub mask: usize,
    /// Number of occupied buckets.
    pub len: usize,
}

/// Find the bucket that holds `key`, probing from `hash`.
fn probe_find<V: Copy>(
    table: &Vec<Option<KeyValue<V>>>,
    key: &[u8],
    hash: u32,
    arena: &MemoryArena,
) -> (r: Option<usize>)
    requires
        table_wf(table@, arena@),
        hash == murmur2_of(key@),
        2 * count_some(table@) <= table@.len(),
    ensures
        match r {
            Some(i) => 0 <= i < table@.len() && table@[i as int] is Some && bucket_key(
                table@,
                arena@,
                i as int,
            ) == key@,
            None => !table_has_key(table@, arena@, key@),
        },
{
    let size = table.len();
    let ghost sz = size as int;
    let mut idx: usize = (hash as usize % size + 1) % size;
    proof {
        lemma_slot_start(hash, sz);
        lemma_mod_bound(hash as int, sz);
        lemma_mod_bound((hash as int) % sz + 1, sz);
        assert(idx as int == slot_of(hash, 0, sz));
    }
    let mut t: usize = 0;
    loop
        invariant
            table_wf(table@, arena@),
            hash == murmur2_of(key@),
            2 * count_some(table@) <= table@.len(),
            size == table@.len(),
            sz == size as int,
            t <= size,
            0 <= idx < size,
            idx as int == slot_of(hash, t as int, sz),
            forall|x: int|
                0 <= x < t ==> table@[#[trigger] slot_of(hash, x, sz)] is Some,
            forall|x: int|
                0 <= x < t ==> bucket_key(table@, arena@, #[trigger] slot_of(hash, x, sz))
                    != key@,
        ensures
            match table@[idx as int] {
                Option::Some(kv) => bucket_key(table@, arena@, idx as int) == key@,
                Option::None => !table_has_key(table@, arena@, key@),
            },
            0 <= idx < table@.len(),
        decreases size - t,
    {
        if t >= size {
            proof {
                lemma_full_cycle(table@, hash);
            }
            assert(false);
        }
        match table[idx] {
            None => {
                proof {
                    lemma_probe_absent(table@, arena@, key@, hash, t as int);
                }
                break;
            },
            Some(kv) => {
                proof {
                    assert(bucket_wf(table@, arena@, idx as int));
                }
                if kv.hash == hash {
                    let stored = arena.read_key(Addr(kv.key_addr));
                    if crate::fastcmp::fast_short_slice_compare(stored, key) {
                        break;
                    }
                }
                proof {
                    // Either the hash differs (then the keys differ, since
                    // equal keys hash equal) or the bytes differ.
                    assert(bucket_key(table@, arena@, idx as int) != key@);
                    lemma_slot_step(hash, t as int, sz);
                }
                t = t + 1;
                idx = idx + 1;
                if idx >= size {
                    idx = 0;
                }
                proof {
                    lemma_mod_bound(slot_of(hash, t as int - 1, sz) + 1, sz);
                    if slot_of(hash, t as int - 1, sz) + 1 == sz {
                        assert((slot_of(hash, t as int - 1, sz) + 1) % sz == 0) by {
                            vstd::arithmetic::div_mod::lemma_mod_self_0(sz);
                        }
                    } else {
                        lemma_small_mod((slot_of(hash, t as int - 1, sz) + 1) as nat, sz as nat);
                    }
                    assert(idx as int == slot_of(hash, t as int, sz));
                }
            },
        }
    }
    match table[idx] {
        Some(_) => Some(idx),
        None => None,
    }
}

/// Put a key that is not yet present into the first empty probed slot.
fn table_insert_fresh<V: Copy>(
    table: &mut Vec<Option<KeyValue<V>>>,
    arena: &MemoryArena,
    kv: KeyValue<V>,
)
    requires
        table_wf(old(table)@, arena@),
        key_at_wf(arena@, kv.key_addr as int),
        kv.hash == murmur2_of(spec_key_at(arena@, kv.key_addr as int)),
        !table_has_key(old(table)@, arena@, spec_key_at(arena@, kv.key_addr as int)),
        2 * (count_some(old(table)@) + 1) <= old(table)@.len(),
    ensures
        table_wf(final(table)@, arena@),
        final(table)@.len() == old(table)@.len(),
        count_some(final(table)@) == count_some(old(table)@) + 1,
        as_map(final(table)@, arena@) == as_map(old(table)@, arena@).insert(
            spec_key_at(arena@, kv.key_addr as int),
            kv.value,
        ),
{
    let ghost k = spec_key_at(arena@, kv.key_addr as int);
    let hash = kv.hash;
    let size = table.len();
    let ghost sz = size as int;
    let ghost t0 = table@;
    let mut idx: usize = (hash as usize % size + 1) % size;
    proof {
        lemma_slot_start(hash, sz);
        lemma_mod_bound(hash as int, sz);
        lemma_mod_bound((hash as int) % sz + 1, sz);
        assert(idx as int == slot_of(hash, 0, sz));
    }
    let mut t: usize = 0;
    loop
        invariant
            table@ == t0,
            table_wf(t0, arena@),
            kv.hash == hash,
            hash == murmur2_of(k),
            k == spec_key_at(arena@, kv.key_addr as int),
            2 * (count_some(t0) + 1) <= t0.len(),
            size == t0.len(),
            sz == size as int,
            t <= size,
            0 <= idx < size,
            idx as int == slot_of(hash, t as int, sz),
            forall|x: int| 0 <= x < t ==> t0[#[trigger] slot_of(hash, x, sz)] is Some,
        ensures
            table@ == t0,
            0 <= idx < size,
            t0[idx as int] is None,
            idx as int == slot_of(hash, t as int, sz),
            t < size,
            forall|x: int| 0 <= x < t ==> t0[#[trigger] slot_of(hash, x, sz)] is Some,
        decreases size - t,
    {
        if t >= size {
            proof {
                lemma_full_cycle(t0, hash);
                lemma_count_some_le(t0);
            }
            assert(false);
        }
        match table[idx] {
            None => {
                break;
            },
            Some(_) => {
                proof {
                    lemma_slot_step(hash, t as int, sz);
                }
                t = t + 1;
                idx = idx + 1;
                if idx >= size {
                    idx = 0;
                }
                proof {
                    lemma_mod_bound(slot_of(hash, t as int - 1, sz) + 1, sz);
                    if slot_of(hash, t as int - 1, sz) + 1 == sz {
                        assert((slot_of(hash, t as int - 1, sz) + 1) % sz == 0) by {
                            vstd::arithmetic::div_mod::lemma_mod_self_0(sz);
                        }
                    } else {
                        lemma_small_mod((slot_of(hash, t as int - 1, sz) + 1) as nat, sz as nat);
                    }
                    assert(idx as int == slot_of(hash, t as int, sz));
                }
            },
        }
    }
    table.set(idx, Some(kv));
    proof {
        let t1 = table@;
        let i0 = idx as int;
        assert(t1 =~= t0.update(i0, Some(kv)));
        lemma_count_some_update(t0, i0, Some(kv));
        // Buckets other than the new one are unchanged, as are their keys.
        assert forall|i: int| 0 <= i < t1.len() && (#[trigger] t1[i]) is Some implies bucket_wf(
            t1,
            arena@,
            i,
        ) by {
            if i != i0 {
                assert(bucket_wf(t0, arena@, i));
            }
        }
        assert forall|i: int|
            0 <= i < t1.len() && (#[trigger] t1[i]) is Some implies bucket_findable(t1, i) by {
            if i == i0 {
                assert(slot_of(hash, t as int, sz) == i0);
                assert(path_clear(t1, hash, t as int)) by {
                    assert forall|x: int|
                        0 <= x < t implies t1[#[trigger] slot_of(hash, x, sz)] is Some by {
                        assert(t0[slot_of(hash, x, sz)] is Some);
                    }
                }
                assert(0 <= t < t1.len() && slot_of(t1[i0].unwrap().hash, t as int, t1.len() as int)
                    == i0 && path_clear(t1, t1[i0].unwrap().hash, t as int));
            } else {
                assert(bucket_findable(t0, i));
                let d = choose|d: int|
                    0 <= d < t0.len() && #[trigger] slot_of(t0[i].unwrap().hash, d, t0.len() as int)
                        == i && path_clear(t0, t0[i].unwrap().hash, d);
                assert(path_clear(t1, t1[i].unwrap().hash, d)) by {
                    assert forall|x: int|
                        0 <= x < d implies t1[#[trigger] slot_of(
                        t1[i].unwrap().hash,
                        x,
                        t1.len() as int,
                    )] is Some by {
                        assert(t0[slot_of(t0[i].unwrap().hash, x, t0.len() as int)] is Some);
                    }
                }
                assert(0 <= d < t1.len() && slot_of(t1[i].unwrap().hash, d, t1.len() as int) == i
                    && path_clear(t1, t1[i].unwrap().hash, d));
            }
        }
        // Key uniqueness: the new key was absent.
        assert forall|i: int, j: int|
            0 <= i < t1.len() && 0 <= j < t1.len() && i != j && (#[trigger] t1[i]) is Some && (
            #[trigger] t1[j]) is Some implies bucket_key(t1, arena@, i) != bucket_key(
            t1,
            arena@,
            j,
        ) by {
            if i != i0 && j != i0 {
                assert(bucket_key(t0, arena@, i) != bucket_key(t0, arena@, j));
            } else if i == i0 {
                if bucket_key(t1, arena@, j) == k {
                    assert(t0[j] is Some && bucket_key(t0, arena@, j) == k);
                }
            } else {
                if bucket_key(t1, arena@, i) == k {
                    assert(t0[i] is Some && bucket_key(t0, arena@, i) == k);
                }
            }
        }
        assert(table_wf(t1, arena@));
        // The map gains exactly the new key.
        assert(as_map(t1, arena@) =~= as_map(t0, arena@).insert(k, kv.value)) by {
            assert forall|k2: Seq<u8>| #[trigger]
                table_has_key(t1, arena@, k2) implies k2 == k || table_has_key(
                t0,
                arena@,
                k2,
            ) by {
                let i = choose|i: int|
                    0 <= i < t1.len() && (#[trigger] t1[i]) is Some && bucket_key(t1, arena@, i)
                        == k2;
                if i != i0 {
                    assert(t0[i] is Some && bucket_key(t0, arena@, i) == k2);
                }
            }
            assert forall|k2: Seq<u8>| #[trigger]
                table_has_key(t0, arena@, k2) implies table_has_key(t1, arena@, k2) by {
                let i = choose|i: int|
                    0 <= i < t0.len() && (#[trigger] t0[i]) is Some && bucket_key(t0, arena@, i)
                        == k2;
                assert(i != i0);
                assert(t1[i] is Some && bucket_key(t1, arena@, i) == k2);
            }
            assert(table_has_key(t1, arena@, k)) by {
                assert(t1[i0] is Some && bucket_key(t1, arena@, i0) == k);
            }
            lemma_table_val(t1, arena@, i0);
            assert forall|k2: Seq<u8>|
                #[trigger] table_has_key(t0, arena@, k2) && k2 != k implies table_val(
                t1,
                arena@,
                k2,
            ) == table_val(t0, arena@, k2) by {
                let i = table_index_of(t0, arena@, k2);
                assert(t0[i] is Some && bucket_key(t0, arena@, i) == k2);
                assert(i != i0);
                assert(t1[i] is Some && bucket_key(t1, arena@, i) == k2);
                lemma_table_val(t0, arena@, i);
                lemma_table_val(t1, arena@, i);
            }
        }
    }
}

impl<V: Copy> Default for SharedArenaHashMap<V> {
    /// An empty map with a small initial table.
    fn default() -> (r: SharedArenaHashMap<V>)
        ensures
            forall|arena: Seq<u8>| #![all_triggers] r.inv(arena) && r.spec_map(arena)
                == Map::<Seq<u8>, V>::empty(),
            r.len == 0,
    {
        SharedArenaHashMap::with_capacity(4)
    }
}

impl<V: Copy> SharedArenaHashMap<V> {
    /// The states in which the map works: a well-formed half-full-at-most
    /// table of even size.
    pub open spec fn inv(self, arena: Seq<u8>) -> bool {
        &&& table_wf(self.table@, arena)
        &&& self.mask == self.table@.len() - 1
        &&& self.len == count_some(self.table@)
        &&& 2 * self.len <= self.table@.len()
        &&& self.table@.len() % 2 == 0
        &&& self.table@.len() <= usize::MAX / 4
    }

    /// The map's contents over a given arena.
    pub open spec fn spec_map(self, arena: Seq<u8>) -> Map<Seq<u8>, V> {
        as_map(self.table@, arena)
    }

    /// Create a table able to hold at least half of `table_size` items
    /// before the first resize; the size is rounded down to a power of two,
    /// and at least 2.
    pub fn with_capacity(table_size: usize) -> (r: SharedArenaHashMap<V>)
        requires
            table_size <= usize::MAX / 4,
        ensures
            forall|arena: Seq<u8>| #![all_triggers] r.inv(arena) && r.spec_map(arena)
                == Map::<Seq<u8>, V>::empty(),
            r.len == 0,
            spec_is_pow2(r.table@.len() as int),
            2 <= r.table@.len(),
            table_size >= 2 ==> r.table@.len() <= table_size && 2 * r.table@.len() > table_size,
    {
        let n = compute_previous_power_of_two(if table_size < 2 {
            2
        } else {
            table_size
        });
        let mut table: Vec<Option<KeyValue<V>>> = Vec::new();
        let mut i: usize = 0;
        while i < n
            invariant
                i <= n,
                table@.len() == i,
                forall|j: int| 0 <= j < i ==> (#[trigger] table@[j]) is None,
            decreases n - i,
        {
            table.push(None);
            i = i + 1;
        }
        let r = SharedArenaHashMap { table, mask: n - 1, len: 0 };
        proof {
            lemma_count_some_all_none(r.table@);
            assert forall|arena: Seq<u8>| #![all_triggers] r.inv(arena) && r.spec_map(arena)
                == Map::<Seq<u8>, V>::empty() by {
                assert(r.spec_map(arena) =~= Map::<Seq<u8>, V>::empty()) by {
                    assert(forall|k: Seq<u8>| !table_has_key(r.table@, arena, k));
                }
            }
        }
        r
    }

    /// Number of keys in the map.
    pub fn len(&self) -> (r: usize)
        ensures
            r == self.len,
    {
        self.len
    }

    /// True if the map holds no keys.
    pub fn is_empty(&self) -> (r: bool)
        ensures
            r == (self.len == 0),
    {
        self.len == 0
    }

    /// Memory used by the bucket table, in bytes.
    pub fn mem_usage(&self) -> (r: usize)
        requires
            self.table@.len() * 16 <= usize::MAX,
        ensures
            r == self.table@.len() * 16,
    {
        self.table.len() * 16
    }

    /// Look up the value stored for `key` (truncated like on insertion).
    pub fn get(&self, key: &[u8], arena: &MemoryArena) -> (r: Option<V>)
        requires
            self.inv(arena@),
        ensures
            match r {
                Some(v) => self.spec_map(arena@).contains_key(trunc_key(key@))
                    && self.spec_map(arena@)[trunc_key(key@)] == v,
                None => !self.spec_map(arena@).contains_key(trunc_key(key@)),
            },
    {
        let key = if key.len() > MAX_KEY_LEN {
            vstd::slice::slice_subrange(key, 0, MAX_KEY_LEN)
        } else {
            key
        };
        let hash = murmur2(key);
        match probe_find(&self.table, key, hash, arena) {
            Some(i) => {
                proof {
                    lemma_table_val(self.table@, arena@, i as int);
                }
                match self.table[i] {
                    Some(kv) => Some(kv.value),
                    None => None,
                }
            },
            None => None,
        }
    }

    /// Grow the table to twice its size (at least 8), reinserting every
    /// entry.
    fn resize(&mut self, arena: &MemoryArena)
        requires
            old(self).inv(arena@),
            old(self).table@.len() <= usize::MAX / 8,
        ensures
            final(self).inv(arena@),
            final(self).spec_map(arena@) == old(self).spec_map(arena@),
            final(self).len == old(self).len,
            2 * (final(self).len + 1) <= final(self).table@.len(),
    {
        let old_size = self.table.len();
        let new_size = if old_size * 2 < 8 {
            8
        } else {
            old_size * 2
        };
        let mut new_table: Vec<Option<KeyValue<V>>> = Vec::new();
        let mut i: usize = 0;
        while i < new_size
            invariant
                i <= new_size,
                new_table@.len() == i,
                forall|j: int| 0 <= j < i ==> (#[trigger] new_table@[j]) is None,
            decreases new_size - i,
        {
            new_table.push(None);
            i = i + 1;
        }
        proof {
            lemma_count_some_all_none(new_table@);
            assert(forall|k: Seq<u8>| !table_has_key(new_table@, arena@, k));
        }
        let ghost t0 = self.table@;
        let mut j: usize = 0;
        while j < old_size
            invariant
                old_size == t0.len(),
                table_wf(t0, arena@),
                2 * count_some(t0) <= t0.len(),
                new_table@.len() == new_size,
                new_size >= 8,
                new_size >= 2 * old_size,
                j <= old_size,
                self.table@ == t0,
                table_wf(new_table@, arena@),
                count_some(new_table@) == count_some(t0.take(j as int)),
                forall|k: Seq<u8>| #[trigger]
                    table_has_key(new_table@, arena@, k) ==> exists|i2: int|
                        0 <= i2 < j && (#[trigger] t0[i2]) is Some && bucket_key(t0, arena@, i2)
                            == k,
                forall|i2: int|
                    0 <= i2 < j && (#[trigger] t0[i2]) is Some ==> table_has_key(
                        new_table@,
                        arena@,
                        bucket_key(t0, arena@, i2),
                    ) && table_val(new_table@, arena@, bucket_key(t0, arena@, i2))
                        == t0[i2].unwrap().value,
            decreases old_size - j,
        {
            let entry = self.table[j];
            match entry {
                Some(kv) => {
                    proof {
                        assert(bucket_wf(t0, arena@, j as int));
                        lemma_count_some_le(t0.take(j as int));
                        lemma_count_some_le(t0);
                        // The key is not yet in the new table: it lives in
                        // bucket j of the old one, and every key of the new
                        // table comes from an earlier old bucket, all of
                        // which hold other keys.
                        if table_has_key(new_table@, arena@, bucket_key(t0, arena@, j as int)) {
                            let kk = bucket_key(t0, arena@, j as int);
                            // Every key already in the new table came from an
                            // earlier old bucket, and distinct old buckets
                            // hold distinct keys.
                            let i2 = choose|i2: int|
                                0 <= i2 < j && (#[trigger] t0[i2]) is Some && bucket_key(
                                    t0,
                                    arena@,
                                    i2,
                                ) == kk;
                            assert(bucket_key(t0, arena@, i2) != bucket_key(t0, arena@, j as int));
                            assert(false);
                        }
                        lemma_count_some_take_bound(t0, j as int);
                    }
                    let ghost nt_before = new_table@;
                    table_insert_fresh(&mut new_table, arena, kv);
                    proof {
                        lemma_count_some_take_step(t0, j as int);
                        let kj = bucket_key(t0, arena@, j as int);
                        let m_before = as_map(nt_before, arena@);
                        let m_after = as_map(new_table@, arena@);
                        assert(m_after == m_before.insert(kj, kv.value));
                        assert forall|i2: int|
                            0 <= i2 < j + 1 && (#[trigger] t0[i2]) is Some implies table_has_key(
                            new_table@,
                            arena@,
                            bucket_key(t0, arena@, i2),
                        ) && table_val(new_table@, arena@, bucket_key(t0, arena@, i2))
                            == t0[i2].unwrap().value by {
                            let k2 = bucket_key(t0, arena@, i2);
                            if i2 < j {
                                assert(k2 != kj);
                                assert(m_before.contains_key(k2) && m_before[k2]
                                    == t0[i2].unwrap().value);
                                assert(m_after.contains_key(k2) && m_after[k2]
                                    == t0[i2].unwrap().value);
                                let ii = table_index_of(new_table@, arena@, k2);
                                lemma_table_val(new_table@, arena@, ii);
                            } else {
                                assert(m_after.contains_key(kj) && m_after[kj] == kv.value);
                                let ii = table_index_of(new_table@, arena@, kj);
                                lemma_table_val(new_table@, arena@, ii);
                            }
                        }
                        assert forall|k2: Seq<u8>| #[trigger]
                            table_has_key(new_table@, arena@, k2) implies exists|i2: int|
                            0 <= i2 < j + 1 && (#[trigger] t0[i2]) is Some && bucket_key(
                                t0,
                                arena@,
                                i2,
                            ) == k2 by {
                            assert(m_after.contains_key(k2));
                            if k2 == kj {
                                assert(0 <= j < j + 1 && t0[j as int] is Some && bucket_key(
                                    t0,
                                    arena@,
                                    j as int,
                                ) == k2);
                            } else {
                                assert(m_before.contains_key(k2));
                                assert(table_has_key(nt_before, arena@, k2));
                            }
                        }
                    }
                },
                None => {
                    proof {
                        lemma_count_some_take_step(t0, j as int);
                    }
                },
            }
            j = j + 1;
        }
        self.table = new_table;
        self.mask = new_size - 1;
        proof {
            assert(t0.take(old_size as int) =~= t0);
            // Map equality in both directions.
            assert(as_map(self.table@, arena@) =~= as_map(t0, arena@)) by {
                assert forall|k: Seq<u8>| #[trigger]
                    table_has_key(t0, arena@, k) implies table_has_key(self.table@, arena@, k)
                    && table_val(self.table@, arena@, k) == table_val(t0, arena@, k) by {
                    let i = table_index_of(t0, arena@, k);
                    lemma_table_val(t0, arena@, i);
                }
                assert forall|k: Seq<u8>| #[trigger]
                    table_has_key(self.table@, arena@, k) implies table_has_key(
                    t0,
                    arena@,
                    k,
                ) by {}
            }
            lemma_count_some_le(t0);
        }
    }

    /// Store `value` for `key`, overwriting a present entry or creating a
    /// fresh one. Keys longer than `MAX_KEY_LEN` bytes are truncated.
    pub fn insert_or_update(&mut self, key: &[u8], value: V, arena: &mut MemoryArena)
        requires
            old(self).inv(old(arena)@),
            old(self).len < usize::MAX / 16,
        ensures
            final(self).inv(final(arena)@),
            ({
                let k = trunc_key(key@);
                let m0 = old(self).spec_map(old(arena)@);
                let m1 = final(self).spec_map(final(arena)@);
                &&& m1 == m0.insert(k, value)
                &&& (if m0.contains_key(k) {
                    final(self).len == old(self).len && final(arena)@ == old(arena)@
                } else {
                    final(self).len == old(self).len + 1 && old(arena)@.is_prefix_of(
                        final(arena)@,
                    )
                })
            }),
    {
        if self.table.len() <= 2 * self.len {
            proof {
                lemma_count_some_le(self.table@);
            }
            self.resize(arena);
        }
        let ghost m0 = old(self).spec_map(old(arena)@);
        let ghost t_pre = self.table@;
        proof {
            assert(self.spec_map(arena@) == m0);
        }
        let kb = if key.len() > MAX_KEY_LEN {
            vstd::slice::slice_subrange(key, 0, MAX_KEY_LEN)
        } else {
            key
        };
        let ghost k = kb@;
        proof {
            assert(k == trunc_key(key@)) by {
                if key@.len() > MAX_KEY_LEN {
                    assert(kb@ =~= key@.take(MAX_KEY_LEN as int));
                }
            }
        }
        let hash = murmur2(kb);
        match probe_find(&self.table, kb, hash, arena) {
            Some(i) => {
                proof {
                    lemma_table_val(t_pre, arena@, i as int);
                }
                let kv = self.table[i].unwrap();
                let new_val = value;
                self.table.set(
                    i,
                    Some(KeyValue { key_addr: kv.key_addr, hash: kv.hash, value: new_val }),
                );
                proof {
                    lemma_update_value_map(t_pre, self.table@, arena@, i as int, k, new_val);
                }
            },
            None => {
                let initial_val = value;
                let ghost t_before = self.table@;
                let ghost arena_before = arena@;
                let addr = arena.append_key(kb);
                proof {
                    let ext = arena@.subrange(arena_before.len() as int, arena@.len() as int);
                    assert(arena@ =~= arena_before + ext);
                    lemma_wf_extend(t_before, arena_before, ext);
                    assert(table_wf(self.table@, arena@));
                    assert(!table_has_key(self.table@, arena@, k)) by {
                        if table_has_key(self.table@, arena@, k) {
                            let i = choose|i: int|
                                0 <= i < self.table@.len() && (#[trigger] self.table@[i]) is Some
                                    && bucket_key(self.table@, arena@, i) == k;
                            assert(bucket_key(self.table@, arena_before, i) == k);
                        }
                    }
                    lemma_count_some_le(self.table@);
                }
                let kv = KeyValue { key_addr: addr.0, hash, value: initial_val };
                proof {
                    assert(spec_key_at(arena@, addr.0 as int) == k);
                }
                table_insert_fresh(&mut self.table, arena, kv);
                self.len = self.len + 1;
                proof {
                    let ext = arena@.subrange(arena_before.len() as int, arena@.len() as int);
                    assert(arena_before + ext =~= arena@);
                    assert(as_map(t_before, arena@) == as_map(t_before, arena_before));
                    assert(self.spec_map(arena@) == m0.insert(k, initial_val));
                    assert(arena_before.is_prefix_of(arena@));
                    assert(!m0.contains_key(k)) by {
                        assert(!table_has_key(t_before, arena@, k));
                    }
                }
            },
        }
    }

    /// Insert or update the value for `key` using `updater`: on a missing
    /// key the initial value is `updater(None)`; on a present key with value
    /// `v` the stored value becomes `updater(Some(v))`. Returns the freshly
    /// stored value. Keys longer than `MAX_KEY_LEN` bytes are truncated.
    pub fn mutate_or_create<F: Fn(Option<V>) -> V>(
        &mut self,
        key: &[u8],
        arena: &mut MemoryArena,
        updater: F,
    ) -> (r: V)
        requires
            old(self).inv(old(arena)@),
            forall|o: Option<V>| #[trigger] call_requires(updater, (o,)),
            old(self).len < usize::MAX / 16,
        ensures
            final(self).inv(final(arena)@),
            ({
                let k = trunc_key(key@);
                let m0 = old(self).spec_map(old(arena)@);
                let m1 = final(self).spec_map(final(arena)@);
                &&& m1 == m0.insert(k, r)
                &&& (if m0.contains_key(k) {
                    call_ensures(updater, (Some(m0[k]),), r) && final(self).len == old(self).len
                        && final(arena)@ == old(arena)@
                } else {
                    call_ensures(updater, (None,), r) && final(self).len == old(self).len + 1
                        && old(arena)@.is_prefix_of(final(arena)@)
                })
            }),
    {
        let old_val = self.get(key, arena);
        let new_val = updater(old_val);
        self.insert_or_update(key, new_val, arena);
        new_val
    }

    /// All `(key, value)` pairs, one for each key of the map.
    pub fn iter(&self, arena: &MemoryArena) -> (r: Vec<(Vec<u8>, V)>)
        requires
            self.inv(arena@),
        ensures
            r@.len() == self.len,
            forall|j: int|
                0 <= j < r@.len() ==> self.spec_map(arena@).contains_key(#[trigger] r@[j].0@)
                    && self.spec_map(arena@)[r@[j].0@] == r@[j].1,
            forall|j1: int, j2: int|
                0 <= j1 < r@.len() && 0 <= j2 < r@.len() && j1 != j2 ==> #[trigger] r@[j1].0@
                    != #[trigger] r@[j2].0@,
            forall|k: Seq<u8>| #[trigger]
                self.spec_map(arena@).contains_key(k) ==> exists|j: int|
                    0 <= j < r@.len() && r@[j].0@ == k,
    {
        let t = &self.table;
        let n = t.len();
        let mut out: Vec<(Vec<u8>, V)> = Vec::new();
        let ghost tv = t@;
        let ghost mut bs: Seq<int> = Seq::empty();
        let mut i: usize = 0;
        while i < n
            invariant
                self.inv(arena@),
                tv == self.table@,
                t@ == tv,
                n == tv.len(),
                i <= n,
                out@.len() == bs.len(),
                out@.len() == count_some(tv.take(i as int)),
                forall|j: int|
                    0 <= j < bs.len() ==> 0 <= #[trigger] bs[j] < i && tv[bs[j]] is Some
                        && out@[j].0@ == bucket_key(tv, arena@, bs[j]) && out@[j].1
                        == tv[bs[j]].unwrap().value,
                forall|j1: int, j2: int|
                    0 <= j1 < bs.len() && 0 <= j2 < bs.len() && j1 != j2 ==> #[trigger] bs[j1]
                        != #[trigger] bs[j2],
                forall|b: int|
                    0 <= b < i && (#[trigger] tv[b]) is Some ==> exists|j: int|
                        0 <= j < bs.len() && bs[j] == b,
            decreases n - i,
        {
            match t[i] {
                Some(kv) => {
                    proof {
                        assert(bucket_wf(tv, arena@, i as int));
                    }
                    let kbytes = arena.read_key(Addr(kv.key_addr));
                    let kvec = vstd::slice::slice_to_vec(kbytes);
                    out.push((kvec, kv.value));
                    proof {
                        let bs0 = bs;
                        bs = bs.push(i as int);
                        lemma_count_some_take_step(tv, i as int);
                        assert(bs[bs.len() - 1] == i as int);
                        assert forall|b: int|
                            0 <= b < i + 1 && (#[trigger] tv[b]) is Some implies exists|j: int|
                            0 <= j < bs.len() && bs[j] == b by {
                            if b < i {
                                let j = choose|j: int| 0 <= j < bs0.len() && bs0[j] == b;
                                assert(bs[j] == b);
                            } else {
                                assert(bs[bs.len() - 1] == b);
                            }
                        }
                    }
                },
                None => {
                    proof {
                        lemma_count_some_take_step(tv, i as int);
                    }
                },
            }
            i = i + 1;
        }
        proof {
            assert(tv.take(n as int) =~= tv);
            assert forall|j: int|
                0 <= j < out@.len() implies self.spec_map(arena@).contains_key(
                #[trigger] out@[j].0@,
            ) && self.spec_map(arena@)[out@[j].0@] == out@[j].1 by {
                lemma_table_val(tv, arena@, bs[j]);
            }
            assert forall|j1: int, j2: int|
                0 <= j1 < out@.len() && 0 <= j2 < out@.len() && j1 != j2 implies #[trigger] out@[j1].0@
                != #[trigger] out@[j2].0@ by {
                assert(bs[j1] != bs[j2]);
                assert(tv[bs[j1]] is Some && tv[bs[j2]] is Some);
            }
            assert forall|k: Seq<u8>| #[trigger]
                self.spec_map(arena@).contains_key(k) implies exists|j: int|
                0 <= j < out@.len() && out@[j].0@ == k by {
                let b = choose|b: int|
                    0 <= b < tv.len() && (#[trigger] tv[b]) is Some && bucket_key(tv, arena@, b)
                        == k;
                let j = choose|j: int| 0 <= j < bs.len() && bs[j] == b;
                assert(out@[j].0@ == k);
            }
        }
        out
    }
}

proof fn lemma_count_some_all_none<V: Copy>(t: Seq<Option<KeyValue<V>>>)
    requires
        forall|j: int| 0 <= j < t.len() ==> (#[trigger] t[j]) is None,
    ensures
        count_some(t) == 0,
    decreases t.len(),
{
    if t.len() > 0 {
        lemma_count_some_all_none(t.drop_last());
    }
}

proof fn lemma_count_some_take_bound<V: Copy>(t: Seq<Option<KeyValue<V>>>, i: int)
    requires
        0 <= i <= t.len(),
    ensures
        count_some(t.take(i)) <= count_some(t),
    decreases t.len() - i,
{
    if i < t.len() {
        lemma_count_some_take_step(t, i);
        lemma_count_some_take_bound(t, i + 1);
        assert(t.take(t.len() as int) =~= t);
    } else {
        assert(t.take(i) =~= t);
    }
}

/// Updating the value stored at the bucket holding `k` updates the map at
/// `k` and nothing else.
proof fn lemma_update_value_map<V: Copy>(
    t0: Seq<Option<KeyValue<V>>>,
    t1: Seq<Option<KeyValue<V>>>,
    arena: Seq<u8>,
    i: int,
    k: Seq<u8>,
    v: V,
)
    requires
        table_wf(t0, arena),
        0 <= i < t0.len(),
        t0[i] is Some,
        bucket_key(t0, arena, i) == k,
        t1 == t0.update(
            i,
            Some(
                KeyValue {
                    key_addr: t0[i].unwrap().key_addr,
                    hash: t0[i].unwrap().hash,
                    value: v,
                },
            ),
        ),
    ensures
        table_wf(t1, arena),
        as_map(t1, arena) == as_map(t0, arena).insert(k, v),
        count_some(t1) == count_some(t0),
{
    lemma_count_some_update(t0, i, t1[i]);
    assert(t1.len() == t0.len());
    assert forall|i2: int| 0 <= i2 < t1.len() && (#[trigger] t1[i2]) is Some implies bucket_wf(
        t1,
        arena,
        i2,
    ) by {
        if i2 != i {
            assert(bucket_wf(t0, arena, i2));
        } else {
            assert(bucket_wf(t0, arena, i));
        }
    }
    assert forall|i2: int|
        0 <= i2 < t1.len() && (#[trigger] t1[i2]) is Some implies bucket_key(t1, arena, i2)
        == bucket_key(t0, arena, i2) by {}
    assert forall|i2: int|
        0 <= i2 < t1.len() && (#[trigger] t1[i2]) is Some implies bucket_findable(t1, i2) by {
        assert(bucket_findable(t0, i2));
        let d = choose|d: int|
            0 <= d < t0.len() && #[trigger] slot_of(t0[i2].unwrap().hash, d, t0.len() as int)
                == i2 && path_clear(t0, t0[i2].unwrap().hash, d);
        assert(t1[i2].unwrap().hash == t0[i2].unwrap().hash);
        assert(path_clear(t1, t1[i2].unwrap().hash, d)) by {
            assert forall|x: int|
                0 <= x < d implies t1[#[trigger] slot_of(t1[i2].unwrap().hash, x, t1.len() as int)] is Some by {
                assert(t0[slot_of(t0[i2].unwrap().hash, x, t0.len() as int)] is Some);
            }
        }
        assert(0 <= d < t1.len() && slot_of(t1[i2].unwrap().hash, d, t1.len() as int) == i2
            && path_clear(t1, t1[i2].unwrap().hash, d));
    }
    assert(table_wf(t1, arena));
    assert(as_map(t1, arena) =~= as_map(t0, arena).insert(k, v)) by {
        assert forall|k2: Seq<u8>|
            table_has_key(t1, arena, k2) == table_has_key(t0, arena, k2) by {
            if table_has_key(t0, arena, k2) {
                let i2 = choose|i2: int|
                    0 <= i2 < t0.len() && (#[trigger] t0[i2]) is Some && bucket_key(t0, arena, i2)
                        == k2;
                assert(t1[i2] is Some && bucket_key(t1, arena, i2) == k2);
            }
            if table_has_key(t1, arena, k2) {
                let i2 = choose|i2: int|
                    0 <= i2 < t1.len() && (#[trigger] t1[i2]) is Some && bucket_key(t1, arena, i2)
                        == k2;
                assert(t0[i2] is Some && bucket_key(t0, arena, i2) == k2);
            }
        }
        assert(table_has_key(t0, arena, k)) by {
            assert(t0[i] is Some && bucket_key(t0, arena, i) == k);
        }
        lemma_table_val(t1, arena, i);
        assert forall|k2: Seq<u8>|
            #[trigger] table_has_key(t0, arena, k2) && k2 != k implies table_val(t1, arena, k2)
            == table_val(t0, arena, k2) by {
            let i2 = table_index_of(t0, arena, k2);
            assert(t0[i2] is Some && bucket_key(t0, arena, i2) == k2);
            assert(i2 != i);
            lemma_table_val(t0, arena, i2);
            assert(t1[i2] is Some && bucket_key(t1, arena, i2) == k2);
            lemma_table_val(t1, arena, i2);
        }
    }
}

/// The greatest power of two that is at most `n`.
pub open spec fn spec_is_pow2(x: int) -> bool
    decreases x,
    when x >= 1
{
    if x == 1 {
        true
    } else {
        x % 2 == 0 && spec_is_pow2(x / 2)
    }
}

/// Returns the greatest power of two less than or equal to `n`.
pub fn compute_previous_power_of_two(n: usize) -> (r: usize)
    requires
        n >= 1,
    ensures
        spec_is_pow2(r as int),
        r <= n,
        2 * r > n,
{
    let mut p: usize = 1;
    while p <= n / 2
        invariant
            1 <= p <= n,
            spec_is_pow2(p as int),
        decreases n - p,
    {
        p = p * 2;
    }
    p
}

} // verus!

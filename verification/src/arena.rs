//! A growable bump arena of bytes. Keys of the interning hash map live
//! here as `[len: u16 LE | bytes]` records addressed by their offset.

use vstd::prelude::*;
use vstd::bytes::{spec_u16_to_le_bytes, spec_u16_from_le_bytes, u16_to_le_bytes, u16_from_le_bytes};

verus! {

/// A handle into the arena: the byte offset of an allocation.
#[derive(Debug, Clone, Copy, PartialEq, Eq, Structural)]
pub struct Addr(pub usize);

/// A growable bump allocator over one flat byte buffer.
pub struct MemoryArena {
    /// The backing buffer; allocations only ever append to it.
    pub buf: Vec<u8>,
}

/// True if a `[len | bytes]` key record starting at `a` lies inside `arena`.
pub open spec fn key_at_wf(arena: Seq<u8>, a: int) -> bool {
    &&& 0 <= a
    &&& a + 2 <= arena.len()
    &&& a + 2 + spec_key_len_at(arena, a) <= arena.len()
}

/// The length prefix of the key record at `a`.
pub open spec fn spec_key_len_at(arena: Seq<u8>, a: int) -> u16 {
    spec_u16_from_le_bytes(arena.subrange(a, a + 2))
}

/// The bytes of the key record at `a`.
pub open spec fn spec_key_at(arena: Seq<u8>, a: int) -> Seq<u8> {
    arena.subrange(a + 2, a + 2 + spec_key_len_at(arena, a))
}

/// A key record is untouched by growing the arena.
pub proof fn lemma_key_at_extend(arena: Seq<u8>, ext: Seq<u8>, a: int)
    requires
        key_at_wf(arena, a),
    ensures
        key_at_wf(arena + ext, a),
        spec_key_at(arena + ext, a) == spec_key_at(arena, a),
{
    let whole = arena + ext;
    assert(whole.subrange(a, a + 2) =~= arena.subrange(a, a + 2));
    assert(whole.subrange(a + 2, a + 2 + spec_key_len_at(arena, a)) =~= arena.subrange(
        a + 2,
        a + 2 + spec_key_len_at(arena, a),
    ));
}

impl View for MemoryArena {
    type V = Seq<u8>;

    open spec fn view(&self) -> Seq<u8> {
        self.buf@
    }
}

impl Default for MemoryArena {
    /// An empty arena.
    fn default() -> (r: MemoryArena)
        ensures
            r@.len() == 0,
    {
        MemoryArena { buf: Vec::new() }
    }
}

impl MemoryArena {
    /// An empty arena.
    pub fn new() -> (r: MemoryArena)
        ensures
            r@.len() == 0,
    {
        MemoryArena { buf: Vec::new() }
    }

    /// Bytes held by the arena.
    pub fn len(&self) -> (r: usize)
        ensures
            r == self@.len(),
    {
        self.buf.len()
    }

    /// Append a `[len | bytes]` key record and return its address.
    pub fn append_key(&mut self, key: &[u8]) -> (a: Addr)
        requires
            key@.len() <= u16::MAX,
        ensures
            a.0 == old(self)@.len(),
            final(self)@ == old(self)@ + spec_u16_to_le_bytes(key@.len() as u16) + key@,
            key_at_wf(final(self)@, a.0 as int),
            spec_key_at(final(self)@, a.0 as int) == key@,
    {
        let a = Addr(self.buf.len());
        let len16: u16 = key.len() as u16;
        let mut prefix = u16_to_le_bytes(len16);
        proof {
            vstd::bytes::lemma_auto_spec_u16_to_from_le_bytes();
        }
        self.buf.append(&mut prefix);
        let mut i: usize = 0;
        let ghost mid = self.buf@;
        while i < key.len()
            invariant
                i <= key@.len(),
                self.buf@ =~= mid + key@.take(i as int),
            decreases key@.len() - i,
        {
            proof {
                assert(key@.take(i + 1) =~= key@.take(i as int).push(key@[i as int]));
            }
            self.buf.push(key[i]);
            i = i + 1;
        }
        proof {
            assert(key@.take(key@.len() as int) =~= key@);
            let whole = self.buf@;
            let p = a.0 as int;
            assert(whole =~= old(self)@ + spec_u16_to_le_bytes(key@.len() as u16) + key@);
            assert(whole.subrange(p, p + 2) =~= spec_u16_to_le_bytes(key@.len() as u16));
            assert(spec_key_len_at(whole, p) == key@.len());
            assert(whole.subrange(p + 2, p + 2 + key@.len()) =~= key@);
        }
        a
    }

    /// Read back the key record at `a`.
    pub fn read_key<'a>(&'a self, a: Addr) -> (r: &'a [u8])
        requires
            key_at_wf(self@, a.0 as int),
        ensures
            r@ == spec_key_at(self@, a.0 as int),
    {
        let buflen = self.buf.len();
        proof {
            assert(a.0 + 2 + spec_key_len_at(self@, a.0 as int) <= buflen);
        }
        let s = self.buf.as_slice();
        let prefix = vstd::slice::slice_subrange(s, a.0, a.0 + 2);
        let len = u16_from_le_bytes(prefix) as usize;
        vstd::slice::slice_subrange(s, a.0 + 2, a.0 + 2 + len)
    }
}

} // verus!

//! Leaky storage for interned payloads.
//!
//! Storage comes in blocks that are never freed, moved or reused. Each block
//! is bumped downwards from its end; a request too large for the block chain
//! gets a dedicated block of its own. A payload is a header (hash, then
//! length, each a little-endian word), the content bytes and a trailing zero.
//! A handle names the block and the offset of the first content byte, so the
//! header sits at a fixed negative offset from it.
use vstd::prelude::*;

use vstd::string::StringSliceAdditionalSpecFns;
use vstd::utf8::valid_utf8;

use crate::cache::Interner;
use crate::bytes_le::{read_word, word_at, write_word};
use crate::hasher::{hash, hash_of};

verus! {

/// Size of the first block of the chain.
pub const INITIAL_SIZE: usize = 1048576;

/// Alignment of every payload: that of its header.
pub const ALIGN: usize = 8;

/// Clears the low bits of an address to round it down to `ALIGN`.
pub const ALIGN_MASK: usize = !(ALIGN - 1);

/// Bytes of header in front of the content: hash and length.
pub const HEADER_SIZE: usize = 16;

/// A block is doubled only while the result stays below this size; larger
/// requests go to dedicated blocks.
pub const MAX_BLOCK: usize = usize::MAX / 4;

/// The block that holds the payload of the empty string.
pub const EMPTY_BLOCK: usize = 0;

/// One block of leaked storage, filled from `top` downwards.
pub struct LeakyAlloc {
    pub data: Vec<u8>,
    pub top: usize,
    /// The block that was active before this one, if it was chained.
    pub prev: Option<usize>,
}

/// All the blocks handed out so far, and which one serves small requests.
pub struct Arena {
    pub blocks: Vec<LeakyAlloc>,
    pub current: usize,
}

/// A handle to an interned byte string: the block and the offset of its first
/// content byte.
#[derive(Clone, Copy, Debug, PartialEq, Eq, Structural, PartialOrd, Ord, Hash)]
pub struct IBytes {
    pub block: usize,
    pub offset: usize,
}

/// Whether `d` holds, at `off`, the content `b` with `hash` in its header and
/// a zero after it.
pub open spec fn payload_at(d: Seq<u8>, off: int, hash: u64, b: Seq<u8>) -> bool {
    &&& HEADER_SIZE <= off
    &&& off + b.len() < d.len()
    &&& word_at(d, off - 16) == hash
    &&& word_at(d, off - 8) == b.len()
    &&& d.subrange(off, off + b.len()) == b
    &&& d[off + b.len()] == 0
}

/// `d2` keeps every byte of `d1` from `lo` on.
pub open spec fn same_from(d1: Seq<u8>, d2: Seq<u8>, lo: int) -> bool {
    &&& d1.len() == d2.len()
    &&& forall|j: int| lo <= j < d1.len() ==> d2[j] == d1[j]
}

pub proof fn lemma_payload_kept(d1: Seq<u8>, d2: Seq<u8>, lo: int, off: int, hash: u64, b: Seq<u8>)
    requires
        payload_at(d1, off, hash, b),
        same_from(d1, d2, lo),
        lo <= off - HEADER_SIZE,
    ensures
        payload_at(d2, off, hash, b),
{
    assert(d2.subrange(off, off + b.len()) =~= d1.subrange(off, off + b.len()));
    assert(d2[off - 16] == d1[off - 16] && d2[off - 15] == d1[off - 15] && d2[off - 14] == d1[off - 14]
        && d2[off - 13] == d1[off - 13] && d2[off - 12] == d1[off - 12] && d2[off - 11] == d1[off - 11]
        && d2[off - 10] == d1[off - 10] && d2[off - 9] == d1[off - 9]);
    assert(d2[off - 8] == d1[off - 8] && d2[off - 7] == d1[off - 7] && d2[off - 6] == d1[off - 6]
        && d2[off - 5] == d1[off - 5] && d2[off - 4] == d1[off - 4] && d2[off - 3] == d1[off - 3]
        && d2[off - 2] == d1[off - 2] && d2[off - 1] == d1[off - 1]);
}

/// Rounds `x` down to a multiple of `ALIGN` by masking.
fn align_down(x: usize) -> (r: usize)
    ensures
        r == x & ALIGN_MASK,
        r <= x,
        r % 8 == 0,
        x - r < 8,
{
    let r = x & ALIGN_MASK;
    assert(r <= x && r % 8 == 0 && x - r < 8) by (bit_vector)
        requires r == x & !7usize;
    r
}

impl LeakyAlloc {
    /// A fresh block of `size` bytes, with its cursor at the end.
    pub fn new(size: usize, prev: Option<usize>) -> (r: LeakyAlloc)
        ensures
            r.data@.len() == size,
            r.top == size,
            r.prev == prev,
    {
        LeakyAlloc { data: vec![0u8; size], top: size, prev }
    }

    /// Writes a payload for `s` at `pos`; no byte outside the payload changes.
    fn write_payload(&mut self, pos: usize, hash: u64, s: &[u8])
        requires
            pos + HEADER_SIZE + s@.len() + 1 <= old(self).data@.len(),
        ensures
            final(self).top == old(self).top,
            final(self).prev == old(self).prev,
            final(self).data@.len() == old(self).data@.len(),
            payload_at(final(self).data@, pos + HEADER_SIZE, hash, s@),
            forall|j: int|
                0 <= j < old(self).data@.len() && !(pos <= j < pos + HEADER_SIZE + s@.len() + 1)
                    ==> final(self).data@[j] == old(self).data@[j],
    {
        let ghost d0 = self.data@;
        let n: usize = self.data.len();
        assert(pos + HEADER_SIZE + s@.len() + 1 <= n);
        write_word(&mut self.data, pos, hash);
        write_word(&mut self.data, pos + 8, s.len() as u64);
        let start = pos + HEADER_SIZE;
        let mut i: usize = 0;
        while i < s.len()
            invariant
                i <= s@.len(),
                start == pos + HEADER_SIZE,
                start + s@.len() + 1 <= self.data@.len(),
                self.data@.len() <= usize::MAX,
                self.top == old(self).top,
                self.prev == old(self).prev,
                self.data@.len() == d0.len(),
                word_at(self.data@, pos as int) == hash,
                word_at(self.data@, pos + 8) == s@.len(),
                forall|k: int| 0 <= k < i ==> self.data@[start + k] == s@[k],
                forall|j: int|
                    0 <= j < d0.len() && !(pos <= j < pos + HEADER_SIZE + s@.len() + 1)
                        ==> self.data@[j] == d0[j],
            decreases s@.len() - i,
        {
            let ghost before = self.data@;
            self.data.set(start + i, s[i]);
            assert(word_at(self.data@, pos as int) == word_at(before, pos as int));
            assert(word_at(self.data@, pos + 8) == word_at(before, pos + 8));
            i = i + 1;
        }
        let ghost before = self.data@;
        self.data.set(start + s.len(), 0);
        assert(word_at(self.data@, pos as int) == word_at(before, pos as int));
        assert(word_at(self.data@, pos + 8) == word_at(before, pos + 8));
        assert(self.data@.subrange(start as int, start + s@.len()) =~= s@);
    }
}

impl IBytes {
    /// The handle of the empty string, whose payload the arena sets up first.
    pub fn empty() -> (r: IBytes)
        ensures
            r == IBytes::empty_spec(),
    {
        IBytes { block: EMPTY_BLOCK, offset: HEADER_SIZE }
    }

    pub open spec fn empty_spec() -> IBytes {
        IBytes { block: EMPTY_BLOCK, offset: HEADER_SIZE }
    }
}

impl Arena {
    pub open spec fn data(self, b: int) -> Seq<u8> {
        self.blocks@[b].data@
    }

    pub open spec fn top(self, b: int) -> int {
        self.blocks@[b].top as int
    }

    /// The length that the header of `h` records.
    pub open spec fn stored_len(self, h: IBytes) -> int {
        word_at(self.data(h.block as int), h.offset - 8) as int
    }

    /// The hash that the header of `h` records.
    pub open spec fn stored_hash(self, h: IBytes) -> u64 {
        word_at(self.data(h.block as int), h.offset - 16)
    }

    /// The content bytes of `h`.
    pub open spec fn bytes(self, h: IBytes) -> Seq<u8> {
        self.data(h.block as int).subrange(h.offset as int, h.offset + self.stored_len(h))
    }

    /// The header and content of `h` lie inside its block.
    pub open spec fn readable(self, h: IBytes) -> bool {
        &&& h.block < self.blocks@.len()
        &&& HEADER_SIZE <= h.offset
        &&& h.offset + self.stored_len(h) < self.data(h.block as int).len()
    }

    /// `h` names a whole payload, terminated by a zero, above its block's cursor.
    pub open spec fn valid(self, h: IBytes) -> bool {
        &&& self.readable(h)
        &&& self.top(h.block as int) + HEADER_SIZE <= h.offset
        &&& self.data(h.block as int)[h.offset + self.stored_len(h)] == 0
    }

    /// `h` names a payload whose content is `s`.
    pub open spec fn holds(self, h: IBytes, s: Seq<u8>) -> bool {
        self.readable(h) && self.bytes(h) == s
    }

    /// Every block of `old` is still here, and no byte at or above its old
    /// cursor has changed.
    pub open spec fn grows_from(self, old: Arena) -> bool {
        &&& old.blocks@.len() <= self.blocks@.len()
        &&& forall|b: int|
            0 <= b < old.blocks@.len() ==> {
                &&& same_from(old.data(b), self.data(b), old.top(b))
                &&& self.top(b) <= old.top(b)
            }
    }

    pub open spec fn wf(self) -> bool {
        &&& 1 <= self.current < self.blocks@.len()
        &&& 0 < self.data(self.current as int).len()
        &&& forall|b: int| 0 <= b < self.blocks@.len() ==> self.top(b) <= self.data(b).len()
        &&& self.valid(IBytes::empty_spec())
        &&& self.bytes(IBytes::empty_spec()) == Seq::<u8>::empty()
        &&& self.stored_hash(IBytes::empty_spec()) == hash_of(Seq::<u8>::empty())
    }

    pub proof fn lemma_grows_keeps(self, old: Arena, h: IBytes)
        requires
            self.grows_from(old),
            old.valid(h),
        ensures
            self.valid(h),
            self.bytes(h) == old.bytes(h),
            self.stored_hash(h) == old.stored_hash(h),
    {
        let b = h.block as int;
        let d1 = old.data(b);
        let d2 = self.data(b);
        lemma_payload_kept(d1, d2, old.top(b), h.offset as int, old.stored_hash(h), old.bytes(h));
    }

    pub proof fn lemma_grows_keeps_all(self, old: Arena)
        requires
            self.grows_from(old),
        ensures
            forall|h: IBytes|
                #[trigger] old.valid(h) ==> self.valid(h) && self.bytes(h) == old.bytes(h)
                    && self.stored_hash(h) == old.stored_hash(h),
    {
        assert forall|h: IBytes| #[trigger] old.valid(h) implies self.valid(h) && self.bytes(h) == old.bytes(h)
            && self.stored_hash(h) == old.stored_hash(h) by {
            self.lemma_grows_keeps(old, h);
        }
    }

    pub proof fn lemma_grows_trans(self, mid: Arena, old: Arena)
        requires
            self.grows_from(mid),
            mid.grows_from(old),
        ensures
            self.grows_from(old),
    {
        assert forall|b: int| 0 <= b < old.blocks@.len() implies {
            &&& same_from(old.data(b), self.data(b), old.top(b))
            &&& self.top(b) <= old.top(b)
        } by {
            assert(same_from(mid.data(b), self.data(b), mid.top(b)));
            assert(same_from(old.data(b), mid.data(b), old.top(b)));
        }
    }

    /// A new arena: the payload of the empty string, and a first block of
    /// `INITIAL_SIZE` bytes.
    pub fn new() -> (r: Arena)
        ensures
            r.wf(),
            r.current == 1,
            r.blocks@.len() == 2,
            r.data(1).len() == INITIAL_SIZE,
            r.top(1) == INITIAL_SIZE,
            r.blocks@[1].prev is None,
    {
        let none: Vec<u8> = Vec::new();
        let empty_hash = hash(none.as_slice());
        let mut first = LeakyAlloc::new(HEADER_SIZE + 1, None);
        first.write_payload(0, empty_hash, none.as_slice());
        first.top = 0;
        let mut blocks: Vec<LeakyAlloc> = Vec::new();
        blocks.push(first);
        blocks.push(LeakyAlloc::new(INITIAL_SIZE, None));
        let r = Arena { blocks, current: 1 };
        proof {
            assert(none@ =~= Seq::<u8>::empty());
            assert(r.data(0).subrange(16, 16) =~= Seq::<u8>::empty());
        }
        r
    }

    /// Chains a new block twice the size of the active one and makes it active.
    fn grow(&mut self)
        requires
            old(self).wf(),
            old(self).data(old(self).current as int).len() <= MAX_BLOCK,
        ensures
            final(self).wf(),
            final(self).grows_from(*old(self)),
            forall|b: int| 0 <= b < old(self).blocks@.len() ==> final(self).blocks@[b] == old(self).blocks@[b],
            final(self).blocks@.len() == old(self).blocks@.len() + 1,
            final(self).current == old(self).blocks@.len(),
            final(self).data(final(self).current as int).len() == 2 * old(self).data(old(self).current as int).len(),
            final(self).top(final(self).current as int) == final(self).data(final(self).current as int).len(),
            final(self).blocks@[final(self).current as int].prev == Some(old(self).current),
    {
        let cap = self.blocks[self.current].data.len();
        let block = LeakyAlloc::new(cap * 2, Some(self.current));
        self.blocks.push(block);
        self.current = self.blocks.len() - 1;
        proof {
            assert(self.blocks@[0] == old(self).blocks@[0]);
            assert(self.grows_from(*old(self)));
        }
    }

    /// A dedicated block of exactly `size` bytes, outside the chain, wholly
    /// handed out.
    fn large_alloc(&mut self, size: usize) -> (r: (usize, usize))
        requires
            old(self).wf(),
        ensures
            final(self).wf(),
            final(self).grows_from(*old(self)),
            forall|b: int| 0 <= b < old(self).blocks@.len() ==> final(self).blocks@[b] == old(self).blocks@[b],
            final(self).current == old(self).current,
            r.0 == old(self).blocks@.len(),
            final(self).blocks@.len() == old(self).blocks@.len() + 1,
            r.1 == 0,
            final(self).top(r.0 as int) == 0,
            final(self).data(r.0 as int).len() == size,
            final(self).blocks@[r.0 as int].prev is None,
    {
        let mut block = LeakyAlloc::new(size, None);
        block.top = 0;
        self.blocks.push(block);
        proof {
            assert(self.blocks@[0] == old(self).blocks@[0]);
            assert(self.blocks@[self.current as int] == old(self).blocks@[self.current as int]);
            assert forall|b: int| 0 <= b < self.blocks@.len() implies self.top(b) <= self.data(b).len() by {
                if b < old(self).blocks@.len() {
                    assert(self.blocks@[b] == old(self).blocks@[b]);
                    assert(old(self).top(b) <= old(self).data(b).len());
                } else {
                    assert(self.blocks@[b].top == 0);
                }
            }
        }
        (self.blocks.len() - 1, 0)
    }

    /// Reserves `size` bytes and returns their block and start, aligned to
    /// `ALIGN`. The active block serves the request if it has room; else a
    /// block twice its size is chained when that is at least half the
    /// request; else the request gets a dedicated block.
    pub fn reserve(&mut self, size: usize) -> (r: (usize, usize))
        requires
            old(self).wf(),
        ensures
            final(self).wf(),
            final(self).grows_from(*old(self)),
            forall|b: int| 0 <= b < old(self).blocks@.len() ==> final(self).data(b) == old(self).data(b),
            r.0 < final(self).blocks@.len(),
            r.1 == final(self).top(r.0 as int),
            r.1 % 8 == 0,
            r.1 + size <= final(self).data(r.0 as int).len(),
            r.0 < old(self).blocks@.len() ==> r.1 + size <= old(self).top(r.0 as int),
            // the active block has room
            old(self).top(old(self).current as int) >= size ==> {
                &&& r.0 == old(self).current
                &&& r.1 == ((old(self).top(old(self).current as int) - size) as usize) & ALIGN_MASK
                &&& final(self).current == old(self).current
                &&& final(self).blocks@.len() == old(self).blocks@.len()
            },
            // a block twice the active one's size is chained and serves it
            old(self).top(old(self).current as int) < size && old(self).data(old(self).current as int).len()
                <= MAX_BLOCK && size - size / 2 <= old(self).data(old(self).current as int).len() ==> {
                &&& r.0 == old(self).blocks@.len()
                &&& final(self).current == r.0
                &&& final(self).blocks@.len() == old(self).blocks@.len() + 1
                &&& final(self).data(r.0 as int).len() == 2 * old(self).data(old(self).current as int).len()
                &&& final(self).blocks@[r.0 as int].prev == Some(old(self).current)
                &&& r.1 == ((final(self).data(r.0 as int).len() - size) as usize) & ALIGN_MASK
            },
            // otherwise a dedicated block of exactly `size` bytes, outside the chain
            old(self).top(old(self).current as int) < size && !(old(self).data(old(self).current as int).len()
                <= MAX_BLOCK && size - size / 2 <= old(self).data(old(self).current as int).len()) ==> {
                &&& r.0 == old(self).blocks@.len()
                &&& final(self).current == old(self).current
                &&& final(self).blocks@.len() == old(self).blocks@.len() + 1
                &&& final(self).data(r.0 as int).len() == size
                &&& final(self).blocks@[r.0 as int].prev is None
                &&& r.1 == 0
            },
    {
        let cur = self.current;
        let top = self.blocks[cur].top;
        let cap = self.blocks[cur].data.len();
        let b = if top >= size {
            cur
        } else if cap <= MAX_BLOCK && size - size / 2 <= cap {
            self.grow();
            self.current
        } else {
            return self.large_alloc(size);
        };
        let pos = align_down(self.blocks[b].top - size);
        let ghost mid = *self;
        self.blocks[b].top = pos;
        proof {
            assert(self.blocks@[b as int].data@ == mid.blocks@[b as int].data@);
            assert forall|k: int| 0 <= k < self.blocks@.len() && k != b implies self.blocks@[k] == mid.blocks@[k] by {}
            assert(self.data(0) == mid.data(0));
            assert(self.grows_from(mid));
            assert(mid.grows_from(*old(self)));
            self.lemma_grows_trans(mid, *old(self));
        }
        (b, pos)
    }
}

/// Stores `s` with `hash` in its header and returns its handle; the empty
/// string gets the shared payload set up by `Arena::new`.
pub fn with_hash_bytes(arena: &mut Arena, s: &[u8], hash: u64) -> (r: IBytes)
    requires
        old(arena).wf(),
        s@.len() <= isize::MAX,
    ensures
        final(arena).wf(),
        final(arena).grows_from(*old(arena)),
        final(arena).valid(r),
        final(arena).bytes(r) == s@,
        final(arena).stored_hash(r) == if s@.len() == 0 {
            hash_of(Seq::<u8>::empty())
        } else {
            hash
        },
        s@.len() == 0 ==> r == IBytes::empty_spec(),
        s@.len() > 0 ==> forall|h: IBytes| #[trigger] old(arena).valid(h) ==> h != r,
{
    if s.len() == 0 {
        return IBytes::empty();
    }
    let size = HEADER_SIZE + 1 + s.len();
    let ghost a0 = *arena;
    let (b, pos) = arena.reserve(size);
    let ghost a1 = *arena;
    arena.blocks[b].write_payload(pos, hash, s);
    let n: usize = arena.blocks[b].data.len();
    assert(pos + size <= n);
    let r = IBytes { block: b, offset: pos + HEADER_SIZE };
    proof {
        let a2 = *arena;
        assert forall|k: int| 0 <= k < a2.blocks@.len() && k != b implies a2.blocks@[k] == a1.blocks@[k] by {}
        assert(a2.top(b as int) == a1.top(b as int));
        // the payload went below every cursor that the old arena had
        assert(a2.grows_from(a0)) by {
            assert forall|k: int| 0 <= k < a0.blocks@.len() implies {
                &&& same_from(a0.data(k), a2.data(k), a0.top(k))
                &&& a2.top(k) <= a0.top(k)
            } by {
                if k == b {
                    assert(a1.data(k) == a0.data(k));
                }
            }
        }
        // the empty string's block is never handed out
        assert(b != EMPTY_BLOCK);
        assert(a2.blocks@[0] == a1.blocks@[0]);
        assert(a2.blocks@[a2.current as int] == a1.blocks@[a2.current as int] || b == a2.current);
        assert forall|k: int| 0 <= k < a2.blocks@.len() implies a2.top(k) <= a2.data(k).len() by {
            assert(a1.top(k) <= a1.data(k).len());
        }
        assert(payload_at(a2.data(b as int), r.offset as int, hash, s@));
        assert(a2.stored_len(r) == s@.len());
        assert forall|h: IBytes| #[trigger] a0.valid(h) implies h != r by {
            if h.block == b && b < a0.blocks@.len() {
                assert(pos + size <= a0.top(b as int));
            }
        }
    }
    r
}

impl Arena {
    /// Whether `h` names a payload whose content is `s`; false for a handle
    /// that does not fit in its block.
    pub fn matches(&self, h: IBytes, s: &[u8]) -> (r: bool)
        ensures
            r == self.holds(h, s@),
    {
        if h.block >= self.blocks.len() {
            return false;
        }
        let d = self.blocks[h.block].data.as_slice();
        if h.offset < HEADER_SIZE || h.offset > d.len() {
            return false;
        }
        let len = read_word(d, h.offset - 8);
        if len != s.len() as u64 || d.len() - h.offset <= s.len() {
            return false;
        }
        let mut i: usize = 0;
        while i < s.len()
            invariant
                i <= s@.len(),
                h.offset + s@.len() < d@.len(),
                d@ == self.data(h.block as int),
                d@.len() <= usize::MAX,
                h.block < self.blocks@.len(),
                HEADER_SIZE <= h.offset,
                self.stored_len(h) == s@.len(),
                forall|k: int| 0 <= k < i ==> d@[h.offset + k] == s@[k],
            decreases s@.len() - i,
        {
            if d[h.offset + i] != s[i] {
                proof {
                    assert(self.bytes(h)[i as int] != s@[i as int]);
                }
                return false;
            }
            i = i + 1;
        }
        proof {
            assert(self.bytes(h) =~= s@);
        }
        true
    }

    /// The content bytes of `h`.
    pub fn content(&self, h: IBytes) -> (r: &[u8])
        requires
            self.readable(h),
        ensures
            r@ == self.bytes(h),
    {
        let d = self.blocks[h.block].data.as_slice();
        let n: usize = d.len();
        let w = read_word(d, h.offset - 8);
        assert(h.offset + w < n);
        let len = w as usize;
        vstd::slice::slice_subrange(d, h.offset, h.offset + len)
    }

    /// The content bytes of `h` followed by its terminating zero.
    pub fn content_with_nul(&self, h: IBytes) -> (r: &[u8])
        requires
            self.valid(h),
        ensures
            r@ == self.bytes(h).push(0),
    {
        let d = self.blocks[h.block].data.as_slice();
        let n: usize = d.len();
        let w = read_word(d, h.offset - 8);
        assert(h.offset + w < n);
        let len = w as usize;
        let r = vstd::slice::slice_subrange(d, h.offset, h.offset + len + 1);
        proof {
            assert(r@ =~= self.bytes(h).push(0));
        }
        r
    }

    /// The length that the header of `h` records.
    pub fn header_len(&self, h: IBytes) -> (r: usize)
        requires
            self.readable(h),
        ensures
            r == self.stored_len(h),
    {
        let d = self.blocks[h.block].data.as_slice();
        let n: usize = d.len();
        let w = read_word(d, h.offset - 8);
        assert(h.offset + w < n);
        w as usize
    }

    /// The hash that the header of `h` records.
    pub fn header_hash(&self, h: IBytes) -> (r: u64)
        requires
            self.readable(h),
        ensures
            r == self.stored_hash(h),
    {
        let d = self.blocks[h.block].data.as_slice();
        read_word(d, h.offset - 16)
    }
}

/// The error of `core::str::from_utf8`, carried through unread.
#[verifier::external_type_specification]
#[verifier::external_body]
pub struct ExUtf8Error(core::str::Utf8Error);

/// Relies on `core::str::from_utf8`: it succeeds exactly on valid UTF-8.
#[verifier::external_body]
fn utf8_check(b: &[u8]) -> (r: Result<(), core::str::Utf8Error>)
    ensures
        r is Ok <==> valid_utf8(b@),
{
    core::str::from_utf8(b).map(|_| ())
}

/// Relies on `core::str::from_utf8`: on valid UTF-8 it hands back the same
/// bytes as a string slice.
#[verifier::external_body]
fn utf8_view(b: &[u8]) -> (r: &str)
    requires
        valid_utf8(b@),
    ensures
        r.spec_bytes() == b@,
{
    match core::str::from_utf8(b) {
        Ok(t) => t,
        Err(_) => "",
    }
}

/// A handle whose content is valid UTF-8.
#[derive(Clone, Copy, Debug, PartialEq, Eq, Structural, PartialOrd, Ord, Hash)]
pub struct IStr {
    pub ibytes: IBytes,
}

impl Default for IBytes {
    /// The handle of the empty string.
    fn default() -> (r: IBytes)
        ensures
            r == IBytes::empty_spec(),
    {
        IBytes::empty()
    }
}

impl Default for IStr {
    /// The handle of the empty string.
    fn default() -> (r: IStr)
        ensures
            r.ibytes == IBytes::empty_spec(),
    {
        IStr::empty()
    }
}

impl From<IStr> for IBytes {
    fn from(value: IStr) -> (r: IBytes) {
        value.ibytes
    }
}

impl vstd::std_specs::convert::FromSpecImpl<IStr> for IBytes {
    open spec fn obeys_from_spec() -> bool {
        true
    }

    open spec fn from_spec(v: IStr) -> IBytes {
        v.ibytes
    }
}

/// The byte handle under an optional string handle.
pub open spec fn istr_handle(r: Option<IStr>) -> Option<IBytes> {
    match r {
        Some(t) => Some(t.ibytes),
        None => None,
    }
}

impl IStr {
    /// The handle of the empty string.
    pub fn empty() -> (r: IStr)
        ensures
            r.ibytes == IBytes::empty_spec(),
    {
        IStr { ibytes: IBytes::empty() }
    }

    /// Views `bytes` as a string handle if its content is valid UTF-8.
    pub fn from_utf8(bytes: IBytes, st: &Interner) -> (r: Result<IStr, core::str::Utf8Error>)
        requires
            st.wf(),
            st.live(bytes),
        ensures
            r is Ok <==> valid_utf8(st.bytes_of(bytes)),
            r matches Ok(t) ==> t.ibytes == bytes,
    {
        match utf8_check(bytes.to_bytes(st)) {
            Ok(()) => Ok(IStr { ibytes: bytes }),
            Err(e) => Err(e),
        }
    }

    /// Views `bytes`, whose content the caller knows to be UTF-8, as a string
    /// handle.
    pub fn from_utf8_unchecked(bytes: IBytes, st: &Interner) -> (r: IStr)
        requires
            st.wf(),
            st.live(bytes),
            valid_utf8(st.bytes_of(bytes)),
        ensures
            r.ibytes == bytes,
    {
        IStr { ibytes: bytes }
    }

    /// The content as a string slice.
    pub fn to_str(self, st: &Interner) -> (r: &str)
        requires
            st.wf(),
            st.live(self.ibytes),
            valid_utf8(st.bytes_of(self.ibytes)),
        ensures
            r.spec_bytes() == st.bytes_of(self.ibytes),
    {
        utf8_view(self.ibytes.to_bytes(st))
    }

    /// The content bytes.
    pub fn to_bytes(self, st: &Interner) -> (r: &[u8])
        requires
            st.wf(),
            st.live(self.ibytes),
        ensures
            r@ == st.bytes_of(self.ibytes),
    {
        self.ibytes.to_bytes(st)
    }

    /// The underlying byte handle.
    pub fn to_ibytes(self) -> (r: IBytes)
        ensures
            r == self.ibytes,
    {
        self.ibytes
    }

    /// The number of content bytes.
    pub fn len(self, st: &Interner) -> (r: usize)
        requires
            st.wf(),
            st.live(self.ibytes),
        ensures
            r == st.bytes_of(self.ibytes).len(),
    {
        self.ibytes.len(st)
    }

    /// Whether there are no content bytes.
    pub fn is_empty(self, st: &Interner) -> (r: bool)
        requires
            st.wf(),
            st.live(self.ibytes),
        ensures
            r == (st.bytes_of(self.ibytes).len() == 0),
    {
        self.len(st) == 0
    }

    /// The hash recorded when the content was interned.
    pub fn saved_hash(self, st: &Interner) -> (r: u64)
        requires
            st.wf(),
            st.live(self.ibytes),
        ensures
            r == st.hash_in(self.ibytes),
    {
        self.ibytes.saved_hash(st)
    }

    /// The content bytes and the zero that ends them.
    pub fn as_cstr(self, st: &Interner) -> (r: &[u8])
        requires
            st.wf(),
            st.live(self.ibytes),
        ensures
            r@ == st.bytes_of(self.ibytes).push(0),
    {
        self.ibytes.as_cstr(st)
    }
}

} // verus!

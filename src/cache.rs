//! The interner: sharded tables of every interned string, a front cache of
//! the strings this owner has seen, and the arena that holds their payloads.
use vstd::multiset::Multiset;
use vstd::layout::size_of;
use vstd::prelude::*;

use crate::hasher::{hash, hash_of};
use crate::leaky_alloc::{with_hash_bytes, Arena, IBytes};
use crate::table::{
    entry_handle, table_clear, table_entries, table_get, table_insert, table_items, table_len, table_new, Entry,
    Table, MAX_TABLE_LEN,
};

verus! {

/// Number of shards of the global index.
pub const SHARD_COUNT: usize = 64;

/// The shard is picked by the hash bits from four times the word size in
/// bytes (at most 8) up, away from the low bits that the tables probe with.
pub open spec fn shard_shift() -> u64 {
    if size_of::<usize>() < 8 {
        (4 * size_of::<usize>()) as u64
    } else {
        32
    }
}

/// The shard that holds strings of hash `h`.
pub open spec fn shard_of(h: u64) -> int {
    ((h >> shard_shift()) % (SHARD_COUNT as u64)) as int
}

/// The sum of the lengths of `ts`.
pub open spec fn total_of(ts: Seq<Table>) -> int
    decreases ts.len(),
{
    if ts.len() == 0 {
        0
    } else {
        total_of(ts.drop_last()) + table_items(ts.last()).len()
    }
}

proof fn lemma_total_update(ts: Seq<Table>, i: int, t: Table)
    requires
        0 <= i < ts.len(),
    ensures
        total_of(ts.update(i, t)) == total_of(ts) - table_items(ts[i]).len() + table_items(t).len(),
    decreases ts.len(),
{
    let us = ts.update(i, t);
    if i == ts.len() - 1 {
        assert(us.drop_last() =~= ts.drop_last());
    } else {
        assert(us.drop_last() =~= ts.drop_last().update(i, t));
        lemma_total_update(ts.drop_last(), i, t);
    }
}

proof fn lemma_total_ge(ts: Seq<Table>, i: int)
    requires
        0 <= i < ts.len(),
    ensures
        table_items(ts[i]).len() <= total_of(ts),
    decreases ts.len(),
{
    lemma_total_nonneg(ts.drop_last());
    if i < ts.len() - 1 {
        lemma_total_ge(ts.drop_last(), i);
        assert(ts.drop_last()[i] == ts[i]);
    }
}

proof fn lemma_total_nonneg(ts: Seq<Table>)
    ensures
        0 <= total_of(ts),
    decreases ts.len(),
{
    if ts.len() > 0 {
        lemma_total_nonneg(ts.drop_last());
    }
}

/// The interner's whole state.
pub struct Interner {
    tables: Vec<Table>,
    local: Table,
    arena: Arena,
    index: Ghost<Map<Seq<u8>, IBytes>>,
    local_index: Ghost<Map<Seq<u8>, IBytes>>,
}

impl Interner {
    /// Each string interned since the last reset of the shards, with its handle.
    pub closed spec fn interned(self) -> Map<Seq<u8>, IBytes> {
        self.index@
    }

    /// Each string in the front cache, with its handle.
    pub closed spec fn cached(self) -> Map<Seq<u8>, IBytes> {
        self.local_index@
    }

    /// The content bytes behind `h`.
    pub closed spec fn bytes_of(self, h: IBytes) -> Seq<u8> {
        self.arena.bytes(h)
    }

    /// The hash recorded in the payload of `h`.
    pub closed spec fn hash_in(self, h: IBytes) -> u64 {
        self.arena.stored_hash(h)
    }

    /// `h` names a whole payload.
    pub closed spec fn live(self, h: IBytes) -> bool {
        self.arena.valid(h)
    }

    /// Every payload of `old` is still here with the same bytes and hash.
    pub closed spec fn keeps(self, old: Interner) -> bool {
        self.arena.grows_from(old.arena)
    }

    /// The number of entries over all shards.
    pub closed spec fn shard_total(self) -> int {
        total_of(self.tables@)
    }

    /// The number of entries in the front cache.
    pub closed spec fn cache_len(self) -> int {
        table_items(self.local).len() as int
    }

    /// Every table can take one more entry: the entries over all shards, and
    /// those of the front cache, stay below the bound of a table.
    pub open spec fn has_room(self) -> bool {
        &&& self.shard_total() < MAX_TABLE_LEN
        &&& self.cache_len() < MAX_TABLE_LEN
    }

    closed spec fn entry_ok(self, e: Entry) -> bool {
        &&& self.arena.valid(entry_handle(e))
        &&& e.0 == hash_of(self.arena.bytes(entry_handle(e)))
        &&& self.arena.stored_hash(entry_handle(e)) == e.0
    }

    closed spec fn handle_ok(self, s: Seq<u8>, h: IBytes) -> bool {
        &&& self.arena.valid(h)
        &&& self.arena.bytes(h) == s
        &&& self.arena.stored_hash(h) == hash_of(s)
        &&& s.len() == 0 ==> h == IBytes::empty_spec()
    }

    pub closed spec fn wf(self) -> bool {
        &&& self.arena.wf()
        &&& self.tables@.len() == SHARD_COUNT
        &&& self.index@.dom().finite()
        &&& self.local_index@.dom().finite()
        &&& total_of(self.tables@) == self.index@.len()
        &&& table_items(self.local).len() == self.local_index@.len()
        &&& forall|i: int, e: Entry|
            0 <= i < SHARD_COUNT ==> #[trigger] table_items(self.tables@[i]).count(e) <= 1
        &&& forall|e: Entry| #[trigger] table_items(self.local).count(e) <= 1
        &&& forall|s: Seq<u8>|
            #[trigger] self.local_index@.contains_key(s) ==> self.index@.contains_key(s)
                && self.index@[s] == self.local_index@[s]
        &&& forall|i: int, e: Entry|
            0 <= i < SHARD_COUNT && #[trigger] table_items(self.tables@[i]).count(e) > 0 ==> {
                &&& self.entry_ok(e)
                &&& shard_of(e.0) == i
                &&& self.index@.contains_key(self.arena.bytes(entry_handle(e)))
                &&& self.index@[self.arena.bytes(entry_handle(e))] == entry_handle(e)
            }
        &&& forall|s: Seq<u8>|
            #[trigger] self.index@.contains_key(s) ==> {
                &&& self.handle_ok(s, self.index@[s])
                &&& table_items(self.tables@[shard_of(hash_of(s))]).count(
                    (hash_of(s), self.index@[s].block, self.index@[s].offset),
                ) > 0
            }
        &&& forall|e: Entry|
            #[trigger] table_items(self.local).count(e) > 0 ==> {
                &&& self.entry_ok(e)
                &&& self.local_index@.contains_key(self.arena.bytes(entry_handle(e)))
                &&& self.local_index@[self.arena.bytes(entry_handle(e))] == entry_handle(e)
            }
        &&& forall|s: Seq<u8>|
            #[trigger] self.local_index@.contains_key(s) ==> {
                &&& self.handle_ok(s, self.local_index@[s])
                &&& table_items(self.local).count(
                    (hash_of(s), self.local_index@[s].block, self.local_index@[s].offset),
                ) > 0
            }
    }

    /// An interner with nothing interned and an empty front cache.
    pub fn new() -> (r: Interner)
        ensures
            r.wf(),
            r.interned() == Map::<Seq<u8>, IBytes>::empty(),
            r.cached() == Map::<Seq<u8>, IBytes>::empty(),
            r.shard_total() == 0,
            r.cache_len() == 0,
            r.has_room(),
    {
        let mut tables: Vec<Table> = Vec::new();
        let mut i: usize = 0;
        while i < SHARD_COUNT
            invariant
                i <= SHARD_COUNT,
                tables@.len() == i,
                forall|k: int| 0 <= k < i ==> table_items(#[trigger] tables@[k]) =~= Multiset::<Entry>::empty(),
            decreases SHARD_COUNT - i,
        {
            tables.push(table_new());
            i = i + 1;
        }
        let r = Interner {
            tables,
            local: table_new(),
            arena: Arena::new(),
            index: Ghost(Map::empty()),
            local_index: Ghost(Map::empty()),
        };
        proof {
            lemma_total_empty(r.tables@);
        }
        r
    }
}

proof fn lemma_total_empty(ts: Seq<Table>)
    requires
        forall|k: int| 0 <= k < ts.len() ==> table_items(#[trigger] ts[k]) =~= Multiset::<Entry>::empty(),
    ensures
        total_of(ts) == 0,
    decreases ts.len(),
{
    if ts.len() > 0 {
        assert(table_items(ts[ts.len() - 1]) =~= Multiset::<Entry>::empty());
        lemma_total_empty(ts.drop_last());
    }
}

/// The shard for hash `hash`.
fn table_for(hash: u64) -> (r: usize)
    ensures
        r == shard_of(hash),
        r < SHARD_COUNT,
{
    let word = core::mem::size_of::<usize>();
    let shift: u64 = if word < 8 {
        4 * word as u64
    } else {
        32
    };
    ((hash >> shift) % (SHARD_COUNT as u64)) as usize
}

/// What interning `s` through the shards does to the index: the handle that
/// the index has for `s`, or a new payload that the index then maps `s` to.
pub open spec fn shard_effect(pre: Interner, s: Seq<u8>, post: Interner, r: IBytes) -> bool {
    &&& pre.interned().contains_key(s) ==> {
        &&& r == pre.interned()[s]
        &&& post.interned() == pre.interned()
        &&& post.shard_total() == pre.shard_total()
    }
    &&& !pre.interned().contains_key(s) ==> {
        &&& post.interned() == pre.interned().insert(s, r)
        &&& post.shard_total() == pre.shard_total() + 1
        &&& s.len() > 0 ==> forall|h: IBytes| #[trigger] pre.live(h) ==> h != r
        &&& s.len() == 0 ==> r == IBytes::empty_spec()
    }
}

/// `r` is a handle of `post` for the bytes `s`, and `post` keeps every payload
/// of `pre`.
pub open spec fn handle_for(pre: Interner, s: Seq<u8>, post: Interner, r: IBytes) -> bool {
    &&& post.wf()
    &&& post.keeps(pre)
    &&& post.live(r)
    &&& post.bytes_of(r) == s
    &&& post.hash_in(r) == hash_of(s)
    &&& s.len() == 0 ==> r == IBytes::empty_spec()
}

/// Interning `s` with the shards alone, leaving the front cache as it was.
pub open spec fn skip_local_interned(pre: Interner, s: Seq<u8>, post: Interner, r: IBytes) -> bool {
    &&& handle_for(pre, s, post, r)
    &&& shard_effect(pre, s, post, r)
    &&& post.cached() == pre.cached()
    &&& post.cache_len() == pre.cache_len()
}

/// Interning `s` through the front cache: a cached handle is returned and
/// nothing changes; otherwise the shards answer and the cache learns `s`.
pub open spec fn local_interned(pre: Interner, s: Seq<u8>, post: Interner, r: IBytes) -> bool {
    &&& handle_for(pre, s, post, r)
    &&& pre.cached().contains_key(s) ==> r == pre.cached()[s] && post == pre
    &&& !pre.cached().contains_key(s) ==> {
        &&& shard_effect(pre, s, post, r)
        &&& post.cached() == pre.cached().insert(s, r)
        &&& post.cache_len() == pre.cache_len() + 1
    }
}

#[verifier::rlimit(40)]
fn create(st: &mut Interner, i: usize, s: &[u8], hash: u64) -> (r: IBytes)
    requires
        old(st).wf(),
        old(st).has_room(),
        i == shard_of(hash),
        hash == hash_of(s@),
        !old(st).interned().contains_key(s@),
        s@.len() <= isize::MAX,
    ensures
        skip_local_interned(*old(st), s@, *final(st), r),
{
    let ghost pre = *st;
    proof {
        lemma_total_ge(st.tables@, i as int);
    }
    let r = with_hash_bytes(&mut st.arena, s, hash);
    proof {
        st.arena.lemma_grows_keeps_all(pre.arena);
    }
    let e: Entry = (hash, r.block, r.offset);
    table_insert(&mut st.tables[i], e);
    proof {
        st.index = Ghost(st.index@.insert(s@, r));
        lemma_total_update(pre.tables@, i as int, st.tables@[i as int]);
        assert(st.tables@ == pre.tables@.update(i as int, st.tables@[i as int]));
        assert(entry_handle(e) == r);
        let post = *st;
        assert forall|k: int, f: Entry|
            0 <= k < SHARD_COUNT && #[trigger] table_items(post.tables@[k]).count(f) > 0 implies {
                &&& post.entry_ok(f)
                &&& shard_of(f.0) == k
                &&& post.index@.contains_key(post.arena.bytes(entry_handle(f)))
                &&& post.index@[post.arena.bytes(entry_handle(f))] == entry_handle(f)
            } by {
            if k == i && f == e {
            } else {
                assert(table_items(pre.tables@[k]).count(f) > 0);
                assert(pre.entry_ok(f));
                assert(pre.arena.valid(entry_handle(f)));
                assert(pre.arena.bytes(entry_handle(f)) != s@);
            }
        }
        assert forall|t: Seq<u8>| #[trigger] post.index@.contains_key(t) implies {
            &&& post.handle_ok(t, post.index@[t])
            &&& table_items(post.tables@[shard_of(hash_of(t))]).count(
                (hash_of(t), post.index@[t].block, post.index@[t].offset),
            ) > 0
        } by {
            if t != s@ {
                assert(pre.index@.contains_key(t));
                assert(pre.arena.valid(pre.index@[t]));
            }
        }
        assert forall|f: Entry| #[trigger] table_items(post.local).count(f) > 0 implies {
            &&& post.entry_ok(f)
            &&& post.local_index@.contains_key(post.arena.bytes(entry_handle(f)))
            &&& post.local_index@[post.arena.bytes(entry_handle(f))] == entry_handle(f)
        } by {
            assert(pre.arena.valid(entry_handle(f)));
        }
        assert forall|t: Seq<u8>| #[trigger] post.local_index@.contains_key(t) implies post.handle_ok(
            t,
            post.local_index@[t],
        ) by {
            assert(pre.arena.valid(pre.local_index@[t]));
        }
        assert forall|h: IBytes| #[trigger] pre.live(h) && s@.len() > 0 implies h != r by {
            assert(pre.arena.valid(h));
        }
    }
    r
}

fn new_imp(st: &mut Interner, s: &[u8], hash: u64) -> (r: IBytes)
    requires
        old(st).wf(),
        old(st).has_room(),
        hash == hash_of(s@),
        s@.len() <= isize::MAX,
    ensures
        skip_local_interned(*old(st), s@, *final(st), r),
{
    let i = table_for(hash);
    match table_get(&st.tables[i], hash, &st.arena, s) {
        Some(e) => {
            proof {
                assert(table_items(st.tables@[i as int]).count(e) > 0);
                st.arena.lemma_grows_keeps_all(st.arena);
            }
            IBytes { block: e.1, offset: e.2 }
        },
        None => {
            proof {
                if st.index@.contains_key(s@) {
                    let h = st.index@[s@];
                    assert(table_items(st.tables@[i as int]).count((hash, h.block, h.offset)) > 0);
                    assert(entry_handle((hash, h.block, h.offset)) == h);
                }
            }
            create(st, i, s, hash)
        },
    }
}

/// Adds to the front cache an entry for `s`, whose handle `r` the shards gave.
fn insert_local(st: &mut Interner, s: &[u8], hash: u64, r: IBytes)
    requires
        old(st).wf(),
        table_items(old(st).local).len() < MAX_TABLE_LEN,
        hash == hash_of(s@),
        !old(st).cached().contains_key(s@),
        old(st).interned().contains_key(s@),
        old(st).interned()[s@] == r,
    ensures
        final(st).wf(),
        final(st).arena == old(st).arena,
        final(st).tables == old(st).tables,
        final(st).index == old(st).index,
        final(st).cached() == old(st).cached().insert(s@, r),
        final(st).cache_len() == old(st).cache_len() + 1,
{
    let ghost pre = *st;
    let e: Entry = (hash, r.block, r.offset);
    table_insert(&mut st.local, e);
    proof {
        st.local_index = Ghost(st.local_index@.insert(s@, r));
        assert(entry_handle(e) == r);
        let post = *st;
        assert(table_items(pre.local).count(e) == 0) by {
            if table_items(pre.local).count(e) > 0 {
                assert(pre.local_index@.contains_key(pre.arena.bytes(entry_handle(e))));
            }
        }
        assert forall|f: Entry| #[trigger] table_items(post.local).count(f) > 0 implies {
            &&& post.entry_ok(f)
            &&& post.local_index@.contains_key(post.arena.bytes(entry_handle(f)))
            &&& post.local_index@[post.arena.bytes(entry_handle(f))] == entry_handle(f)
        } by {
            if f != e {
                assert(table_items(pre.local).count(f) > 0);
                assert(pre.arena.bytes(entry_handle(f)) != s@);
            }
        }
        assert(forall|f: Entry| #[trigger] table_items(post.local).count(f) <= 1);
        assert(forall|i: int, f: Entry|
            0 <= i < SHARD_COUNT && #[trigger] table_items(post.tables@[i]).count(f) > 0
                ==> table_items(pre.tables@[i]).count(f) > 0);
    }
}

fn new_imp_slow(st: &mut Interner, s: &[u8], hash: u64) -> (r: IBytes)
    requires
        old(st).wf(),
        old(st).has_room(),
        hash == hash_of(s@),
        s@.len() <= isize::MAX,
        !old(st).cached().contains_key(s@),
    ensures
        local_interned(*old(st), s@, *final(st), r),
{
    let r = new_imp(st, s, hash);
    insert_local(st, s, hash, r);
    r
}

/// Interns `s` without touching the front cache.
pub fn new_skip_local(st: &mut Interner, s: &[u8]) -> (r: IBytes)
    requires
        old(st).wf(),
        old(st).has_room(),
        s@.len() <= isize::MAX,
    ensures
        skip_local_interned(*old(st), s@, *final(st), r),
{
    let hash = hash(s);
    new_imp(st, s, hash)
}

/// Interns `s`: the front cache answers when it can, else the shards, and
/// the front cache learns the answer.
pub fn new(st: &mut Interner, s: &[u8]) -> (r: IBytes)
    requires
        old(st).wf(),
        old(st).has_room(),
        s@.len() <= isize::MAX,
    ensures
        local_interned(*old(st), s@, *final(st), r),
{
    let hash = hash(s);
    match table_get(&st.local, hash, &st.arena, s) {
        Some(e) => {
            proof {
                assert(table_items(st.local).count(e) > 0);
                st.arena.lemma_grows_keeps_all(st.arena);
            }
            IBytes { block: e.1, offset: e.2 }
        },
        None => {
            proof {
                if st.local_index@.contains_key(s@) {
                    let h = st.local_index@[s@];
                    assert(table_items(st.local).count((hash, h.block, h.offset)) > 0);
                    assert(entry_handle((hash, h.block, h.offset)) == h);
                }
            }
            new_imp_slow(st, s, hash)
        },
    }
}

/// What the index has for `s`.
pub open spec fn index_answer(st: Interner, s: Seq<u8>) -> Option<IBytes> {
    if st.interned().contains_key(s) {
        Some(st.interned()[s])
    } else {
        None
    }
}

fn get_imp(st: &Interner, s: &[u8], hash: u64) -> (r: Option<IBytes>)
    requires
        st.wf(),
        hash == hash_of(s@),
    ensures
        r == index_answer(*st, s@),
{
    let i = table_for(hash);
    match table_get(&st.tables[i], hash, &st.arena, s) {
        Some(e) => {
            proof {
                assert(table_items(st.tables@[i as int]).count(e) > 0);
            }
            Some(IBytes { block: e.1, offset: e.2 })
        },
        None => {
            proof {
                if st.index@.contains_key(s@) {
                    let h = st.index@[s@];
                    assert(table_items(st.tables@[i as int]).count((hash, h.block, h.offset)) > 0);
                    assert(entry_handle((hash, h.block, h.offset)) == h);
                }
            }
            None
        },
    }
}

/// Looks `s` up in the shards alone, without touching the front cache.
pub fn get_skip_local(st: &Interner, s: &[u8]) -> (r: Option<IBytes>)
    requires
        st.wf(),
    ensures
        r == index_answer(*st, s@),
        r matches Some(h) ==> st.live(h) && st.bytes_of(h) == s@ && st.hash_in(h) == hash_of(s@),
{
    let hash = hash(s);
    get_imp(st, s, hash)
}

/// Looking `s` up through the front cache: a cached handle is returned and
/// nothing changes; otherwise the shards answer, and a handle they have is
/// added to the front cache.
pub open spec fn local_lookup(pre: Interner, s: Seq<u8>, post: Interner, r: Option<IBytes>) -> bool {
    &&& post.wf()
    &&& r matches Some(h) ==> post.live(h) && post.bytes_of(h) == s && post.hash_in(h) == hash_of(s)
    &&& pre.cached().contains_key(s) ==> r == Some(pre.cached()[s]) && post == pre
    &&& !pre.cached().contains_key(s) ==> {
        &&& r == index_answer(pre, s)
        &&& post.interned() == pre.interned()
        &&& post.shard_total() == pre.shard_total()
        &&& post.keeps(pre)
        &&& r is None ==> post == pre
        &&& r matches Some(h) ==> post.cached() == pre.cached().insert(s, h) && post.cache_len()
            == pre.cache_len() + 1
    }
}

fn get_imp_slow(st: &mut Interner, s: &[u8], hash: u64) -> (r: Option<IBytes>)
    requires
        old(st).wf(),
        table_items(old(st).local).len() < MAX_TABLE_LEN,
        hash == hash_of(s@),
        !old(st).cached().contains_key(s@),
    ensures
        local_lookup(*old(st), s@, *final(st), r),
{
    let found = get_imp(st, s, hash);
    match found {
        Some(h) => {
            insert_local(st, s, hash, h);
            proof {
                st.arena.lemma_grows_keeps_all(st.arena);
            }
            Some(h)
        },
        None => None,
    }
}

/// Looks `s` up: the front cache answers when it can, else the shards, and
/// a handle they have is added to the front cache.
pub fn get(st: &mut Interner, s: &[u8]) -> (r: Option<IBytes>)
    requires
        old(st).wf(),
        old(st).cache_len() < MAX_TABLE_LEN,
    ensures
        local_lookup(*old(st), s@, *final(st), r),
{
    let hash = hash(s);
    match table_get(&st.local, hash, &st.arena, s) {
        Some(e) => {
            proof {
                assert(table_items(st.local).count(e) > 0);
            }
            Some(IBytes { block: e.1, offset: e.2 })
        },
        None => {
            proof {
                if st.local_index@.contains_key(s@) {
                    let h = st.local_index@[s@];
                    assert(table_items(st.local).count((hash, h.block, h.offset)) > 0);
                    assert(entry_handle((hash, h.block, h.offset)) == h);
                }
            }
            get_imp_slow(st, s, hash)
        },
    }
}

/// Empties the front cache.
pub fn clear_local_cache(st: &mut Interner)
    requires
        old(st).wf(),
    ensures
        final(st).wf(),
        final(st).cached() == Map::<Seq<u8>, IBytes>::empty(),
        final(st).cache_len() == 0,
        final(st).interned() == old(st).interned(),
        final(st).shard_total() == old(st).shard_total(),
        final(st).keeps(*old(st)),
{
    st.local = table_new();
    proof {
        st.local_index = Ghost(Map::empty());
        st.arena.lemma_grows_keeps_all(st.arena);
    }
}

/// The number of entries in the front cache.
pub fn local_cache_size(st: &Interner) -> (r: usize)
    requires
        st.wf(),
    ensures
        r == st.cache_len(),
        r == st.cached().len(),
{
    table_len(&st.local)
}

/// The number of strings interned over all shards, or `usize::MAX` if that
/// does not fit.
pub fn size(st: &Interner) -> (r: usize)
    requires
        st.wf(),
    ensures
        r == if st.shard_total() <= usize::MAX {
            st.shard_total()
        } else {
            usize::MAX as int
        },
        r == if st.interned().len() <= usize::MAX {
            st.interned().len() as int
        } else {
            usize::MAX as int
        },
{
    let mut acc: usize = 0;
    let mut i: usize = 0;
    while i < SHARD_COUNT
        invariant
            i <= SHARD_COUNT,
            st.tables@.len() == SHARD_COUNT,
            acc == if total_of(st.tables@.take(i as int)) <= usize::MAX {
                total_of(st.tables@.take(i as int))
            } else {
                usize::MAX as int
            },
        decreases SHARD_COUNT - i,
    {
        let n = table_len(&st.tables[i]);
        proof {
            assert(st.tables@.take(i + 1).drop_last() =~= st.tables@.take(i as int));
            assert(st.tables@.take(i + 1).last() == st.tables@[i as int]);
        }
        if acc > usize::MAX - n {
            acc = usize::MAX;
        } else {
            acc = acc + n;
        }
        i = i + 1;
    }
    proof {
        assert(st.tables@.take(SHARD_COUNT as int) =~= st.tables@);
    }
    acc
}

/// Empties every shard and the front cache. Payloads stay where they are,
/// so earlier handles keep their bytes, but interning the same non-empty
/// content again gives a new handle.
pub fn clear_global_cache(st: &mut Interner)
    requires
        old(st).wf(),
    ensures
        final(st).wf(),
        final(st).interned() == Map::<Seq<u8>, IBytes>::empty(),
        final(st).shard_total() == 0,
        final(st).cached() == Map::<Seq<u8>, IBytes>::empty(),
        final(st).cache_len() == 0,
        final(st).keeps(*old(st)),
        forall|h: IBytes| #[trigger] old(st).live(h) ==> final(st).live(h),
{
    let mut i: usize = 0;
    while i < SHARD_COUNT
        invariant
            i <= SHARD_COUNT,
            st.tables@.len() == SHARD_COUNT,
            st.arena == old(st).arena,
            st.local == old(st).local,
            st.local_index == old(st).local_index,
            forall|k: int| 0 <= k < i ==> table_items(#[trigger] st.tables@[k]) =~= Multiset::<Entry>::empty(),
        decreases SHARD_COUNT - i,
    {
        table_clear(&mut st.tables[i]);
        i = i + 1;
    }
    st.local = table_new();
    proof {
        st.index = Ghost(Map::empty());
        st.local_index = Ghost(Map::empty());
        lemma_total_empty(st.tables@);
        st.arena.lemma_grows_keeps_all(st.arena);
        assert forall|k: int, e: Entry| 0 <= k < SHARD_COUNT implies table_items(st.tables@[k]).count(e) == 0 by {
            assert(table_items(st.tables@[k]) =~= Multiset::<Entry>::empty());
        }
    }
}

impl IBytes {
    /// The content bytes.
    pub fn to_bytes(self, st: &Interner) -> (r: &[u8])
        requires
            st.wf(),
            st.live(self),
        ensures
            r@ == st.bytes_of(self),
    {
        st.arena.content(self)
    }

    /// The number of content bytes.
    pub fn len(self, st: &Interner) -> (r: usize)
        requires
            st.wf(),
            st.live(self),
        ensures
            r == st.bytes_of(self).len(),
    {
        st.arena.header_len(self)
    }

    /// Whether there are no content bytes.
    pub fn is_empty(self, st: &Interner) -> (r: bool)
        requires
            st.wf(),
            st.live(self),
        ensures
            r == (st.bytes_of(self).len() == 0),
    {
        self.len(st) == 0
    }

    /// The hash recorded when the content was interned.
    pub fn saved_hash(self, st: &Interner) -> (r: u64)
        requires
            st.wf(),
            st.live(self),
        ensures
            r == st.hash_in(self),
    {
        st.arena.header_hash(self)
    }

    /// The content bytes and the zero that ends them: a C string whenever
    /// the content holds no zero itself.
    pub fn as_cstr(self, st: &Interner) -> (r: &[u8])
        requires
            st.wf(),
            st.live(self),
        ensures
            r@ == st.bytes_of(self).push(0),
    {
        st.arena.content_with_nul(self)
    }
}

/// Every string in the front cache is interned with the same handle: true
/// until the shards are reset while the cache still holds entries.
pub open spec fn coherent(st: Interner) -> bool {
    forall|s: Seq<u8>|
        #[trigger] st.cached().contains_key(s) ==> st.interned().contains_key(s) && st.interned()[s]
            == st.cached()[s]
}

/// A handle stays live, with the same bytes and hash, in every later state.
pub proof fn law_pointer_stable(pre: Interner, post: Interner, h: IBytes)
    requires
        pre.wf(),
        post.keeps(pre),
        pre.live(h),
    ensures
        post.live(h),
        post.bytes_of(h) == pre.bytes_of(h),
        post.hash_in(h) == pre.hash_in(h),
{
    post.arena.lemma_grows_keeps(pre.arena, h);
}

/// A state that keeps a state that keeps `pre` keeps `pre` too.
pub proof fn law_keeps_chain(pre: Interner, mid: Interner, post: Interner)
    requires
        mid.keeps(pre),
        post.keeps(mid),
    ensures
        post.keeps(pre),
{
    post.arena.lemma_grows_trans(mid.arena, pre.arena);
}

/// Interning the same bytes twice gives the same handle.
pub proof fn law_intern_idempotent(st0: Interner, s: Seq<u8>, st1: Interner, r1: IBytes, st2: Interner, r2: IBytes)
    requires
        local_interned(st0, s, st1, r1),
        local_interned(st1, s, st2, r2),
    ensures
        r1 == r2,
{
}

/// Interning the same bytes twice with the shards alone gives the same handle.
pub proof fn law_intern_skip_local_idempotent(
    st0: Interner,
    s: Seq<u8>,
    st1: Interner,
    r1: IBytes,
    st2: Interner,
    r2: IBytes,
)
    requires
        skip_local_interned(st0, s, st1, r1),
        skip_local_interned(st1, s, st2, r2),
    ensures
        r1 == r2,
{
}

/// Two interned handles are equal exactly when their bytes are.
pub proof fn law_content_equality(st0: Interner, s: Seq<u8>, st1: Interner, r1: IBytes, t: Seq<u8>, st2: Interner, r2: IBytes)
    requires
        local_interned(st0, s, st1, r1),
        local_interned(st1, t, st2, r2),
    ensures
        (r1 == r2) <==> (s == t),
{
    law_pointer_stable(st1, st2, r1);
}

/// Two handles interned with the shards alone are equal exactly when their
/// bytes are.
pub proof fn law_skip_local_content_equality(
    st0: Interner,
    s: Seq<u8>,
    st1: Interner,
    r1: IBytes,
    t: Seq<u8>,
    st2: Interner,
    r2: IBytes,
)
    requires
        skip_local_interned(st0, s, st1, r1),
        skip_local_interned(st1, t, st2, r2),
    ensures
        (r1 == r2) <==> (s == t),
{
    law_pointer_stable(st1, st2, r1);
}

/// The hash recorded for an interned handle is the hash of its bytes.
pub proof fn law_hash_consistent(st0: Interner, s: Seq<u8>, st1: Interner, r: IBytes)
    requires
        local_interned(st0, s, st1, r) || skip_local_interned(st0, s, st1, r),
    ensures
        st1.hash_in(r) == hash_of(s),
{
}

/// Read as a C string, the view of a handle whose bytes hold no zero ends
/// right after them: its first zero is at the content's length.
pub proof fn law_cstr_suffix(st: Interner, h: IBytes)
    requires
        st.wf(),
        st.live(h),
        forall|i: int| 0 <= i < st.bytes_of(h).len() ==> st.bytes_of(h)[i] != 0,
    ensures
        st.bytes_of(h).push(0)[st.bytes_of(h).len() as int] == 0,
        forall|i: int| 0 <= i < st.bytes_of(h).len() ==> #[trigger] st.bytes_of(h).push(0)[i] != 0,
{
    assert forall|i: int| 0 <= i < st.bytes_of(h).len() implies #[trigger] st.bytes_of(h).push(0)[i] != 0 by {
        assert(st.bytes_of(h).push(0)[i] == st.bytes_of(h)[i]);
    }
}

/// In a well-formed interner the empty handle is live, with no bytes and
/// the hash of the empty string.
pub proof fn lemma_empty_handle(st: Interner)
    requires
        st.wf(),
    ensures
        st.live(IBytes::empty_spec()),
        st.bytes_of(IBytes::empty_spec()) == Seq::<u8>::empty(),
        st.hash_in(IBytes::empty_spec()) == hash_of(Seq::<u8>::empty()),
{
}

/// The shards hold one entry per interned string, the front cache one per
/// cached string, and the front cache agrees with the shards.
pub proof fn lemma_counts(st: Interner)
    requires
        st.wf(),
    ensures
        st.shard_total() == st.interned().len(),
        st.cache_len() == st.cached().len(),
        coherent(st),
{
}

/// A handle is the empty handle exactly when it has no bytes.
pub proof fn law_empty_iff_no_bytes(st: Interner, s: Seq<u8>, pre: Interner, r: IBytes)
    requires
        handle_for(pre, s, st, r),
    ensures
        (r == IBytes::empty_spec()) <==> (st.bytes_of(r).len() == 0),
{
}

/// Interning bytes that are interned returns the handle they have.
pub proof fn law_intern_returns_indexed(st0: Interner, s: Seq<u8>, st1: Interner, r: IBytes)
    requires
        st0.wf(),
        st0.interned().contains_key(s),
        local_interned(st0, s, st1, r) || skip_local_interned(st0, s, st1, r),
    ensures
        r == st0.interned()[s],
{
}

/// Interning and looking up keep every interned string with its handle,
/// so until the shards are reset the same bytes always give the same handle.
pub proof fn law_interned_persists(st0: Interner, s: Seq<u8>, st1: Interner, r: IBytes, t: Seq<u8>)
    requires
        local_interned(st0, s, st1, r) || skip_local_interned(st0, s, st1, r),
        st0.interned().contains_key(t),
    ensures
        st1.interned().contains_key(t),
        st1.interned()[t] == st0.interned()[t],
{
}

/// After interning, the shards know the bytes, with the handle that was
/// returned.
pub proof fn law_lookup_after_intern(st0: Interner, s: Seq<u8>, st1: Interner, r: IBytes)
    requires
        st0.wf(),
        local_interned(st0, s, st1, r) || skip_local_interned(st0, s, st1, r),
    ensures
        index_answer(st1, s) == Some(r),
{
}

/// A lookup never adds to what is interned, and finds exactly what the
/// shards have.
pub proof fn law_lookup_adds_nothing(st0: Interner, s: Seq<u8>, st1: Interner, r: Option<IBytes>)
    requires
        st0.wf(),
        local_lookup(st0, s, st1, r),
    ensures
        st1.interned() == st0.interned(),
        r == index_answer(st0, s),
{
}

/// After interning through the front cache, a lookup of the same bytes is
/// answered by the front cache: the same handle, and no change of state.
pub proof fn law_local_after_intern(
    st0: Interner,
    s: Seq<u8>,
    st1: Interner,
    r1: IBytes,
    st2: Interner,
    r2: Option<IBytes>,
)
    requires
        local_interned(st0, s, st1, r1),
        local_lookup(st1, s, st2, r2),
    ensures
        r2 == Some(r1),
        st2 == st1,
{
}

/// Once the shards are reset, interning non-empty bytes that the front cache
/// does not hold gives a handle unlike any handle live before.
pub proof fn law_fresh_after_reset(st0: Interner, s: Seq<u8>, st1: Interner, r: IBytes, h: IBytes)
    requires
        st0.interned() == Map::<Seq<u8>, IBytes>::empty(),
        st0.cached() == Map::<Seq<u8>, IBytes>::empty(),
        s.len() > 0,
        local_interned(st0, s, st1, r) || skip_local_interned(st0, s, st1, r),
        st0.live(h),
    ensures
        h != r,
{
}

proof fn lemma_no_dup_of_count(s: Seq<Entry>)
    requires
        forall|x: Entry| #[trigger] s.to_multiset().count(x) <= 1,
    ensures
        s.no_duplicates(),
{
    assert forall|j: int, k: int| 0 <= j < s.len() && 0 <= k < s.len() && j != k implies s[j] != s[k] by {
        if s[j] == s[k] {
            let t = s.remove(k);
            s.to_multiset_ensures();
            t.to_multiset_ensures();
            if j < k {
                assert(t[j] == s[j]);
            } else {
                assert(t[j - 1] == s[j]);
            }
            assert(t.contains(s[k]));
            assert(t.to_multiset() =~= s.to_multiset().remove(s[k]));
            let m = s.to_multiset();
            assert(Multiset::singleton(s[k]).count(s[k]) == 1);
            assert(m.sub(Multiset::singleton(s[k])).count(s[k]) > 0);
            assert(m.count(s[k]) >= 2);
        }
    }
}

/// Every handle in the shards, each once, shard by shard in index order.
pub fn items(st: &Interner) -> (r: Vec<IBytes>)
    requires
        st.wf(),
    ensures
        r@.len() == st.shard_total(),
        r@.len() == st.interned().len(),
        r@.no_duplicates(),
        forall|k: int|
            0 <= k < r@.len() ==> st.interned().contains_key(st.bytes_of(#[trigger] r@[k]))
                && st.interned()[st.bytes_of(r@[k])] == r@[k],
        forall|s: Seq<u8>| #[trigger] st.interned().contains_key(s) ==> r@.contains(st.interned()[s]),
        forall|a: int, b: int|
            0 <= a < b < r@.len() ==> shard_of(st.hash_in(#[trigger] r@[a])) <= shard_of(
                st.hash_in(#[trigger] r@[b]),
            ),
{
    let mut out: Vec<IBytes> = Vec::new();
    let mut i: usize = 0;
    while i < SHARD_COUNT
        invariant
            i <= SHARD_COUNT,
            st.wf(),
            out@.len() == total_of(st.tables@.take(i as int)),
            out@.no_duplicates(),
            forall|k: int|
                0 <= k < out@.len() ==> st.interned().contains_key(st.bytes_of(#[trigger] out@[k]))
                    && st.interned()[st.bytes_of(out@[k])] == out@[k],
            forall|k: int| 0 <= k < out@.len() ==> shard_of(st.hash_in(#[trigger] out@[k])) < i,
            forall|a: int, b: int|
                0 <= a < b < out@.len() ==> shard_of(st.hash_in(#[trigger] out@[a])) <= shard_of(
                    st.hash_in(#[trigger] out@[b]),
                ),
            forall|s: Seq<u8>|
                #[trigger] st.interned().contains_key(s) && shard_of(hash_of(s)) < i ==> out@.contains(
                    st.interned()[s],
                ),
        decreases SHARD_COUNT - i,
    {
        let entries = table_entries(&st.tables[i]);
        proof {
            entries@.to_multiset_ensures();
            lemma_no_dup_of_count(entries@);
            assert(st.tables@.take(i + 1).drop_last() =~= st.tables@.take(i as int));
            assert(st.tables@.take(i + 1).last() == st.tables@[i as int]);
        }
        let ghost out0 = out@;
        let mut j: usize = 0;
        while j < entries.len()
            invariant
                i < SHARD_COUNT,
                st.wf(),
                j <= entries@.len(),
                entries@.to_multiset() == table_items(st.tables@[i as int]),
                entries@.no_duplicates(),
                out@.len() == out0.len() + j,
                out@.no_duplicates(),
                forall|k: int| 0 <= k < out0.len() ==> out@[k] == out0[k],
                forall|k: int| 0 <= k < out0.len() ==> shard_of(st.hash_in(#[trigger] out0[k])) < i,
                forall|k: int| 0 <= k < j ==> out@[out0.len() + k] == entry_handle(entries@[k]),
                forall|k: int| 0 <= k < j ==> entries@[k].0 == st.hash_in(entry_handle(#[trigger] entries@[k])),
                forall|k: int| 0 <= k < out@.len() ==> shard_of(st.hash_in(#[trigger] out@[k])) <= i,
                forall|k: int| out0.len() <= k < out@.len() ==> shard_of(st.hash_in(#[trigger] out@[k])) == i,
                forall|a: int, b: int|
                    0 <= a < b < out@.len() ==> shard_of(st.hash_in(#[trigger] out@[a])) <= shard_of(
                        st.hash_in(#[trigger] out@[b]),
                    ),
                forall|k: int|
                    0 <= k < out@.len() ==> st.interned().contains_key(st.bytes_of(#[trigger] out@[k]))
                        && st.interned()[st.bytes_of(out@[k])] == out@[k],
            decreases entries@.len() - j,
        {
            let e = entries[j];
            let h = IBytes { block: e.1, offset: e.2 };
            proof {
                entries@.to_multiset_ensures();
                assert(entries@.contains(e));
                assert(table_items(st.tables@[i as int]).count(e) > 0);
                assert(shard_of(st.hash_in(h)) == i);
                assert forall|k: int| 0 <= k < out@.len() implies out@[k] != h by {
                    if k < out0.len() {
                        assert(out@[k] == out0[k]);
                    } else {
                        let m = k - out0.len();
                        assert(entries@[m] != entries@[j as int]);
                    }
                }
            }
            out.push(h);
            j = j + 1;
        }
        proof {
            entries@.to_multiset_ensures();
            assert forall|s: Seq<u8>|
                #[trigger] st.interned().contains_key(s) && shard_of(hash_of(s)) < i + 1 implies out@.contains(
                st.interned()[s],
            ) by {
                let h = st.interned()[s];
                if shard_of(hash_of(s)) < i {
                    assert(out0.contains(h));
                    let k = choose|k: int| 0 <= k < out0.len() && out0[k] == h;
                    assert(out@[k] == h);
                } else {
                    let e = (hash_of(s), h.block, h.offset);
                    assert(table_items(st.tables@[i as int]).count(e) > 0);
                    assert(entries@.contains(e));
                    let k = choose|k: int| 0 <= k < entries@.len() && entries@[k] == e;
                    assert(out@[out0.len() + k] == h);
                }
            }
        }
        i = i + 1;
    }
    proof {
        assert(st.tables@.take(SHARD_COUNT as int) =~= st.tables@);
        assert forall|s: Seq<u8>| #[trigger] st.interned().contains_key(s) implies out@.contains(st.interned()[s]) by {
            assert(0 <= shard_of(hash_of(s)) < SHARD_COUNT);
        }
    }
    out
}

} // verus!

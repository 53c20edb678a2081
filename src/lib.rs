//! A byte-string interner: equal contents share one handle, and the bytes
//! behind a handle never move or change once written.
use vstd::prelude::*;
use vstd::string::StringSliceAdditionalSpecFns;

mod bytes_le;
pub mod cache;
pub mod hasher;
pub mod leaky_alloc;
pub mod table;
pub mod words;

pub use cache::{
    clear_global_cache, clear_local_cache, items, local_cache_size, size, Interner,
};
pub use hasher::{hash, hash_of, EMPTY_HASH};
pub use leaky_alloc::{IBytes, IStr};

verus! {

impl IBytes {
    /// Interns `s` through the front cache.
    pub fn new(st: &mut Interner, s: &[u8]) -> (r: IBytes)
        requires
            old(st).wf(),
            old(st).has_room(),
            s@.len() <= isize::MAX,
        ensures
            cache::local_interned(*old(st), s@, *final(st), r),
    {
        cache::new(st, s)
    }

    /// Interns `s` with the shards alone.
    pub fn new_skip_local(st: &mut Interner, s: &[u8]) -> (r: IBytes)
        requires
            old(st).wf(),
            old(st).has_room(),
            s@.len() <= isize::MAX,
        ensures
            cache::skip_local_interned(*old(st), s@, *final(st), r),
    {
        cache::new_skip_local(st, s)
    }

    /// Looks `s` up through the front cache.
    pub fn get(st: &mut Interner, s: &[u8]) -> (r: Option<IBytes>)
        requires
            old(st).wf(),
            old(st).cache_len() < table::MAX_TABLE_LEN,
        ensures
            cache::local_lookup(*old(st), s@, *final(st), r),
    {
        cache::get(st, s)
    }

    /// Looks `s` up in the shards alone.
    pub fn get_skip_local(st: &Interner, s: &[u8]) -> (r: Option<IBytes>)
        requires
            st.wf(),
        ensures
            r == cache::index_answer(*st, s@),
            r matches Some(h) ==> st.live(h) && st.bytes_of(h) == s@ && st.hash_in(h) == hash_of(s@),
    {
        cache::get_skip_local(st, s)
    }
}

impl IStr {
    /// Interns `s` through the front cache.
    pub fn new(st: &mut Interner, s: &str) -> (r: IStr)
        requires
            old(st).wf(),
            old(st).has_room(),
            s.spec_bytes().len() <= isize::MAX,
        ensures
            cache::local_interned(*old(st), s.spec_bytes(), *final(st), r.ibytes),
            vstd::utf8::valid_utf8(final(st).bytes_of(r.ibytes)),
    {
        proof {
            vstd::utf8::encode_utf8_valid_utf8(s@);
        }
        IStr { ibytes: cache::new(st, s.as_bytes()) }
    }

    /// Interns `s` with the shards alone.
    pub fn new_skip_local(st: &mut Interner, s: &str) -> (r: IStr)
        requires
            old(st).wf(),
            old(st).has_room(),
            s.spec_bytes().len() <= isize::MAX,
        ensures
            cache::skip_local_interned(*old(st), s.spec_bytes(), *final(st), r.ibytes),
            vstd::utf8::valid_utf8(final(st).bytes_of(r.ibytes)),
    {
        proof {
            vstd::utf8::encode_utf8_valid_utf8(s@);
        }
        IStr { ibytes: cache::new_skip_local(st, s.as_bytes()) }
    }

    /// Looks `s` up through the front cache.
    pub fn get(st: &mut Interner, s: &str) -> (r: Option<IStr>)
        requires
            old(st).wf(),
            old(st).cache_len() < table::MAX_TABLE_LEN,
        ensures
            cache::local_lookup(*old(st), s.spec_bytes(), *final(st), leaky_alloc::istr_handle(r)),
    {
        match cache::get(st, s.as_bytes()) {
            Some(b) => Some(IStr { ibytes: b }),
            None => None,
        }
    }

    /// Looks `s` up in the shards alone.
    pub fn get_skip_local(st: &Interner, s: &str) -> (r: Option<IStr>)
        requires
            st.wf(),
        ensures
            leaky_alloc::istr_handle(r) == cache::index_answer(*st, s.spec_bytes()),
            r matches Some(t) ==> st.live(t.ibytes) && st.bytes_of(t.ibytes) == s.spec_bytes() && st.hash_in(t.ibytes)
                == hash_of(s.spec_bytes()),
    {
        match cache::get_skip_local(st, s.as_bytes()) {
            Some(b) => Some(IStr { ibytes: b }),
            None => None,
        }
    }
}

} // verus!

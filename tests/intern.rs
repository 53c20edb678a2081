use istr::cache::{get, get_skip_local, new, new_skip_local};
use istr::hasher::hash;
use istr::items;
use istr::words::run;
use istr::{
    clear_global_cache, clear_local_cache, local_cache_size, size, IBytes, IStr, Interner,
    EMPTY_HASH,
};

fn large_text(n: usize) -> Vec<u8> {
    let words: [&[u8]; 4] = [b"lorem ", b"ipsum ", b"dolor ", b"sit\n"];
    let mut v = Vec::with_capacity(n);
    let mut i = 0;
    while v.len() < n {
        for &b in words[i % 4] {
            if v.len() < n {
                v.push(b);
            }
        }
        i += 1;
    }
    v
}

#[test]
fn test_simple() {
    let mut st = Interner::new();
    assert_eq!(new(&mut st, b"hello"), new(&mut st, b"hello"))
}

#[test]
fn cache_test_many() {
    let mut st = Interner::new();
    for _ in 0..1024 {
        new(&mut st, b"hello world");
    }
}

#[test]
fn cache_test_large_string() {
    let mut st = Interner::new();
    let large = large_text(3 * 1024 * 1024);
    assert_eq!(new(&mut st, &large), new(&mut st, &large))
}

#[test]
fn test() {
    assert_eq!(hash(b""), EMPTY_HASH)
}

#[test]
fn test_simple_alloc() {
    let mut st = Interner::new();
    let a = IStr::new(&mut st, "hello");
    let b = IStr::new(&mut st, "hello");
    assert_eq!(a.to_str(&st), b.to_str(&st))
}

#[test]
fn leaky_alloc_test_many() {
    let mut st = Interner::new();
    for _ in 0..1024 {
        IStr::new(&mut st, "hello world");
    }
}

#[test]
fn leaky_alloc_test_large_string() {
    let mut st = Interner::new();
    let large = String::from_utf8(large_text(3 * 1024 * 1024)).unwrap();
    let a = IStr::new(&mut st, &large);
    let b = IStr::new(&mut st, &large);
    assert_eq!(a.to_str(&st), b.to_str(&st))
}

#[test]
fn hello_has_its_bytes_and_length() {
    let mut st = Interner::new();
    let a = IBytes::new(&mut st, b"hello");
    let b = IBytes::new(&mut st, b"hello");
    assert_eq!(a, b);
    assert_eq!(a.to_bytes(&st), b"hello");
    assert_eq!(a.len(&st), 5);
    assert!(!a.is_empty(&st));
}

#[test]
fn empty_is_the_canonical_handle() {
    let mut st = Interner::new();
    let e = IBytes::new(&mut st, b"");
    assert_eq!(e, IBytes::empty());
    assert_eq!(e.saved_hash(&st), EMPTY_HASH);
    assert_eq!(e.as_cstr(&st)[0], 0);
    assert_eq!(e.len(&st), 0);
    assert!(e.is_empty(&st));
    assert_eq!(IStr::empty().to_ibytes(), e);
}

#[test]
fn repeated_intern_grows_size_by_one() {
    let mut st = Interner::new();
    let before = size(&st);
    let first = new(&mut st, b"hello world");
    for _ in 0..1024 {
        assert_eq!(new(&mut st, b"hello world"), first);
    }
    assert_eq!(size(&st), before + 1);
}

#[test]
fn megabyte_payload_round_trips() {
    let mut st = Interner::new();
    let big = large_text(1024 * 1024 + 1);
    let a = new(&mut st, &big);
    assert_eq!(a.to_bytes(&st).len(), 1048577);
    assert_eq!(a.to_bytes(&st), &big[..]);
    assert_eq!(new(&mut st, &big), a);
    assert_eq!(new_skip_local(&mut st, &big), a);
}

#[test]
fn many_words_one_handle_each() {
    let mut st = Interner::new();
    let words: Vec<Vec<u8>> = (0..100_000u32).map(|i| format!("w{}", i).into_bytes()).collect();
    let mut first = Vec::with_capacity(words.len());
    for w in &words {
        first.push(new_skip_local(&mut st, w));
    }
    for _ in 0..3 {
        for (w, h) in words.iter().zip(&first) {
            assert_eq!(new_skip_local(&mut st, w), *h);
        }
    }
    assert_eq!(size(&st), 100_000);
    for (w, h) in words.iter().zip(&first) {
        assert_eq!(new(&mut st, w), *h);
        assert_eq!(h.to_bytes(&st), &w[..]);
    }
}

#[test]
fn reset_gives_new_handles_and_keeps_old_bytes() {
    let mut st = Interner::new();
    let old = new(&mut st, b"x");
    clear_global_cache(&mut st);
    clear_local_cache(&mut st);
    assert_eq!(size(&st), 0);
    let fresh = new(&mut st, b"x");
    assert_ne!(old, fresh);
    assert_eq!(old.to_bytes(&st), b"x");
    assert_eq!(fresh.to_bytes(&st), b"x");
}

#[test]
fn reset_empties_the_front_cache() {
    let mut st = Interner::new();
    let old = new(&mut st, b"kept");
    assert_eq!(local_cache_size(&st), 1);
    clear_global_cache(&mut st);
    assert_eq!(local_cache_size(&st), 0);
    assert_eq!(get_skip_local(&st, b"kept"), None);
    assert_eq!(get(&mut st, b"kept"), None);
    let fresh = new(&mut st, b"kept");
    assert_ne!(fresh, old);
    assert_eq!(new_skip_local(&mut st, b"kept"), fresh);
    assert_eq!(size(&st), 1);
    assert_eq!(old.to_bytes(&st), b"kept");
}

#[test]
fn reset_then_intern_same_thread_gives_new_handle() {
    let mut st = Interner::new();
    let h0 = IBytes::new(&mut st, b"x");
    clear_global_cache(&mut st);
    let h1 = IBytes::new(&mut st, b"x");
    assert_ne!(h0, h1);
    assert_eq!(h0.to_bytes(&st), b"x");
    assert_eq!(h1.to_bytes(&st), b"x");
}

#[test]
fn lookup_handles_read_back() {
    let mut st = Interner::new();
    let h = new_skip_local(&mut st, b"seen");
    let g = get(&mut st, b"seen").unwrap();
    assert_eq!(g, h);
    assert_eq!(g.to_bytes(&st), b"seen");
    assert_eq!(g.len(&st), 4);
    assert_eq!(g.saved_hash(&st), hash(b"seen"));
    let e = IBytes::empty();
    assert_eq!(e.to_bytes(&st), b"");
    assert_eq!(e.as_cstr(&st), b"\0");
    assert_eq!(items(&st).len(), size(&st));
}

#[test]
fn distinct_contents_distinct_handles() {
    let mut st = Interner::new();
    let a = new(&mut st, b"abc");
    let b = new(&mut st, b"abd");
    let c = new_skip_local(&mut st, b"ab");
    assert_ne!(a, b);
    assert_ne!(a, c);
    assert_ne!(b, c);
    assert_eq!(new_skip_local(&mut st, b"abc"), a);
}

#[test]
fn stored_hash_is_the_hash_of_the_bytes() {
    let mut st = Interner::new();
    for w in [&b"alpha"[..], b"beta", b"", b"a longer piece of text"] {
        let h = new(&mut st, w);
        assert_eq!(h.saved_hash(&st), hash(w));
    }
}

#[test]
fn cstr_view_ends_after_content() {
    let mut st = Interner::new();
    let h = new(&mut st, b"no zeros here");
    let c = h.as_cstr(&st);
    assert_eq!(c.len(), 14);
    assert_eq!(c.iter().position(|&b| b == 0), Some(13));
    let s = IStr::new(&mut st, "text");
    assert_eq!(s.as_cstr(&st), b"text\0");
}

#[test]
fn handles_stay_valid_as_storage_grows() {
    let mut st = Interner::new();
    let early = new(&mut st, b"early bird");
    let mut handles = Vec::new();
    for i in 0..50_000u32 {
        handles.push(new(&mut st, format!("filler number {} with some padding", i).as_bytes()));
    }
    let big = large_text(5 * 1024 * 1024);
    let huge = new(&mut st, &big);
    assert_eq!(early.to_bytes(&st), b"early bird");
    assert_eq!(handles[0].to_bytes(&st), b"filler number 0 with some padding");
    assert_eq!(huge.to_bytes(&st).len(), big.len());
}

#[test]
fn lookup_finds_only_interned() {
    let mut st = Interner::new();
    assert_eq!(get(&mut st, b"absent"), None);
    assert_eq!(get_skip_local(&st, b"absent"), None);
    assert_eq!(IBytes::get(&mut st, b"absent"), None);
    let h = new_skip_local(&mut st, b"present");
    assert_eq!(local_cache_size(&st), 0);
    assert_eq!(get_skip_local(&st, b"present"), Some(h));
    assert_eq!(IBytes::get_skip_local(&st, b"present"), Some(h));
    assert_eq!(get(&mut st, b"present"), Some(h));
    assert_eq!(local_cache_size(&st), 1);
    assert_eq!(size(&st), 1);
}

#[test]
fn intern_fills_the_front_cache() {
    let mut st = Interner::new();
    let h = IBytes::new(&mut st, b"local");
    assert_eq!(local_cache_size(&st), 1);
    assert_eq!(get(&mut st, b"local"), Some(h));
    assert_eq!(local_cache_size(&st), 1);
    clear_local_cache(&mut st);
    assert_eq!(local_cache_size(&st), 0);
    assert_eq!(IBytes::new_skip_local(&mut st, b"local"), h);
    assert_eq!(local_cache_size(&st), 0);
    assert_eq!(size(&st), 1);
}

#[test]
fn string_handles() {
    let mut st = Interner::new();
    let s = IStr::new(&mut st, "héllo");
    assert_eq!(s.len(&st), 6);
    assert!(!s.is_empty(&st));
    assert_eq!(s.to_bytes(&st), "héllo".as_bytes());
    assert_eq!(s.saved_hash(&st), hash("héllo".as_bytes()));
    assert_eq!(IStr::new_skip_local(&mut st, "héllo"), s);
    assert_eq!(IStr::get(&mut st, "héllo"), Some(s));
    assert_eq!(IStr::get_skip_local(&st, "héllo"), Some(s));
    assert_eq!(IStr::get_skip_local(&st, "other"), None);
    let b = IBytes::new(&mut st, &[0xff, 0xfe]);
    assert!(IStr::from_utf8(b, &st).is_err());
    let ok = IStr::from_utf8(s.to_ibytes(), &st).unwrap();
    assert_eq!(ok, s);
    assert_eq!(IStr::from_utf8_unchecked(s.to_ibytes(), &st).to_str(&st), "héllo");
}

#[test]
fn items_lists_every_handle_once() {
    let mut st = Interner::new();
    let a = new(&mut st, b"one");
    let b = new(&mut st, b"two");
    let c = new_skip_local(&mut st, b"three");
    new(&mut st, b"one");
    let mut all = items(&st);
    all.sort();
    let mut want = vec![a, b, c];
    want.sort();
    assert_eq!(all, want);
}

#[test]
fn run_splits_words_and_gaps() {
    let text = b"Hello, world! ok";
    assert_eq!(run(text, true), vec![(0, 5), (5, 7), (7, 12), (12, 14), (14, 16)]);
    assert_eq!(run(text, false), vec![(0, 5), (7, 12), (14, 16)]);
    assert_eq!(run(b"", true), vec![(0, 0)]);
    assert_eq!(run(b" lead", true), vec![(0, 0), (0, 1), (1, 5)]);
    assert_eq!(run(b"trail. ", true), vec![(0, 5)]);
}


#[test]
fn defaults_and_conversions() {
    let mut st = Interner::new();
    assert_eq!(IBytes::default(), IBytes::empty());
    assert_eq!(IStr::default(), IStr::empty());
    let s = IStr::new(&mut st, "conv");
    assert_eq!(IBytes::from(s), s.to_ibytes());
    assert_eq!(IBytes::from(s).to_bytes(&st), b"conv");
}

//! Splitting text into runs of ASCII letters and runs of other bytes, as the
//! benchmark feeds them to the interner.
use vstd::prelude::*;

verus! {

/// An ASCII letter: `a` to `z` (97 to 122) or `A` to `Z` (65 to 90).
pub open spec fn is_alpha(b: u8) -> bool {
    (97 <= b <= 122) || (65 <= b <= 90)
}

/// The first index from `i` on whose byte is not a letter, or the length.
pub open spec fn next_non_alpha(s: Seq<u8>, i: int) -> int
    decreases s.len() - i,
{
    if i >= s.len() {
        s.len() as int
    } else if !is_alpha(s[i]) {
        i
    } else {
        next_non_alpha(s, i + 1)
    }
}

/// The first index from `i` on whose byte is a letter, or the length.
pub open spec fn next_alpha(s: Seq<u8>, i: int) -> int
    decreases s.len() - i,
{
    if i >= s.len() {
        s.len() as int
    } else if is_alpha(s[i]) {
        i
    } else {
        next_alpha(s, i + 1)
    }
}

/// The pieces of `s` from `start` on, as (start, end) pairs: a run of letters
/// (empty where `start` holds no letter), then the run of other bytes after
/// it when `include_non_words` is set, and so on from the next letter. A
/// run of other bytes at the very end is dropped.
pub open spec fn pieces_from(s: Seq<u8>, start: int, include_non_words: bool) -> Seq<(int, int)>
    decreases s.len() - start,
{
    let w = next_non_alpha(s, start);
    if start >= s.len() || w >= s.len() {
        seq![(start, s.len() as int)]
    } else {
        let n = next_alpha(s, w);
        if n >= s.len() {
            seq![(start, w)]
        } else if n > start {
            let gap = if include_non_words {
                seq![(w, n)]
            } else {
                Seq::<(int, int)>::empty()
            };
            seq![(start, w)] + gap + pieces_from(s, n, include_non_words)
        } else {
            Seq::<(int, int)>::empty()
        }
    }
}

pub open spec fn span_view(p: (usize, usize)) -> (int, int) {
    (p.0 as int, p.1 as int)
}

proof fn lemma_next_non_alpha_bounds(s: Seq<u8>, i: int)
    requires
        0 <= i <= s.len(),
    ensures
        i <= next_non_alpha(s, i) <= s.len(),
        next_non_alpha(s, i) < s.len() ==> !is_alpha(s[next_non_alpha(s, i)]),
    decreases s.len() - i,
{
    if i < s.len() && is_alpha(s[i]) {
        lemma_next_non_alpha_bounds(s, i + 1);
    }
}

proof fn lemma_next_alpha_bounds(s: Seq<u8>, i: int)
    requires
        0 <= i <= s.len(),
    ensures
        i <= next_alpha(s, i) <= s.len(),
        i < s.len() && !is_alpha(s[i]) ==> i < next_alpha(s, i),
    decreases s.len() - i,
{
    if i < s.len() && !is_alpha(s[i]) {
        lemma_next_alpha_bounds(s, i + 1);
    }
}

fn is_alpha_byte(b: u8) -> (r: bool)
    ensures
        r == is_alpha(b),
{
    (97u8 <= b && b <= 122u8) || (65u8 <= b && b <= 90u8)
}

fn find_non_alpha(s: &[u8], i: usize) -> (r: usize)
    requires
        i <= s@.len(),
    ensures
        r == next_non_alpha(s@, i as int),
{
    let mut j = i;
    while j < s.len() && is_alpha_byte(s[j])
        invariant
            i <= j <= s@.len(),
            next_non_alpha(s@, i as int) == next_non_alpha(s@, j as int),
        decreases s@.len() - j,
    {
        j = j + 1;
    }
    j
}

fn find_alpha(s: &[u8], i: usize) -> (r: usize)
    requires
        i <= s@.len(),
    ensures
        r == next_alpha(s@, i as int),
{
    let mut j = i;
    while j < s.len() && !is_alpha_byte(s[j])
        invariant
            i <= j <= s@.len(),
            next_alpha(s@, i as int) == next_alpha(s@, j as int),
        decreases s@.len() - j,
    {
        j = j + 1;
    }
    j
}

/// The pieces of `s` that the benchmark interns, in order: each run of
/// letters, and each run of other bytes between two of them when
/// `include_non_words` is set.
pub fn run(s: &[u8], include_non_words: bool) -> (r: Vec<(usize, usize)>)
    ensures
        r@.map_values(|p: (usize, usize)| span_view(p)) == pieces_from(s@, 0, include_non_words),
{
    let mut out: Vec<(usize, usize)> = Vec::new();
    let mut start: usize = 0;
    let mut done = false;
    while !done
        invariant
            start <= s@.len(),
            !done ==> out@.map_values(|p: (usize, usize)| span_view(p)) + pieces_from(s@, start as int, include_non_words)
                == pieces_from(s@, 0, include_non_words),
            done ==> out@.map_values(|p: (usize, usize)| span_view(p)) == pieces_from(s@, 0, include_non_words),
        decreases s@.len() - start + if done { 0int } else { 1int },
    {
        let ghost before = out@.map_values(|p: (usize, usize)| span_view(p));
        proof {
            lemma_next_non_alpha_bounds(s@, start as int);
        }
        let w = find_non_alpha(s, start);
        if w == s.len() {
            out.push((start, s.len()));
            proof {
                assert(out@.map_values(|p: (usize, usize)| span_view(p)) =~= before + pieces_from(s@, start as int, include_non_words));
            }
            done = true;
        } else {
            proof {
                lemma_next_alpha_bounds(s@, w as int);
            }
            let n = find_alpha(s, w);
            if n == s.len() {
                out.push((start, w));
                proof {
                    assert(out@.map_values(|p: (usize, usize)| span_view(p)) =~= before + pieces_from(s@, start as int, include_non_words));
                }
                done = true;
            } else {
                out.push((start, w));
                if include_non_words {
                    out.push((w, n));
                }
                proof {
                    let gap = if include_non_words {
                        seq![(w as int, n as int)]
                    } else {
                        Seq::<(int, int)>::empty()
                    };
                    assert(pieces_from(s@, start as int, include_non_words) == seq![(start as int, w as int)] + gap
                        + pieces_from(s@, n as int, include_non_words));
                    assert(out@.map_values(|p: (usize, usize)| span_view(p)) =~= before + seq![(start as int, w as int)] + gap);
                    assert(before + seq![(start as int, w as int)] + gap + pieces_from(s@, n as int, include_non_words)
                        =~= before + pieces_from(s@, start as int, include_non_words));
                }
                start = n;
            }
        }
    }
    out
}

} // verus!

//! Byte-pattern search and same-length replace over the whole buffer.
//!
//! A pattern is built from the query in one of three modes (encoded text,
//! hex bytes, or a field value encoded as that field stores it). Searching
//! starts after the last hit (or at the cursor) and wraps around to the
//! start of the buffer once.

use vstd::prelude::*;
use crate::parallel::{bound_after, chunk_size_for, chunks_cover, lemma_bound_after_ge, par_map, split_range};
use vstd::utf8::{encode_utf8, valid_utf8};
use crate::encoding::{Encoding, spec_encode_exact, spec_encode_fixed};
use crate::field_codec::{
    FieldValueError, build_field_bytes, build_outcome, hex_pair, hex_pair_exec, non_ws_chars, not_ws,
};
use crate::schema::{Field, Schema};
use crate::record::{RecordBuffer, splice};
use crate::number::{decimal_digits, decimal_string, parse_prefixed, parse_prefixed_number, parse_unsigned, parse_unsigned_chars};
use crate::text::{chars_of, hex_join, hex_join_string, lemma_pair_utf8, pair_is_utf8_exec, push_all, push_char, trim_chars, trim_ws};
use crate::ui::hex_view::{covers, field_index_at};
use crate::schema::{as_index, first_from, lemma_first_from_found, lemma_first_from_none};

verus! {

/// Above this haystack size, search switches to a parallel chunk scan.
pub const PAR_SEARCH_THRESHOLD: usize = 1048576;

/// Minimum bytes per parallel chunk, to keep thread overhead amortized.
pub const MIN_CHUNK_BYTES: usize = 65536;

/// `u8::to_ascii_lowercase`.
pub open spec fn lower(b: u8) -> u8 {
    if 0x41 <= b && b <= 0x5A {
        (b + 32) as u8
    } else {
        b
    }
}

/// Two bytes are the same, up to ASCII case when `ci`.
pub open spec fn same_byte(a: u8, b: u8, ci: bool) -> bool {
    if ci {
        lower(a) == lower(b)
    } else {
        a == b
    }
}

/// `window` equals `needle`, up to ASCII case when `ci`.
pub open spec fn window_eq(window: Seq<u8>, needle: Seq<u8>, ci: bool) -> bool {
    &&& window.len() == needle.len()
    &&& forall|t: int| 0 <= t < needle.len() ==> same_byte(#[trigger] window[t], needle[t], ci)
}

/// The positions at which `needle` occurs in `hay`.
pub open spec fn occurs_at(hay: Seq<u8>, needle: Seq<u8>, ci: bool) -> spec_fn(int) -> bool {
    |i: int| 0 <= i && i + needle.len() <= hay.len() && window_eq(hay.subrange(i, i + needle.len()), needle, ci)
}

/// The first occurrence of a non-empty `needle` at or after `start`.
pub open spec fn spec_find(hay: Seq<u8>, needle: Seq<u8>, start: int, ci: bool) -> Option<int> {
    if needle.len() == 0 || start >= hay.len() || hay.len() - start < needle.len() {
        None
    } else {
        first_from(occurs_at(hay, needle, ci), start, hay.len() - needle.len() + 1)
    }
}

/// A match found lies at or after `start`, inside the haystack.
pub proof fn lemma_spec_find_range(hay: Seq<u8>, needle: Seq<u8>, start: int, ci: bool)
    ensures
        spec_find(hay, needle, start, ci) matches Some(x) ==> start <= x && x + needle.len() <= hay.len()
            && (occurs_at(hay, needle, ci))(x),
{
    if spec_find(hay, needle, start, ci) is Some {
        lemma_first_from_found(occurs_at(hay, needle, ci), start, hay.len() - needle.len() + 1);
    }
}

/// The positions in `[i, end)` where `p` holds, in ascending order.
pub open spec fn positions(p: spec_fn(int) -> bool, i: int, end: int) -> Seq<usize>
    decreases end - i,
{
    if i >= end {
        Seq::empty()
    } else if p(i) {
        seq![i as usize] + positions(p, i + 1, end)
    } else {
        positions(p, i + 1, end)
    }
}

/// Every occurrence of a non-empty `needle` in `hay`, in ascending order.
pub open spec fn spec_find_all(hay: Seq<u8>, needle: Seq<u8>, ci: bool) -> Seq<usize> {
    if needle.len() == 0 || hay.len() < needle.len() {
        Seq::empty()
    } else {
        positions(occurs_at(hay, needle, ci), 0, hay.len() - needle.len() + 1)
    }
}

/// The first position in `[a, c)` splits at any `b` between them.
pub proof fn lemma_first_from_split(p: spec_fn(int) -> bool, a: int, b: int, c: int)
    requires
        a <= b <= c,
    ensures
        first_from(p, a, c) == (match first_from(p, a, b) {
            Some(x) => Some(x),
            None => first_from(p, b, c),
        }),
    decreases b - a,
{
    if a < b {
        lemma_first_from_split(p, a + 1, b, c);
    }
}

/// The positions in `[a, c)` are those in `[a, b)` followed by those in `[b, c)`.
pub proof fn lemma_positions_split(p: spec_fn(int) -> bool, a: int, b: int, c: int)
    requires
        a <= b <= c,
    ensures
        positions(p, a, c) == positions(p, a, b) + positions(p, b, c),
    decreases b - a,
{
    if a < b {
        lemma_positions_split(p, a + 1, b, c);
        if p(a) {
            assert(seq![a as usize] + (positions(p, a + 1, b) + positions(p, b, c)) =~= (seq![
                a as usize,
            ] + positions(p, a + 1, b)) + positions(p, b, c));
        }
    } else {
        assert(positions(p, a, b) =~= Seq::<usize>::empty());
        assert(Seq::<usize>::empty() + positions(p, b, c) =~= positions(p, b, c));
    }
}

/// The positions found in `[a, b)` are strictly increasing, lie in the
/// range, and are exactly those where `p` holds.
pub proof fn lemma_positions_exact(p: spec_fn(int) -> bool, a: int, b: int)
    requires
        0 <= a,
        b <= usize::MAX + 1,
    ensures
        forall|i: int, j: int|
            0 <= i < j < positions(p, a, b).len() ==> positions(p, a, b)[i] < positions(p, a, b)[j],
        forall|i: int|
            0 <= i < positions(p, a, b).len() ==> a <= #[trigger] positions(p, a, b)[i] < b && p(
                positions(p, a, b)[i] as int,
            ),
        forall|x: int| a <= x < b && #[trigger] p(x) ==> positions(p, a, b).contains(x as usize),
    decreases b - a,
{
    if a < b {
        lemma_positions_exact(p, a + 1, b);
        let rest = positions(p, a + 1, b);
        if p(a) {
            let s = seq![a as usize] + rest;
            assert forall|x: int| a <= x < b && #[trigger] p(x) implies s.contains(x as usize) by {
                if x == a {
                    assert(s[0] == x as usize);
                } else {
                    let k = choose|k: int| 0 <= k < rest.len() && rest[k] == x as usize;
                    assert(s[k + 1] == x as usize);
                }
            }
        }
    }
}

/// `u8::to_ascii_lowercase`.
fn ascii_lower(b: u8) -> (r: u8)
    ensures
        r == lower(b),
{
    if 0x41 <= b && b <= 0x5A {
        b + 32
    } else {
        b
    }
}

/// The windows compared are the same up to ASCII case (or exactly).
pub fn window_matches(window: &[u8], needle: &[u8], case_insensitive: bool) -> (r: bool)
    ensures
        r == window_eq(window@, needle@, case_insensitive),
{
    if window.len() != needle.len() {
        return false;
    }
    let mut t: usize = 0;
    while t < needle.len()
        invariant
            t <= needle@.len(),
            window@.len() == needle@.len(),
            forall|k: int| 0 <= k < t ==> same_byte(#[trigger] window@[k], needle@[k], case_insensitive),
        decreases needle@.len() - t,
    {
        let a = window[t];
        let b = needle[t];
        let same = if case_insensitive {
            ascii_lower(a) == ascii_lower(b)
        } else {
            a == b
        };
        if !same {
            return false;
        }
        t = t + 1;
    }
    true
}

/// The first occurrence starting in `[body_start, body_end)`; the window
/// may run past `body_end`, so occurrences across chunk borders are found
/// by the chunk they start in.
fn scan_chunk(
    haystack: &[u8],
    needle: &[u8],
    case_insensitive: bool,
    body_start: usize,
    body_end: usize,
) -> (r: Option<usize>)
    requires
        needle@.len() > 0,
        body_start <= body_end <= haystack@.len(),
    ensures
        r == as_index(first_from(
            occurs_at(haystack@, needle@, case_insensitive),
            body_start as int,
            if body_end < haystack@.len() - needle@.len() + 1 {
                body_end as int
            } else {
                haystack@.len() - needle@.len() + 1
            },
        )),
{
    let ghost p = occurs_at(haystack@, needle@, case_insensitive);
    let n_len = needle.len();
    let overlap = n_len - 1;
    let search_end = if overlap <= haystack.len() - body_end {
        body_end + overlap
    } else {
        haystack.len()
    };
    let ghost end: int = if body_end < haystack@.len() - needle@.len() + 1 {
        body_end as int
    } else {
        haystack@.len() - needle@.len() + 1
    };
    let mut i = body_start;
    while i < body_end && n_len <= search_end - i
        invariant
            body_start <= i,
            i <= body_end || i > end,
            body_end <= haystack@.len(),
            search_end <= haystack@.len(),
            search_end == (if overlap <= haystack@.len() - body_end {
                body_end + overlap
            } else {
                haystack@.len() as int
            }),
            overlap == n_len - 1,
            n_len == needle@.len(),
            n_len > 0,
            p == occurs_at(haystack@, needle@, case_insensitive),
            end == (if body_end < haystack@.len() - needle@.len() + 1 {
                body_end as int
            } else {
                haystack@.len() - needle@.len() + 1
            }),
            first_from(p, body_start as int, end) == first_from(p, i as int, end),
        decreases body_end - i,
    {
        let w = vstd::slice::slice_subrange(haystack, i, i + n_len);
        if window_matches(w, needle, case_insensitive) {
            assert(p(i as int));
            return Some(i);
        }
        assert(!p(i as int));
        i = i + 1;
    }
    assert(first_from(p, i as int, end) is None);
    None
}

/// First match of a non-empty `needle` in `haystack[start..]`, scanning
/// one window after another.
pub fn find_subslice_seq(haystack: &[u8], needle: &[u8], start: usize, case_insensitive: bool) -> (r:
    Option<usize>)
    requires
        needle@.len() > 0,
        start <= haystack@.len(),
    ensures
        r == as_index(first_from(
            occurs_at(haystack@, needle@, case_insensitive),
            start as int,
            haystack@.len() - needle@.len() + 1,
        )),
{
    scan_chunk(haystack, needle, case_insensitive, start, haystack.len())
}

/// Find the earliest match of `needle` in `haystack[start..]`.
///
/// For haystacks of at least `PAR_SEARCH_THRESHOLD` bytes the range is split
/// into chunks, one or more per worker thread, that are scanned in parallel;
/// the earliest hit over all chunks is the answer. Below the threshold it
/// scans sequentially.
pub fn find_subslice(haystack: &[u8], needle: &[u8], start: usize, case_insensitive: bool) -> (r:
    Option<usize>)
    ensures
        r == as_index(spec_find(haystack@, needle@, start as int, case_insensitive)),
{
    if needle.len() == 0 || start >= haystack.len() || haystack.len() - start < needle.len() {
        return None;
    }
    let tail_len = haystack.len() - start;
    if tail_len < PAR_SEARCH_THRESHOLD {
        return find_subslice_seq(haystack, needle, start, case_insensitive);
    }
    let ghost p = occurs_at(haystack@, needle@, case_insensitive);
    let ghost last: int = haystack@.len() - needle@.len() + 1;
    let chunks = split_range(start, haystack.len(), chunk_size_for(tail_len, MIN_CHUNK_BYTES));
    let ghost cs = chunks@;
    let scan = |c: (usize, usize)| -> (r: Option<usize>)
        requires
            needle@.len() > 0,
            c.0 <= c.1 <= haystack@.len(),
        ensures
            r == as_index(first_from(
                occurs_at(haystack@, needle@, case_insensitive),
                c.0 as int,
                cut(c.1 as int, haystack@.len() - needle@.len() + 1),
            )),
        { scan_chunk(haystack, needle, case_insensitive, c.0, c.1) };
    assert forall|i: int| 0 <= i < cs.len() implies #[trigger] scan.requires((cs[i],)) by {
        assert(cs[i].0 < cs[i].1 <= haystack@.len());
    }
    let results = par_map(chunks, scan);
    assert forall|j: int| 0 <= j < cs.len() implies #[trigger] results@[j] == as_index(
        first_from(p, cs[j].0 as int, cut(cs[j].1 as int, last)),
    ) by {
        assert(scan.ensures((cs[j],), results@[j]));
    }
    let mut best: Option<usize> = None;
    let mut k: usize = 0;
    while k < results.len()
        invariant
            k <= results@.len(),
            results@.len() == cs.len(),
            chunks_cover(cs, start as int, haystack@.len() as int),
            p == occurs_at(haystack@, needle@, case_insensitive),
            last == haystack@.len() - needle@.len() + 1,
            1 <= needle@.len() <= haystack@.len(),
            start < last,
            forall|j: int|
                0 <= j < cs.len() ==> #[trigger] results@[j] == as_index(
                    first_from(p, cs[j].0 as int, cut(cs[j].1 as int, last)),
                ),
            best == as_index(first_from(p, start as int, cut(bound_after(cs, start as int, k as int), last))),
        decreases results@.len() - k,
    {
        proof {
            let lo = bound_after(cs, start as int, k as int);
            let hi = cs[k as int].1 as int;
            assert(cs[k as int].0 == lo);
            lemma_bound_after_ge(cs, start as int, k as int);
            lemma_combine_step(p, start as int, lo, hi, last);
            let fa = first_from(p, start as int, cut(lo, last));
            let fb = first_from(p, lo, cut(hi, last));
            if fa is Some {
                lemma_first_from_found(p, start as int, cut(lo, last));
            }
            if fb is Some {
                lemma_first_from_found(p, lo, cut(hi, last));
            }
            assert(bound_after(cs, start as int, k + 1) == hi);
        }
        let ghost fa = first_from(p, start as int, cut(bound_after(cs, start as int, k as int), last));
        let ghost fb = first_from(p, bound_after(cs, start as int, k as int), cut(cs[k as int].1 as int, last));
        let r = results[k];
        assert(results@[k as int] == as_index(
            first_from(p, cs[k as int].0 as int, cut(cs[k as int].1 as int, last)),
        ));
        assert(r == as_index(fb));
        assert(best == as_index(fa));
        proof {
            if fa is Some {
                lemma_first_from_found(p, start as int, cut(bound_after(cs, start as int, k as int), last));
            }
            if fb is Some {
                lemma_first_from_found(p, bound_after(cs, start as int, k as int), cut(cs[k as int].1 as int, last));
            }
        }
        best = match (best, r) {
            (Some(x), Some(y)) => if y < x {
                Some(y)
            } else {
                Some(x)
            },
            (Some(x), None) => Some(x),
            (None, y) => y,
        };
        assert(best == as_index(earlier(fa, fb)));
        k = k + 1;
    }
    best
}

/// `x`, but no more than `last`.
pub open spec fn cut(x: int, last: int) -> int {
    if x < last {
        x
    } else {
        last
    }
}

/// The earlier of two found positions.
pub open spec fn earlier(a: Option<int>, b: Option<int>) -> Option<int> {
    match (a, b) {
        (Some(x), Some(y)) => if y < x {
            Some(y)
        } else {
            Some(x)
        },
        (Some(x), None) => Some(x),
        (None, y) => y,
    }
}

/// The first position before `hi` is the earlier of the first one before
/// `lo` and the first one in `[lo, hi)`.
proof fn lemma_combine_step(p: spec_fn(int) -> bool, start: int, lo: int, hi: int, last: int)
    requires
        start <= lo <= hi,
        start <= last,
    ensures
        first_from(p, start, cut(hi, last)) == earlier(
            first_from(p, start, cut(lo, last)),
            first_from(p, lo, cut(hi, last)),
        ),
{
    let a = cut(lo, last);
    let b = cut(hi, last);
    if lo <= last {
        lemma_first_from_split(p, start, a, b);
        if first_from(p, start, a) is Some {
            lemma_first_from_found(p, start, a);
            if first_from(p, lo, b) is Some {
                lemma_first_from_found(p, lo, b);
            }
        }
    } else {
        assert(first_from(p, lo, b) is None);
    }
}

/// Every position in `[body_start, body_end)` where `needle` starts.
fn collect_chunk(
    haystack: &[u8],
    needle: &[u8],
    case_insensitive: bool,
    body_start: usize,
    body_end: usize,
) -> (r: Vec<usize>)
    requires
        needle@.len() > 0,
        body_start <= body_end <= haystack@.len(),
    ensures
        r@ == positions(
            occurs_at(haystack@, needle@, case_insensitive),
            body_start as int,
            cut(body_end as int, haystack@.len() - needle@.len() + 1),
        ),
{
    let ghost p = occurs_at(haystack@, needle@, case_insensitive);
    let ghost end: int = cut(body_end as int, haystack@.len() - needle@.len() + 1);
    let n_len = needle.len();
    let mut local: Vec<usize> = Vec::new();
    let mut i = body_start;
    while i < body_end && n_len <= haystack.len() - i
        invariant
            body_start <= i,
            i <= body_end || i > end,
            body_end <= haystack@.len(),
            n_len == needle@.len(),
            n_len > 0,
            p == occurs_at(haystack@, needle@, case_insensitive),
            end == cut(body_end as int, haystack@.len() - needle@.len() + 1),
            i <= end ==> positions(p, body_start as int, end) == local@ + positions(p, i as int, end),
            i > end ==> positions(p, body_start as int, end) == local@,
        decreases body_end - i,
    {
        let w = vstd::slice::slice_subrange(haystack, i, i + n_len);
        let ghost before = local@;
        if window_matches(w, needle, case_insensitive) {
            assert(p(i as int));
            local.push(i);
            assert(before + positions(p, i as int, end) =~= local@ + positions(p, i + 1, end));
        } else {
            assert(!p(i as int));
        }
        i = i + 1;
        proof {
            if i > end {
                assert(positions(p, i - 1, end) =~= Seq::<usize>::empty());
                assert(local@ + Seq::<usize>::empty() =~= local@);
            }
        }
    }
    proof {
        if i <= end {
            assert(positions(p, i as int, end) =~= Seq::<usize>::empty());
            assert(local@ + Seq::<usize>::empty() =~= local@);
        }
    }
    local
}

/// Find every match of `needle` in `haystack`, in ascending order.
///
/// Large haystacks are split into chunks scanned in parallel; each chunk
/// reports the matches that start inside it, and the chunks' lists are
/// joined in chunk order.
pub fn find_all_subslice(haystack: &[u8], needle: &[u8], case_insensitive: bool) -> (r: Vec<usize>)
    ensures
        r@ == spec_find_all(haystack@, needle@, case_insensitive),
{
    if needle.len() == 0 || haystack.len() < needle.len() {
        return Vec::new();
    }
    let ghost p = occurs_at(haystack@, needle@, case_insensitive);
    let ghost last: int = haystack@.len() - needle@.len() + 1;
    if haystack.len() < PAR_SEARCH_THRESHOLD {
        return collect_chunk(haystack, needle, case_insensitive, 0, haystack.len());
    }
    let chunks = split_range(0, haystack.len(), chunk_size_for(haystack.len(), MIN_CHUNK_BYTES));
    let ghost cs = chunks@;
    let collect = |c: (usize, usize)| -> (r: Vec<usize>)
        requires
            needle@.len() > 0,
            c.0 <= c.1 <= haystack@.len(),
        ensures
            r@ == positions(
                occurs_at(haystack@, needle@, case_insensitive),
                c.0 as int,
                cut(c.1 as int, haystack@.len() - needle@.len() + 1),
            ),
        { collect_chunk(haystack, needle, case_insensitive, c.0, c.1) };
    assert forall|i: int| 0 <= i < cs.len() implies #[trigger] collect.requires((cs[i],)) by {
        assert(cs[i].0 < cs[i].1 <= haystack@.len());
    }
    let results = par_map(chunks, collect);
    assert forall|j: int| 0 <= j < cs.len() implies (#[trigger] results@[j])@ == positions(
        p,
        cs[j].0 as int,
        cut(cs[j].1 as int, last),
    ) by {
        assert(collect.ensures((cs[j],), results@[j]));
    }
    let mut out: Vec<usize> = Vec::new();
    let mut k: usize = 0;
    while k < results.len()
        invariant
            k <= results@.len(),
            results@.len() == cs.len(),
            chunks_cover(cs, 0, haystack@.len() as int),
            p == occurs_at(haystack@, needle@, case_insensitive),
            last == haystack@.len() - needle@.len() + 1,
            1 <= needle@.len() <= haystack@.len(),
            forall|j: int|
                0 <= j < cs.len() ==> (#[trigger] results@[j])@ == positions(
                    p,
                    cs[j].0 as int,
                    cut(cs[j].1 as int, last),
                ),
            out@ == positions(p, 0, cut(bound_after(cs, 0, k as int), last)),
        decreases results@.len() - k,
    {
        proof {
            let lo = bound_after(cs, 0, k as int);
            let hi = cs[k as int].1 as int;
            lemma_bound_after_ge(cs, 0, k as int);
            assert(bound_after(cs, 0, k + 1) == hi);
            if lo <= last {
                lemma_positions_split(p, 0, cut(lo, last), cut(hi, last));
            } else {
                assert(positions(p, lo, cut(hi, last)) =~= Seq::<usize>::empty());
            }
        }
        let local = &results[k];
        let ghost before = out@;
        let mut t: usize = 0;
        while t < local.len()
            invariant
                t <= local@.len(),
                out@ == before + local@.take(t as int),
            decreases local@.len() - t,
        {
            out.push(local[t]);
            t = t + 1;
            assert(out@ =~= before + local@.take(t as int));
        }
        assert(local@.take(local@.len() as int) =~= local@);
        k = k + 1;
        proof {
            let lo = bound_after(cs, 0, k - 1);
            if lo > last {
                assert(out@ =~= before);
            }
        }
    }
    proof {
        lemma_bound_after_ge(cs, 0, cs.len() as int);
    }
    out
}

/// The positions reported by the parallel search are those of the
/// sequential scan: the first match at or after `start` is the same, for
/// every haystack, non-empty needle and `start` within the haystack.
pub proof fn lemma_parallel_agrees_with_sequential(
    haystack: Seq<u8>,
    needle: Seq<u8>,
    start: int,
    ci: bool,
)
    requires
        needle.len() > 0,
        0 <= start <= haystack.len(),
    ensures
        spec_find(haystack, needle, start, ci) == first_from(
            occurs_at(haystack, needle, ci),
            start,
            haystack.len() - needle.len() + 1,
        ),
{
}

/// What `find_all_subslice` returns is strictly increasing and holds
/// exactly the positions at which the needle occurs.
pub proof fn lemma_find_all_exact(haystack: Seq<u8>, needle: Seq<u8>, ci: bool)
    requires
        haystack.len() <= usize::MAX,
    ensures
        forall|i: int, j: int|
            0 <= i < j < spec_find_all(haystack, needle, ci).len() ==> spec_find_all(
                haystack,
                needle,
                ci,
            )[i] < spec_find_all(haystack, needle, ci)[j],
        forall|x: int|
            spec_find_all(haystack, needle, ci).contains(x as usize) && 0 <= x <= usize::MAX
                <==> (needle.len() > 0 && #[trigger] occurs_at(haystack, needle, ci)(x)),
{
    if needle.len() > 0 && haystack.len() >= needle.len() {
        let p = occurs_at(haystack, needle, ci);
        let end = haystack.len() - needle.len() + 1;
        lemma_positions_exact(p, 0, end);
        assert forall|x: int|
            spec_find_all(haystack, needle, ci).contains(x as usize) && 0 <= x <= usize::MAX
                implies #[trigger] p(x) by {
            let k = choose|k: int|
                0 <= k < positions(p, 0, end).len() && positions(p, 0, end)[k] == x as usize;
            assert(positions(p, 0, end)[k] as int == x);
        }
    }
}


/// What the query is matched as.
#[derive(Clone, Copy, Debug, PartialEq, Eq, Structural)]
pub enum SearchMode {
    /// The query text, encoded in the chosen encoding.
    Text,
    /// Hex bytes such as `30 31 32` or `303132`.
    HexBytes,
    /// The query as the selected field stores it.
    FieldValue,
}

impl Default for SearchMode {
    fn default() -> (r: Self)
        ensures
            r == SearchMode::Text,
    {
        SearchMode::Text
    }
}

pub struct SearchState {
    pub query: String,
    pub replace: String,
    pub mode: SearchMode,
    pub encoding: Encoding,
    pub field_idx: Option<usize>,
    pub case_insensitive: bool,
    pub last_match_abs: Option<usize>,
    pub jump_to: String,
}

impl Default for SearchState {
    fn default() -> (r: Self)
        ensures
            r.query@.len() == 0,
            r.replace@.len() == 0,
            r.mode == SearchMode::Text,
            r.encoding == Encoding::ShiftJis,
            r.field_idx is None,
            !r.case_insensitive,
            r.last_match_abs is None,
            r.jump_to@.len() == 0,
    {
        SearchState {
            query: String::new(),
            replace: String::new(),
            mode: SearchMode::default(),
            encoding: Encoding::default(),
            field_idx: None,
            case_insensitive: false,
            last_match_abs: None,
            jump_to: String::new(),
        }
    }
}

/// Result of a single forward search step.
#[derive(Clone, Copy, Debug, PartialEq, Eq, Structural)]
pub enum FindOutcome {
    /// A match was found at the given absolute byte offset.
    /// `wrapped` is true if we had to scan from offset 0 to find it (i.e. the
    /// query went past the current position).
    Hit { offset: usize, wrapped: bool },
    NoMatch,
}

/// Why a search or replace could not run.
#[derive(Clone, Copy, Debug, PartialEq, Eq, Structural)]
pub enum SearchError {
    /// The search pattern is empty.
    EmptyPattern,
    /// The query holds a character the chosen encoding cannot represent.
    Unencodable,
    /// The replacement cannot be represented in the chosen encoding within
    /// the pattern's length.
    UnencodableReplacement,
    /// A field-value search without a selected field.
    NoFieldSelected,
    /// The value is not valid for the selected field.
    Field(FieldValueError),
    /// The hex text has an odd number of bytes.
    OddHexLength,
    /// A two-byte chunk of the hex text is not UTF-8.
    NonAsciiHex,
    /// A two-byte chunk of the hex text is not a hex byte.
    InvalidHexPair { first: u8, second: u8 },
    /// Replacement and pattern differ in length (only same-length
    /// replacement is possible).
    LengthMismatch { replacement: usize, pattern: usize },
}

/// Hex pairs of `cb` from chunk `k` on, or the first chunk's error.
pub open spec fn hex_pairs(cb: Seq<u8>, k: int) -> Result<Seq<u8>, SearchError>
    decreases cb.len() - 2 * k,
{
    if k < 0 || 2 * k + 2 > cb.len() {
        Ok(Seq::empty())
    } else {
        let b0 = cb[2 * k];
        let b1 = cb[2 * k + 1];
        if !valid_utf8(seq![b0, b1]) {
            Err(SearchError::NonAsciiHex)
        } else {
            match hex_pair(b0, b1) {
                None => Err(SearchError::InvalidHexPair { first: b0, second: b1 }),
                Some(v) => match hex_pairs(cb, k + 1) {
                    Ok(rest) => Ok(seq![v] + rest),
                    Err(e) => Err(e),
                },
            }
        }
    }
}

/// Bytes written as hex in `text`: whitespace is ignored, and the UTF-8
/// bytes of the rest are read two at a time.
pub open spec fn spec_parse_hex(text: Seq<char>) -> Result<Seq<u8>, SearchError> {
    let cb = encode_utf8(text.filter(not_ws()));
    if cb.len() % 2 != 0 {
        Err(SearchError::OddHexLength)
    } else {
        hex_pairs(cb, 0)
    }
}

/// `out` in front of what the rest of the parse gives.
pub open spec fn after(out: Seq<u8>, rest: Result<Seq<u8>, SearchError>) -> Result<Seq<u8>, SearchError> {
    match rest {
        Ok(s) => Ok(out + s),
        Err(e) => Err(e),
    }
}

/// Parse hex text into bytes.
pub fn parse_hex_bytes(s: &str) -> (r: Result<Vec<u8>, SearchError>)
    ensures
        match spec_parse_hex(s@) {
            Ok(b) => r matches Ok(v) && v@ == b,
            Err(e) => r == Err::<Vec<u8>, SearchError>(e),
        },
{
    let cleaned = non_ws_chars(s);
    let cb = cleaned.as_str().as_bytes();
    if cb.len() % 2 != 0 {
        return Err(SearchError::OddHexLength);
    }
    let mut out: Vec<u8> = Vec::new();
    let n = cb.len() / 2;
    let mut k: usize = 0;
    while k < n
        invariant
            k <= n,
            n * 2 == cb@.len(),
            cb@.len() == cb.len(),
            cb@ == encode_utf8(s@.filter(not_ws())),
            hex_pairs(cb@, 0) == after(out@, hex_pairs(cb@, k as int)),
        decreases n - k,
    {
        let b0 = cb[2 * k];
        let b1 = cb[2 * k + 1];
        proof {
            lemma_pair_utf8(b0, b1);
        }
        if !pair_is_utf8_exec(b0, b1) {
            return Err(SearchError::NonAsciiHex);
        }
        match hex_pair_exec(b0, b1) {
            None => {
                return Err(SearchError::InvalidHexPair { first: b0, second: b1 });
            },
            Some(v) => {
                proof {
                    match hex_pairs(cb@, k + 1) {
                        Ok(rest) => {
                            assert(out@.push(v) + rest =~= out@ + (seq![v] + rest));
                        },
                        _ => {},
                    }
                }
                out.push(v);
                k = k + 1;
            },
        }
    }
    assert(out@ + Seq::<u8>::empty() =~= out@);
    Ok(out)
}

/// The pattern (or replacement) bytes for `text`, its error, or `None` on
/// the inputs on which it cannot be built (a field index out of range, or
/// a field value the codec cannot complete).
pub open spec fn field_value_bytes(schema: Schema, field_idx: Option<usize>, text: Seq<char>) -> Option<
    Result<Seq<u8>, SearchError>,
> {
    match field_idx {
        None => Some(Err(SearchError::NoFieldSelected)),
        Some(i) => if i >= schema.fields@.len() {
            None
        } else {
            let f = schema.fields@[i as int];
            match build_outcome(f, schema.spec_field_encoding(f), text) {
                None => None,
                Some(Ok(b)) => Some(Ok(b)),
                Some(Err(e)) => Some(Err(SearchError::Field(e))),
            }
        },
    }
}

/// The bytes searched for.
pub open spec fn pattern_outcome(state: SearchState, schema: Schema) -> Option<Result<Seq<u8>, SearchError>> {
    match state.mode {
        SearchMode::Text => Some(
            match spec_encode_exact(state.encoding, state.query@) {
                Some(b) => Ok(b),
                None => Err(SearchError::Unencodable),
            },
        ),
        SearchMode::HexBytes => Some(spec_parse_hex(state.query@)),
        SearchMode::FieldValue => field_value_bytes(schema, state.field_idx, state.query@),
    }
}

/// The bytes written in place of a match of `pattern_len` bytes.
pub open spec fn replacement_outcome(state: SearchState, schema: Schema, pattern_len: nat) -> Option<
    Result<Seq<u8>, SearchError>,
> {
    match state.mode {
        SearchMode::Text => Some(
            match spec_encode_fixed(state.encoding, state.replace@, pattern_len, 0x20) {
                Some(b) => Ok(b),
                None => Err(SearchError::UnencodableReplacement),
            },
        ),
        SearchMode::HexBytes => Some(spec_parse_hex(state.replace@)),
        SearchMode::FieldValue => field_value_bytes(schema, state.field_idx, state.replace@),
    }
}

fn field_value_pattern(schema: &Schema, field_idx: Option<usize>, text: &str) -> (r: Result<
    Vec<u8>,
    SearchError,
>)
    requires
        field_value_bytes(*schema, field_idx, text@) is Some,
    ensures
        match field_value_bytes(*schema, field_idx, text@)->0 {
            Ok(b) => r matches Ok(v) && v@ == b,
            Err(e) => r == Err::<Vec<u8>, SearchError>(e),
        },
{
    let idx = match field_idx {
        Some(i) => i,
        None => return Err(SearchError::NoFieldSelected),
    };
    let field = &schema.fields[idx];
    let enc = schema.field_encoding(field);
    match build_field_bytes(field, enc, text) {
        Ok(b) => Ok(b),
        Err(e) => Err(SearchError::Field(e)),
    }
}

/// The bytes to search for, from the query.
pub fn build_pattern(state: &SearchState, schema: &Schema) -> (r: Result<Vec<u8>, SearchError>)
    requires
        pattern_outcome(*state, *schema) is Some,
    ensures
        match pattern_outcome(*state, *schema)->0 {
            Ok(b) => r matches Ok(v) && v@ == b,
            Err(e) => r == Err::<Vec<u8>, SearchError>(e),
        },
{
    match state.mode {
        SearchMode::Text => match state.encoding.encode_exact(state.query.as_str()) {
            Some(b) => Ok(b),
            None => Err(SearchError::Unencodable),
        },
        SearchMode::HexBytes => parse_hex_bytes(state.query.as_str()),
        SearchMode::FieldValue => field_value_pattern(schema, state.field_idx, state.query.as_str()),
    }
}

/// The bytes written over a match of `pattern`, from the replacement text.
pub fn build_replacement(state: &SearchState, schema: &Schema, pattern: &[u8]) -> (r: Result<
    Vec<u8>,
    SearchError,
>)
    requires
        replacement_outcome(*state, *schema, pattern@.len()) is Some,
    ensures
        match replacement_outcome(*state, *schema, pattern@.len())->0 {
            Ok(b) => r matches Ok(v) && v@ == b,
            Err(e) => r == Err::<Vec<u8>, SearchError>(e),
        },
{
    match state.mode {
        SearchMode::Text => match state.encoding.encode_fixed(state.replace.as_str(), pattern.len(), 0x20) {
            Some(b) => Ok(b),
            None => Err(SearchError::UnencodableReplacement),
        },
        SearchMode::HexBytes => parse_hex_bytes(state.replace.as_str()),
        SearchMode::FieldValue => field_value_pattern(schema, state.field_idx, state.replace.as_str()),
    }
}


/// Where the next search starts: just after the last hit, else at the
/// cursor in the current record.
pub open spec fn search_start(state: SearchState, buffer: RecordBuffer, schema: Schema) -> int {
    match state.last_match_abs {
        Some(p) => p + 1,
        None => buffer.current_record * schema.spec_stride() + buffer.cursor_in_record,
    }
}

/// The absolute offsets searched by a field-value search stay in range.
pub open spec fn start_fits(state: SearchState, buffer: RecordBuffer, schema: Schema) -> bool {
    &&& schema.stride_fits()
    &&& search_start(state, buffer, schema) <= usize::MAX
}

/// First record in `[rec, to)` whose field bytes equal `pat`, as the
/// field's absolute offset; the scan stops at a record whose field runs
/// past the data.
pub open spec fn field_scan(
    data: Seq<u8>,
    stride: int,
    off: int,
    len: int,
    pat: Seq<u8>,
    rec: int,
    to: int,
) -> Option<int>
    decreases to - rec,
{
    if rec >= to {
        None
    } else {
        let abs = rec * stride + off;
        if abs + len > data.len() {
            None
        } else if data.subrange(abs, abs + len) == pat {
            Some(abs)
        } else {
            field_scan(data, stride, off, len, pat, rec + 1, to)
        }
    }
}

/// `ceil(a / b)`.
pub open spec fn div_ceil(a: int, b: int) -> int {
    if a % b == 0 {
        a / b
    } else {
        a / b + 1
    }
}

/// The outcome of a search for `pat` from `ps`, wrapping around once.
pub open spec fn next_outcome(
    mode: SearchMode,
    data: Seq<u8>,
    stride: int,
    field: Field,
    pat: Seq<u8>,
    ps: int,
    ci: bool,
) -> FindOutcome {
    if mode == SearchMode::FieldValue {
        let from_rec = div_ceil(ps, stride);
        let n = (data.len() as int) / stride;
        match field_scan(data, stride, field.offset as int, field.length as int, pat, from_rec, n) {
            Some(a) => FindOutcome::Hit { offset: a as usize, wrapped: false },
            None => match field_scan(
                data,
                stride,
                field.offset as int,
                field.length as int,
                pat,
                0,
                if from_rec < n {
                    from_rec
                } else {
                    n
                },
            ) {
                Some(a) => FindOutcome::Hit { offset: a as usize, wrapped: true },
                None => FindOutcome::NoMatch,
            },
        }
    } else {
        match spec_find(data, pat, ps, ci) {
            Some(x) => FindOutcome::Hit { offset: x as usize, wrapped: false },
            None => if ps > 0 {
                match spec_find(data, pat, 0, ci) {
                    Some(y) => if y < ps {
                        FindOutcome::Hit { offset: y as usize, wrapped: true }
                    } else {
                        FindOutcome::NoMatch
                    },
                    None => FindOutcome::NoMatch,
                }
            } else {
                FindOutcome::NoMatch
            },
        }
    }
}

/// The inputs on which `find_next` completes.
pub open spec fn find_defined(state: SearchState, buffer: RecordBuffer, schema: Schema) -> bool {
    &&& pattern_outcome(state, schema) is Some
    &&& start_fits(state, buffer, schema)
    &&& (state.mode == SearchMode::FieldValue ==> schema.spec_stride() > 0)
}

/// What `find_next` answers.
pub open spec fn find_next_outcome(state: SearchState, buffer: RecordBuffer, schema: Schema) -> Result<
    FindOutcome,
    SearchError,
> {
    match pattern_outcome(state, schema)->0 {
        Err(e) => Err(e),
        Ok(pat) => if pat.len() == 0 {
            Err(SearchError::EmptyPattern)
        } else {
            Ok(
                next_outcome(
                    state.mode,
                    buffer.bytes(),
                    schema.spec_stride(),
                    schema.fields@[state.field_idx->0 as int],
                    pat,
                    search_start(state, buffer, schema),
                    state.case_insensitive,
                ),
            )
        },
    }
}

fn scan_field_value(
    data: &[u8],
    stride: usize,
    off: usize,
    len: usize,
    pat: &[u8],
    from: usize,
    to: usize,
) -> (r: Option<usize>)
    requires
        stride > 0,
        to <= (data@.len() as int) / (stride as int),
    ensures
        r == as_index(field_scan(data@, stride as int, off as int, len as int, pat@, from as int, to as int)),
{
    let ghost f = |rec: int| field_scan(data@, stride as int, off as int, len as int, pat@, rec, to as int);
    let dlen = data.len();
    let mut rec = from;
    while rec < to
        invariant
            dlen == data@.len(),
            stride > 0,
            to <= (data@.len() as int) / (stride as int),
            from <= rec,
            f == (|rec: int| field_scan(data@, stride as int, off as int, len as int, pat@, rec, to as int)),
            f(from as int) == f(rec as int),
        decreases to - rec,
    {
        assert(rec * stride < data@.len()) by (nonlinear_arith)
            requires
                rec < to,
                to <= (data@.len() as int) / (stride as int),
                stride > 0,
        ;
        let base = rec * stride;
        let abs = match base.checked_add(off) {
            Some(a) => a,
            None => return None,
        };
        let end = match abs.checked_add(len) {
            Some(e) => e,
            None => return None,
        };
        if end > data.len() {
            return None;
        }
        let w = vstd::slice::slice_subrange(data, abs, end);
        if window_matches(w, pat, false) {
            assert(w@ =~= pat@);
            return Some(abs);
        }
        assert(w@ != pat@);
        rec = rec + 1;
    }
    None
}

/// Find the next match after `state.last_match_abs` (or after the current
/// cursor). If we hit the end without finding anything, wrap around to
/// offset 0 so matches that lie before the current record are found too.
pub fn find_next(state: &SearchState, buffer: &RecordBuffer, schema: &Schema) -> (r: Result<
    FindOutcome,
    SearchError,
>)
    requires
        find_defined(*state, *buffer, *schema),
    ensures
        r == find_next_outcome(*state, *buffer, *schema),
{
    let pattern = match build_pattern(state, schema) {
        Ok(p) => p,
        Err(e) => return Err(e),
    };
    if pattern.len() == 0 {
        return Err(SearchError::EmptyPattern);
    }
    let primary_start = match state.last_match_abs {
        Some(p) => p + 1,
        None => buffer.record_start(schema, buffer.current_record) + buffer.cursor_in_record,
    };
    let data = buffer.data.as_slice();
    if state.mode == SearchMode::FieldValue {
        let field_idx = match state.field_idx {
            Some(i) => i,
            None => return Err(SearchError::NoFieldSelected),
        };
        let field = &schema.fields[field_idx];
        let stride = schema.stride();
        let rec_count = buffer.record_count(schema);
        let q = primary_start / stride;
        let from_rec = if primary_start % stride == 0 {
            q
        } else {
            assert(q < primary_start) by (nonlinear_arith)
                requires
                    q == primary_start / stride,
                    primary_start % stride != 0,
                    stride >= 1,
            ;
            q + 1
        };
        match scan_field_value(data, stride, field.offset, field.length, pattern.as_slice(), from_rec, rec_count) {
            Some(abs) => {
                return Ok(FindOutcome::Hit { offset: abs, wrapped: false });
            },
            None => {},
        }
        let wrap_end = if from_rec < rec_count {
            from_rec
        } else {
            rec_count
        };
        match scan_field_value(data, stride, field.offset, field.length, pattern.as_slice(), 0, wrap_end) {
            Some(abs) => {
                return Ok(FindOutcome::Hit { offset: abs, wrapped: true });
            },
            None => {},
        }
        return Ok(FindOutcome::NoMatch);
    }
    match find_subslice(data, pattern.as_slice(), primary_start, state.case_insensitive) {
        Some(off) => {
            return Ok(FindOutcome::Hit { offset: off, wrapped: false });
        },
        None => {},
    }
    if primary_start > 0 {
        let dlen = data.len();
        proof {
            lemma_spec_find_range(data@, pattern@, 0, state.case_insensitive);
        }
        match find_subslice(data, pattern.as_slice(), 0, state.case_insensitive) {
            Some(off) => {
                if off < primary_start {
                    return Ok(FindOutcome::Hit { offset: off, wrapped: true });
                }
            },
            None => {},
        }
    }
    Ok(FindOutcome::NoMatch)
}


/// The pattern and replacement of a replace, or why it cannot run; `None`
/// on the inputs on which they cannot be built.
pub open spec fn replace_plan(state: SearchState, schema: Schema) -> Option<
    Result<(Seq<u8>, Seq<u8>), SearchError>,
> {
    match pattern_outcome(state, schema) {
        None => None,
        Some(Err(e)) => Some(Err(e)),
        Some(Ok(pat)) => match replacement_outcome(state, schema, pat.len()) {
            None => None,
            Some(Err(e)) => Some(Err(e)),
            Some(Ok(rep)) => Some(
                if pat.len() == 0 {
                    Err(SearchError::EmptyPattern)
                } else if rep.len() != pat.len() {
                    Err(
                        SearchError::LengthMismatch {
                            replacement: rep.len() as usize,
                            pattern: pat.len() as usize,
                        },
                    )
                } else {
                    Ok((pat, rep))
                },
            ),
        },
    }
}

/// `part` written over `bytes` at each of `offs` in turn.
pub open spec fn splice_all(bytes: Seq<u8>, offs: Seq<usize>, part: Seq<u8>) -> Seq<u8>
    decreases offs.len(),
{
    if offs.len() == 0 {
        bytes
    } else {
        splice_all(splice(bytes, offs[0] as int, part), offs.drop_first(), part)
    }
}

/// Write `rep` over `data` at `off`.
fn overwrite(data: &mut Vec<u8>, off: usize, rep: &[u8])
    requires
        off + rep@.len() <= old(data)@.len(),
    ensures
        final(data)@ == splice(old(data)@, off as int, rep@),
{
    let ghost d0 = data@;
    let dlen = data.len();
    let mut t: usize = 0;
    while t < rep.len()
        invariant
            dlen == d0.len(),
            t <= rep@.len(),
            off + rep@.len() <= d0.len(),
            data@.len() == d0.len(),
            data@ == splice(d0, off as int, rep@.take(t as int)),
        decreases rep@.len() - t,
    {
        data.set(off + t, rep[t]);
        t = t + 1;
        assert(data@ =~= splice(d0, off as int, rep@.take(t as int)));
    }
    assert(rep@.take(rep@.len() as int) =~= rep@);
}

/// Replace the next match after the last hit (or the cursor) with the
/// replacement, which must have the pattern's length.
pub fn replace_next(state: &mut SearchState, buffer: &mut RecordBuffer, schema: &Schema) -> (r: Result<
    Option<usize>,
    SearchError,
>)
    requires
        replace_plan(*old(state), *schema) is Some,
        start_fits(*old(state), *old(buffer), *schema),
    ensures
        match replace_plan(*old(state), *schema)->0 {
            Err(e) => {
                &&& r == Err::<Option<usize>, SearchError>(e)
                &&& *final(state) == *old(state)
                &&& *final(buffer) == *old(buffer)
            },
            Ok((pat, rep)) => match spec_find(
                old(buffer).bytes(),
                pat,
                search_start(*old(state), *old(buffer), *schema),
                old(state).case_insensitive,
            ) {
                Some(off) => {
                    &&& r == Ok::<Option<usize>, SearchError>(Some(off as usize))
                    &&& final(buffer).bytes() == splice(old(buffer).bytes(), off, rep)
                    &&& final(buffer).data is Owned
                    &&& final(buffer).modified
                    &&& final(buffer).path == old(buffer).path
                    &&& final(buffer).current_record == old(buffer).current_record
                    &&& final(buffer).cursor_in_record == old(buffer).cursor_in_record
                    &&& *final(state) == (SearchState { last_match_abs: Some(off as usize), ..*old(state) })
                },
                None => {
                    &&& r == Ok::<Option<usize>, SearchError>(None)
                    &&& *final(state) == *old(state)
                    &&& *final(buffer) == *old(buffer)
                },
            },
        },
{
    let pat = match build_pattern(state, schema) {
        Ok(p) => p,
        Err(e) => return Err(e),
    };
    let rep = match build_replacement(state, schema, pat.as_slice()) {
        Ok(r) => r,
        Err(e) => return Err(e),
    };
    if pat.len() == 0 {
        return Err(SearchError::EmptyPattern);
    }
    if rep.len() != pat.len() {
        return Err(SearchError::LengthMismatch { replacement: rep.len(), pattern: pat.len() });
    }
    let start = match state.last_match_abs {
        Some(p) => p + 1,
        None => buffer.record_start(schema, buffer.current_record) + buffer.cursor_in_record,
    };
    let total = buffer.data.len();
    proof {
        lemma_spec_find_range(buffer.bytes(), pat@, start as int, state.case_insensitive);
    }
    let found = find_subslice(buffer.data.as_slice(), pat.as_slice(), start, state.case_insensitive);
    match found {
        Some(off) => {
            let data = buffer.data.make_owned();
            overwrite(data, off, rep.as_slice());
            buffer.modified = true;
            state.last_match_abs = Some(off);
            Ok(Some(off))
        },
        None => Ok(None),
    }
}

/// The matches `all` (ascending) that are replaced when replacing from left
/// to right: each one that starts at or after `from`, the end of the last
/// one replaced, is kept; one that overlaps it is skipped.
pub open spec fn disjoint_matches(all: Seq<usize>, from: int, len: nat) -> Seq<usize>
    decreases all.len(),
{
    if all.len() == 0 {
        Seq::empty()
    } else if all[0] >= from {
        seq![all[0]] + disjoint_matches(all.drop_first(), all[0] + len, len)
    } else {
        disjoint_matches(all.drop_first(), from, len)
    }
}

/// The matches replaced by `replace_all` are matches, start at or after
/// `from`, and none overlaps the next one.
pub proof fn lemma_disjoint_matches_apart(all: Seq<usize>, from: int, len: nat)
    ensures
        ({
            let sel = disjoint_matches(all, from, len);
            &&& forall|i: int| 0 <= i < sel.len() ==> all.contains(#[trigger] sel[i]) && sel[i] >= from
            &&& forall|i: int, j: int| 0 <= i < j < sel.len() ==> #[trigger] sel[i] + len <= #[trigger] sel[j]
        }),
    decreases all.len(),
{
    if all.len() > 0 {
        let t = all.drop_first();
        if all[0] >= from {
            lemma_disjoint_matches_apart(t, all[0] + len, len);
            let rest = disjoint_matches(t, all[0] + len, len);
            let sel = disjoint_matches(all, from, len);
            assert(sel == seq![all[0]] + rest);
            assert forall|i: int| 0 <= i < sel.len() implies all.contains(#[trigger] sel[i]) && sel[i] >= from by {
                if i == 0 {
                    assert(all[0] == sel[0]);
                } else {
                    assert(sel[i] == rest[i - 1]);
                    assert(t.contains(rest[i - 1]));
                    let w = choose|w: int| 0 <= w < t.len() && t[w] == rest[i - 1];
                    assert(all[w + 1] == t[w]);
                }
            }
            assert forall|i: int, j: int| 0 <= i < j < sel.len() implies #[trigger] sel[i] + len <= #[trigger] sel[j] by {
                assert(sel[j] == rest[j - 1]);
                if i > 0 {
                    assert(sel[i] == rest[i - 1]);
                }
            }
        } else {
            lemma_disjoint_matches_apart(t, from, len);
            let sel = disjoint_matches(all, from, len);
            assert(sel == disjoint_matches(t, from, len));
            assert forall|i: int| 0 <= i < sel.len() implies all.contains(#[trigger] sel[i]) && sel[i] >= from by {
                assert(t.contains(sel[i]));
                let w = choose|w: int| 0 <= w < t.len() && t[w] == sel[i];
                assert(all[w + 1] == t[w]);
            }
        }
    }
}

proof fn lemma_disjoint_len(all: Seq<usize>, from: int, len: nat)
    ensures
        disjoint_matches(all, from, len).len() <= all.len(),
    decreases all.len(),
{
    if all.len() > 0 {
        lemma_disjoint_len(all.drop_first(), from, len);
        lemma_disjoint_len(all.drop_first(), all[0] + len, len);
    }
}

/// Replace every match with the replacement, which must have the
/// pattern's length, from left to right: a match that overlaps one already
/// replaced is skipped, so every replaced position still held the pattern
/// when it was written. Returns how many were replaced.
pub fn replace_all(state: &mut SearchState, buffer: &mut RecordBuffer, schema: &Schema) -> (r: Result<
    usize,
    SearchError,
>)
    requires
        replace_plan(*old(state), *schema) is Some,
    ensures
        *final(state) == *old(state),
        match replace_plan(*old(state), *schema)->0 {
            Err(e) => {
                &&& r == Err::<usize, SearchError>(e)
                &&& *final(buffer) == *old(buffer)
            },
            Ok((pat, rep)) => {
                let sel = disjoint_matches(
                    spec_find_all(old(buffer).bytes(), pat, old(state).case_insensitive),
                    0,
                    pat.len(),
                );
                &&& r == Ok::<usize, SearchError>(sel.len() as usize)
                &&& sel.len() == 0 ==> *final(buffer) == *old(buffer)
                &&& sel.len() > 0 ==> {
                    &&& final(buffer).bytes() == splice_all(old(buffer).bytes(), sel, rep)
                    &&& final(buffer).data is Owned
                    &&& final(buffer).modified
                    &&& final(buffer).path == old(buffer).path
                    &&& final(buffer).current_record == old(buffer).current_record
                    &&& final(buffer).cursor_in_record == old(buffer).cursor_in_record
                }
            },
        },
{
    let pat = match build_pattern(state, schema) {
        Ok(p) => p,
        Err(e) => return Err(e),
    };
    let rep = match build_replacement(state, schema, pat.as_slice()) {
        Ok(r) => r,
        Err(e) => return Err(e),
    };
    if pat.len() == 0 {
        return Err(SearchError::EmptyPattern);
    }
    if rep.len() != pat.len() {
        return Err(SearchError::LengthMismatch { replacement: rep.len(), pattern: pat.len() });
    }
    let hits = find_all_subslice(buffer.data.as_slice(), pat.as_slice(), state.case_insensitive);
    let ghost all = hits@;
    let ghost len: nat = pat@.len();
    let ghost sel = disjoint_matches(all, 0, len);
    if hits.len() == 0 {
        assert(sel =~= Seq::<usize>::empty());
        return Ok(0);
    }
    let ghost b0 = buffer.bytes();
    let blen = buffer.data.len();
    let ghost p = occurs_at(b0, pat@, state.case_insensitive);
    proof {
        lemma_positions_exact(p, 0, b0.len() - pat@.len() + 1);
    }
    // Nothing is written before the first match, which is always kept.
    assert(all.skip(0) =~= all);
    assert(all[0] >= 0);
    assert(sel.len() > 0);
    let data = buffer.data.make_owned();
    let mut k: usize = 0;
    let mut next_free: usize = 0;
    let mut count: usize = 0;
    while k < hits.len()
        invariant
            k <= all.len(),
            hits@ == all,
            len == pat@.len(),
            rep@.len() == pat@.len(),
            pat@.len() <= b0.len(),
            blen == b0.len(),
            all.len() == hits.len(),
            data@.len() == b0.len(),
            sel == disjoint_matches(all, 0, len),
            forall|i: int| 0 <= i < all.len() ==> 0 <= #[trigger] all[i] < b0.len() - pat@.len() + 1,
            count + disjoint_matches(all.skip(k as int), next_free as int, len).len() == sel.len(),
            splice_all(b0, sel, rep@) == splice_all(
                data@,
                disjoint_matches(all.skip(k as int), next_free as int, len),
                rep@,
            ),
        decreases all.len() - k,
    {
        let off = hits[k];
        proof {
            assert(all.skip(k as int).drop_first() =~= all.skip(k + 1));
            assert(all.skip(k as int)[0] == off);
        }
        if off >= next_free {
            let ghost rest = disjoint_matches(all.skip(k + 1), off + len, len);
            proof {
                lemma_disjoint_len(all, 0, len);
                assert(disjoint_matches(all.skip(k as int), next_free as int, len) == seq![off] + rest);
                assert((seq![off] + rest)[0] == off);
                assert((seq![off] + rest).drop_first() =~= rest);
            }
            overwrite(data, off, rep.as_slice());
            next_free = off + pat.len();
            count = count + 1;
        }
        k = k + 1;
    }
    proof {
        assert(all.skip(all.len() as int) =~= Seq::<usize>::empty());
    }
    buffer.modified = true;
    Ok(count)
}

/// Text of a pattern's preview: its first 16 bytes in hex and its length.
pub open spec fn preview_text(pat: Seq<u8>) -> Seq<char> {
    if pat.len() > 16 {
        hex_join(pat.take(16)) + seq![' ', '\u{2026}', ' ', '('] + decimal_digits(pat.len()) + seq![
            ' ',
            '\u{30d0}',
            '\u{30a4}',
            '\u{30c8}',
            ')',
        ]
    } else {
        hex_join(pat) + seq![' ', '('] + decimal_digits(pat.len()) + seq![
            ' ',
            '\u{30d0}',
            '\u{30a4}',
            '\u{30c8}',
            ')',
        ]
    }
}

/// Render a short hex preview of a pattern, for status messages.
pub fn pattern_preview(pat: &[u8]) -> (r: String)
    ensures
        r@ == preview_text(pat@),
{
    let n = pat.len();
    let max_show: usize = 16;
    let shown = if n > max_show {
        vstd::slice::slice_subrange(pat, 0, max_show)
    } else {
        pat
    };
    let mut out = hex_join_string(shown);
    if n > max_show {
        push_char(&mut out, ' ');
        push_char(&mut out, '\u{2026}');
    }
    push_char(&mut out, ' ');
    push_char(&mut out, '(');
    let digits = decimal_string(n);
    push_all(&mut out, digits.as_slice());
    push_char(&mut out, ' ');
    push_char(&mut out, '\u{30d0}');
    push_char(&mut out, '\u{30a4}');
    push_char(&mut out, '\u{30c8}');
    push_char(&mut out, ')');
    proof {
        if n > max_show {
            assert(shown@ =~= pat@.take(16));
        }
    }
    assert(out@ =~= preview_text(pat@));
    out
}

/// An offset typed by the user: hex after `0x`, `0X` or `#`, else decimal.
pub fn parse_offset(s: &str) -> (r: Option<usize>)
    ensures
        match parse_prefixed(s@, usize::MAX as nat) {
            Some(v) => r == Some(v as usize),
            None => r is None,
        },
{
    match parse_prefixed_number(s, usize::MAX as u64) {
        Some(v) => Some(v as usize),
        None => None,
    }
}

/// Index of the first field of the default layout containing `offset`.
pub fn field_at(schema: &Schema, offset: usize) -> (r: Option<usize>)
    ensures
        r == as_index(first_from(covers(schema.fields@, offset as int), 0, schema.fields@.len() as int)),
{
    field_index_at(schema.fields.as_slice(), offset)
}

/// The record a "jump to record" entry names: a 1-based decimal number
/// between 1 and `count`, as a 0-based index.
pub fn record_jump(text: &str, count: usize) -> (r: Option<usize>)
    ensures
        match parse_unsigned(trim_ws(text@), 10, usize::MAX as nat) {
            Some(n) => if 1 <= n <= count {
                r == Some((n - 1) as usize)
            } else {
                r is None
            },
            None => r is None,
        },
{
    let cs = chars_of(text);
    let t = trim_chars(cs.as_slice());
    match parse_unsigned_chars(t.as_slice(), 10, usize::MAX as u64) {
        Some(n) => {
            if n > 0 && n <= count as u64 {
                Some((n - 1) as usize)
            } else {
                None
            }
        },
        None => None,
    }
}

impl SearchState {
    /// Move the view to a hit at absolute `offset`: select its record,
    /// put the cursor on it when it lies inside the record, and remember it
    /// as the last hit. Returns the record index, the offset within the
    /// record's stride, and the default-layout field to highlight.
    pub fn show_hit(&mut self, buffer: &mut RecordBuffer, schema: &Schema, offset: usize) -> (r: (
        usize,
        usize,
        Option<usize>,
    ))
        requires
            schema.stride_fits(),
            schema.spec_stride() > 0,
        ensures
            r.0 == (offset as int) / schema.spec_stride(),
            r.1 == (offset as int) % schema.spec_stride(),
            r.2 == as_index(
                first_from(
                    covers(
                        schema.fields@,
                        if r.1 < schema.record_length {
                            r.1 as int
                        } else if schema.record_length > 0 {
                            schema.record_length - 1
                        } else {
                            0
                        },
                    ),
                    0,
                    schema.fields@.len() as int,
                ),
            ),
            final(buffer).current_record == r.0,
            final(buffer).cursor_in_record == (if r.1 < schema.record_length {
                r.1
            } else {
                old(buffer).cursor_in_record
            }),
            final(buffer).data == old(buffer).data,
            final(buffer).path == old(buffer).path,
            final(buffer).modified == old(buffer).modified,
            *final(self) == (SearchState { last_match_abs: Some(offset), ..*old(self) }),
    {
        let stride = schema.stride();
        let rec_idx = offset / stride;
        let off_in_rec = offset % stride;
        buffer.current_record = rec_idx;
        if off_in_rec < schema.record_length {
            buffer.cursor_in_record = off_in_rec;
        }
        let last = if schema.record_length > 0 {
            schema.record_length - 1
        } else {
            0
        };
        let probe = if off_in_rec < last {
            off_in_rec
        } else {
            last
        };
        let highlighted = field_at(schema, probe);
        self.last_match_abs = Some(offset);
        (rec_idx, off_in_rec, highlighted)
    }
}


/// A text or hex search reports a match whenever the pattern occurs
/// anywhere: a hit at or after the start when there is one, else the first
/// one before it (wrapped); and what it reports is an occurrence.
pub proof fn lemma_search_wraps_completely(data: Seq<u8>, pat: Seq<u8>, ps: int, ci: bool, mode: SearchMode, stride: int, field: Field)
    requires
        mode != SearchMode::FieldValue,
        pat.len() > 0,
        0 <= ps,
        data.len() <= usize::MAX,
    ensures
        match next_outcome(mode, data, stride, field, pat, ps, ci) {
            FindOutcome::Hit { offset, wrapped } => {
                &&& (occurs_at(data, pat, ci))(offset as int)
                &&& !wrapped ==> offset >= ps
                &&& wrapped ==> offset < ps
            },
            FindOutcome::NoMatch => forall|x: int| !#[trigger] (occurs_at(data, pat, ci))(x),
        },
{
    let p = occurs_at(data, pat, ci);
    lemma_spec_find_range(data, pat, ps, ci);
    lemma_spec_find_range(data, pat, 0, ci);
    if data.len() >= pat.len() {
        let last = data.len() - pat.len() + 1;
        if spec_find(data, pat, 0, ci) is None {
            lemma_first_from_none(p, 0, last);
        } else if spec_find(data, pat, ps, ci) is None {
            let y = spec_find(data, pat, 0, ci)->0;
            if ps < data.len() && data.len() - ps >= pat.len() {
                lemma_first_from_none(p, ps, last);
            }
            lemma_first_from_found(p, 0, last);
        }
    }
}

/// A same-length replacement at positions inside the buffer keeps its length.
pub proof fn lemma_splice_all_len(bytes: Seq<u8>, offs: Seq<usize>, part: Seq<u8>)
    requires
        forall|i: int| 0 <= i < offs.len() ==> #[trigger] offs[i] + part.len() <= bytes.len(),
    ensures
        splice_all(bytes, offs, part).len() == bytes.len(),
    decreases offs.len(),
{
    if offs.len() > 0 {
        crate::record::lemma_splice(bytes, offs[0] as int, part);
        let next = splice(bytes, offs[0] as int, part);
        assert forall|i: int| 0 <= i < offs.drop_first().len() implies #[trigger] offs.drop_first()[i]
            + part.len() <= next.len() by {
            assert(offs.drop_first()[i] == offs[i + 1]);
        }
        lemma_splice_all_len(next, offs.drop_first(), part);
    }
}


/// In field-value mode the pattern is the selected field's bytes built from
/// the query and the replacement is the field's bytes built from the replace
/// text; writing the replacement over a match leaves exactly those bytes in
/// the matched field.
pub proof fn lemma_field_value_replacement(state: SearchState, schema: Schema, bytes: Seq<u8>, off: int)
    requires
        state.mode == SearchMode::FieldValue,
    ensures
        replace_plan(state, schema) matches Some(Ok((pat, rep))) ==> {
            &&& state.field_idx matches Some(i) && i < schema.fields@.len()
            &&& ({
                let f = schema.fields@[state.field_idx->0 as int];
                let enc = schema.spec_field_encoding(f);
                &&& build_outcome(f, enc, state.query@) == Some(Ok::<Seq<u8>, FieldValueError>(pat))
                &&& build_outcome(f, enc, state.replace@) == Some(Ok::<Seq<u8>, FieldValueError>(rep))
                &&& (0 <= off && off + rep.len() <= bytes.len() ==> splice(bytes, off, rep).subrange(
                    off,
                    off + rep.len(),
                ) == rep)
            })
        },
{
    match replace_plan(state, schema) {
        Some(Ok((pat, rep))) => {
            if 0 <= off && off + rep.len() <= bytes.len() {
                crate::record::lemma_splice(bytes, off, rep);
            }
        },
        _ => {},
    }
}

} // verus!

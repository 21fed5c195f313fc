//! The spreadsheet view's model: which variant tab is shown, which
//! records belong to each variant (cached per buffer and schema), which
//! rows are displayed under the active filter, and committing a cell edit.

use vstd::prelude::*;
use crate::parallel::{bound_after, chunk_size_for, chunks_cover, lemma_bound_after_ge, par_map, split_range};
use crate::record::{RecordBuffer, RecordError};
use crate::schema::{Field, Schema, as_index, first_from};
use crate::text::{chars_equal, chars_of};
use crate::ui::filter::{record_in, scanned_records};
use crate::ui::table_view::{EditError, commit_defined, written};
use crate::value_check::{spec_validate_value, validate_value};
use crate::field_codec::build_outcome;

verus! {

/// Records handed to a parallel worker at a time, at least.
pub const RECORDS_PER_CHUNK: usize = 4096;

/// An open cell editor.
pub struct EditCell {
    pub record_idx: usize,
    pub field_idx: usize,
    pub draft: String,
    pub error: Option<EditError>,
    /// True only on the first frame after the edit started — used to give the
    /// freshly mounted text box keyboard focus.
    pub needs_focus: bool,
}

/// Record indices per variant, with the signature of the buffer and schema
/// they were computed for.
pub struct VariantIndexCache {
    /// (buffer byte length, record length, schema name, variant count) —
    /// any change forces a recompute.
    pub signature: (usize, usize, String, usize),
    /// One entry per variant, in the schema's order: its key and the
    /// records it holds, ascending.
    pub by_key: Vec<(String, Vec<u32>)>,
    /// Records that didn't match any variant.
    pub unmatched: Vec<u32>,
}

impl Default for VariantIndexCache {
    fn default() -> (r: Self)
        ensures
            r.signature.0 == 0,
            r.signature.1 == 0,
            r.signature.2@.len() == 0,
            r.signature.3 == 0,
            r.by_key@.len() == 0,
            r.unmatched@.len() == 0,
    {
        VariantIndexCache { signature: (0, 0, String::new(), 0), by_key: Vec::new(), unmatched: Vec::new() }
    }
}

/// Per-session state for the spreadsheet view.
pub struct SpreadsheetState {
    pub edit: Option<EditCell>,
    /// The last record the view scrolled to, so it only scrolls again when
    /// something else moves the current record.
    pub last_scrolled_to: Option<usize>,
    /// Key of the variant tab shown (multi-variant schemas only).
    pub active_variant: Option<String>,
    pub variant_cache: VariantIndexCache,
}

impl Default for SpreadsheetState {
    fn default() -> (r: Self)
        ensures
            r.edit is None,
            r.last_scrolled_to is None,
            r.active_variant is None,
            r.variant_cache.by_key@.len() == 0,
            r.variant_cache.unmatched@.len() == 0,
    {
        SpreadsheetState {
            edit: None,
            last_scrolled_to: None,
            active_variant: None,
            variant_cache: VariantIndexCache::default(),
        }
    }
}

/// The variant record `idx` of `data` belongs to (`None` when it is not in
/// the data or matches no variant).
pub open spec fn record_variant(schema: Schema, data: Seq<u8>, idx: int) -> Option<int> {
    match record_in(data, schema, idx) {
        None => None,
        Some(rec) => schema.variant_index(rec),
    }
}

/// The records in `[i, end)` whose variant is `v`, ascending.
pub open spec fn records_with(schema: Schema, data: Seq<u8>, v: Option<int>, i: int, end: int) -> Seq<u32>
    decreases end - i,
{
    if i >= end {
        Seq::empty()
    } else if record_variant(schema, data, i) == v {
        seq![i as u32] + records_with(schema, data, v, i + 1, end)
    } else {
        records_with(schema, data, v, i + 1, end)
    }
}

proof fn lemma_records_with_split(schema: Schema, data: Seq<u8>, v: Option<int>, a: int, b: int, c: int)
    requires
        a <= b <= c,
    ensures
        records_with(schema, data, v, a, c) == records_with(schema, data, v, a, b) + records_with(
            schema,
            data,
            v,
            b,
            c,
        ),
    decreases b - a,
{
    if a < b {
        lemma_records_with_split(schema, data, v, a + 1, b, c);
        if record_variant(schema, data, a) == v {
            assert(seq![a as u32] + (records_with(schema, data, v, a + 1, b) + records_with(
                schema,
                data,
                v,
                b,
                c,
            )) =~= (seq![a as u32] + records_with(schema, data, v, a + 1, b)) + records_with(
                schema,
                data,
                v,
                b,
                c,
            ));
        }
    } else {
        assert(records_with(schema, data, v, a, b) =~= Seq::<u32>::empty());
        assert(Seq::<u32>::empty() + records_with(schema, data, v, b, c) =~= records_with(
            schema,
            data,
            v,
            b,
            c,
        ));
    }
}

/// The variant of each record in `[lo, hi)` of `data`.
fn variants_in_range(schema: &Schema, data: &[u8], lo: usize, hi: usize) -> (r: Vec<Option<usize>>)
    requires
        schema.stride_fits(),
        lo <= hi,
        hi * schema.spec_stride() <= data@.len(),
    ensures
        r@.len() == hi - lo,
        forall|k: int|
            0 <= k < r@.len() ==> variant_entry(*schema, data@, lo + k, #[trigger] r@[k]),
{
    let stride = schema.stride();
    let rec_len = schema.record_length;
    let dlen = data.len();
    let mut out: Vec<Option<usize>> = Vec::new();
    let mut idx = lo;
    while idx < hi
        invariant
            lo <= idx <= hi,
            dlen == data@.len(),
            stride == schema.spec_stride(),
            rec_len == schema.record_length,
            hi * stride <= data@.len(),
            out@.len() == idx - lo,
            forall|k: int|
                0 <= k < out@.len() ==> variant_entry(*schema, data@, lo + k, #[trigger] out@[k]),
        decreases hi - idx,
    {
        assert(idx * stride <= hi * stride) by (nonlinear_arith)
            requires
                idx <= hi,
        ;
        let rec_start = idx * stride;
        let v = if rec_len <= dlen - rec_start {
            let rec = vstd::slice::slice_subrange(data, rec_start, rec_start + rec_len);
            assert(record_in(data@, *schema, idx as int) == Some(rec@));
            schema.variant_index_of(rec)
        } else {
            assert(record_in(data@, *schema, idx as int) is None);
            None
        };
        out.push(v);
        idx = idx + 1;
    }
    out
}


/// `e` is the variant of record `idx`, as an index.
pub open spec fn variant_entry(schema: Schema, data: Seq<u8>, idx: int, e: Option<usize>) -> bool {
    match e {
        Some(j) => record_variant(schema, data, idx) == Some(j as int) && j < schema.variants@.len(),
        None => record_variant(schema, data, idx) is None,
    }
}

/// `v` holds the variant of each record in `[lo, hi)`.
pub open spec fn variants_of(schema: Schema, data: Seq<u8>, lo: int, hi: int, v: Seq<Option<usize>>) -> bool {
    &&& v.len() == hi - lo
    &&& forall|k: int| 0 <= k < v.len() ==> variant_entry(schema, data, lo + k, #[trigger] v[k])
}

/// The variant of each of the first `m` records, computed in parallel over
/// chunks of records.
fn variants_all(schema: &Schema, data: &[u8], m: usize) -> (r: Vec<Option<usize>>)
    requires
        schema.stride_fits(),
        m * schema.spec_stride() <= data@.len(),
    ensures
        r@.len() == m,
        forall|k: int|
            0 <= k < m ==> variant_entry(*schema, data@, k, #[trigger] r@[k]),
{
    if m == 0 {
        return Vec::new();
    }
    let chunks = split_range(0, m, chunk_size_for(m, RECORDS_PER_CHUNK));
    let ghost cs = chunks@;
    let run = |c: (usize, usize)| -> (r: Vec<Option<usize>>)
        requires
            schema.stride_fits(),
            c.0 <= c.1 <= m,
            m * schema.spec_stride() <= data@.len(),
        ensures
            r@.len() == c.1 - c.0,
            forall|k: int|
                0 <= k < r@.len() ==> variant_entry(*schema, data@, c.0 + k, #[trigger] r@[k]),
        {
            assert(c.1 * schema.spec_stride() <= m * schema.spec_stride()) by (nonlinear_arith)
                requires
                    c.1 <= m,
            ;
            variants_in_range(schema, data, c.0, c.1)
        };
    assert forall|i: int| 0 <= i < cs.len() implies #[trigger] run.requires((cs[i],)) by {
        assert(cs[i].0 < cs[i].1 <= m);
    }
    let results = par_map(chunks, run);
    assert forall|j: int| 0 <= j < cs.len() implies #[trigger] variants_of(
        *schema,
        data@,
        cs[j].0 as int,
        cs[j].1 as int,
        results@[j]@,
    ) by {
        assert(run.ensures((cs[j],), results@[j]));
    }
    let mut out: Vec<Option<usize>> = Vec::new();
    let mut k: usize = 0;
    while k < results.len()
        invariant
            k <= results@.len(),
            results@.len() == cs.len(),
            chunks_cover(cs, 0, m as int),
            forall|j: int|
                0 <= j < cs.len() ==> #[trigger] variants_of(
                    *schema,
                    data@,
                    cs[j].0 as int,
                    cs[j].1 as int,
                    results@[j]@,
                ),
            out@.len() == bound_after(cs, 0, k as int),
            forall|x: int|
                0 <= x < out@.len() ==> variant_entry(*schema, data@, x, #[trigger] out@[x]),
        decreases results@.len() - k,
    {
        proof {
            lemma_bound_after_ge(cs, 0, k as int);
            assert(bound_after(cs, 0, k + 1) == cs[k as int].1);
            assert(variants_of(*schema, data@, cs[k as int].0 as int, cs[k as int].1 as int, results@[k as int]@));
        }
        let part = &results[k];
        let ghost before = out@;
        let ghost lo = cs[k as int].0 as int;
        let mut t: usize = 0;
        while t < part.len()
            invariant
                t <= part@.len(),
                out@.len() == before.len() + t,
                before.len() == lo,
                forall|x: int| 0 <= x < before.len() ==> #[trigger] out@[x] == before[x],
                forall|x: int|
                    0 <= x < part@.len() ==> variant_entry(*schema, data@, lo + x, #[trigger] part@[x]),
                forall|x: int| 0 <= x < t ==> #[trigger] out@[lo + x] == part@[x],
            decreases part@.len() - t,
        {
            out.push(part[t]);
            t = t + 1;
        }
        proof {
            assert forall|x: int| 0 <= x < out@.len() implies variant_entry(
                *schema,
                data@,
                x,
                #[trigger] out@[x],
            ) by {
                if x >= lo {
                    assert(out@[lo + (x - lo)] == part@[x - lo]);
                }
            }
        }
        k = k + 1;
    }
    proof {
        lemma_bound_after_ge(cs, 0, cs.len() as int);
    }
    out
}


/// The cache lists, for the first `m` records of `data`, the records of
/// each variant and those of none.
pub open spec fn cache_holds(cache: VariantIndexCache, schema: Schema, data: Seq<u8>, m: int) -> bool {
    &&& cache.by_key@.len() == schema.variants@.len()
    &&& forall|j: int|
        0 <= j < schema.variants@.len() ==> (#[trigger] cache.by_key@[j]).0@ == schema.variants@[j].key@
            && cache.by_key@[j].1@ == records_with(schema, data, Some(j), 0, m)
    &&& cache.unmatched@ == records_with(schema, data, None, 0, m)
}

/// The signature matches the buffer length and the schema.
pub open spec fn signature_of(
    sig: (usize, usize, String, usize),
    data_len: int,
    schema: Schema,
) -> bool {
    &&& sig.0 == data_len
    &&& sig.1 == schema.record_length
    &&& sig.2@ == schema.name@
    &&& sig.3 == schema.variants@.len()
}

/// `new` is `old` brought up to date for the buffer and schema: kept when
/// its signature matches and it holds entries, else recomputed.
pub open spec fn refreshed(
    old: VariantIndexCache,
    new: VariantIndexCache,
    schema: Schema,
    buffer: RecordBuffer,
) -> bool {
    if signature_of(old.signature, buffer.bytes().len() as int, schema) && old.by_key@.len() > 0 {
        new == old
    } else {
        &&& signature_of(new.signature, buffer.bytes().len() as int, schema)
        &&& cache_holds(new, schema, buffer.bytes(), scanned_records(buffer.spec_record_count(schema)))
    }
}

/// Recompute the per-variant record lists when the buffer or schema has
/// changed (their signature differs, or nothing was computed yet).
pub fn refresh_variant_cache(cache: &mut VariantIndexCache, schema: &Schema, buffer: &RecordBuffer)
    requires
        schema.stride_fits(),
    ensures
        refreshed(*old(cache), *final(cache), *schema, *buffer),
{
    let data_len = buffer.data.len();
    let same = cache.signature.0 == data_len && cache.signature.1 == schema.record_length
        && cache.signature.2 == schema.name && cache.signature.3 == schema.variants.len();
    if same && cache.by_key.len() > 0 {
        return;
    }
    let n = buffer.record_count(schema);
    let m: usize = if n <= u32::MAX as usize {
        n
    } else {
        (#[verifier::truncate] (n as u32)) as usize
    };
    assert(m as int == scanned_records(buffer.spec_record_count(*schema)));
    let data = buffer.data.as_slice();
    let stride = schema.stride();
    assert(m * stride <= data@.len()) by (nonlinear_arith)
        requires
            m <= n,
            stride > 0 ==> n == (data@.len() as int) / (stride as int),
            stride == 0 ==> n == 0,
    ;
    let vars = variants_all(schema, data, m);
    let nv = schema.variants.len();
    let mut by_key: Vec<(String, Vec<u32>)> = Vec::new();
    let mut j: usize = 0;
    while j < nv
        invariant
            j <= nv,
            nv == schema.variants@.len(),
            by_key@.len() == j,
            forall|i: int|
                0 <= i < j ==> (#[trigger] by_key@[i]).0@ == schema.variants@[i].key@
                    && by_key@[i].1@ == records_with(*schema, data@, Some(i), 0, 0),
        decreases nv - j,
    {
        by_key.push((schema.variants[j].key.clone(), Vec::new()));
        j = j + 1;
    }
    let mut unmatched: Vec<u32> = Vec::new();
    let mut idx: usize = 0;
    while idx < m
        invariant
            idx <= m,
            m <= u32::MAX + 1,
            nv == schema.variants@.len(),
            vars@.len() == m,
            forall|k: int|
                0 <= k < m ==> variant_entry(*schema, data@, k, #[trigger] vars@[k]),
            by_key@.len() == nv,
            forall|i: int|
                0 <= i < nv ==> (#[trigger] by_key@[i]).0@ == schema.variants@[i].key@
                    && by_key@[i].1@ == records_with(*schema, data@, Some(i), 0, idx as int),
            unmatched@ == records_with(*schema, data@, None, 0, idx as int),
        decreases m - idx,
    {
        proof {
            assert forall|v: Option<int>| #[trigger] records_with(*schema, data@, v, 0, idx + 1)
                == records_with(*schema, data@, v, 0, idx as int) + records_with(
                *schema,
                data@,
                v,
                idx as int,
                idx + 1,
            ) by {
                lemma_records_with_split(*schema, data@, v, 0, idx as int, idx + 1);
            }
            assert(variant_entry(*schema, data@, idx as int, vars@[idx as int]));
        }
        let ghost bk = by_key@;
        match vars[idx] {
            Some(v) => {
                by_key[v].1.push(idx as u32);
                proof {
                    assert forall|i: int| 0 <= i < nv implies (#[trigger] by_key@[i]).0@
                        == schema.variants@[i].key@ && by_key@[i].1@ == records_with(
                        *schema,
                        data@,
                        Some(i),
                        0,
                        idx + 1,
                    ) by {
                        assert(records_with(*schema, data@, Some(i), idx + 1, idx + 1) =~= Seq::<
                            u32,
                        >::empty());
                        assert(records_with(*schema, data@, Some(i), idx as int, idx + 1) =~= (if i
                            == v {
                            seq![idx as u32]
                        } else {
                            Seq::<u32>::empty()
                        }));
                        if i != v {
                            assert(by_key@[i] == bk[i]);
                        }
                    }
                    assert(records_with(*schema, data@, None, idx + 1, idx + 1) =~= Seq::<
                        u32,
                    >::empty());
                    assert(records_with(*schema, data@, None, idx as int, idx + 1) =~= Seq::<
                        u32,
                    >::empty());
                }
            },
            None => {
                unmatched.push(idx as u32);
                proof {
                    assert forall|i: int| 0 <= i < nv implies (#[trigger] by_key@[i]).0@
                        == schema.variants@[i].key@ && by_key@[i].1@ == records_with(
                        *schema,
                        data@,
                        Some(i),
                        0,
                        idx + 1,
                    ) by {
                        assert(records_with(*schema, data@, Some(i), idx + 1, idx + 1) =~= Seq::<
                            u32,
                        >::empty());
                        assert(records_with(*schema, data@, Some(i), idx as int, idx + 1) =~= Seq::<
                            u32,
                        >::empty());
                    }
                    assert(records_with(*schema, data@, None, idx + 1, idx + 1) =~= Seq::<
                        u32,
                    >::empty());
                    assert(records_with(*schema, data@, None, idx as int, idx + 1) =~= seq![
                        idx as u32,
                    ]);
                }
            },
        }
        idx = idx + 1;
    }
    cache.signature = (data_len, schema.record_length, schema.name.clone(), nv);
    cache.by_key = by_key;
    cache.unmatched = unmatched;
}


/// Entry `j` of the cache is for the variant key `key`.
pub open spec fn key_at(cache: VariantIndexCache, key: Seq<char>) -> spec_fn(int) -> bool {
    |j: int| cache.by_key@[j].0@ == key
}

impl VariantIndexCache {
    /// The records of the variant keyed `key` (the first entry with that key).
    pub fn records_for_key(&self, key: &String) -> (r: Option<&Vec<u32>>)
        ensures
            match first_from(key_at(*self, key@), 0, self.by_key@.len() as int) {
                Some(j) => r matches Some(v) && *v == self.by_key@[j].1,
                None => r is None,
            },
    {
        let ghost p = key_at(*self, key@);
        let mut j: usize = 0;
        while j < self.by_key.len()
            invariant
                j <= self.by_key@.len(),
                p == key_at(*self, key@),
                first_from(p, 0, self.by_key@.len() as int) == first_from(
                    p,
                    j as int,
                    self.by_key@.len() as int,
                ),
            decreases self.by_key@.len() - j,
        {
            if self.by_key[j].0 == *key {
                assert(p(j as int));
                return Some(&self.by_key[j].1);
            }
            assert(!p(j as int));
            j = j + 1;
        }
        None
    }
}

/// Variant `j` of the schema is keyed `key`.
pub open spec fn variant_keyed(schema: Schema, key: Seq<char>) -> spec_fn(int) -> bool {
    |j: int| schema.variants@[j].key@ == key
}

/// Index of the first variant keyed `key`.
fn find_variant(schema: &Schema, key: &String) -> (r: Option<usize>)
    ensures
        r matches Some(j) ==> first_from(variant_keyed(*schema, key@), 0, schema.variants@.len() as int)
            == Some(j as int) && j < schema.variants@.len(),
        r is None ==> first_from(variant_keyed(*schema, key@), 0, schema.variants@.len() as int) is None,
{
    let ghost p = variant_keyed(*schema, key@);
    let mut j: usize = 0;
    while j < schema.variants.len()
        invariant
            j <= schema.variants@.len(),
            p == variant_keyed(*schema, key@),
            first_from(p, 0, schema.variants@.len() as int) == first_from(
                p,
                j as int,
                schema.variants@.len() as int,
            ),
        decreases schema.variants@.len() - j,
    {
        if schema.variants[j].key == *key {
            assert(p(j as int));
            return Some(j);
        }
        assert(!p(j as int));
        j = j + 1;
    }
    None
}

impl SpreadsheetState {
    /// Bring the variant tabs up to date: for a multi-variant schema refresh
    /// the per-variant record lists and keep the shown tab on an existing
    /// variant (the first one otherwise); else there are no tabs.
    pub fn sync_variants(&mut self, schema: &Schema, buffer: &RecordBuffer)
        requires
            schema.stride_fits(),
        ensures
            final(self).edit == old(self).edit,
            final(self).last_scrolled_to == old(self).last_scrolled_to,
            !schema.spec_is_multi_variant() ==> final(self).active_variant is None
                && final(self).variant_cache == old(self).variant_cache,
            schema.spec_is_multi_variant() ==> {
                &&& match old(self).active_variant {
                    Some(k) => if first_from(variant_keyed(*schema, k@), 0, schema.variants@.len() as int) is Some {
                        final(self).active_variant == Some(k)
                    } else {
                        final(self).active_variant matches Some(f) && f@ == schema.variants@[0].key@
                    },
                    None => final(self).active_variant matches Some(f) && f@ == schema.variants@[0].key@,
                }
                &&& refreshed(old(self).variant_cache, final(self).variant_cache, *schema, *buffer)
            },
    {
        if schema.is_multi_variant() {
            refresh_variant_cache(&mut self.variant_cache, schema, buffer);
            let keep = match &self.active_variant {
                Some(k) => find_variant(schema, k).is_some(),
                None => false,
            };
            if !keep {
                self.active_variant = Some(schema.variants[0].key.clone());
            }
        } else {
            self.active_variant = None;
        }
    }
}

/// The fields shown as columns: those of the variant keyed `active` (none
/// when no variant has that key), or the default fields without a tab.
pub fn visible_fields<'a>(schema: &'a Schema, active: &Option<String>) -> (r: &'a [Field])
    ensures
        r@ == (match active {
            Some(k) => match first_from(variant_keyed(*schema, k@), 0, schema.variants@.len() as int) {
                Some(j) => schema.variants@[j].fields@,
                None => Seq::empty(),
            },
            None => schema.fields@,
        }),
{
    match active {
        Some(k) => match find_variant(schema, k) {
            Some(j) => schema.variants[j].fields.as_slice(),
            None => {
                let e: &[Field] = &[];
                assert(e@ =~= Seq::<Field>::empty());
                e
            },
        },
        None => schema.fields.as_slice(),
    }
}

/// `s` is strictly ascending.
pub open spec fn ascending(s: Seq<u32>) -> bool {
    forall|i: int, j: int| 0 <= i < j < s.len() ==> s[i] < s[j]
}

/// Binary search of `x` in a strictly ascending `s`.
pub fn search_sorted(s: &[u32], x: u32) -> (r: Option<usize>)
    requires
        ascending(s@),
    ensures
        r matches Some(i) ==> i < s@.len() && s@[i as int] == x,
        r is None ==> !s@.contains(x),
{
    let mut lo: usize = 0;
    let mut hi: usize = s.len();
    while lo < hi
        invariant
            lo <= hi <= s@.len(),
            ascending(s@),
            forall|i: int| 0 <= i < lo ==> s@[i] < x,
            forall|i: int| hi <= i < s@.len() ==> s@[i] > x,
        decreases hi - lo,
    {
        let mid = lo + (hi - lo) / 2;
        if s[mid] == x {
            return Some(mid);
        } else if s[mid] < x {
            lo = mid + 1;
        } else {
            hi = mid;
        }
    }
    None
}

/// The records shown as rows: the active tab's records (or all records),
/// kept to those the active filter matched.
pub open spec fn displayed_spec(variant: Option<Seq<u32>>, filter_active: bool, matched: Seq<u32>, n: nat) -> Seq<u32> {
    match variant {
        Some(vi) => if filter_active {
            vi.filter(|i: u32| matched.contains(i))
        } else {
            vi
        },
        None => if filter_active {
            matched
        } else {
            Seq::new(scanned_records(n as int) as nat, |i: int| i as u32)
        },
    }
}

/// The records shown as rows.
pub fn displayed_rows(
    variant_records: Option<&Vec<u32>>,
    filter_active: bool,
    matched: &[u32],
    n_records: usize,
) -> (r: Vec<u32>)
    requires
        ascending(matched@),
    ensures
        r@ == displayed_spec(
            match variant_records {
                Some(v) => Some(v@),
                None => None,
            },
            filter_active,
            matched@,
            n_records as nat,
        ),
{
    match variant_records {
        Some(vi) => {
            let mut out: Vec<u32> = Vec::new();
            let mut k: usize = 0;
            while k < vi.len()
                invariant
                    k <= vi@.len(),
                    ascending(matched@),
                    out@ == (if filter_active {
                        vi@.take(k as int).filter(|i: u32| matched@.contains(i))
                    } else {
                        vi@.take(k as int)
                    }),
                decreases vi@.len() - k,
            {
                let x = vi[k];
                proof {
                    reveal_with_fuel(Seq::filter, 1);
                    assert(vi@.take(k + 1).drop_last() =~= vi@.take(k as int));
                }
                if !filter_active || search_sorted(matched, x).is_some() {
                    out.push(x);
                }
                k = k + 1;
                assert(vi@.take(k as int).last() == x);
            }
            assert(vi@.take(vi@.len() as int) =~= vi@);
            out
        },
        None => if filter_active {
            vstd::slice::slice_to_vec(matched)
        } else {
            let m: usize = if n_records <= u32::MAX as usize {
                n_records
            } else {
                (#[verifier::truncate] (n_records as u32)) as usize
            };
            assert(m as int == scanned_records(n_records as int));
            let mut out: Vec<u32> = Vec::new();
            let mut i: usize = 0;
            while i < m
                invariant
                    i <= m,
                    m <= u32::MAX + 1,
                    out@ == Seq::new(i as nat, |j: int| j as u32),
                decreases m - i,
            {
                out.push(i as u32);
                i = i + 1;
                assert(out@ =~= Seq::new(i as nat, |j: int| j as u32));
            }
            out
        },
    }
}

/// The row showing record `record`, if it is displayed.
pub fn row_of_record(displayed: &[u32], record: usize) -> (r: Option<usize>)
    requires
        ascending(displayed@),
    ensures
        record <= u32::MAX ==> {
            &&& r matches Some(i) ==> i < displayed@.len() && displayed@[i as int] == record
            &&& r is None ==> !displayed@.contains(record as u32)
        },
        record > u32::MAX ==> r is None,
{
    if record > u32::MAX as usize {
        return None;
    }
    search_sorted(displayed, record as u32)
}

impl EditCell {
    /// Start editing a cell from its displayed value.
    pub fn start(record_idx: usize, field_idx: usize, display: String) -> (r: Self)
        ensures
            r.record_idx == record_idx,
            r.field_idx == field_idx,
            r.draft == display,
            r.error is None,
            r.needs_focus,
    {
        EditCell { record_idx, field_idx, draft: display, error: None, needs_focus: true }
    }
}

/// Commit an edited cell: check the value against the field's kind, then
/// write it.
pub fn commit_cell_edit(
    buffer: &mut RecordBuffer,
    schema: &Schema,
    record_idx: usize,
    field: &Field,
    draft: &str,
) -> (r: Result<(), EditError>)
    requires
        commit_defined(*schema, record_idx as int, *field, draft@),
    ensures
        match spec_validate_value(*field, draft@) {
            Err(e) => r == Err::<(), EditError>(EditError::Invalid(e)) && *final(buffer) == *old(buffer),
            Ok(()) => match build_outcome(*field, schema.spec_field_encoding(*field), draft@)->0 {
                Err(e) => r == Err::<(), EditError>(EditError::Write(RecordError::Field(e)))
                    && *final(buffer) == *old(buffer),
                Ok(b) => match old(buffer).spec_record(*schema, record_idx as int) {
                    None => r == Err::<(), EditError>(EditError::Write(RecordError::RecordOutOfRange))
                        && final(buffer).bytes() == old(buffer).bytes(),
                    Some(_) => r is Ok && written(*old(buffer), *final(buffer), *schema, record_idx as int, *field, b),
                },
            },
        },
{
    match validate_value(field, draft) {
        Err(e) => return Err(EditError::Invalid(e)),
        Ok(()) => {},
    }
    match buffer.set_field_text(schema, record_idx, field, draft) {
        Ok(()) => Ok(()),
        Err(e) => Err(EditError::Write(e)),
    }
}


/// The records listed for a variant are strictly ascending and are exactly
/// those of that variant.
pub proof fn lemma_records_with_exact(schema: Schema, data: Seq<u8>, v: Option<int>, a: int, b: int)
    requires
        0 <= a,
        b <= u32::MAX + 1,
    ensures
        ascending(records_with(schema, data, v, a, b)),
        forall|x: int|
            a <= x < b ==> (records_with(schema, data, v, a, b).contains(x as u32) <==> #[trigger] record_variant(
                schema,
                data,
                x,
            ) == v),
        forall|k: int|
            0 <= k < records_with(schema, data, v, a, b).len() ==> a <= #[trigger] records_with(
                schema,
                data,
                v,
                a,
                b,
            )[k] < b,
    decreases b - a,
{
    if a < b {
        lemma_records_with_exact(schema, data, v, a + 1, b);
        let rest = records_with(schema, data, v, a + 1, b);
        let all = records_with(schema, data, v, a, b);
        if record_variant(schema, data, a) == v {
            assert(all == seq![a as u32] + rest);
            assert forall|x: int| a <= x < b implies (all.contains(x as u32) <==> #[trigger] record_variant(
                schema,
                data,
                x,
            ) == v) by {
                if x == a {
                    assert(all[0] == x as u32);
                } else {
                    if all.contains(x as u32) {
                        let k = choose|k: int| 0 <= k < all.len() && all[k] == x as u32;
                        if k == 0 {
                            assert(false);
                        } else {
                            assert(rest[k - 1] == x as u32);
                        }
                    }
                    if rest.contains(x as u32) {
                        let k = choose|k: int| 0 <= k < rest.len() && rest[k] == x as u32;
                        assert(all[k + 1] == x as u32);
                    }
                }
            }
            assert forall|k: int| 0 <= k < all.len() implies a <= #[trigger] all[k] < b by {
                if k > 0 {
                    assert(all[k] == rest[k - 1]);
                }
            }
            assert forall|i: int, j: int| 0 <= i < j < all.len() implies all[i] < all[j] by {
                assert(all[j] == rest[j - 1]);
                if i > 0 {
                    assert(all[i] == rest[i - 1]);
                }
            }
        } else {
            assert forall|x: int| a <= x < b implies (all.contains(x as u32) <==> #[trigger] record_variant(
                schema,
                data,
                x,
            ) == v) by {
                if x == a {
                    if all.contains(x as u32) {
                        let k = choose|k: int| 0 <= k < all.len() && all[k] == x as u32;
                        assert(rest[k] == x as u32);
                    }
                }
            }
        }
    } else {
        assert(records_with(schema, data, v, a, b) =~= Seq::<u32>::empty());
    }
}

/// Each of the records the cache covers is listed exactly once: under its
/// variant, or as unmatched.
pub proof fn lemma_cache_partition(cache: VariantIndexCache, schema: Schema, data: Seq<u8>, m: int, idx: int)
    requires
        cache_holds(cache, schema, data, m),
        0 <= idx < m <= u32::MAX + 1,
    ensures
        cache.unmatched@.contains(idx as u32) <==> record_variant(schema, data, idx) is None,
        forall|j: int|
            0 <= j < schema.variants@.len() ==> ((#[trigger] cache.by_key@[j]).1@.contains(idx as u32)
                <==> record_variant(schema, data, idx) == Some(j)),
{
    lemma_records_with_exact(schema, data, None, 0, m);
    assert forall|j: int|
        0 <= j < schema.variants@.len() implies ((#[trigger] cache.by_key@[j]).1@.contains(idx as u32)
        <==> record_variant(schema, data, idx) == Some(j)) by {
        lemma_records_with_exact(schema, data, Some(j), 0, m);
    }
}

} // verus!

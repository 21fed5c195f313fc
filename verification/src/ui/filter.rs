//! DB-like multi-condition filtering for the spreadsheet view.
//!
//! All conditions are AND'd together. A condition names a field (looked up
//! in each record's own layout), an operator and a value.

use vstd::prelude::*;
use crate::field_codec::{format_outcome, try_format_field_value};
use crate::schema::{Field, FieldKind, Schema, first_from};
use crate::record::RecordBuffer;
use crate::parallel::{bound_after, chunk_size_for, chunks_cover, lemma_bound_after_ge, par_map, split_range};
use crate::text::{chars_of, trim_chars, trim_ws, chars_equal};

verus! {

#[derive(Clone, Copy, PartialEq, Eq, Debug, Structural)]
pub enum FilterOp {
    Contains,
    Equals,
    NotEquals,
    StartsWith,
    EndsWith,
    Gt,
    Gte,
    Lt,
    Lte,
}

impl FilterOp {
    pub fn label(self) -> (r: &'static str)
        ensures
            r@ == (match self {
                FilterOp::Contains => "含む"@,
                FilterOp::Equals => "= 等しい"@,
                FilterOp::NotEquals => "≠ 等しくない"@,
                FilterOp::StartsWith => "で始まる"@,
                FilterOp::EndsWith => "で終わる"@,
                FilterOp::Gt => "> より大きい"@,
                FilterOp::Gte => "≥ 以上"@,
                FilterOp::Lt => "< より小さい"@,
                FilterOp::Lte => "≤ 以下"@,
            }),
    {
        match self {
            FilterOp::Contains => "含む",
            FilterOp::Equals => "= 等しい",
            FilterOp::NotEquals => "≠ 等しくない",
            FilterOp::StartsWith => "で始まる",
            FilterOp::EndsWith => "で終わる",
            FilterOp::Gt => "> より大きい",
            FilterOp::Gte => "≥ 以上",
            FilterOp::Lt => "< より小さい",
            FilterOp::Lte => "≤ 以下",
        }
    }

    pub fn all() -> (r: [FilterOp; 9])
        ensures
            r@ == seq![
                FilterOp::Contains,
                FilterOp::Equals,
                FilterOp::NotEquals,
                FilterOp::StartsWith,
                FilterOp::EndsWith,
                FilterOp::Gt,
                FilterOp::Gte,
                FilterOp::Lt,
                FilterOp::Lte,
            ],
    {
        [
            FilterOp::Contains,
            FilterOp::Equals,
            FilterOp::NotEquals,
            FilterOp::StartsWith,
            FilterOp::EndsWith,
            FilterOp::Gt,
            FilterOp::Gte,
            FilterOp::Lt,
            FilterOp::Lte,
        ]
    }
}

#[derive(Clone)]
pub struct FilterCondition {
    /// Field name (looked up per-record in `Schema::fields_for`). Storing the
    /// name (not an index) lets the same condition apply correctly across
    /// records of different variants in a multi-variant schema.
    pub field_name: String,
    pub op: FilterOp,
    pub value: String,
}

pub struct FilterState {
    pub conditions: Vec<FilterCondition>,
    /// Record indices that pass all conditions, sorted ascending.
    /// Populated by applying the filter; cleared by `clear` or when the buffer changes.
    pub matched: Vec<u32>,
    /// True when `matched` reflects the current conditions.
    pub active: bool,
    /// Elapsed time of the last evaluation, shown in the status bar.
    pub last_eval_ms: u128,
}

impl Default for FilterState {
    fn default() -> (r: Self)
        ensures
            r.conditions@.len() == 0,
            r.matched@.len() == 0,
            !r.active,
            r.last_eval_ms == 0,
    {
        FilterState { conditions: Vec::new(), matched: Vec::new(), active: false, last_eval_ms: 0 }
    }
}

impl FilterState {
    pub fn clear(&mut self)
        ensures
            final(self).conditions@.len() == 0,
            final(self).matched@.len() == 0,
            !final(self).active,
            final(self).last_eval_ms == 0,
    {
        self.conditions.clear();
        self.matched.clear();
        self.active = false;
        self.last_eval_ms = 0;
    }

    /// Drop the cached result without touching conditions — call after the
    /// buffer changes (file open / record append / delete) so the next view
    /// recomputes on demand.
    pub fn invalidate(&mut self)
        ensures
            final(self).conditions == old(self).conditions,
            final(self).matched@.len() == 0,
            !final(self).active,
            final(self).last_eval_ms == old(self).last_eval_ms,
    {
        self.matched.clear();
        self.active = false;
    }

    /// Total rows to display in the spreadsheet, given the active filter.
    pub fn displayed_count(&self, total: usize) -> (r: usize)
        ensures
            r == (if self.active {
                self.matched@.len() as usize
            } else {
                total
            }),
    {
        if self.active {
            self.matched.len()
        } else {
            total
        }
    }

    /// Map a 0-based display row to the underlying record index in the buffer.
    pub fn row_to_record(&self, row: usize, total: usize) -> (r: Option<usize>)
        ensures
            r == (if self.active {
                if row < self.matched@.len() {
                    Some(self.matched@[row as int] as usize)
                } else {
                    None
                }
            } else if row < total {
                Some(row)
            } else {
                None
            }),
    {
        if self.active {
            if row < self.matched.len() {
                Some(self.matched[row] as usize)
            } else {
                None
            }
        } else if row < total {
            Some(row)
        } else {
            None
        }
    }
}

/// What a condition says of a record: decided here, or a numeric ordering
/// of two display strings, which is done by parsing them as floating-point
/// numbers.
pub enum Verdict {
    Decided(bool),
    CompareNumbers { op: FilterOp, lhs: String, rhs: String },
}

/// A `Verdict` with its strings taken by their characters.
pub enum VerdictModel {
    Decided(bool),
    CompareNumbers(FilterOp, Seq<char>, Seq<char>),
}

impl Verdict {
    pub open spec fn model(&self) -> VerdictModel {
        match self {
            Verdict::Decided(b) => VerdictModel::Decided(*b),
            Verdict::CompareNumbers { op, lhs, rhs } => VerdictModel::CompareNumbers(*op, lhs@, rhs@),
        }
    }
}

/// `needle` occurs in `hay` (every string contains the empty one).
pub open spec fn contains_seq(hay: Seq<char>, needle: Seq<char>) -> bool {
    exists|i: int| 0 <= i <= hay.len() - needle.len() && #[trigger] hay.subrange(i, i + needle.len()) == needle
}

pub open spec fn starts_with(hay: Seq<char>, p: Seq<char>) -> bool {
    p.len() <= hay.len() && hay.take(p.len() as int) == p
}

pub open spec fn ends_with(hay: Seq<char>, p: Seq<char>) -> bool {
    p.len() <= hay.len() && hay.skip(hay.len() - p.len()) == p
}

/// Lexicographic order of strings by code point (the order of `str`, since
/// UTF-8 preserves code point order).
pub open spec fn lex_lt(a: Seq<char>, b: Seq<char>) -> bool
    decreases a.len(),
{
    if a.len() == 0 {
        b.len() > 0
    } else if b.len() == 0 {
        false
    } else if a[0] != b[0] {
        (a[0] as u32) < (b[0] as u32)
    } else {
        lex_lt(a.drop_first(), b.drop_first())
    }
}

pub open spec fn lex_holds(op: FilterOp, a: Seq<char>, b: Seq<char>) -> bool {
    match op {
        FilterOp::Gt => lex_lt(b, a),
        FilterOp::Gte => !lex_lt(a, b),
        FilterOp::Lt => lex_lt(a, b),
        _ => !lex_lt(b, a),
    }
}

pub open spec fn name_pred(layout: Seq<Field>, name: Seq<char>) -> spec_fn(int) -> bool {
    |i: int| layout[i].name@ == name
}

/// The field a condition refers to in a record's layout: the first with that name.
pub open spec fn condition_field(schema: Schema, rec: Seq<u8>, name: Seq<char>) -> Option<int> {
    let layout = schema.layout_for(rec);
    first_from(name_pred(layout, name), 0, layout.len() as int)
}

/// What a condition says of a record, or `None` where the evaluation
/// cannot complete (the field's end overflows, or its display cannot be
/// formatted).
/// What condition `op` with query `value` says of a field shown as
/// `display`: `Contains` looks for the query as it is, the other operators
/// compare the trimmed texts; orderings of numeric fields are left to a
/// numeric comparison, others are lexicographic.
pub open spec fn display_verdict(op: FilterOp, numeric: bool, display: Seq<char>, value: Seq<char>) -> VerdictModel {
    let dt = trim_ws(display);
    let qt = trim_ws(value);
    match op {
        FilterOp::Contains => VerdictModel::Decided(contains_seq(display, value)),
        FilterOp::Equals => VerdictModel::Decided(dt == qt),
        FilterOp::NotEquals => VerdictModel::Decided(dt != qt),
        FilterOp::StartsWith => VerdictModel::Decided(starts_with(dt, qt)),
        FilterOp::EndsWith => VerdictModel::Decided(ends_with(dt, qt)),
        _ => if numeric {
            VerdictModel::CompareNumbers(op, dt, qt)
        } else {
            VerdictModel::Decided(lex_holds(op, dt, qt))
        },
    }
}

pub open spec fn eval_outcome(
    field_name: Seq<char>,
    op: FilterOp,
    value: Seq<char>,
    schema: Schema,
    rec: Seq<u8>,
) -> Option<VerdictModel> {
    match condition_field(schema, rec, field_name) {
        None => Some(VerdictModel::Decided(false)),
        Some(i) => {
            let field = schema.layout_for(rec)[i];
            if field.offset + field.length > usize::MAX {
                None
            } else if field.offset + field.length > rec.len() {
                Some(VerdictModel::Decided(false))
            } else {
                let bytes = rec.subrange(field.offset as int, field.offset + field.length);
                match format_outcome(field.kind, schema.spec_field_encoding(field), bytes) {
                    None => None,
                    Some(display) => Some(
                        display_verdict(op, field.kind is Numeric || field.kind is Decimal, display, value),
                    ),
                }
            }
        },
    }
}

pub fn contains_chars(hay: &[char], needle: &[char]) -> (r: bool)
    ensures
        r == contains_seq(hay@, needle@),
{
    if needle.len() == 0 {
        assert(hay@.subrange(0, 0int + needle@.len()) =~= needle@);
        return true;
    }
    if needle.len() > hay.len() {
        return false;
    }
    let last = hay.len() - needle.len();
    let mut i: usize = 0;
    while i <= last
        invariant
            needle@.len() > 0,
            last == hay@.len() - needle@.len(),
            hay@.len() == hay.len(),
            i <= last + 1,
            forall|j: int| 0 <= j < i ==> #[trigger] hay@.subrange(j, j + needle@.len()) != needle@,
        decreases last + 1 - i,
    {
        let mut k: usize = 0;
        let mut same = true;
        while k < needle.len()
            invariant
                k <= needle@.len(),
                i + needle@.len() <= hay@.len(),
                hay@.len() == hay.len(),
                same == (forall|t: int| 0 <= t < k ==> hay@[i + t] == needle@[t]),
            decreases needle@.len() - k,
        {
            if hay[i + k] != needle[k] {
                same = false;
            }
            k = k + 1;
        }
        if same {
            assert(hay@.subrange(i as int, i + needle@.len()) =~= needle@);
            return true;
        }
        assert(hay@.subrange(i as int, i + needle@.len()) != needle@) by {
            if hay@.subrange(i as int, i + needle@.len()) == needle@ {
                assert forall|t: int| 0 <= t < needle@.len() implies hay@[i + t] == needle@[t] by {
                    assert(hay@.subrange(i as int, i + needle@.len())[t] == hay@[i + t]);
                }
            }
        }
        i = i + 1;
    }
    false
}

pub fn starts_with_chars(hay: &[char], p: &[char]) -> (r: bool)
    ensures
        r == starts_with(hay@, p@),
{
    if p.len() > hay.len() {
        return false;
    }
    let t = crate::text::slice_range(hay, 0, p.len());
    assert(t@ =~= hay@.take(p@.len() as int));
    chars_equal(t.as_slice(), p)
}

pub fn ends_with_chars(hay: &[char], p: &[char]) -> (r: bool)
    ensures
        r == ends_with(hay@, p@),
{
    if p.len() > hay.len() {
        return false;
    }
    let t = crate::text::slice_range(hay, hay.len() - p.len(), hay.len());
    assert(t@ =~= hay@.skip(hay@.len() - p@.len()));
    chars_equal(t.as_slice(), p)
}

pub fn lex_less(a: &[char], b: &[char]) -> (r: bool)
    ensures
        r == lex_lt(a@, b@),
{
    let mut i: usize = 0;
    assert(a@.skip(0) =~= a@);
    assert(b@.skip(0) =~= b@);
    while i < a.len() && i < b.len() && a[i] == b[i]
        invariant
            i <= a@.len(),
            i <= b@.len(),
            lex_lt(a@, b@) == lex_lt(a@.skip(i as int), b@.skip(i as int)),
        decreases a@.len() - i,
    {
        proof {
            assert(a@.skip(i as int).drop_first() =~= a@.skip(i + 1));
            assert(b@.skip(i as int).drop_first() =~= b@.skip(i + 1));
        }
        i = i + 1;
    }
    if i == a.len() {
        i < b.len()
    } else if i == b.len() {
        false
    } else {
        (a[i] as u32) < (b[i] as u32)
    }
}

fn find_field_index(layout: &[Field], name: &[char]) -> (r: Option<usize>)
    ensures
        r matches Some(i) ==> first_from(name_pred(layout@, name@), 0, layout@.len() as int) == Some(
            i as int,
        ) && i < layout@.len(),
        r is None ==> first_from(name_pred(layout@, name@), 0, layout@.len() as int) is None,
{
    let ghost p = name_pred(layout@, name@);
    let mut i: usize = 0;
    while i < layout.len()
        invariant
            i <= layout@.len(),
            p == name_pred(layout@, name@),
            first_from(p, 0, layout@.len() as int) == first_from(p, i as int, layout@.len() as int),
        decreases layout@.len() - i,
    {
        let fname = chars_of(layout[i].name.as_str());
        if chars_equal(fname.as_slice(), name) {
            assert(p(i as int));
            return Some(i);
        }
        assert(!p(i as int));
        i = i + 1;
    }
    None
}

/// Evaluate one condition on one record, or `None` on the records on which
/// the evaluation cannot complete.
pub fn try_eval_condition(c: &FilterCondition, schema: &Schema, rec: &[u8]) -> (r: Option<Verdict>)
    ensures
        r matches Some(v) ==> eval_outcome(c.field_name@, c.op, c.value@, *schema, rec@) == Some(
            v.model(),
        ),
        r is None ==> eval_outcome(c.field_name@, c.op, c.value@, *schema, rec@) is None,
{
    // Look up the field by name in *this record's* variant layout.
    // Multi-variant schemas pick a different field list per record, so a
    // field index would be ambiguous; records that don't have a matching
    // field simply don't satisfy the condition.
    let layout = schema.fields_for(rec);
    let name = chars_of(c.field_name.as_str());
    let idx = match find_field_index(layout, name.as_slice()) {
        Some(i) => i,
        None => return Some(Verdict::Decided(false)),
    };
    let field = &layout[idx];
    let end = match field.offset.checked_add(field.length) {
        Some(e) => e,
        None => return None,
    };
    if end > rec.len() {
        return Some(Verdict::Decided(false));
    }
    let bytes = vstd::slice::slice_subrange(rec, field.offset, end);
    let encoding = schema.field_encoding(field);
    let display = match try_format_field_value(field, encoding, bytes) {
        Some(d) => d,
        None => return None,
    };
    let is_numeric = match &field.kind {
        FieldKind::Numeric { .. } | FieldKind::Decimal { .. } => true,
        _ => false,
    };
    Some(verdict_on_display(c.op, is_numeric, display.as_str(), c.value.as_str()))
}

/// What condition `op` with query `value` says of a field shown as
/// `display` (`numeric` for numeric and decimal fields).
pub fn verdict_on_display(op: FilterOp, numeric: bool, display: &str, value: &str) -> (r: Verdict)
    ensures
        r.model() == display_verdict(op, numeric, display@, value@),
{
    let dc = chars_of(display);
    let dt = trim_chars(dc.as_slice());
    let qc = chars_of(value);
    let qt = trim_chars(qc.as_slice());
    match op {
        FilterOp::Contains => Verdict::Decided(contains_chars(dc.as_slice(), qc.as_slice())),
        FilterOp::Equals => Verdict::Decided(chars_equal(dt.as_slice(), qt.as_slice())),
        FilterOp::NotEquals => Verdict::Decided(!chars_equal(dt.as_slice(), qt.as_slice())),
        FilterOp::StartsWith => Verdict::Decided(starts_with_chars(dt.as_slice(), qt.as_slice())),
        FilterOp::EndsWith => Verdict::Decided(ends_with_chars(dt.as_slice(), qt.as_slice())),
        _ => {
            if numeric {
                Verdict::CompareNumbers {
                    op,
                    lhs: crate::text::string_from(dt.as_slice()),
                    rhs: crate::text::string_from(qt.as_slice()),
                }
            } else {
                // Lexicographic comparison — useful for dates in YYYYMMDD form
                // and for sortable identifiers.
                let holds = match op {
                    FilterOp::Gt => lex_less(qt.as_slice(), dt.as_slice()),
                    FilterOp::Gte => !lex_less(dt.as_slice(), qt.as_slice()),
                    FilterOp::Lt => lex_less(dt.as_slice(), qt.as_slice()),
                    _ => !lex_less(qt.as_slice(), dt.as_slice()),
                };
                Verdict::Decided(holds)
            }
        },
    }
}

/// Evaluate one condition on one record.
pub fn eval_condition(c: &FilterCondition, schema: &Schema, rec: &[u8]) -> (r: Verdict)
    requires
        eval_outcome(c.field_name@, c.op, c.value@, *schema, rec@) is Some,
    ensures
        eval_outcome(c.field_name@, c.op, c.value@, *schema, rec@) == Some(r.model()),
{
    match try_eval_condition(c, schema, rec) {
        Some(v) => v,
        None => {
            proof {
                assert(false);
            }
            Verdict::Decided(false)
        },
    }
}


/// Condition `c` comes out as `b` on record `rec`, when numeric orderings
/// are decided by `compare` (which reads both sides as numbers).
pub open spec fn condition_gives<C: Fn(FilterOp, &str, &str) -> bool>(
    compare: C,
    c: FilterCondition,
    schema: Schema,
    rec: Seq<u8>,
    b: bool,
) -> bool {
    match eval_outcome(c.field_name@, c.op, c.value@, schema, rec) {
        Some(VerdictModel::Decided(x)) => x == b,
        Some(VerdictModel::CompareNumbers(op, l, r)) => exists|ls: &str, rs: &str|
            ls@ == l && rs@ == r && #[trigger] compare.ensures((op, ls, rs), b),
        None => false,
    }
}

/// Every condition can be evaluated on `rec`.
pub open spec fn conditions_defined(conds: Seq<FilterCondition>, schema: Schema, rec: Seq<u8>) -> bool {
    forall|i: int|
        0 <= i < conds.len() ==> (#[trigger] eval_outcome(
            conds[i].field_name@,
            conds[i].op,
            conds[i].value@,
            schema,
            rec,
        )) is Some
}

/// What a record's test against all conditions (AND'd) may come out as.
pub open spec fn record_result<C: Fn(FilterOp, &str, &str) -> bool>(
    compare: C,
    conds: Seq<FilterCondition>,
    schema: Schema,
    rec: Seq<u8>,
    r: Option<bool>,
) -> bool {
    &&& r == Some(true) ==> forall|i: int|
        0 <= i < conds.len() ==> #[trigger] condition_gives(compare, conds[i], schema, rec, true)
    &&& r == Some(false) ==> exists|i: int|
        0 <= i < conds.len() && #[trigger] condition_gives(compare, conds[i], schema, rec, false)
    &&& r is None ==> !conditions_defined(conds, schema, rec)
    &&& conditions_defined(conds, schema, rec) ==> r is Some
}

/// Test one record against all conditions, stopping at the first that
/// fails; `None` when a condition cannot be evaluated on it.
pub fn record_passes<C: Fn(FilterOp, &str, &str) -> bool>(
    conditions: &[FilterCondition],
    schema: &Schema,
    rec: &[u8],
    compare: &C,
) -> (r: Option<bool>)
    requires
        forall|op: FilterOp, a: &str, b: &str| #[trigger] compare.requires((op, a, b)),
    ensures
        record_result(*compare, conditions@, *schema, rec@, r),
{
    let mut i: usize = 0;
    while i < conditions.len()
        invariant
            i <= conditions@.len(),
            forall|op: FilterOp, a: &str, b: &str| #[trigger] compare.requires((op, a, b)),
            forall|j: int|
                0 <= j < i ==> #[trigger] condition_gives(*compare, conditions@[j], *schema, rec@, true),
            forall|j: int|
                0 <= j < i ==> (#[trigger] eval_outcome(
                    conditions@[j].field_name@,
                    conditions@[j].op,
                    conditions@[j].value@,
                    *schema,
                    rec@,
                )) is Some,
        decreases conditions@.len() - i,
    {
        let c = &conditions[i];
        let v = match try_eval_condition(c, schema, rec) {
            Some(v) => v,
            None => {
                assert(!conditions_defined(conditions@, *schema, rec@));
                return None;
            },
        };
        let ok = match &v {
            Verdict::Decided(b) => *b,
            Verdict::CompareNumbers { op, lhs, rhs } => {
                let l = lhs.as_str();
                let rr = rhs.as_str();
                let res = compare(*op, l, rr);
                assert(compare.ensures((*op, l, rr), res));
                res
            },
        };
        if !ok {
            assert(condition_gives(*compare, conditions@[i as int], *schema, rec@, false));
            return Some(false);
        }
        assert(condition_gives(*compare, conditions@[i as int], *schema, rec@, true));
        i = i + 1;
    }
    Some(true)
}


/// The bytes of record `idx` in `data`, if it lies within it.
pub open spec fn record_in(data: Seq<u8>, schema: Schema, idx: int) -> Option<Seq<u8>> {
    let start = idx * schema.spec_stride();
    let end = start + schema.record_length;
    if end > data.len() {
        None
    } else {
        Some(data.subrange(start, end))
    }
}

/// Record `idx` lies in `data` and passes every condition.
pub open spec fn record_passes_all<C: Fn(FilterOp, &str, &str) -> bool>(
    compare: C,
    conds: Seq<FilterCondition>,
    schema: Schema,
    data: Seq<u8>,
    idx: int,
) -> bool {
    match record_in(data, schema, idx) {
        None => false,
        Some(rec) => forall|i: int|
            0 <= i < conds.len() ==> #[trigger] condition_gives(compare, conds[i], schema, rec, true),
    }
}

/// Record `idx` lies outside `data` or fails some condition.
pub open spec fn record_fails<C: Fn(FilterOp, &str, &str) -> bool>(
    compare: C,
    conds: Seq<FilterCondition>,
    schema: Schema,
    data: Seq<u8>,
    idx: int,
) -> bool {
    match record_in(data, schema, idx) {
        None => true,
        Some(rec) => exists|i: int|
            0 <= i < conds.len() && #[trigger] condition_gives(compare, conds[i], schema, rec, false),
    }
}

/// Every condition can be evaluated on every record in `[lo, hi)` that lies in `data`.
pub open spec fn defined_on(conds: Seq<FilterCondition>, schema: Schema, data: Seq<u8>, lo: int, hi: int) -> bool {
    forall|idx: int|
        lo <= idx < hi ==> match #[trigger] record_in(data, schema, idx) {
            None => true,
            Some(rec) => conditions_defined(conds, schema, rec),
        }
}

/// `v` lists, in ascending order, exactly the records of `[lo, hi)` that pass.
#[verifier::opaque]
pub open spec fn matched_exactly<C: Fn(FilterOp, &str, &str) -> bool>(
    compare: C,
    conds: Seq<FilterCondition>,
    schema: Schema,
    data: Seq<u8>,
    lo: int,
    hi: int,
    v: Seq<u32>,
) -> bool {
    &&& forall|i: int, j: int| 0 <= i < j < v.len() ==> v[i] < v[j]
    &&& forall|k: int|
        0 <= k < v.len() ==> lo <= #[trigger] v[k] < hi && record_passes_all(
            compare,
            conds,
            schema,
            data,
            v[k] as int,
        )
    &&& forall|idx: int|
        lo <= idx < hi && !v.contains(idx as u32) ==> #[trigger] record_fails(compare, conds, schema, data, idx)
}

/// The outcome of testing the records of `[lo, hi)`: the passing ones, or
/// `None` where a condition cannot be evaluated on some record.
pub open spec fn range_result<C: Fn(FilterOp, &str, &str) -> bool>(
    compare: C,
    conds: Seq<FilterCondition>,
    schema: Schema,
    data: Seq<u8>,
    lo: int,
    hi: int,
    r: Option<Seq<u32>>,
) -> bool {
    &&& r matches Some(v) ==> matched_exactly(compare, conds, schema, data, lo, hi, v)
    &&& r is None ==> !defined_on(conds, schema, data, lo, hi)
    &&& defined_on(conds, schema, data, lo, hi) ==> r is Some
}

/// Test the records `[lo, hi)` of `data`.
fn filter_range<C: Fn(FilterOp, &str, &str) -> bool>(
    conditions: &[FilterCondition],
    schema: &Schema,
    data: &[u8],
    lo: usize,
    hi: usize,
    compare: &C,
) -> (r: Option<Vec<u32>>)
    requires
        schema.stride_fits(),
        lo <= hi <= u32::MAX + 1,
        hi * schema.spec_stride() <= data@.len(),
        forall|op: FilterOp, a: &str, b: &str| #[trigger] compare.requires((op, a, b)),
    ensures
        range_result(
            *compare,
            conditions@,
            *schema,
            data@,
            lo as int,
            hi as int,
            match r {
                Some(v) => Some(v@),
                None => None,
            },
        ),
{
    reveal(matched_exactly);
    let stride = schema.stride();
    let rec_len = schema.record_length;
    let dlen = data.len();
    let mut out: Vec<u32> = Vec::new();
    let mut idx = lo;
    while idx < hi
        invariant
            lo <= idx <= hi,
            hi <= u32::MAX + 1,
            dlen == data@.len(),
            stride == schema.spec_stride(),
            rec_len == schema.record_length,
            hi * stride <= data@.len(),
            forall|op: FilterOp, a: &str, b: &str| #[trigger] compare.requires((op, a, b)),
            matched_exactly(*compare, conditions@, *schema, data@, lo as int, idx as int, out@),
        decreases hi - idx,
    {
        proof {
            reveal(matched_exactly);
        }
        assert(idx * stride <= hi * stride) by (nonlinear_arith)
            requires
                idx <= hi,
        ;
        let rec_start = idx * stride;
        let ghost before = out@;
        let mut pass = false;
        if rec_len <= dlen - rec_start {
            let rec = vstd::slice::slice_subrange(data, rec_start, rec_start + rec_len);
            assert(record_in(data@, *schema, idx as int) == Some(rec@));
            match record_passes(conditions, schema, rec, compare) {
                None => {
                    assert(!defined_on(conditions@, *schema, data@, lo as int, hi as int)) by {
                        assert(record_in(data@, *schema, idx as int) == Some(rec@));
                    }
                    return None;
                },
                Some(b) => {
                    pass = b;
                    if b {
                        assert(record_passes_all(*compare, conditions@, *schema, data@, idx as int));
                    } else {
                        let ghost i = choose|i: int|
                            0 <= i < conditions@.len() && #[trigger] condition_gives(
                                *compare,
                                conditions@[i],
                                *schema,
                                rec@,
                                false,
                            );
                        let ghost rr = record_in(data@, *schema, idx as int)->0;
                        assert(rr == rec@);
                        assert(condition_gives(*compare, conditions@[i], *schema, rr, false));
                        assert(record_fails(*compare, conditions@, *schema, data@, idx as int));
                    }
                },
            }
        } else {
            assert(record_in(data@, *schema, idx as int) is None);
            assert(record_fails(*compare, conditions@, *schema, data@, idx as int));
        }
        if pass {
            out.push(idx as u32);
        }
        proof {
            assert forall|k: int| 0 <= k < before.len() implies #[trigger] before[k] < idx by {
                assert(lo <= before[k] < idx);
            }
            assert forall|x: int|
                lo <= x < idx + 1 && !out@.contains(x as u32) implies #[trigger] record_fails(
                    *compare,
                    conditions@,
                    *schema,
                    data@,
                    x,
                ) by {
                if x < idx {
                    if before.contains(x as u32) {
                        let k = choose|k: int| 0 <= k < before.len() && before[k] == x as u32;
                        assert(out@[k] == x as u32);
                    }
                } else if pass {
                    assert(out@[out@.len() - 1] == x as u32);
                }
            }
            assert forall|k: int| 0 <= k < out@.len() implies lo <= #[trigger] out@[k] < idx + 1
                && record_passes_all(*compare, conditions@, *schema, data@, out@[k] as int) by {
                if k < before.len() {
                    assert(out@[k] == before[k]);
                }
            }
        }
        idx = idx + 1;
    }
    Some(out)
}


/// Records handed to a parallel worker at a time, at least.
pub const RECORDS_PER_CHUNK: usize = 4096;

/// Results for two adjacent ranges join into the result for both.
proof fn lemma_matched_concat<C: Fn(FilterOp, &str, &str) -> bool>(
    compare: C,
    conds: Seq<FilterCondition>,
    schema: Schema,
    data: Seq<u8>,
    lo: int,
    mid: int,
    hi: int,
    a: Seq<u32>,
    b: Seq<u32>,
)
    requires
        lo <= mid <= hi,
        matched_exactly(compare, conds, schema, data, lo, mid, a),
        matched_exactly(compare, conds, schema, data, mid, hi, b),
    ensures
        matched_exactly(compare, conds, schema, data, lo, hi, a + b),
{
    reveal(matched_exactly);
    let v = a + b;
    assert forall|i: int, j: int| 0 <= i < j < v.len() implies v[i] < v[j] by {
        if j < a.len() {
        } else if i >= a.len() {
            assert(v[i] == b[i - a.len()] && v[j] == b[j - a.len()]);
        } else {
            assert(v[i] == a[i] && v[j] == b[j - a.len()]);
            assert(a[i] < mid);
            assert(mid <= b[j - a.len()]);
        }
    }
    assert forall|k: int| 0 <= k < v.len() implies lo <= #[trigger] v[k] < hi && record_passes_all(
        compare,
        conds,
        schema,
        data,
        v[k] as int,
    ) by {
        if k < a.len() {
            assert(v[k] == a[k]);
        } else {
            assert(v[k] == b[k - a.len()]);
        }
    }
    assert forall|idx: int| lo <= idx < hi && !v.contains(idx as u32) implies #[trigger] record_fails(
        compare,
        conds,
        schema,
        data,
        idx,
    ) by {
        if idx < mid {
            if a.contains(idx as u32) {
                let k = choose|k: int| 0 <= k < a.len() && a[k] == idx as u32;
                assert(v[k] == idx as u32);
            }
        } else {
            if b.contains(idx as u32) {
                let k = choose|k: int| 0 <= k < b.len() && b[k] == idx as u32;
                assert(v[k + a.len()] == idx as u32);
            }
        }
    }
}

/// `r` is the outcome of testing the records of chunk `c`.
pub open spec fn chunk_outcome<C: Fn(FilterOp, &str, &str) -> bool>(
    compare: C,
    conds: Seq<FilterCondition>,
    schema: Schema,
    data: Seq<u8>,
    c: (usize, usize),
    r: Option<Vec<u32>>,
) -> bool {
    range_result(
        compare,
        conds,
        schema,
        data,
        c.0 as int,
        c.1 as int,
        match r {
            Some(v) => Some(v@),
            None => None,
        },
    )
}

/// A record on which a condition cannot be evaluated stays one in any
/// wider range.
proof fn lemma_undefined_widens(
    conds: Seq<FilterCondition>,
    schema: Schema,
    data: Seq<u8>,
    lo: int,
    hi: int,
    wide_lo: int,
    wide_hi: int,
)
    requires
        wide_lo <= lo,
        hi <= wide_hi,
        !defined_on(conds, schema, data, lo, hi),
    ensures
        !defined_on(conds, schema, data, wide_lo, wide_hi),
{
    let idx = choose|idx: int|
        lo <= idx < hi && !match #[trigger] record_in(data, schema, idx) {
            None => true,
            Some(rec) => conditions_defined(conds, schema, rec),
        };
    assert(wide_lo <= idx < wide_hi);
}

/// Append all of `v` to `out`.
fn append_all(out: &mut Vec<u32>, v: &Vec<u32>)
    ensures
        final(out)@ == old(out)@ + v@,
{
    let ghost before = out@;
    let mut t: usize = 0;
    while t < v.len()
        invariant
            t <= v@.len(),
            out@ == before + v@.take(t as int),
        decreases v@.len() - t,
    {
        out.push(v[t]);
        t = t + 1;
        assert(out@ =~= before + v@.take(t as int));
    }
    assert(v@.take(v@.len() as int) =~= v@);
}

/// The records a filter pass looks at: all of them, counted as a `u32`
/// (a count beyond `u32::MAX` wraps around).
pub open spec fn scanned_records(n: int) -> int {
    if n <= u32::MAX {
        n
    } else {
        (n as u32) as int
    }
}

/// Test every record of the buffer against all conditions (AND'd),
/// in parallel over chunks of records; `None` when a condition cannot be
/// evaluated on some record.
pub fn matching_records<C: Fn(FilterOp, &str, &str) -> bool + Sync>(
    conditions: &[FilterCondition],
    schema: &Schema,
    buffer: &RecordBuffer,
    compare: &C,
) -> (r: Option<Vec<u32>>)
    requires
        schema.stride_fits(),
        forall|op: FilterOp, a: &str, b: &str| #[trigger] compare.requires((op, a, b)),
    ensures
        range_result(
            *compare,
            conditions@,
            *schema,
            buffer.bytes(),
            0,
            scanned_records(buffer.spec_record_count(*schema)),
            match r {
                Some(v) => Some(v@),
                None => None,
            },
        ),
{
    let n = buffer.record_count(schema);
    let m: usize = if n <= u32::MAX as usize {
        n
    } else {
        (#[verifier::truncate] (n as u32)) as usize
    };
    assert(m as int == scanned_records(buffer.spec_record_count(*schema)));
    let data = buffer.data.as_slice();
    let stride = schema.stride();
    if m == 0 {
        proof {
            reveal(matched_exactly);
            assert(matched_exactly(*compare, conditions@, *schema, data@, 0, 0, Seq::<u32>::empty()));
        }
        return Some(Vec::new());
    }
    assert(m * stride <= data@.len()) by (nonlinear_arith)
        requires
            m <= n,
            stride > 0 ==> n == (data@.len() as int) / (stride as int),
            stride == 0 ==> n == 0,
            m > 0,
    ;
    let chunks = split_range(0, m, chunk_size_for(m, RECORDS_PER_CHUNK));
    let ghost cs = chunks@;
    let run = |c: (usize, usize)| -> (r: Option<Vec<u32>>)
        requires
            schema.stride_fits(),
            c.0 <= c.1 <= m,
            m <= u32::MAX + 1,
            m * schema.spec_stride() <= data@.len(),
            forall|op: FilterOp, a: &str, b: &str| #[trigger] compare.requires((op, a, b)),
        ensures
            range_result(
                *compare,
                conditions@,
                *schema,
                data@,
                c.0 as int,
                c.1 as int,
                match r {
                    Some(v) => Some(v@),
                    None => None,
                },
            ),
        {
            assert(c.1 * schema.spec_stride() <= m * schema.spec_stride()) by (nonlinear_arith)
                requires
                    c.1 <= m,
            ;
            filter_range(conditions, schema, data, c.0, c.1, compare)
        };
    assert forall|i: int| 0 <= i < cs.len() implies #[trigger] run.requires((cs[i],)) by {
        assert(cs[i].0 < cs[i].1 <= m);
    }
    let results = par_map(chunks, run);
    assert forall|j: int| 0 <= j < cs.len() implies chunk_outcome(
        *compare,
        conditions@,
        *schema,
        data@,
        cs[j],
        #[trigger] results@[j],
    ) by {
        assert(run.ensures((cs[j],), results@[j]));
    }
    let mut out: Vec<u32> = Vec::new();
    proof {
        reveal(matched_exactly);
    }
    let mut k: usize = 0;
    while k < results.len()
        invariant
            k <= results@.len(),
            results@.len() == cs.len(),
            chunks_cover(cs, 0, m as int),
            data@ == buffer.bytes(),
            m as int == scanned_records(buffer.spec_record_count(*schema)),
            forall|j: int|
                0 <= j < cs.len() ==> chunk_outcome(
                    *compare,
                    conditions@,
                    *schema,
                    data@,
                    cs[j],
                    #[trigger] results@[j],
                ),
            matched_exactly(*compare, conditions@, *schema, data@, 0, bound_after(cs, 0, k as int), out@),
        decreases results@.len() - k,
    {
        proof {
            lemma_bound_after_ge(cs, 0, k as int);
            assert(bound_after(cs, 0, k + 1) == cs[k as int].1);
            assert(chunk_outcome(*compare, conditions@, *schema, data@, cs[k as int], results@[k as int]));
        }
        match &results[k] {
            None => {
                proof {
                    lemma_undefined_widens(
                        conditions@,
                        *schema,
                        data@,
                        cs[k as int].0 as int,
                        cs[k as int].1 as int,
                        0,
                        m as int,
                    );
                }
                return None;
            },
            Some(v) => {
                let ghost before = out@;
                append_all(&mut out, v);
                proof {
                    lemma_matched_concat(
                        *compare,
                        conditions@,
                        *schema,
                        data@,
                        0,
                        cs[k as int].0 as int,
                        cs[k as int].1 as int,
                        before,
                        v@,
                    );
                }
            },
        }
        k = k + 1;
    }
    proof {
        lemma_bound_after_ge(cs, 0, cs.len() as int);
    }
    Some(out)
}


impl FilterState {
    /// Evaluate the conditions over the whole buffer. With no conditions
    /// the filter is switched off; otherwise `matched` holds the passing
    /// records and the filter is active. `None` (nothing changed) when a
    /// condition cannot be evaluated on some record. The time taken is left
    /// to the caller to record in `last_eval_ms`.
    pub fn apply<C: Fn(FilterOp, &str, &str) -> bool + Sync>(
        &mut self,
        schema: &Schema,
        buffer: &RecordBuffer,
        compare: &C,
    ) -> (r: Option<()>)
        requires
            schema.stride_fits(),
            forall|op: FilterOp, a: &str, b: &str| #[trigger] compare.requires((op, a, b)),
        ensures
            final(self).conditions == old(self).conditions,
            old(self).conditions@.len() == 0 ==> {
                &&& r is Some
                &&& final(self).matched@.len() == 0
                &&& !final(self).active
                &&& final(self).last_eval_ms == 0
            },
            old(self).conditions@.len() > 0 ==> {
                &&& range_result(
                    *compare,
                    old(self).conditions@,
                    *schema,
                    buffer.bytes(),
                    0,
                    scanned_records(buffer.spec_record_count(*schema)),
                    match r {
                        Some(_) => Some(final(self).matched@),
                        None => None,
                    },
                )
                &&& r is Some ==> final(self).active
                &&& r is None ==> final(self).matched == old(self).matched && final(self).active
                    == old(self).active
                &&& final(self).last_eval_ms == old(self).last_eval_ms
            },
    {
        if self.conditions.len() == 0 {
            self.matched.clear();
            self.active = false;
            self.last_eval_ms = 0;
            return Some(());
        }
        match matching_records(self.conditions.as_slice(), schema, buffer, compare) {
            Some(m) => {
                self.matched = m;
                self.active = true;
                Some(())
            },
            None => None,
        }
    }

    /// Add a condition on the first visible field (none without fields).
    pub fn add_condition(&mut self, visible_fields: &[Field])
        ensures
            final(self).matched == old(self).matched,
            final(self).active == old(self).active,
            final(self).last_eval_ms == old(self).last_eval_ms,
            visible_fields@.len() == 0 ==> final(self).conditions@ == old(self).conditions@,
            visible_fields@.len() > 0 ==> {
                &&& final(self).conditions@.len() == old(self).conditions@.len() + 1
                &&& final(self).conditions@.take(old(self).conditions@.len() as int)
                    == old(self).conditions@
                &&& final(self).conditions@.last().field_name@ == visible_fields@[0].name@
                &&& final(self).conditions@.last().op == FilterOp::Contains
                &&& final(self).conditions@.last().value@.len() == 0
            },
    {
        if visible_fields.len() > 0 {
            let name = visible_fields[0].name.clone();
            self.conditions.push(
                FilterCondition { field_name: name, op: FilterOp::Contains, value: String::new() },
            );
            assert(self.conditions@.take(old(self).conditions@.len() as int) =~= old(
                self,
            ).conditions@);
        }
    }

    /// Remove condition `i`; the cached result is then stale and dropped.
    pub fn remove_condition(&mut self, i: usize)
        requires
            i < old(self).conditions@.len(),
        ensures
            final(self).conditions@ == old(self).conditions@.remove(i as int),
            final(self).matched@.len() == 0,
            !final(self).active,
            final(self).last_eval_ms == old(self).last_eval_ms,
    {
        self.conditions.remove(i);
        self.invalidate();
    }
}


/// `a` comes after `b` in the order of strings by code point: at the first
/// position where they differ `a` has the larger character, or `b` is a
/// proper prefix of `a`.
pub open spec fn comes_after(a: Seq<char>, b: Seq<char>) -> bool {
    ||| exists|k: int|
        #![trigger a[k], b[k]]
        0 <= k < a.len() && k < b.len() && a.take(k) == b.take(k) && (a[k] as u32) > (b[k] as u32)
    ||| (b.len() < a.len() && a.take(b.len() as int) == b)
}

/// `lex_lt` is the order `comes_after` describes.
proof fn lemma_lex_lt_is_before(x: Seq<char>, y: Seq<char>)
    ensures
        lex_lt(x, y) == comes_after(y, x),
    decreases x.len(),
{
    if x.len() == 0 {
        assert(y.take(0) =~= x);
    } else if y.len() == 0 {
    } else if x[0] != y[0] {
        if comes_after(y, x) {
            if exists|k: int|
                #![trigger y[k], x[k]]
                0 <= k < y.len() && k < x.len() && y.take(k) == x.take(k) && (y[k] as u32) > (
                x[k] as u32) {
                let k = choose|k: int|
                    #![trigger y[k], x[k]]
                    0 <= k < y.len() && k < x.len() && y.take(k) == x.take(k) && (y[k] as u32) > (
                    x[k] as u32);
                if k > 0 {
                    assert(y.take(k)[0] == x.take(k)[0]);
                }
            } else {
                assert(y.take(x.len() as int)[0] == x[0]);
            }
        } else {
            assert(y.take(0) =~= x.take(0));
            if (y[0] as u32) > (x[0] as u32) {
                assert(comes_after(y, x));
            }
        }
    } else {
        let xt = x.drop_first();
        let yt = y.drop_first();
        lemma_lex_lt_is_before(xt, yt);
        if comes_after(yt, xt) {
            if exists|k: int|
                #![trigger yt[k], xt[k]]
                0 <= k < yt.len() && k < xt.len() && yt.take(k) == xt.take(k) && (yt[k] as u32) > (
                xt[k] as u32) {
                let k = choose|k: int|
                    #![trigger yt[k], xt[k]]
                    0 <= k < yt.len() && k < xt.len() && yt.take(k) == xt.take(k) && (yt[k] as u32)
                        > (xt[k] as u32);
                assert(y.take(k + 1) =~= seq![y[0]] + yt.take(k));
                assert(x.take(k + 1) =~= seq![x[0]] + xt.take(k));
                assert(y[k + 1] == yt[k] && x[k + 1] == xt[k]);
            } else {
                assert(y.take(x.len() as int) =~= seq![y[0]] + yt.take(xt.len() as int));
                assert(x =~= seq![x[0]] + xt);
            }
            assert(comes_after(y, x));
        }
        if comes_after(y, x) {
            if exists|k: int|
                #![trigger y[k], x[k]]
                0 <= k < y.len() && k < x.len() && y.take(k) == x.take(k) && (y[k] as u32) > (
                x[k] as u32) {
                let k = choose|k: int|
                    #![trigger y[k], x[k]]
                    0 <= k < y.len() && k < x.len() && y.take(k) == x.take(k) && (y[k] as u32) > (
                    x[k] as u32);
                assert(k > 0);
                assert(yt.take(k - 1) =~= y.take(k).drop_first());
                assert(xt.take(k - 1) =~= x.take(k).drop_first());
                assert(yt[k - 1] == y[k] && xt[k - 1] == x[k]);
            } else {
                assert(yt.take(xt.len() as int) =~= y.take(x.len() as int).drop_first());
                assert(xt =~= x.drop_first());
            }
            assert(comes_after(yt, xt));
        }
    }
}

/// Of two strings, exactly one comes first, unless they are equal.
proof fn lemma_lex_lt_total(a: Seq<char>, b: Seq<char>)
    ensures
        a == b ==> !lex_lt(a, b),
        a != b ==> lex_lt(a, b) != lex_lt(b, a),
    decreases a.len(),
{
    if a.len() > 0 && b.len() > 0 {
        if a[0] == b[0] {
            lemma_lex_lt_total(a.drop_first(), b.drop_first());
            if a.drop_first() == b.drop_first() {
                assert(a =~= seq![a[0]] + a.drop_first());
                assert(b =~= seq![b[0]] + b.drop_first());
            }
        } else {
            vstd::utf8::char_u32_cast(a[0], a[0] as u32);
            vstd::utf8::char_u32_cast(b[0], b[0] as u32);
        }
    } else if a.len() == 0 && b.len() == 0 {
        assert(a =~= b);
    }
}

/// The orderings of a text (not numeric) field compare the trimmed display
/// with the trimmed query by code point: `Gt` holds when the display comes
/// after the query, `Lt` when it comes before, and `Gte` / `Lte` also when
/// the two are equal.
pub proof fn lemma_text_orderings(display: Seq<char>, value: Seq<char>)
    ensures
        ({
            let dt = trim_ws(display);
            let qt = trim_ws(value);
            &&& display_verdict(FilterOp::Gt, false, display, value) == VerdictModel::Decided(
                comes_after(dt, qt),
            )
            &&& display_verdict(FilterOp::Gte, false, display, value) == VerdictModel::Decided(
                comes_after(dt, qt) || dt == qt,
            )
            &&& display_verdict(FilterOp::Lt, false, display, value) == VerdictModel::Decided(
                comes_after(qt, dt),
            )
            &&& display_verdict(FilterOp::Lte, false, display, value) == VerdictModel::Decided(
                comes_after(qt, dt) || dt == qt,
            )
        }),
{
    let dt = trim_ws(display);
    let qt = trim_ws(value);
    lemma_lex_lt_is_before(qt, dt);
    lemma_lex_lt_is_before(dt, qt);
    lemma_lex_lt_total(dt, qt);
}

} // verus!

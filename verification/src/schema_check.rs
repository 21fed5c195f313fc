//! Schema validation: bounds, field ordering and overlaps, discriminator
//! range and unique variant keys.

use vstd::prelude::*;
use crate::schema::{Field, Schema};
use crate::text::{trim_ws, chars_of, trim_chars, chars_equal};

verus! {

/// Which field list a field problem was found in.
#[derive(Clone, Copy, Debug, PartialEq, Eq, Structural)]
pub enum Layout {
    /// The schema's default `fields`.
    Default,
    /// The fields of the variant with this index.
    Variant(usize),
}

/// A problem with one field of a field list (by index in that list).
#[derive(Clone, Copy, Debug, PartialEq, Eq, Structural)]
pub enum FieldError {
    LengthZero { index: usize },
    Overflow { index: usize },
    OutOfRange { index: usize, offset: usize, length: usize, record_length: usize },
    Overlap { index: usize, offset: usize, last_end: usize },
}

#[derive(Clone, Copy, Debug, PartialEq, Eq, Structural)]
pub enum SchemaError {
    RecordLengthZero,
    DiscriminatorLengthZero,
    DiscriminatorOverflow,
    DiscriminatorOutOfRange { offset: usize, length: usize, record_length: usize },
    NoVariants,
    /// The variant at `index` has the same trimmed key as an earlier one.
    DuplicateVariantKey { index: usize },
    Field { layout: Layout, error: FieldError },
}

/// Checks fields from index `i` on, `last_end` being the end of field `i - 1`.
pub open spec fn spec_validate_fields(
    fields: Seq<Field>,
    record_length: usize,
    i: int,
    last_end: int,
) -> Result<(), FieldError>
    decreases fields.len() - i,
{
    if i < 0 || i >= fields.len() {
        Ok(())
    } else {
        let f = fields[i];
        if f.length == 0 {
            Err(FieldError::LengthZero { index: i as usize })
        } else if f.offset + f.length > usize::MAX {
            Err(FieldError::Overflow { index: i as usize })
        } else if f.offset + f.length > record_length {
            Err(
                FieldError::OutOfRange {
                    index: i as usize,
                    offset: f.offset,
                    length: f.length,
                    record_length,
                },
            )
        } else if i > 0 && f.offset < last_end {
            Err(
                FieldError::Overlap { index: i as usize, offset: f.offset, last_end: last_end as usize },
            )
        } else {
            spec_validate_fields(fields, record_length, i + 1, f.offset + f.length)
        }
    }
}

pub open spec fn key_is_duplicate(s: Schema, i: int) -> bool {
    exists|j: int| 0 <= j < i && trim_ws(#[trigger] s.variants@[j].key@) == trim_ws(s.variants@[i].key@)
}

pub open spec fn spec_validate_variants(s: Schema, i: int) -> Result<(), SchemaError>
    decreases s.variants@.len() - i,
{
    if i < 0 || i >= s.variants@.len() {
        Ok(())
    } else if key_is_duplicate(s, i) {
        Err(SchemaError::DuplicateVariantKey { index: i as usize })
    } else {
        match spec_validate_fields(s.variants@[i].fields@, s.record_length, 0, 0) {
            Err(e) => Err(SchemaError::Field { layout: Layout::Variant(i as usize), error: e }),
            Ok(()) => spec_validate_variants(s, i + 1),
        }
    }
}

/// Field checks of the variants from index `i` on (a schema without a
/// discriminator still hands its variants' fields out as a fallback layout).
pub open spec fn spec_validate_variant_fields(s: Schema, i: int) -> Result<(), SchemaError>
    decreases s.variants@.len() - i,
{
    if i < 0 || i >= s.variants@.len() {
        Ok(())
    } else {
        match spec_validate_fields(s.variants@[i].fields@, s.record_length, 0, 0) {
            Err(e) => Err(SchemaError::Field { layout: Layout::Variant(i as usize), error: e }),
            Ok(()) => spec_validate_variant_fields(s, i + 1),
        }
    }
}

pub open spec fn spec_validate_default(s: Schema) -> Result<(), SchemaError> {
    if s.fields@.len() == 0 {
        Ok(())
    } else {
        match spec_validate_fields(s.fields@, s.record_length, 0, 0) {
            Err(e) => Err(SchemaError::Field { layout: Layout::Default, error: e }),
            Ok(()) => Ok(()),
        }
    }
}

/// The outcome of `Schema::validate`: the first problem in checking order.
pub open spec fn spec_validate(s: Schema) -> Result<(), SchemaError> {
    if s.record_length == 0 {
        Err(SchemaError::RecordLengthZero)
    } else {
        match s.discriminator {
            Some(d) => if d.length == 0 {
                Err(SchemaError::DiscriminatorLengthZero)
            } else if d.offset + d.length > usize::MAX {
                Err(SchemaError::DiscriminatorOverflow)
            } else if d.offset + d.length > s.record_length {
                Err(
                    SchemaError::DiscriminatorOutOfRange {
                        offset: d.offset,
                        length: d.length,
                        record_length: s.record_length,
                    },
                )
            } else if s.variants@.len() == 0 {
                Err(SchemaError::NoVariants)
            } else {
                match spec_validate_variants(s, 0) {
                    Err(e) => Err(e),
                    Ok(()) => spec_validate_default(s),
                }
            },
            None => match spec_validate_variant_fields(s, 0) {
                Err(e) => Err(e),
                Ok(()) => spec_validate_default(s),
            },
        }
    }
}

impl Schema {
    /// Validate the schema: bounds, field ordering, overlaps. Every variant's
    /// field list is validated independently, with or without a
    /// discriminator (without one, the variants still serve as a fallback
    /// layout).
    #[verifier::loop_isolation(false)]
    pub fn validate(&self) -> (r: Result<(), SchemaError>)
        ensures
            r == spec_validate(*self),
    {
        if self.record_length == 0 {
            return Err(SchemaError::RecordLengthZero);
        }
        if let Some(disc) = &self.discriminator {
            if disc.length == 0 {
                return Err(SchemaError::DiscriminatorLengthZero);
            }
            let end = match disc.offset.checked_add(disc.length) {
                Some(e) => e,
                None => return Err(SchemaError::DiscriminatorOverflow),
            };
            if end > self.record_length {
                return Err(
                    SchemaError::DiscriminatorOutOfRange {
                        offset: disc.offset,
                        length: disc.length,
                        record_length: self.record_length,
                    },
                );
            }
            if self.variants.len() == 0 {
                return Err(SchemaError::NoVariants);
            }
            // Detect duplicate variant keys.
            let mut seen: Vec<Vec<char>> = Vec::new();
            let n = self.variants.len();
            let mut i: usize = 0;
            while i < n
                invariant
                    i <= n,
                    n == self.variants@.len(),
                    seen@.len() == i,
                    forall|j: int| 0 <= j < i ==> (#[trigger] seen@[j])@ == trim_ws(self.variants@[j].key@),
                    spec_validate_variants(*self, 0) == spec_validate_variants(*self, i as int),
                decreases n - i,
            {
                let v = &self.variants[i];
                let kc = chars_of(v.key.as_str());
                let key = trim_chars(kc.as_slice());
                let mut j: usize = 0;
                while j < i
                    invariant
                        j <= i,
                        i < n,
                        n == self.variants@.len(),
                        seen@.len() == i,
                        forall|t: int| 0 <= t < i ==> (#[trigger] seen@[t])@ == trim_ws(self.variants@[t].key@),
                        key@ == trim_ws(self.variants@[i as int].key@),
                        forall|t: int| 0 <= t < j ==> trim_ws(#[trigger] self.variants@[t].key@) != key@,
                    decreases i - j,
                {
                    if chars_equal(seen[j].as_slice(), key.as_slice()) {
                        assert(key_is_duplicate(*self, i as int)) by {
                            assert(trim_ws(self.variants@[j as int].key@) == trim_ws(self.variants@[i as int].key@));
                        }
                        assert(spec_validate_variants(*self, i as int) == Err::<(), SchemaError>(SchemaError::DuplicateVariantKey { index: i }));
                        return Err(SchemaError::DuplicateVariantKey { index: i });
                    }
                    j = j + 1;
                }
                assert(!key_is_duplicate(*self, i as int));
                match self.validate_fields(v.fields.as_slice()) {
                    Err(e) => {
                        assert(spec_validate_variants(*self, i as int) == Err::<(), SchemaError>(SchemaError::Field { layout: Layout::Variant(i), error: e }));
                        return Err(SchemaError::Field { layout: Layout::Variant(i), error: e });
                    },
                    Ok(()) => {},
                }
                seen.push(key);
                i = i + 1;
            }
        } else {
            let n = self.variants.len();
            let mut i: usize = 0;
            while i < n
                invariant
                    i <= n,
                    n == self.variants@.len(),
                    spec_validate_variant_fields(*self, 0) == spec_validate_variant_fields(*self, i as int),
                decreases n - i,
            {
                match self.validate_fields(self.variants[i].fields.as_slice()) {
                    Err(e) => return Err(SchemaError::Field { layout: Layout::Variant(i), error: e }),
                    Ok(()) => {},
                }
                i = i + 1;
            }
        }
        if self.fields.len() > 0 {
            match self.validate_fields(self.fields.as_slice()) {
                Err(e) => return Err(SchemaError::Field { layout: Layout::Default, error: e }),
                Ok(()) => {},
            }
        }
        Ok(())
    }

    pub fn validate_fields(&self, fields: &[Field]) -> (r: Result<(), FieldError>)
        ensures
            r == spec_validate_fields(fields@, self.record_length, 0, 0),
    {
        let mut last_end: usize = 0;
        let n = fields.len();
        let mut i: usize = 0;
        while i < n
            invariant
                i <= n,
                n == fields@.len(),
                i == 0 ==> last_end == 0,
                spec_validate_fields(fields@, self.record_length, 0, 0) == spec_validate_fields(
                    fields@,
                    self.record_length,
                    i as int,
                    last_end as int,
                ),
            decreases n - i,
        {
            let f = &fields[i];
            if f.length == 0 {
                return Err(FieldError::LengthZero { index: i });
            }
            let end = match f.offset.checked_add(f.length) {
                Some(e) => e,
                None => return Err(FieldError::Overflow { index: i }),
            };
            if end > self.record_length {
                return Err(
                    FieldError::OutOfRange {
                        index: i,
                        offset: f.offset,
                        length: f.length,
                        record_length: self.record_length,
                    },
                );
            }
            if i > 0 && f.offset < last_end {
                return Err(FieldError::Overlap { index: i, offset: f.offset, last_end });
            }
            last_end = end;
            i = i + 1;
        }
        Ok(())
    }
}


/// Every field has a length, lies inside the record, and starts at or
/// after the end of the one before it.
pub open spec fn fields_fit(fields: Seq<Field>, record_length: usize) -> bool {
    &&& forall|k: int|
        0 <= k < fields.len() ==> (#[trigger] fields[k]).length > 0 && fields[k].offset
            + fields[k].length <= record_length
    &&& forall|k: int|
        0 < k < fields.len() ==> fields[k - 1].offset + fields[k - 1].length <= (#[trigger] fields[k]).offset
}

proof fn lemma_fields_ok_from(fields: Seq<Field>, record_length: usize, i: int, last_end: int)
    requires
        0 <= i,
        spec_validate_fields(fields, record_length, i, last_end) is Ok,
    ensures
        forall|k: int|
            i <= k < fields.len() ==> (#[trigger] fields[k]).length > 0 && fields[k].offset
                + fields[k].length <= record_length,
        forall|k: int|
            i < k < fields.len() ==> fields[k - 1].offset + fields[k - 1].length <= (
            #[trigger] fields[k]).offset,
        i > 0 && i < fields.len() ==> fields[i].offset >= last_end,
    decreases fields.len() - i,
{
    if i < fields.len() {
        let f = fields[i];
        lemma_fields_ok_from(fields, record_length, i + 1, f.offset + f.length);
    }
}

/// What a schema that passes validation guarantees: a record length, default
/// fields and every variant's fields that fit the record without
/// overlapping, and, with a discriminator, one inside the record, at least
/// one variant and distinct (trimmed) variant keys.
pub proof fn lemma_valid_schema(s: Schema)
    requires
        spec_validate(s) is Ok,
    ensures
        s.record_length > 0,
        fields_fit(s.fields@, s.record_length),
        forall|i: int|
            0 <= i < s.variants@.len() ==> fields_fit((#[trigger] s.variants@[i]).fields@, s.record_length),
        s.discriminator matches Some(d) ==> {
            &&& d.length > 0
            &&& d.offset + d.length <= s.record_length
            &&& s.variants@.len() > 0
            &&& forall|i: int, j: int|
                0 <= j < i < s.variants@.len() ==> trim_ws(s.variants@[i].key@) != trim_ws(
                    s.variants@[j].key@,
                )
        },
{
    if s.fields@.len() > 0 {
        lemma_fields_ok_from(s.fields@, s.record_length, 0, 0);
    }
    if s.discriminator is Some {
        lemma_variants_ok_from(s, 0);
    } else {
        lemma_variant_fields_ok_from(s, 0);
    }
}

proof fn lemma_variant_fields_ok_from(s: Schema, i: int)
    requires
        0 <= i,
        spec_validate_variant_fields(s, i) is Ok,
    ensures
        forall|k: int|
            i <= k < s.variants@.len() ==> fields_fit((#[trigger] s.variants@[k]).fields@, s.record_length),
    decreases s.variants@.len() - i,
{
    if i < s.variants@.len() {
        lemma_variant_fields_ok_from(s, i + 1);
        lemma_fields_ok_from(s.variants@[i].fields@, s.record_length, 0, 0);
    }
}

proof fn lemma_variants_ok_from(s: Schema, i: int)
    requires
        0 <= i,
        spec_validate_variants(s, i) is Ok,
    ensures
        forall|k: int|
            i <= k < s.variants@.len() ==> fields_fit((#[trigger] s.variants@[k]).fields@, s.record_length),
        forall|k: int, j: int|
            0 <= j < k < s.variants@.len() && i <= k ==> trim_ws(s.variants@[k].key@) != trim_ws(
                s.variants@[j].key@,
            ),
    decreases s.variants@.len() - i,
{
    if i < s.variants@.len() {
        lemma_variants_ok_from(s, i + 1);
        lemma_fields_ok_from(s.variants@[i].fields@, s.record_length, 0, 0);
        assert forall|j: int| 0 <= j < i implies trim_ws(s.variants@[i].key@) != trim_ws(
            #[trigger] s.variants@[j].key@,
        ) by {
            if trim_ws(s.variants@[i].key@) == trim_ws(s.variants@[j].key@) {
                assert(key_is_duplicate(s, i));
            }
        }
    }
}

} // verus!

//! The built-in 120-byte remittance schema used when no schema file is open.

use vstd::prelude::*;
use crate::encoding::Encoding;
use crate::schema::{Field, FieldKind, RecordSeparator, Schema};
use crate::schema_check::{spec_validate, spec_validate_fields};

verus! {

fn make_field(
    name: &str,
    offset: usize,
    length: usize,
    kind: FieldKind,
    encoding: Option<Encoding>,
    description: &str,
) -> (f: Field)
    ensures
        f.name@ == name@,
        f.offset == offset,
        f.length == length,
        f.kind == kind,
        f.encoding == encoding,
        f.description@ == description@,
{
    Field {
        name: String::from_str(name),
        offset,
        length,
        kind,
        encoding,
        description: String::from_str(description),
    }
}

/// Offset, length and encoding of a field.
pub open spec fn placed(f: Field, offset: usize, length: usize, enc: Option<Encoding>) -> bool {
    f.offset == offset && f.length == length && f.encoding == enc
}

/// The layout of the built-in 120-byte remittance schema.
pub open spec fn is_sample_120(r: Schema) -> bool {
    &&& r.name@ == "sample_120byte_remittance"@
    &&& r.record_length == 120
    &&& r.default_encoding == Encoding::ShiftJis
    &&& r.record_separator == RecordSeparator::NoSeparator
    &&& r.discriminator is None
    &&& r.variants@.len() == 0
    &&& r.fields@.len() == 12
    &&& r.fields@[0].name@ == "record_type"@
    &&& r.fields@[1].name@ == "bank_code"@
    &&& r.fields@[2].name@ == "branch_code"@
    &&& r.fields@[3].name@ == "account_type"@
    &&& r.fields@[4].name@ == "account_number"@
    &&& r.fields@[5].name@ == "account_holder"@
    &&& r.fields@[6].name@ == "transfer_date"@
    &&& r.fields@[7].name@ == "amount"@
    &&& r.fields@[8].name@ == "ref_no"@
    &&& r.fields@[9].name@ == "ezk_code"@
    &&& r.fields@[10].name@ == "note"@
    &&& r.fields@[11].name@ == "filler"@
    &&& placed(r.fields@[0], 0, 1, Some(Encoding::Ascii))
    &&& placed(r.fields@[1], 1, 4, Some(Encoding::Ascii))
    &&& placed(r.fields@[2], 5, 3, Some(Encoding::Ascii))
    &&& placed(r.fields@[3], 8, 1, Some(Encoding::Ascii))
    &&& placed(r.fields@[4], 9, 7, Some(Encoding::Ascii))
    &&& placed(r.fields@[5], 16, 30, None)
    &&& placed(r.fields@[6], 46, 8, Some(Encoding::Ascii))
    &&& placed(r.fields@[7], 54, 10, Some(Encoding::Ascii))
    &&& placed(r.fields@[8], 64, 20, Some(Encoding::Ascii))
    &&& placed(r.fields@[9], 84, 1, Some(Encoding::Ascii))
    &&& placed(r.fields@[10], 85, 20, None)
    &&& placed(r.fields@[11], 105, 15, Some(Encoding::Ascii))
    &&& r.fields@[0].kind == FieldKind::Text { pad: 0x20 }
    &&& r.fields@[1].kind == FieldKind::Numeric { pad: 0x30, signed: false }
    &&& r.fields@[2].kind == FieldKind::Numeric { pad: 0x30, signed: false }
    &&& r.fields@[3].kind == FieldKind::Numeric { pad: 0x30, signed: false }
    &&& r.fields@[4].kind == FieldKind::Numeric { pad: 0x30, signed: false }
    &&& r.fields@[5].kind == FieldKind::Text { pad: 0x20 }
    &&& r.fields@[6].kind matches FieldKind::Date { format } && format@ == "YYYYMMDD"@
    &&& r.fields@[7].kind == FieldKind::Decimal { pad: 0x30, scale: 0, signed: false }
    &&& r.fields@[8].kind == FieldKind::Text { pad: 0x20 }
    &&& r.fields@[9].kind == FieldKind::Text { pad: 0x20 }
    &&& r.fields@[10].kind == FieldKind::Text { pad: 0x20 }
    &&& r.fields@[11].kind == FieldKind::Filler { pad: 0x20 }
}

/// The field descriptions of the built-in 120-byte remittance schema.
pub open spec fn sample_120_described(r: Schema) -> bool {
    &&& r.fields@[0].description@ == "レコード区分 (1=ヘッダ, 2=データ, 8=トレーラ, 9=エンド)"@
    &&& r.fields@[1].description@ == "金融機関コード"@
    &&& r.fields@[2].description@ == "支店コード"@
    &&& r.fields@[3].description@ == "預金種目 (1=普通, 2=当座, 9=その他)"@
    &&& r.fields@[4].description@ == "口座番号"@
    &&& r.fields@[5].description@ == "口座名義人カナ/漢字"@
    &&& r.fields@[6].description@ == "振込指定日"@
    &&& r.fields@[7].description@ == "振込金額 (円)"@
    &&& r.fields@[8].description@ == "顧客参照番号"@
    &&& r.fields@[9].description@ == "EDI情報区分"@
    &&& r.fields@[10].description@ == "備考 / EDI情報"@
    &&& r.fields@[11].description@ == "予備領域"@
}

impl Schema {
    /// Sample 120-byte schema, used when launching without a schema file.
    #[verifier::rlimit(50)]
    pub fn sample_120() -> (r: Self)
        ensures
            is_sample_120(r),
            sample_120_described(r),
            spec_validate(r) is Ok,
    {
        let fields = vec![
            make_field(
                "record_type",
                0,
                1,
                FieldKind::Text { pad: 0x20 },
                Some(Encoding::Ascii),
                "レコード区分 (1=ヘッダ, 2=データ, 8=トレーラ, 9=エンド)",
            ),
            make_field(
                "bank_code",
                1,
                4,
                FieldKind::Numeric { pad: 0x30, signed: false },
                Some(Encoding::Ascii),
                "金融機関コード",
            ),
            make_field(
                "branch_code",
                5,
                3,
                FieldKind::Numeric { pad: 0x30, signed: false },
                Some(Encoding::Ascii),
                "支店コード",
            ),
            make_field(
                "account_type",
                8,
                1,
                FieldKind::Numeric { pad: 0x30, signed: false },
                Some(Encoding::Ascii),
                "預金種目 (1=普通, 2=当座, 9=その他)",
            ),
            make_field(
                "account_number",
                9,
                7,
                FieldKind::Numeric { pad: 0x30, signed: false },
                Some(Encoding::Ascii),
                "口座番号",
            ),
            make_field(
                "account_holder",
                16,
                30,
                FieldKind::Text { pad: 0x20 },
                None,
                "口座名義人カナ/漢字",
            ),
            make_field(
                "transfer_date",
                46,
                8,
                FieldKind::Date { format: String::from_str("YYYYMMDD") },
                Some(Encoding::Ascii),
                "振込指定日",
            ),
            make_field(
                "amount",
                54,
                10,
                FieldKind::Decimal { pad: 0x30, scale: 0, signed: false },
                Some(Encoding::Ascii),
                "振込金額 (円)",
            ),
            make_field(
                "ref_no",
                64,
                20,
                FieldKind::Text { pad: 0x20 },
                Some(Encoding::Ascii),
                "顧客参照番号",
            ),
            make_field(
                "ezk_code",
                84,
                1,
                FieldKind::Text { pad: 0x20 },
                Some(Encoding::Ascii),
                "EDI情報区分",
            ),
            make_field(
                "note",
                85,
                20,
                FieldKind::Text { pad: 0x20 },
                None,
                "備考 / EDI情報",
            ),
            make_field(
                "filler",
                105,
                15,
                FieldKind::Filler { pad: 0x20 },
                Some(Encoding::Ascii),
                "予備領域",
            ),
        ];
        let r = Schema {
            name: String::from_str("sample_120byte_remittance"),
            record_length: 120,
            default_encoding: Encoding::ShiftJis,
            record_separator: RecordSeparator::NoSeparator,
            discriminator: None,
            variants: Vec::new(),
            fields,
        };
        proof {
            reveal_with_fuel(spec_validate_fields, 13);
        }
        r
    }
}

} // verus!

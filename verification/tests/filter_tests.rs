use flr_editor::record::RecordBuffer;
use flr_editor::schema::Schema;
use flr_editor::ui::filter::{
    eval_condition, verdict_on_display, FilterCondition, FilterOp, FilterState, Verdict,
};

/// Orders two display strings as numbers, the way the editor does.
fn compare_numbers(op: FilterOp, a: &str, b: &str) -> bool {
    match (a.parse::<f64>(), b.parse::<f64>()) {
        (Ok(x), Ok(y)) => match op {
            FilterOp::Gt => x > y,
            FilterOp::Gte => x >= y,
            FilterOp::Lt => x < y,
            FilterOp::Lte => x <= y,
            _ => false,
        },
        _ => false,
    }
}

fn varied_buffer() -> (Schema, RecordBuffer) {
    let schema = Schema::sample_120();
    let mut buf = RecordBuffer::new_empty(&schema, 5);
    let holder = schema.fields[5].clone();
    let amount = schema.fields[7].clone();
    let holders = ["タナカ", "ABCメディカル", "スズキ", "メディカルセンター", "サトウ"];
    let amounts = ["6000000", "100", "5000001", "5000000", "42"];
    for i in 0..5 {
        assert_eq!(buf.set_field_text(&schema, i, &holder, holders[i]), Ok(()));
        assert_eq!(buf.set_field_text(&schema, i, &amount, amounts[i]), Ok(()));
    }
    (schema, buf)
}

#[test]
fn filter_varied_data_by_substring() {
    let (schema, buf) = varied_buffer();
    let mut filter = FilterState::default();
    filter.conditions.push(FilterCondition {
        field_name: "account_holder".to_string(),
        op: FilterOp::Contains,
        value: "メディカル".to_string(),
    });
    assert!(filter.apply(&schema, &buf, &compare_numbers).is_some());
    assert!(!filter.matched.is_empty(), "expected メディカル matches");
    assert!(filter.active);
    assert_eq!(filter.matched, vec![1, 3]);
}

#[test]
fn filter_numeric_compare() {
    let (schema, buf) = varied_buffer();
    let mut filter = FilterState::default();
    filter.conditions.push(FilterCondition {
        field_name: "amount".into(),
        op: FilterOp::Gt,
        value: "5000000".to_string(),
    });
    assert!(filter.apply(&schema, &buf, &compare_numbers).is_some());
    assert_eq!(filter.matched, vec![0, 2]);
}

#[test]
fn conditions_are_anded() {
    let (schema, buf) = varied_buffer();
    let mut filter = FilterState::default();
    filter.conditions.push(FilterCondition {
        field_name: "amount".into(),
        op: FilterOp::Gte,
        value: "5000000".into(),
    });
    filter.conditions.push(FilterCondition {
        field_name: "account_holder".into(),
        op: FilterOp::Contains,
        value: "メディカル".into(),
    });
    filter.apply(&schema, &buf, &compare_numbers).unwrap();
    assert_eq!(filter.matched, vec![3]);
    assert_eq!(filter.displayed_count(5), 1);
    assert_eq!(filter.row_to_record(0, 5), Some(3));
    assert_eq!(filter.row_to_record(1, 5), None);
}

#[test]
fn string_operators_on_trimmed_display() {
    let (schema, buf) = varied_buffer();
    let rec = &buf.data.as_slice()[120..240];
    let cond = |op: FilterOp, value: &str| FilterCondition {
        field_name: "account_holder".into(),
        op,
        value: value.into(),
    };
    let decided = |v: Verdict| match v {
        Verdict::Decided(b) => b,
        Verdict::CompareNumbers { .. } => panic!("not a numeric field"),
    };
    assert!(decided(eval_condition(&cond(FilterOp::Equals, " ABCメディカル "), &schema, rec)));
    assert!(decided(eval_condition(&cond(FilterOp::NotEquals, "ABC"), &schema, rec)));
    assert!(decided(eval_condition(&cond(FilterOp::StartsWith, "ABC"), &schema, rec)));
    assert!(decided(eval_condition(&cond(FilterOp::EndsWith, "カル"), &schema, rec)));
    // Text fields order lexicographically.
    assert!(decided(eval_condition(&cond(FilterOp::Gt, "AB"), &schema, rec)));
    assert!(!decided(eval_condition(&cond(FilterOp::Lt, "AB"), &schema, rec)));
    assert!(decided(eval_condition(&cond(FilterOp::Lte, "ABCメディカル"), &schema, rec)));
    // A field the layout does not have never matches.
    assert!(!decided(eval_condition(
        &FilterCondition { field_name: "nope".into(), op: FilterOp::Contains, value: String::new() },
        &schema,
        rec
    )));
    // Numeric fields leave the ordering to the number comparison.
    let amount = FilterCondition { field_name: "amount".into(), op: FilterOp::Lt, value: " 7 ".into() };
    match eval_condition(&amount, &schema, rec) {
        Verdict::CompareNumbers { op, lhs, rhs } => {
            assert_eq!(op, FilterOp::Lt);
            assert_eq!(lhs, "100");
            assert_eq!(rhs, "7");
        }
        Verdict::Decided(_) => panic!("expected a numeric comparison"),
    }
}

#[test]
fn no_conditions_turns_the_filter_off() {
    let (schema, buf) = varied_buffer();
    let mut filter = FilterState::default();
    filter.active = true;
    filter.matched = vec![1];
    filter.last_eval_ms = 9;
    assert!(filter.apply(&schema, &buf, &compare_numbers).is_some());
    assert!(!filter.active);
    assert!(filter.matched.is_empty());
    assert_eq!(filter.last_eval_ms, 0);
    assert_eq!(filter.displayed_count(5), 5);
    assert_eq!(filter.row_to_record(4, 5), Some(4));
    assert_eq!(filter.row_to_record(5, 5), None);
}

#[test]
fn adding_and_removing_conditions() {
    let schema = Schema::sample_120();
    let mut filter = FilterState::default();
    filter.add_condition(&schema.fields);
    assert_eq!(filter.conditions.len(), 1);
    assert_eq!(filter.conditions[0].field_name, "record_type");
    assert_eq!(filter.conditions[0].op, FilterOp::Contains);
    filter.add_condition(&[]);
    assert_eq!(filter.conditions.len(), 1);
    filter.active = true;
    filter.matched = vec![0];
    filter.remove_condition(0);
    assert!(filter.conditions.is_empty());
    assert!(!filter.active);
    assert!(filter.matched.is_empty());
    filter.conditions.push(FilterCondition { field_name: "a".into(), op: FilterOp::Lt, value: "1".into() });
    filter.clear();
    assert!(filter.conditions.is_empty());
}

#[test]
fn operator_labels() {
    assert_eq!(FilterOp::all().len(), 9);
    assert_eq!(FilterOp::Contains.label(), "含む");
    assert_eq!(FilterOp::Lte.label(), "≤ 以下");
}

#[test]
fn many_records_are_filtered_in_parallel_chunks() {
    let schema = Schema::sample_120();
    let mut buf = RecordBuffer::new_empty(&schema, 10_000);
    let ref_no = schema.fields[8].clone();
    for i in (0..10_000).step_by(997) {
        assert_eq!(buf.set_field_text(&schema, i, &ref_no, "HIT"), Ok(()));
    }
    let mut filter = FilterState::default();
    filter.conditions.push(FilterCondition { field_name: "ref_no".into(), op: FilterOp::Equals, value: "HIT".into() });
    filter.apply(&schema, &buf, &compare_numbers).unwrap();
    let expected: Vec<u32> = (0..10_000u32).step_by(997).collect();
    assert_eq!(filter.matched, expected);
}

#[test]
fn verdicts_on_displayed_values() {
    assert!(matches!(verdict_on_display(FilterOp::Contains, false, "ABCメディカル", "メディ"), Verdict::Decided(true)));
    assert!(matches!(verdict_on_display(FilterOp::Contains, false, "ABC", " B"), Verdict::Decided(false)));
    assert!(matches!(verdict_on_display(FilterOp::Equals, false, " abc ", "abc"), Verdict::Decided(true)));
    assert!(matches!(verdict_on_display(FilterOp::NotEquals, false, "abc", "abd"), Verdict::Decided(true)));
    assert!(matches!(verdict_on_display(FilterOp::StartsWith, false, "20240101", "2024"), Verdict::Decided(true)));
    assert!(matches!(verdict_on_display(FilterOp::EndsWith, false, "20240101", "0102"), Verdict::Decided(false)));
    assert!(matches!(verdict_on_display(FilterOp::Gt, false, "20240102", "20240101"), Verdict::Decided(true)));
    assert!(matches!(verdict_on_display(FilterOp::Lte, false, "20240102", "20240101"), Verdict::Decided(false)));
    match verdict_on_display(FilterOp::Gte, true, " 123 ", "100") {
        Verdict::CompareNumbers { op, lhs, rhs } => {
            assert_eq!(op, FilterOp::Gte);
            assert_eq!(lhs, "123");
            assert_eq!(rhs, "100");
        }
        _ => panic!("numeric ordering should be left to the comparison"),
    }
}

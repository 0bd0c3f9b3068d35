use bruc_core::data::{copy_values, DataItem, DataValue, Number};
use bruc_core::names::NameMap;

fn item(x: f32) -> DataItem {
    DataItem::number(x.to_bits())
}

#[test]
fn inserts_and_reads_items() {
    let mut value = DataValue::new();
    assert_eq!(value.get("a"), None);

    value.insert("a", item(1.0));
    value.insert("b", DataItem::text("x"));
    assert_eq!(value.get("a"), Some(&item(1.0)));
    assert_eq!(value.get("b"), Some(&DataItem::text("x")));
    assert_eq!(value.get_number("a"), Some(Number::from_bits(1.0f32.to_bits())));
    assert_eq!(value.get_number("b"), None);
    assert_eq!(value.get_number("c"), None);

    // a second write of a key replaces its item, in place
    value.insert("a", DataItem::Bool(true));
    assert_eq!(value.get("a"), Some(&DataItem::Bool(true)));
    assert_eq!(
        value.pairs(),
        vec![("a".to_string(), DataItem::Bool(true)), ("b".to_string(), DataItem::text("x"))]
    );
}

#[test]
fn later_pairs_replace_earlier_ones() {
    let value = DataValue::from_pairs(vec![("a", item(1.0)), ("b", item(2.0)), ("a", item(3.0))]);

    assert_eq!(value.get("a"), Some(&item(3.0)));
    assert_eq!(value.pairs().len(), 2);
    assert_eq!(
        DataValue::with_instance(vec![("a".to_string(), item(1.0)), ("a".to_string(), item(4.0))]),
        DataValue::from_pairs(vec![("a", item(4.0))])
    );
}

#[test]
fn compares_records_by_their_items() {
    let first = DataValue::from_pairs(vec![("a", item(1.0)), ("b", item(2.0))]);
    let second = DataValue::from_pairs(vec![("b", item(2.0)), ("a", item(1.0))]);
    let third = DataValue::from_pairs(vec![("a", item(1.0))]);

    assert_eq!(first, second);
    assert_ne!(first, third);
    assert_ne!(third, first);
    assert_ne!(DataItem::number(0), DataItem::Bool(false));
    assert_eq!(DataValue::default(), DataValue::new());
}

#[test]
fn extends_and_clears_records() {
    let mut value = DataValue::from_pairs(vec![("a", item(1.0)), ("b", item(2.0))]);
    value.extend_with(&DataValue::from_pairs(vec![("b", item(5.0)), ("c", item(6.0))]));

    assert_eq!(value, DataValue::from_pairs(vec![("a", item(1.0)), ("b", item(5.0)), ("c", item(6.0))]));

    let copy = value.copy();
    value.clear();
    assert_eq!(value, DataValue::new());
    assert_eq!(copy.get("c"), Some(&item(6.0)));
}

#[test]
fn copies_records_and_items() {
    let values = vec![DataValue::from_pairs(vec![("a", item(1.0))]), DataValue::new()];
    assert_eq!(copy_values(&values), values);

    let text = DataItem::text("label");
    assert_eq!(text.copy(), text);
    assert_eq!(text.get_text(), Some(&"label".to_string()));
    assert_eq!(text.get_bool(), None);
    assert_eq!(DataItem::Bool(true).get_bool(), Some(true));
}

#[test]
fn maps_names_to_values() {
    let mut names: NameMap<usize> = NameMap::new();
    assert_eq!(names.len(), 0);
    assert_eq!(names.get("x"), None);

    names.insert("x", 1);
    names.insert("y", 2);
    names.insert("x", 3);

    assert_eq!(names.len(), 2);
    assert_eq!(names.get("x"), Some(&3));
    assert_eq!(names.get("y"), Some(&2));
}

#[test]
fn lists_pairs_in_the_order_of_their_keys() {
    let record = DataValue::from_pairs(vec![("b", item(1.0)), ("a", item(2.0)), ("ab", item(3.0)), ("B", item(4.0))]);
    let keys: Vec<String> = record.sorted_pairs().into_iter().map(|(k, _)| k).collect();
    assert_eq!(keys, vec!["B", "a", "ab", "b"]);
    assert_eq!(record.sorted_pairs()[1], ("a".to_string(), item(2.0)));
    assert_eq!(DataValue::new().sorted_pairs(), vec![]);
}

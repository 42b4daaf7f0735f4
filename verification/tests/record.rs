use paged_records::attribute::AttributeValue;
use paged_records::record::Record;

#[test]
fn record_new_is_empty() {
    let record = Record::new();
    assert!(record.is_empty());
    assert_eq!(record.get("a"), None);
    assert!(!record.contains_key("a"));
    assert_eq!(record.into_entries().len(), 0);
}

#[test]
fn record_insert_and_get() {
    let mut record = Record::new();
    assert_eq!(record.insert("a".to_string(), AttributeValue::Int(1)), None);
    assert_eq!(
        record.insert("b".to_string(), AttributeValue::Varchar("x".to_string())),
        None
    );
    assert!(!record.is_empty());
    assert_eq!(record.get("a"), Some(&AttributeValue::Int(1)));
    assert_eq!(
        record.get("b"),
        Some(&AttributeValue::Varchar("x".to_string()))
    );
    assert_eq!(record.get("c"), None);
    assert!(record.contains_key("b"));
    assert!(!record.contains_key(""));
}

#[test]
fn record_insert_replaces() {
    let mut record = Record::new();
    record.insert("a".to_string(), AttributeValue::Int(1));
    record.insert("b".to_string(), AttributeValue::Int(2));
    assert_eq!(
        record.insert("a".to_string(), AttributeValue::Real(3)),
        Some(AttributeValue::Int(1))
    );
    assert_eq!(record.get("a"), Some(&AttributeValue::Real(3)));
    assert_eq!(record.get("b"), Some(&AttributeValue::Int(2)));
    let mut entries = record.into_entries();
    entries.sort_by(|x, y| x.0.cmp(&y.0));
    assert_eq!(
        entries,
        vec![
            ("a".to_string(), AttributeValue::Real(3)),
            ("b".to_string(), AttributeValue::Int(2)),
        ]
    );
}

#[test]
fn record_remove() {
    let mut record = Record::new();
    record.insert("a".to_string(), AttributeValue::Int(1));
    record.insert("b".to_string(), AttributeValue::Int(2));
    record.insert("c".to_string(), AttributeValue::Int(3));
    assert_eq!(record.remove("b"), Some(AttributeValue::Int(2)));
    assert_eq!(record.remove("b"), None);
    assert_eq!(record.remove("z"), None);
    assert_eq!(record.get("a"), Some(&AttributeValue::Int(1)));
    assert_eq!(record.get("b"), None);
    assert_eq!(record.get("c"), Some(&AttributeValue::Int(3)));
    assert_eq!(record.remove("a"), Some(AttributeValue::Int(1)));
    assert_eq!(record.remove("c"), Some(AttributeValue::Int(3)));
    assert!(record.is_empty());
}

#[test]
fn record_equality_ignores_order() {
    let mut one = Record::new();
    one.insert("a".to_string(), AttributeValue::Int(1));
    one.insert("b".to_string(), AttributeValue::Varchar("x".to_string()));
    let mut other = Record::new();
    other.insert("b".to_string(), AttributeValue::Varchar("x".to_string()));
    other.insert("a".to_string(), AttributeValue::Int(1));
    assert_eq!(one, other);
    assert_eq!(Record::new(), Record::new());

    other.insert("a".to_string(), AttributeValue::Int(2));
    assert_ne!(one, other);
    other.insert("a".to_string(), AttributeValue::Int(1));
    assert_eq!(one, other);
    other.insert("c".to_string(), AttributeValue::Int(1));
    assert_ne!(one, other);
    assert_ne!(other, one);
    assert_ne!(one, Record::new());
    assert_ne!(Record::new(), one);
}

#[test]
fn record_values_are_told_apart() {
    let int = AttributeValue::Int(1);
    let real = AttributeValue::Real(1);
    let text = AttributeValue::Varchar("1".to_string());
    assert!(int.same_as(&AttributeValue::Int(1)));
    assert!(!int.same_as(&AttributeValue::Int(2)));
    assert!(!int.same_as(&real));
    assert!(!real.same_as(&text));
    assert!(text.same_as(&AttributeValue::Varchar("1".to_string())));
    assert!(!text.same_as(&AttributeValue::Varchar("2".to_string())));
    assert_eq!(text.duplicate(), text);
    assert_eq!(real.duplicate(), real);
    assert_eq!(int.duplicate(), int);
}

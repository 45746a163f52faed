use monotask::board::{BoardDoc, CardObject, Value};
use monotask::field::{create_field, set_card_field, FieldType};
use monotask::storage::{extract_card_numbers, extract_custom_fields, field_query_sql, field_query_value, sql_op};

fn card(deleted: bool, number: Option<&str>) -> CardObject {
    CardObject {
        deleted: Some(Value::Boolean(deleted)),
        number: number.map(|n| Value::Str(n.to_string())),
        title: None,
        column_id: None,
        custom_fields: Some(Vec::new()),
        comments: Some(Vec::new()),
    }
}

#[test]
fn card_number_index() {
    let doc = BoardDoc {
        root: Vec::new(),
        field_definitions: None,
        cards: vec![("a".into(), card(false, Some("MT-1"))), ("b".into(), card(true, Some("MT-2"))), ("c".into(), card(false, None))],
    };
    assert_eq!(extract_card_numbers(&doc), vec![("a".to_string(), "MT-1".to_string())]);
}

#[test]
fn custom_field_index() {
    let mut doc = BoardDoc { root: Vec::new(), field_definitions: Some(Vec::new()), cards: Vec::new() };
    assert!(extract_custom_fields(&doc).is_empty());
    let num = create_field(&mut doc, "Amount", FieldType::Number, vec![], None, false).unwrap();
    let date = create_field(&mut doc, "Close", FieldType::Date, vec![], None, false).unwrap();
    doc.cards.push(("c1".into(), card(false, None)));
    doc.cards.push(("c2".into(), card(true, None)));
    set_card_field(&mut doc, "c1", &num.id, "12.5").unwrap();
    set_card_field(&mut doc, "c1", &date.id, "2026-01-02").unwrap();
    set_card_field(&mut doc, "c1", "other", "x").unwrap();
    set_card_field(&mut doc, "c2", &num.id, "3").unwrap();
    let rows = extract_custom_fields(&doc);
    assert_eq!(rows.len(), 3);
    assert_eq!(rows[0].field_id, num.id);
    assert!(rows[0].is_number);
    assert_eq!(rows[0].value_date, None);
    assert_eq!(rows[1].value_date, Some("2026-01-02".to_string()));
    assert!(!rows[2].is_number && rows[2].value_date.is_none());
    assert_eq!(rows[2].value_text, "x");
}

#[test]
fn field_queries() {
    assert_eq!(sql_op("~"), "LIKE");
    assert_eq!(sql_op(">="), ">=");
    assert_eq!(sql_op("??"), "=");
    assert_eq!(
        field_query_sql(FieldType::Number, ">"),
        "SELECT card_id FROM card_custom_field_index\n                 WHERE board_id = ?1 AND field_id = ?2 AND value_num > ?3"
    );
    assert!(field_query_sql(FieldType::Select, "~").ends_with("value_text LIKE ?3"));
    assert!(field_query_sql(FieldType::Date, "<").ends_with("value_date < ?3"));
    assert_eq!(field_query_value("~", "acme"), "%acme%");
    assert_eq!(field_query_value("=", "acme"), "acme");
}

use monotask::board::{BoardDoc, CardObject, CommentObject, Value};
use monotask::clock::{now, now_at, observe_remote, HybridClock};
use monotask::comment::{add_comment, delete_comment, edit_comment, list_comments, set_comment_avatar_url};
use monotask::field::{
    apply_default_fields, archive_field, backfill_field_defaults, clear_card_field, create_field,
    get_card_field, get_field_by_id, list_card_fields, list_fields, rename_field, resolve_field_ref,
    set_card_field, update_field_default, validate_field_value, FieldDefinition, FieldType,
};

fn fresh_doc() -> BoardDoc {
    BoardDoc { root: Vec::new(), field_definitions: Some(Vec::new()), cards: Vec::new() }
}

fn add_card(doc: &mut BoardDoc, id: &str) -> String {
    doc.cards.push((
        id.to_string(),
        CardObject {
            deleted: Some(Value::Boolean(false)),
            number: None,
            title: None,
            column_id: None,
            custom_fields: Some(Vec::new()),
            comments: Some(Vec::new()),
        },
    ));
    id.to_string()
}

fn logical_of(ts: &str) -> u64 {
    u64::from_str_radix(ts.split('-').nth(1).unwrap(), 16).unwrap()
}

#[test]
fn observe_remote_advances_logical() {
    let mut clock = HybridClock::new();
    let remote = format!("0000000000000000-{:08x}", 0xffff_u64);
    observe_remote(&mut clock, &remote);
    let local = now(&mut clock);
    let local_logical = logical_of(&local);
    assert!(local_logical > 0xffff, "local logical should be > remote logical");
}

#[test]
fn observe_remote_ignores_malformed() {
    let mut clock = HybridClock::new();
    observe_remote(&mut clock, "not-a-valid-hlc");
    observe_remote(&mut clock, "");
}

#[test]
fn malformed_remote_leaves_counter() {
    let mut clock = HybridClock::new();
    let _ = now(&mut clock);
    observe_remote(&mut clock, "garbage");
    observe_remote(&mut clock, "1-zz");
    assert_eq!(clock.logical(), 1);
    observe_remote(&mut clock, "not-a-valid-hlc");
    assert_eq!(clock.logical(), 11);
}

#[test]
fn now_at_formats_padded_hex() {
    let mut clock = HybridClock::new();
    assert_eq!(now_at(&mut clock, 255), "00000000000000ff-00000000");
    assert_eq!(now_at(&mut clock, -5), "0000000000000000-00000001");
    assert_eq!(clock.logical(), 2);
}

#[test]
fn now_is_later_than_observed_remote() {
    let mut clock = HybridClock::new();
    observe_remote(&mut clock, "00000000000003e8-0000000a");
    let t = now(&mut clock);
    assert!(logical_of(&t) > 0xa);
    assert_eq!(t.len(), 25);
}

#[test]
fn field_type_round_trip() {
    for t in [FieldType::Text, FieldType::Number, FieldType::Date, FieldType::Select, FieldType::MultiSelect, FieldType::Checkbox] {
        assert_eq!(FieldType::from_str(t.as_str()), Some(t));
    }
    assert_eq!(FieldType::MultiSelect.as_str(), "multi_select");
    assert_eq!(FieldType::from_str("Text"), None);
}

#[test]
fn create_and_list_field() {
    let mut doc = fresh_doc();
    let f = create_field(&mut doc, "Stage", FieldType::Select, vec!["Lead".into(), "Qualified".into()], Some("Lead".into()), true).unwrap();
    assert_eq!(f.name, "Stage");
    assert_eq!(f.options, vec!["Lead", "Qualified"]);
    assert_eq!(f.default_value, Some("Lead".into()));

    let list = list_fields(&doc);
    assert_eq!(list.len(), 1);
    assert_eq!(list[0].id, f.id);
}

#[test]
fn create_field_on_existing_board_without_field_defs() {
    let mut doc = BoardDoc { root: Vec::new(), field_definitions: None, cards: Vec::new() };
    let f = create_field(&mut doc, "Priority", FieldType::Text, vec![], None, false).unwrap();
    assert_eq!(f.name, "Priority");
    assert!(doc.field_definitions.is_some());
}

#[test]
fn resolve_field_by_name_and_uuid() {
    let mut doc = fresh_doc();
    let f = create_field(&mut doc, "Company", FieldType::Text, vec![], None, false).unwrap();
    let by_uuid = resolve_field_ref(&doc, &f.id).unwrap().unwrap();
    assert_eq!(by_uuid.id, f.id);
    let by_name = resolve_field_ref(&doc, "company").unwrap().unwrap();
    assert_eq!(by_name.id, f.id);
}

#[test]
fn resolve_field_ambiguous_name() {
    let mut doc = fresh_doc();
    create_field(&mut doc, "Owner", FieldType::Text, vec![], None, false).unwrap();
    create_field(&mut doc, "owner", FieldType::Text, vec![], None, false).unwrap();
    assert!(resolve_field_ref(&doc, "OWNER").is_err());
    assert!(resolve_field_ref(&doc, "nobody").unwrap().is_none());
}

#[test]
fn set_and_get_card_field() {
    let mut doc = fresh_doc();
    let card = add_card(&mut doc, "card-1");
    let field = create_field(&mut doc, "Amount", FieldType::Number, vec![], None, false).unwrap();
    set_card_field(&mut doc, &card, &field.id, "15000").unwrap();
    let val = get_card_field(&doc, &card, &field.id).unwrap();
    assert_eq!(val, Some("15000".into()));
}

#[test]
fn set_card_field_on_missing_card_fails() {
    let mut doc = fresh_doc();
    assert!(set_card_field(&mut doc, "nope", "f", "1").is_err());
    assert!(get_card_field(&doc, "nope", "f").is_err());
}

#[test]
fn clear_then_get_is_none() {
    let mut doc = fresh_doc();
    let card = add_card(&mut doc, "c");
    set_card_field(&mut doc, &card, "f1", "x").unwrap();
    set_card_field(&mut doc, &card, "f2", "y").unwrap();
    clear_card_field(&mut doc, &card, "f1").unwrap();
    assert_eq!(get_card_field(&doc, &card, "f1").unwrap(), None);
    assert_eq!(get_card_field(&doc, &card, "f2").unwrap(), Some("y".into()));
    assert_eq!(list_card_fields(&doc, &card).unwrap(), vec![("f2".to_string(), "y".to_string())]);
}

#[test]
fn auto_apply_default_on_card_creation() {
    let mut doc = fresh_doc();
    let field = create_field(&mut doc, "Stage", FieldType::Select, vec!["Lead".into()], Some("Lead".into()), true).unwrap();
    let card = add_card(&mut doc, "acme");
    apply_default_fields(&mut doc, &card).unwrap();
    let val = get_card_field(&doc, &card, &field.id).unwrap();
    assert_eq!(val, Some("Lead".into()));
}

#[test]
fn explicit_value_beats_auto_apply_default() {
    let mut doc = fresh_doc();
    let field = create_field(&mut doc, "Stage", FieldType::Select, vec!["Lead".into(), "Qualified".into()], Some("Lead".into()), true).unwrap();
    let card = add_card(&mut doc, "acme");
    set_card_field(&mut doc, &card, &field.id, "Qualified").unwrap();
    apply_default_fields(&mut doc, &card).unwrap();
    let val = get_card_field(&doc, &card, &field.id).unwrap();
    assert_eq!(val, Some("Qualified".into()));
}

#[test]
fn backfill_updates_only_unset_cards() {
    let mut doc = fresh_doc();
    let field = create_field(&mut doc, "Stage", FieldType::Select, vec!["Lead".into()], Some("Lead".into()), false).unwrap();
    let c1 = add_card(&mut doc, "c1");
    let c2 = add_card(&mut doc, "c2");
    set_card_field(&mut doc, &c2, &field.id, "Qualified").unwrap();
    let count = backfill_field_defaults(&mut doc, &field.id).unwrap();
    assert_eq!(count, 1);
    assert_eq!(get_card_field(&doc, &c1, &field.id).unwrap(), Some("Lead".into()));
    assert_eq!(get_card_field(&doc, &c2, &field.id).unwrap(), Some("Qualified".into()));
}

#[test]
fn backfill_twice_counts_nothing() {
    let mut doc = fresh_doc();
    let field = create_field(&mut doc, "Stage", FieldType::Select, vec!["Lead".into()], Some("Lead".into()), false).unwrap();
    add_card(&mut doc, "c1");
    assert_eq!(backfill_field_defaults(&mut doc, &field.id).unwrap(), 1);
    assert_eq!(backfill_field_defaults(&mut doc, &field.id).unwrap(), 0);
}

#[test]
fn rename_update_archive_field() {
    let mut doc = fresh_doc();
    let f = create_field(&mut doc, "Stage", FieldType::Text, vec![], None, false).unwrap();
    rename_field(&mut doc, &f.id, "Phase").unwrap();
    update_field_default(&mut doc, &f.id, Some("New"), Some(true)).unwrap();
    let g = get_field_by_id(&doc, &f.id).unwrap();
    assert_eq!(g.name, "Phase");
    assert_eq!(g.default_value, Some("New".into()));
    assert!(g.auto_apply);
    archive_field(&mut doc, &f.id).unwrap();
    assert!(get_field_by_id(&doc, &f.id).unwrap().archived);
    assert!(rename_field(&mut doc, "missing", "x").is_err());
}

#[test]
fn validate_select_rejects_invalid_option() {
    let field = FieldDefinition {
        id: "f1".into(), name: "Stage".into(), field_type: FieldType::Select,
        options: vec!["Lead".into(), "Qualified".into()], order: 0,
        archived: false, default_value: None, auto_apply: false,
    };
    assert!(validate_field_value(&field, "Lead").is_ok());
    let err = validate_field_value(&field, "Qualifed").unwrap_err();
    assert!(err.contains("valid options"));
}

#[test]
fn validate_number_rejects_non_numeric() {
    let field = FieldDefinition {
        id: "f1".into(), name: "Amount".into(), field_type: FieldType::Number,
        options: vec![], order: 0, archived: false, default_value: None, auto_apply: false,
    };
    assert!(validate_field_value(&field, "1500.50").is_ok());
    assert!(validate_field_value(&field, "abc").is_err());
}

#[test]
fn validate_date_rejects_wrong_format() {
    let field = FieldDefinition {
        id: "f1".into(), name: "Close Date".into(), field_type: FieldType::Date,
        options: vec![], order: 0, archived: false, default_value: None, auto_apply: false,
    };
    assert!(validate_field_value(&field, "2026-09-01").is_ok());
    assert!(validate_field_value(&field, "09/01/2026").is_err());
}

#[test]
fn validate_number_accepts_float_forms() {
    let field = FieldDefinition {
        id: "f1".into(), name: "N".into(), field_type: FieldType::Number,
        options: vec![], order: 0, archived: false, default_value: None, auto_apply: false,
    };
    for ok in ["1e5", "-2.5", "+.5", "inf", "NaN", "3."] {
        assert_eq!(validate_field_value(&field, ok).is_ok(), ok.parse::<f64>().is_ok(), "{ok}");
    }
    for bad in ["", ".", "1e", "--1", "0x10"] {
        assert_eq!(validate_field_value(&field, bad).is_ok(), bad.parse::<f64>().is_ok(), "{bad}");
    }
}

#[test]
fn validate_multi_select_and_checkbox() {
    let ms = FieldDefinition {
        id: "f".into(), name: "Tags".into(), field_type: FieldType::MultiSelect,
        options: vec!["a".into(), "b".into()], order: 0, archived: false, default_value: None, auto_apply: false,
    };
    assert!(validate_field_value(&ms, "a\u{1f}b").is_ok());
    assert!(validate_field_value(&ms, "a\u{1f}c").is_err());
    assert!(validate_field_value(&ms, "a, b").is_err());
    let cb = FieldDefinition {
        id: "f".into(), name: "Done".into(), field_type: FieldType::Checkbox,
        options: vec![], order: 0, archived: false, default_value: None, auto_apply: false,
    };
    assert!(validate_field_value(&cb, "true").is_ok());
    assert!(validate_field_value(&cb, "yes").is_err());
}

#[test]
fn added_comment_is_listed_last() {
    let mut doc = fresh_doc();
    let card = add_card(&mut doc, "c");
    let mut clock = HybridClock::new();
    let a = add_comment(&mut doc, &mut clock, &card, "first", "alice", None, None, None).unwrap();
    let b = add_comment(&mut doc, &mut clock, &card, "second", "bob", None, None, None).unwrap();
    assert_eq!(a.id.len(), 36);
    assert_ne!(a.id, b.id);
    let list = list_comments(&doc, &card).unwrap();
    assert_eq!(list.len(), 2);
    assert_eq!(list[1].text, "second");
    assert_eq!(list[1].author, "bob");
}

#[test]
fn deleted_comment_is_not_listed() {
    let mut doc = fresh_doc();
    let card = add_card(&mut doc, "c");
    let mut clock = HybridClock::new();
    let a = add_comment(&mut doc, &mut clock, &card, "first", "alice", None, None, None).unwrap();
    add_comment(&mut doc, &mut clock, &card, "second", "alice", None, None, None).unwrap();
    delete_comment(&mut doc, &card, &a.id).unwrap();
    let list = list_comments(&doc, &card).unwrap();
    assert_eq!(list.len(), 1);
    assert_eq!(list[0].text, "second");
    assert!(delete_comment(&mut doc, &card, "missing").is_err());
}

#[test]
fn edit_and_avatar_comment() {
    let mut doc = fresh_doc();
    let card = add_card(&mut doc, "c");
    let mut clock = HybridClock::new();
    let a = add_comment(&mut doc, &mut clock, &card, "first", "alice", None, None, None).unwrap();
    edit_comment(&mut doc, &mut clock, &card, &a.id, "changed").unwrap();
    set_comment_avatar_url(&mut doc, &card, &a.id, "http://x/y.png").unwrap();
    let list = list_comments(&doc, &card).unwrap();
    assert_eq!(list[0].text, "changed");
    assert_eq!(list[0].avatar_url, Some("http://x/y.png".into()));
    assert!(list_comments(&doc, "missing").is_err());
}

#[test]
fn card_without_comments_list_is_an_error() {
    let mut doc = fresh_doc();
    doc.cards.push(("c".to_string(), CardObject { deleted: None, number: None, title: None, column_id: None, custom_fields: None, comments: None }));
    let mut clock = HybridClock::new();
    assert!(add_comment(&mut doc, &mut clock, "c", "x", "a", None, None, None).is_err());
    let _unused: Option<CommentObject> = None;
}

#[test]
fn documents_with_a_key_twice_are_not_well_formed() {
    let mut doc = fresh_doc();
    add_card(&mut doc, "c1");
    assert!(monotask::board::doc_well_formed(&doc));
    add_card(&mut doc, "c1");
    assert!(!monotask::board::doc_well_formed(&doc));
}

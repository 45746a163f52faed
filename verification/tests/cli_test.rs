use monotask::cli::{
    changed_boards, event_line, has_space_extension, invite_file_parts, mime_from_ext, needs_client_id,
    parse_field_assignments, parse_filter_expr, redirect_uri, resolve_client_id, resolve_tenant,
};
use monotask::mail::MailConfig;
use monotask::net::NetEvent;

#[test]
fn field_assignments() {
    let ok = parse_field_assignments(&["Stage = Lead".to_string(), "Note=a=b".to_string()]).unwrap();
    assert_eq!(ok, vec![("Stage".to_string(), " Lead".to_string()), ("Note".to_string(), "a=b".to_string())]);
    assert_eq!(parse_field_assignments(&["novalue".to_string()]).unwrap_err(), "invalid --field 'novalue': expected FIELD_NAME=VALUE");
    assert_eq!(parse_field_assignments(&[" =x".to_string()]).unwrap_err(), "invalid --field ' =x': field name cannot be empty");
    assert!(parse_field_assignments(&[]).unwrap().is_empty());
}

#[test]
fn filter_expressions() {
    let t = |a: &str, b: &str, c: &str| Some((a.to_string(), b.to_string(), c.to_string()));
    assert_eq!(parse_filter_expr("Stage=Qualified"), t("Stage", "=", "Qualified"));
    assert_eq!(parse_filter_expr("Amount >= 10000"), t("Amount", ">=", "10000"));
    assert_eq!(parse_filter_expr("Name~Acme"), t("Name", "~", "Acme"));
    assert_eq!(parse_filter_expr("a!=b"), t("a", "!=", "b"));
    assert_eq!(parse_filter_expr(">=x=y"), t(">", "=", "x=y"));
    assert_eq!(parse_filter_expr("nothing"), None);
    assert_eq!(parse_filter_expr("=x"), None);
    assert_eq!(parse_filter_expr("Stage"), None);
    assert_eq!(parse_filter_expr(" Amount < 5 "), t("Amount", "<", "5"));
}

#[test]
fn image_types() {
    assert_eq!(mime_from_ext("a/b/photo.JPG"), "image/jpeg");
    assert_eq!(mime_from_ext("x.svg"), "image/svg+xml");
    assert_eq!(mime_from_ext("x.webp"), "image/webp");
    assert_eq!(mime_from_ext("noext"), "image/png");
    assert_eq!(mime_from_ext(".gif"), "image/png");
    assert_eq!(mime_from_ext("a.tar.gif"), "image/gif");
}

#[test]
fn invite_files() {
    assert!(has_space_extension("team.space"));
    assert!(!has_space_extension("team.spacex"));
    let (t, n, d) = invite_file_parts(Some("tok".into()), None, Some("AQID".into())).unwrap();
    assert_eq!((t.as_str(), n.as_str(), d), ("tok", "Shared Space", Some(vec![1, 2, 3])));
    let (_, n2, d2) = invite_file_parts(Some("tok".into()), Some("Team".into()), Some(String::new())).unwrap();
    assert_eq!((n2.as_str(), d2), ("Team", None));
    assert_eq!(invite_file_parts(Some("t".into()), None, Some("!!".into())).unwrap().2, None);
    assert_eq!(invite_file_parts(None, None, None).unwrap_err(), "missing or invalid 'token' field in .space file");
}

#[test]
fn mail_linking() {
    assert_eq!(redirect_uri(8080), "http://127.0.0.1:8080/callback");
    assert_eq!(resolve_client_id(Some(String::new()), Some("env".into()), Some("old".into())), Some("env".into()));
    assert_eq!(resolve_client_id(None, Some(String::new()), Some("old".into())), Some("old".into()));
    assert_eq!(resolve_client_id(Some("arg".into()), None, None), Some("arg".into()));
    assert_eq!(resolve_tenant(None, Some(String::new()), Some("old".into())), "");
    assert_eq!(resolve_tenant(Some(String::new()), None, None), "common");
    let mut c = MailConfig::default();
    assert!(needs_client_id("both", &c));
    c.gmail_client_id = Some("g".into());
    assert!(!needs_client_id("gmail,imap", &c));
    assert!(needs_client_id("outlook", &c));
    assert!(!needs_client_id("imap", &c));
}

#[test]
fn sync_daemon() {
    assert_eq!(event_line(&NetEvent::BoardSynced { board_id: "b".into(), peer_id: "p".into() }), "synced board b with p");
    assert_eq!(event_line(&NetEvent::SyncError { board_id: "b".into(), error: "e".into() }), "sync error b: e");
    assert_eq!(event_line(&NetEvent::PeerConnected { peer_id: "p".into() }), "connected: p");
    let cur = vec![("a".to_string(), 5i64), ("b".to_string(), 3), ("c".to_string(), 0)];
    let prev = vec![("a".to_string(), 5i64), ("b".to_string(), 1)];
    assert_eq!(changed_boards(&cur, &prev), vec!["b".to_string()]);
    assert_eq!(changed_boards(&vec![("n".to_string(), 1)], &vec![]), vec!["n".to_string()]);
}

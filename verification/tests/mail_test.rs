use monotask::board::{BoardDoc, CardObject, CommentObject, Value};
use monotask::clock::HybridClock;
use monotask::comment::{add_comment, list_comments};
use monotask::field::{get_card_field, list_fields, set_card_field};
use monotask::mail::{
    build_auth_url, contact_title, decode_encoded_words, decode_mime, email_comment_text, emails_to_add,
    ensure_crm_fields, find_contact_card, generate_pkce, get_mail_config, get_mail_field_id, gmail_message,
    gmail_query, group_by_sender, imap_creds_file_name, imap_fetch_set, imap_presets, imap_search_query,
    init_contact_card, mail_comment_ids, mail_since, mail_since_at, oauth_code_from_request, outlook_message,
    outlook_messages_url, parse_envelope, parse_envelope_with, parse_from, pkce_pair, prune_mail_comments,
    provider_uses_gmail, provider_uses_imap, provider_uses_outlook, record_contact_mail, resolve_inbox_col,
    set_mail_config, set_mail_field_id, since_ts, sync_contacts, sort_by_date_desc, tag_comment_message_id, token_file_name,
    token_from_response, token_still_valid, token_url, urlencoded, Envelope, EnvelopeAddress, ImapCredentials,
    MailConfig, MailError, MailMessage, MailToken, OutlookItem, SyncResult,
};

fn fresh_doc() -> BoardDoc {
    BoardDoc { root: Vec::new(), field_definitions: Some(Vec::new()), cards: Vec::new() }
}

fn add_card(doc: &mut BoardDoc, id: &str) {
    doc.cards.push((
        id.to_string(),
        CardObject { deleted: Some(Value::Boolean(false)), number: None, title: None, column_id: None, custom_fields: Some(Vec::new()), comments: Some(Vec::new()) },
    ));
}

fn msg(id: &str, from: &str, date: &str, provider: &str) -> MailMessage {
    MailMessage {
        id: id.into(),
        from_name: "Ann".into(),
        from_email: from.into(),
        subject: format!("subject {id}"),
        date: date.into(),
        snippet: "hello".into(),
        provider: provider.into(),
    }
}

#[test]
fn defaults_and_file_names() {
    let c = MailConfig::default();
    assert_eq!(c.provider, "both");
    assert_eq!(c.outlook_tenant_id, "common");
    assert_eq!(c.keep_last, 2);
    let i = ImapCredentials::default();
    assert_eq!(i.port, 993);
    assert_eq!(i.folder, "INBOX");
    assert_eq!(token_file_name("gmail"), "gmail_token.json");
    assert_eq!(imap_creds_file_name(), "imap_credentials.json");
    let p = imap_presets();
    assert_eq!(p.len(), 6);
    assert_eq!(p[5], ("ProtonMail Bridge", "127.0.0.1", 1143));
    let _ = SyncResult { contacts_created: 0, contacts_updated: 0, emails_added: 0 };
    let _ = MailToken { access_token: "a".into(), refresh_token: "r".into(), expires_at: 0 };
}

#[test]
fn oauth_urls() {
    assert_eq!(token_url("gmail", "x"), "https://oauth2.googleapis.com/token");
    assert_eq!(token_url("outlook", "t1"), "https://login.microsoftonline.com/t1/oauth2/v2.0/token");
    assert_eq!(urlencoded("http://127.0.0.1:80/cb a~é"), "http%3A%2F%2F127.0.0.1%3A80%2Fcb%20a~%E9");
    let u = build_auth_url("gmail", "cid", "common", "chal", "http://127.0.0.1:9/callback").unwrap();
    assert_eq!(
        u,
        "https://accounts.google.com/o/oauth2/v2/auth?client_id=cid&response_type=code&redirect_uri=http%3A%2F%2F127.0.0.1%3A9%2Fcallback&scope=https%3A%2F%2Fwww.googleapis.com%2Fauth%2Fgmail.readonly&code_challenge=chal&code_challenge_method=S256&access_type=offline&prompt=consent"
    );
    let o = build_auth_url("outlook", "c", "ten", "x", "r").unwrap();
    assert!(o.starts_with("https://login.microsoftonline.com/ten/oauth2/v2.0/authorize?client_id=c&"));
    assert!(o.contains("&scope=https%3A%2F%2Fgraph.microsoft.com%2FMail.Read%20offline_access&"));
    let e = build_auth_url("yahoo", "c", "t", "x", "r").unwrap_err();
    assert_eq!(e.message(), "Unknown provider: yahoo");
}

#[test]
fn from_headers() {
    assert_eq!(parse_from("\"Jane Doe\" <Jane@Example.COM>"), ("Jane Doe".to_string(), "jane@example.com".to_string()));
    assert_eq!(parse_from("  BOB@X.ORG "), ("bob@x.org".to_string(), "bob@x.org".to_string()));
    assert_eq!(parse_from("<a@b.c>"), ("a@b.c".to_string(), "a@b.c".to_string()));
    assert_eq!(parse_from("x <y> <Z@Q.R>>"), ("x <y>".to_string(), "z@q.r".to_string()));
}

#[test]
fn mime_words() {
    assert_eq!(decode_mime(b"=?UTF-8?B?SGVsbG8gV29ybGQ=?="), "Hello World");
    assert_eq!(decode_mime(b"=?utf-8?b?SGk=?= there"), "Hi there");
    assert_eq!(decode_mime(b"=?UTF-8?Q?Caf=C3=A9_au_lait=20now?="), "Caf=C3=A9 au lait now");
    assert_eq!(decode_mime(b"plain"), "plain");
    assert_eq!(decode_mime(b"a =?x?= b"), "a x b");
    assert_eq!(decode_mime(b"a =?open"), "a open");
    assert_eq!(decode_mime(b"=?UTF-8?B?***?="), "***");
    assert_eq!(decode_mime(&[0x66, 0xff, 0x6f]), "f\u{fffd}o");
    let v: Vec<char> = "x=?a?Q?b_c?=y".chars().collect();
    let d: String = decode_encoded_words(&v).into_iter().collect();
    assert_eq!(d, "xb cy");
}

#[test]
fn envelopes() {
    let env = Envelope {
        from: Some(vec![EnvelopeAddress { name: Some(b"=?UTF-8?B?SsO8cmdlbg==?=".to_vec()), mailbox: Some(b"Juergen".to_vec()), host: Some(b"Example.DE".to_vec()) }]),
        subject: None,
        date: Some(b"Mon, 1 Jan 2024".to_vec()),
        message_id: Some(b" <id@x> ".to_vec()),
    };
    let m = parse_envelope(&env).unwrap();
    assert_eq!(m.from_email, "juergen@example.de");
    assert_eq!(m.from_name, "J\u{fc}rgen");
    assert_eq!(m.subject, "(no subject)");
    assert_eq!(m.id, "<id@x>");
    assert_eq!(m.provider, "imap");
    assert_eq!(m.snippet, "");
    let no_host = Envelope { from: Some(vec![EnvelopeAddress { name: None, mailbox: Some(b"a".to_vec()), host: None }]), subject: None, date: None, message_id: None };
    assert!(parse_envelope(&no_host).is_none());
    let anon = Envelope { from: Some(vec![EnvelopeAddress { name: Some(Vec::new()), mailbox: Some(b"a".to_vec()), host: Some(b"b".to_vec()) }]), subject: Some(b"S".to_vec()), date: None, message_id: None };
    let m2 = parse_envelope_with(&anon, "fallback".into()).unwrap();
    assert_eq!(m2.from_name, "a@b");
    assert_eq!(m2.id, "fallback");
    assert_eq!(parse_envelope(&anon).unwrap().id.len(), 36);
}

#[test]
fn gmail_and_outlook_messages() {
    let headers = vec![
        ("from".to_string(), Some("Ann <ANN@X.COM>".to_string())),
        ("Subject".to_string(), Some(String::new())),
        ("DATE".to_string(), Some("Tue".to_string())),
        ("Message-ID".to_string(), None),
    ];
    let m = gmail_message(&headers, "g1", "snip");
    assert_eq!(m.from_name, "Ann");
    assert_eq!(m.from_email, "ann@x.com");
    assert_eq!(m.subject, "(no subject)");
    assert_eq!(m.date, "Tue");
    assert_eq!(m.id, "g1");
    assert_eq!(m.provider, "gmail");

    let item = OutlookItem {
        from_address: Some("Bob@Y.com".into()),
        from_name: Some(String::new()),
        subject: None,
        received: Some("2024".into()),
        body_preview: None,
        internet_message_id: Some(String::new()),
        id: Some("o1".into()),
    };
    let o = outlook_message(&item).unwrap();
    assert_eq!(o.from_email, "bob@y.com");
    assert_eq!(o.from_name, "bob@y.com");
    assert_eq!(o.subject, "(no subject)");
    assert_eq!(o.id, "o1");
    assert_eq!(o.provider, "outlook");
    let none = OutlookItem { from_address: None, from_name: None, subject: None, received: None, body_preview: None, internet_message_id: None, id: None };
    assert!(outlook_message(&none).is_none());
}

#[test]
fn tokens() {
    let t = token_from_response(Some("a".into()), Some("r".into()), None, 1000, "{}".into()).unwrap();
    assert_eq!(t.expires_at, 4600);
    let t2 = token_from_response(Some("a".into()), Some("r".into()), Some(60), 1000, "{}".into()).unwrap();
    assert_eq!(t2.expires_at, 1060);
    let e = token_from_response(None, Some("r".into()), None, 0, "{\"x\":1}".into()).unwrap_err();
    assert_eq!(e.message(), "No access_token in response: {\"x\":1}");
    let e2 = token_from_response(Some("a".into()), None, None, 0, "{}".into()).unwrap_err();
    assert!(matches!(e2, MailError::NoRefreshToken));
    assert_eq!(e2.message(), "No refresh_token \u{2014} did you include offline_access scope?");
    assert!(token_still_valid(100, 161));
    assert!(!token_still_valid(100, 160));
    assert!(!token_still_valid(i64::MAX, i64::MAX));
}

#[test]
fn pkce() {
    let bytes: [u8; 32] = [116, 24, 223, 180, 151, 153, 224, 37, 79, 250, 96, 125, 216, 173, 187, 186, 22, 212, 37, 77, 105, 214, 191, 240, 91, 88, 5, 88, 83, 132, 141, 121];
    let (v, c) = pkce_pair(&bytes);
    assert_eq!(v, "dBjftJeZ4CVP-mB92K27uhbUJU1p1r_wW1gFWFOEjXk");
    assert_eq!(c, "E9Melhoa2OwvFrEMTJguCHaoeK1t8URWbuGJSstw-cM");
    let (v2, c2) = generate_pkce();
    assert_eq!(v2.len(), 86);
    assert_eq!(c2.len(), 43);
}

#[test]
fn oauth_callback() {
    let ok = oauth_code_from_request(b"GET /callback?code=abc123&state=x HTTP/1.1\r\nHost: x\r\n\r\n".to_vec()).unwrap();
    assert_eq!(ok, "abc123");
    let denied = oauth_code_from_request(b"GET /callback?error=access_denied HTTP/1.1\r\n".to_vec()).unwrap_err();
    assert_eq!(denied.message(), "OAuth error: access_denied");
    let none = oauth_code_from_request(b"GET /callback HTTP/1.1\r\n".to_vec()).unwrap_err();
    assert_eq!(none.message(), "No code in OAuth callback");
    assert!(oauth_code_from_request(vec![0xff, 0xfe]).is_err());
}

#[test]
fn queries() {
    assert_eq!(gmail_query(1700000000), "in:inbox after:1700000000");
    assert_eq!(gmail_query(-5), "in:inbox after:-5");
    assert_eq!(gmail_query(i64::MIN), "in:inbox after:-9223372036854775808");
    assert_eq!(
        outlook_messages_url(0),
        "https://graph.microsoft.com/v1.0/me/messages?$select=id,internetMessageId,from,subject,receivedDateTime,bodyPreview&$top=200&$filter=receivedDateTime ge 1970-01-01T00:00:00Z&$orderby=receivedDateTime+desc"
    );
    assert_eq!(imap_search_query(1704067200), "SINCE 1-Jan-2024");
    assert_eq!(imap_search_query(i64::MAX), "SINCE 1-Jan-1970");
    assert!(outlook_messages_url(i64::MAX).contains("ge 1970-01-01T00:00:00Z&"));
    assert!(outlook_messages_url(1704067200).contains("ge 2024-01-01T00:00:00Z&"));
    assert_eq!(imap_fetch_set(&vec![3, 10, 2]), "10,3,2");
    let many: Vec<u32> = (1..=250).collect();
    let s = imap_fetch_set(&many);
    assert!(s.starts_with("250,249,"));
    assert!(s.ends_with(",51"));
    assert_eq!(s.split(',').count(), 200);
    assert_eq!(imap_fetch_set(&vec![]), "");
}

#[test]
fn providers_and_windows() {
    assert!(provider_uses_gmail("both") && provider_uses_outlook("both") && !provider_uses_imap("both"));
    assert!(provider_uses_imap("imap"));
    assert!(provider_uses_imap("gmail, imap "));
    assert!(!provider_uses_imap("imaps"));
    assert_eq!(since_ts(Some(5), 100), 5);
    assert_eq!(since_ts(None, 3000000), 3000000 - 2592000);
    assert_eq!(mail_since(&Some("2024-01-01T00:00:00Z".into())), Some(1704067200));
    assert!(mail_since(&None).is_some());
    assert_eq!(mail_since_at(&None, 1_700_000_000), Some(1_700_000_000 - 2_592_000));
    assert_eq!(mail_since_at(&Some("not a time".into()), 2_592_000), Some(0));
    assert_eq!(mail_since_at(&Some("2024-01-01T00:00:00Z".into()), 5), Some(1704067200));
    assert_eq!(mail_since_at(&None, i64::MIN + 5), None);
    let cols = vec!["a".to_string(), "b".to_string()];
    assert_eq!(resolve_inbox_col(&cols, Some("b")).unwrap(), "b");
    assert_eq!(resolve_inbox_col(&cols, Some("z")).unwrap(), "a");
    assert_eq!(resolve_inbox_col(&vec![], None).unwrap_err().message(), "Board has no columns");
}

#[test]
fn sorting_and_grouping() {
    let v = vec![msg("1", "a@x", "2024-01-01", "gmail"), msg("2", "b@x", "2024-03-01", "gmail"), msg("3", "a@x", "2024-02-01", "imap"), msg("4", "a@x", "2024-02-01", "gmail")];
    let sorted = sort_by_date_desc(v.iter().map(|m| m.clone()).collect());
    let ids: Vec<&str> = sorted.iter().map(|m| m.id.as_str()).collect();
    assert_eq!(ids, vec!["2", "3", "4", "1"]);
    let groups = group_by_sender(v);
    assert_eq!(groups.len(), 2);
    assert_eq!(groups[0].0, "a@x");
    assert_eq!(groups[0].1.iter().map(|m| m.id.as_str()).collect::<Vec<_>>(), vec!["1", "3", "4"]);
    assert_eq!(contact_title("Ann", "a@x"), "Ann <a@x>");
    assert_eq!(contact_title("a@x", "a@x"), "a@x");
    assert_eq!(email_comment_text(&msg("9", "a", "D", "p")), "**subject 9**\nD\n\nhello");
    let recorded = vec![("3".to_string(), "c3".to_string())];
    let to_add = emails_to_add(&sorted, &recorded, 2);
    assert_eq!(to_add.iter().map(|m| m.id.as_str()).collect::<Vec<_>>(), vec!["2", "4"]);
}

#[test]
fn mail_config_round_trip() {
    let mut doc = fresh_doc();
    assert!(get_mail_config(&doc).is_none());
    let cfg = MailConfig {
        provider: "gmail".into(),
        gmail_client_id: Some("gid".into()),
        outlook_client_id: None,
        outlook_tenant_id: "t".into(),
        inbox_col_id: None,
        keep_last: 5,
        last_sync: Some("2024".into()),
    };
    set_mail_config(&mut doc, Some(&cfg)).unwrap();
    let back = get_mail_config(&doc).unwrap();
    assert_eq!(back.provider, "gmail");
    assert_eq!(back.gmail_client_id, Some("gid".into()));
    assert_eq!(back.outlook_client_id, None);
    assert_eq!(back.keep_last, 5);
    assert_eq!(back.last_sync, Some("2024".into()));
    set_mail_config(&mut doc, None).unwrap();
    assert!(get_mail_config(&doc).is_none());
    doc.root.push(("mail_provider".into(), Value::Str("imap".into())));
    doc.root.push(("mail_keep_last".into(), Value::Int(-3)));
    let c = get_mail_config(&doc).unwrap();
    assert_eq!(c.keep_last, 1);
    assert_eq!(c.outlook_tenant_id, "common");
    set_mail_field_id(&mut doc, "mail_field_x", "fid").unwrap();
    assert_eq!(get_mail_field_id(&doc, "mail_field_x"), Some("fid".into()));
}

#[test]
fn crm_fields_are_created_once() {
    let mut doc = fresh_doc();
    let ids = ensure_crm_fields(&mut doc).unwrap();
    assert_eq!(list_fields(&doc).len(), 5);
    let again = ensure_crm_fields(&mut doc).unwrap();
    assert_eq!(ids.email, again.email);
    assert_eq!(ids.labels, again.labels);
    assert_eq!(list_fields(&doc).len(), 5);
    assert_eq!(get_mail_field_id(&doc, "mail_field_provider"), Some(ids.provider.clone()));
}

#[test]
fn contacts_and_email_comments() {
    let mut doc = fresh_doc();
    let ids = ensure_crm_fields(&mut doc).unwrap();
    add_card(&mut doc, "k1");
    add_card(&mut doc, "k2");
    set_card_field(&mut doc, "k2", &ids.email, "Ann@X.com").unwrap();
    assert_eq!(find_contact_card(&doc, &ids.email, "ann@x.com"), Some("k2".into()));
    assert_eq!(find_contact_card(&doc, &ids.email, "bob@x.com"), None);

    init_contact_card(&mut doc, "k1", &ids.email, "bob@x.com").unwrap();
    assert_eq!(get_card_field(&doc, "k1", &ids.email).unwrap(), Some("bob@x.com".into()));

    let mut clock = HybridClock::new();
    let msgs = sort_by_date_desc(vec![msg("m1", "ann@x.com", "2024-01-01", "gmail"), msg("m2", "ann@x.com", "2024-02-01", "imap"), msg("m3", "ann@x.com", "2024-03-01", "gmail")]);
    let added = record_contact_mail(&mut doc, &mut clock, "k2", &msgs, 2, "author", &ids).unwrap();
    assert_eq!(added, 2);
    assert_eq!(get_card_field(&doc, "k2", &ids.last_seen).unwrap(), Some("2024-03-01".into()));
    assert_eq!(get_card_field(&doc, "k2", &ids.email_count).unwrap(), Some("2".into()));
    assert_eq!(get_card_field(&doc, "k2", &ids.provider).unwrap(), Some("gmail".into()));
    let recorded = mail_comment_ids(&doc, "k2");
    assert_eq!(recorded.len(), 2);
    assert!(recorded.iter().any(|(m, _)| m == "m3"));
    let again = record_contact_mail(&mut doc, &mut clock, "k2", &msgs, 2, "author", &ids).unwrap();
    assert_eq!(again, 1);
    let left: Vec<String> = list_comments(&doc, "k2").unwrap().into_iter().map(|c| c.text).collect();
    assert_eq!(left, vec!["**subject m2**\n2024-02-01\n\nhello".to_string(), "**subject m1**\n2024-01-01\n\nhello".to_string()]);
    assert_eq!(get_card_field(&doc, "k2", &ids.email_count).unwrap(), Some("3".into()));
    assert!(record_contact_mail(&mut doc, &mut clock, "missing", &msgs, 2, "a", &ids).is_err());
}

#[test]
fn pruning_keeps_newest() {
    let mut doc = fresh_doc();
    add_card(&mut doc, "k");
    let mut clock = HybridClock::new();
    let mut cids = Vec::new();
    for i in 0..4 {
        let c = add_comment(&mut doc, &mut clock, "k", &format!("mail {i}"), "a", None, None, None).unwrap();
        tag_comment_message_id(&mut doc, "k", &c.id, &format!("m{i}")).unwrap();
        cids.push(c.id);
    }
    add_comment(&mut doc, &mut clock, "k", "plain note", "a", None, None, None).unwrap();
    tag_comment_message_id(&mut doc, "k", "no-such-comment", "mx").unwrap();
    prune_mail_comments(&mut doc, "k", 2).unwrap();
    let texts: Vec<String> = list_comments(&doc, "k").unwrap().into_iter().map(|c| c.text).collect();
    assert_eq!(texts, vec!["mail 2", "mail 3", "plain note"]);
    assert!(prune_mail_comments(&mut doc, "zzz", 2).is_err());
    let _unused: Option<CommentObject> = None;
}

#[test]
fn sync_contacts_upserts_one_card_per_sender() {
    let mut doc = fresh_doc();
    let ids = ensure_crm_fields(&mut doc).unwrap();
    add_card(&mut doc, "k");
    set_card_field(&mut doc, "k", &ids.email, "ann@x.com").unwrap();
    let mut clock = HybridClock::new();
    let mut bob = msg("b1", "bob@x.com", "2024-02-02", "outlook");
    bob.from_name = "Bob".into();
    let messages = vec![msg("a1", "ann@x.com", "2024-01-01", "gmail"), bob, msg("a2", "ann@x.com", "2024-03-01", "gmail")];
    let new_ids = vec!["n1".to_string(), "n2".to_string(), "n3".to_string()];
    let r = sync_contacts(&mut doc, &mut clock, messages, "col", 5, "me", &ids, new_ids).unwrap();
    assert_eq!((r.contacts_created, r.contacts_updated, r.emails_added), (1, 1, 3));
    let (id, card) = doc.cards.last().unwrap();
    assert_eq!(id, "n1");
    assert!(matches!(&card.title, Some(Value::Str(t)) if t == "Bob <bob@x.com>"));
    assert!(matches!(&card.column_id, Some(Value::Str(c)) if c == "col"));
    assert_eq!(get_card_field(&doc, "n1", &ids.email).unwrap(), Some("bob@x.com".into()));
    assert_eq!(get_card_field(&doc, "n1", &ids.email_count).unwrap(), Some("1".into()));
    assert_eq!(get_card_field(&doc, "k", &ids.email_count).unwrap(), Some("2".into()));
    assert_eq!(get_card_field(&doc, "k", &ids.last_seen).unwrap(), Some("2024-03-01".into()));
    // A second run finds both contacts and records nothing new.
    let again = vec![msg("a2", "ann@x.com", "2024-03-01", "gmail")];
    let r = sync_contacts(&mut doc, &mut clock, again, "col", 5, "me", &ids, vec!["n9".to_string()]).unwrap();
    assert_eq!((r.contacts_created, r.contacts_updated, r.emails_added), (0, 1, 0));
    // A new-card id that the board already holds is refused.
    let r = sync_contacts(&mut doc, &mut clock, vec![msg("c1", "cy@x.com", "2024-01-01", "gmail")], "col", 5, "me", &ids, vec!["k".to_string()]);
    assert!(r.is_err());
}

#[test]
fn url_encoding_keeps_unreserved_and_escapes_the_rest() {
    assert_eq!(urlencoded("a-Z_0.~"), "a-Z_0.~");
    assert_eq!(urlencoded("a b/%"), "a%20b%2F%25");
    assert_eq!(urlencoded("\n"), "%0A");
}

//! Email integration: tokens and settings, OAuth URLs, sender parsing, MIME
//! encoded words, and the messages of the Gmail, Outlook and IMAP providers.
use vstd::prelude::*;
use base64::Engine;
use sha2::Digest;
use crate::text;
use crate::field;
use crate::board;
use crate::board::{Value, ValueView, BoardDoc, BoardDocView, DocError, DocErrorView};
use crate::field::FieldType;
use crate::comment;
use crate::clock::HybridClock;
use crate::board::{CardObjectView, CommentObjectView};

verus! {

// ---------------------------------------------------------------------------
// Types
// ---------------------------------------------------------------------------

/// An OAuth token of a mail provider.
#[derive(Debug, Clone)]
pub struct MailToken {
    pub access_token: String,
    pub refresh_token: String,
    pub expires_at: i64,
}

/// The mail settings of a board.
#[derive(Debug, Clone)]
pub struct MailConfig {
    pub provider: String,
    pub gmail_client_id: Option<String>,
    pub outlook_client_id: Option<String>,
    pub outlook_tenant_id: String,
    pub inbox_col_id: Option<String>,
    pub keep_last: u64,
    pub last_sync: Option<String>,
}

pub struct MailConfigView {
    pub provider: Seq<char>,
    pub gmail_client_id: Option<Seq<char>>,
    pub outlook_client_id: Option<Seq<char>>,
    pub outlook_tenant_id: Seq<char>,
    pub inbox_col_id: Option<Seq<char>>,
    pub keep_last: u64,
    pub last_sync: Option<Seq<char>>,
}

impl View for MailConfig {
    type V = MailConfigView;

    open spec fn view(&self) -> MailConfigView {
        MailConfigView {
            provider: self.provider@,
            gmail_client_id: field::opt_string_view(self.gmail_client_id),
            outlook_client_id: field::opt_string_view(self.outlook_client_id),
            outlook_tenant_id: self.outlook_tenant_id@,
            inbox_col_id: field::opt_string_view(self.inbox_col_id),
            keep_last: self.keep_last,
            last_sync: field::opt_string_view(self.last_sync),
        }
    }
}

impl Default for MailConfig {
    /// Both OAuth providers, the `common` tenant, the last two emails kept.
    fn default() -> (c: Self)
        ensures
            c@ == (MailConfigView {
                provider: "both"@,
                gmail_client_id: None,
                outlook_client_id: None,
                outlook_tenant_id: "common"@,
                inbox_col_id: None,
                keep_last: 2,
                last_sync: None,
            }),
    {
        MailConfig {
            provider: "both".to_owned(),
            gmail_client_id: None,
            outlook_client_id: None,
            outlook_tenant_id: "common".to_owned(),
            inbox_col_id: None,
            keep_last: 2,
            last_sync: None,
        }
    }
}

/// An email as the providers report it.
#[derive(Debug, Clone)]
pub struct MailMessage {
    pub id: String,
    pub from_name: String,
    pub from_email: String,
    pub subject: String,
    pub date: String,
    pub snippet: String,
    pub provider: String,
}

pub struct MailMessageView {
    pub id: Seq<char>,
    pub from_name: Seq<char>,
    pub from_email: Seq<char>,
    pub subject: Seq<char>,
    pub date: Seq<char>,
    pub snippet: Seq<char>,
    pub provider: Seq<char>,
}

impl View for MailMessage {
    type V = MailMessageView;

    open spec fn view(&self) -> MailMessageView {
        MailMessageView {
            id: self.id@,
            from_name: self.from_name@,
            from_email: self.from_email@,
            subject: self.subject@,
            date: self.date@,
            snippet: self.snippet@,
            provider: self.provider@,
        }
    }
}

/// IMAP account settings.
#[derive(Debug, Clone)]
pub struct ImapCredentials {
    pub host: String,
    pub port: u16,
    pub username: String,
    pub password: String,
    pub folder: String,
}

impl Default for ImapCredentials {
    /// Port 993 and the `INBOX` folder; host and login empty.
    fn default() -> (c: Self)
        ensures
            c.host@ == Seq::<char>::empty(),
            c.port == 993,
            c.username@ == Seq::<char>::empty(),
            c.password@ == Seq::<char>::empty(),
            c.folder@ == "INBOX"@,
    {
        ImapCredentials {
            host: String::new(),
            port: 993,
            username: String::new(),
            password: String::new(),
            folder: "INBOX".to_owned(),
        }
    }
}

/// The counts that a mail sync reports.
#[derive(Debug, Clone)]
pub struct SyncResult {
    pub contacts_created: usize,
    pub contacts_updated: usize,
    pub emails_added: usize,
}

/// Errors of the mail logic.
#[derive(Debug, Clone)]
pub enum MailError {
    /// The provider named is neither `gmail` nor `outlook`.
    UnknownProvider(String),
    /// The token endpoint answered without an access token; the answer is kept.
    NoAccessToken(String),
    /// The token endpoint answered without a refresh token.
    NoRefreshToken,
    /// The board has no columns to put contacts in.
    NoColumns,
    /// The OAuth callback carried an error; its value is kept.
    OAuthDenied(String),
    /// The OAuth callback carried no authorization code.
    NoOAuthCode,
}

pub enum MailErrorView {
    UnknownProvider(Seq<char>),
    NoAccessToken(Seq<char>),
    NoRefreshToken,
    NoColumns,
    OAuthDenied(Seq<char>),
    NoOAuthCode,
}

impl View for MailError {
    type V = MailErrorView;

    open spec fn view(&self) -> MailErrorView {
        match self {
            MailError::UnknownProvider(p) => MailErrorView::UnknownProvider(p@),
            MailError::NoAccessToken(r) => MailErrorView::NoAccessToken(r@),
            MailError::NoRefreshToken => MailErrorView::NoRefreshToken,
            MailError::NoColumns => MailErrorView::NoColumns,
            MailError::OAuthDenied(e) => MailErrorView::OAuthDenied(e@),
            MailError::NoOAuthCode => MailErrorView::NoOAuthCode,
        }
    }
}

pub open spec fn mail_error_message(e: MailErrorView) -> Seq<char> {
    match e {
        MailErrorView::UnknownProvider(p) => "Unknown provider: "@ + p,
        MailErrorView::NoAccessToken(r) => "No access_token in response: "@ + r,
        MailErrorView::NoRefreshToken => "No refresh_token \u{2014} did you include offline_access scope?"@,
        MailErrorView::NoColumns => "Board has no columns"@,
        MailErrorView::OAuthDenied(e) => "OAuth error: "@ + e,
        MailErrorView::NoOAuthCode => "No code in OAuth callback"@,
    }
}

impl MailError {
    /// The message of the error.
    pub fn message(&self) -> (s: String)
        ensures
            s@ == mail_error_message(self@),
    {
        let mut s = String::new();
        match self {
            MailError::UnknownProvider(p) => {
                text::push_str(&mut s, "Unknown provider: ");
                text::push_str(&mut s, p.as_str());
            },
            MailError::NoAccessToken(r) => {
                text::push_str(&mut s, "No access_token in response: ");
                text::push_str(&mut s, r.as_str());
            },
            MailError::NoRefreshToken => {
                text::push_str(&mut s, "No refresh_token \u{2014} did you include offline_access scope?");
            },
            MailError::NoColumns => {
                text::push_str(&mut s, "Board has no columns");
            },
            MailError::OAuthDenied(e) => {
                text::push_str(&mut s, "OAuth error: ");
                text::push_str(&mut s, e.as_str());
            },
            MailError::NoOAuthCode => {
                text::push_str(&mut s, "No code in OAuth callback");
            },
        }
        s
    }
}

// ---------------------------------------------------------------------------
// Files and presets
// ---------------------------------------------------------------------------

/// The name of the file that holds the token of `provider` in the data directory.
pub fn token_file_name(provider: &str) -> (s: String)
    ensures
        s@ == provider@ + "_token.json"@,
{
    let mut s = provider.to_owned();
    text::push_str(&mut s, "_token.json");
    s
}

/// The name of the file that holds the IMAP credentials in the data directory.
pub fn imap_creds_file_name() -> (s: String)
    ensures
        s@ == "imap_credentials.json"@,
{
    "imap_credentials.json".to_owned()
}

/// Well-known IMAP servers: display name, host and port.
pub fn imap_presets() -> (v: Vec<(&'static str, &'static str, u16)>)
    ensures
        v@.len() == 6,
        v@[0].0@ == "Gmail"@ && v@[0].1@ == "imap.gmail.com"@ && v@[0].2 == 993,
        v@[1].0@ == "Outlook / Office"@ && v@[1].1@ == "outlook.office365.com"@ && v@[1].2 == 993,
        v@[2].0@ == "Yahoo Mail"@ && v@[2].1@ == "imap.mail.yahoo.com"@ && v@[2].2 == 993,
        v@[3].0@ == "Fastmail"@ && v@[3].1@ == "imap.fastmail.com"@ && v@[3].2 == 993,
        v@[4].0@ == "iCloud Mail"@ && v@[4].1@ == "imap.mail.me.com"@ && v@[4].2 == 993,
        v@[5].0@ == "ProtonMail Bridge"@ && v@[5].1@ == "127.0.0.1"@ && v@[5].2 == 1143,
{
    let mut v = Vec::new();
    v.push(("Gmail", "imap.gmail.com", 993u16));
    v.push(("Outlook / Office", "outlook.office365.com", 993u16));
    v.push(("Yahoo Mail", "imap.mail.yahoo.com", 993u16));
    v.push(("Fastmail", "imap.fastmail.com", 993u16));
    v.push(("iCloud Mail", "imap.mail.me.com", 993u16));
    v.push(("ProtonMail Bridge", "127.0.0.1", 1143u16));
    v
}

// ---------------------------------------------------------------------------
// OAuth
// ---------------------------------------------------------------------------

/// The token endpoint of a provider.
pub open spec fn token_url_text(provider: Seq<char>, tenant_id: Seq<char>) -> Seq<char> {
    if provider == "gmail"@ {
        "https://oauth2.googleapis.com/token"@
    } else {
        "https://login.microsoftonline.com/"@ + tenant_id + "/oauth2/v2.0/token"@
    }
}

/// The token endpoint of a provider: Google's for `gmail`, else Microsoft's
/// for the tenant.
pub fn token_url(provider: &str, tenant_id: &str) -> (s: String)
    ensures
        s@ == token_url_text(provider@, tenant_id@),
{
    if text::str_eq(provider, "gmail") {
        "https://oauth2.googleapis.com/token".to_owned()
    } else {
        let mut s = "https://login.microsoftonline.com/".to_owned();
        text::push_str(&mut s, tenant_id);
        text::push_str(&mut s, "/oauth2/v2.0/token");
        s
    }
}

/// The characters that URL encoding leaves as they are.
pub open spec fn is_unreserved(c: char) -> bool {
    ('A' <= c <= 'Z') || ('a' <= c <= 'z') || ('0' <= c <= '9') || c == '-' || c == '_' || c == '.'
        || c == '~'
}

/// One character URL-encoded: as it is when unreserved, else `%` and its code
/// point in upper-case hexadecimal, at least two digits.
pub open spec fn encode_char(c: char) -> Seq<char> {
    if is_unreserved(c) {
        seq![c]
    } else {
        seq!['%'] + text::zero_pad(text::hex((c as u32) as nat, true), 2)
    }
}

/// `s` URL-encoded character by character.
pub open spec fn url_encoded(s: Seq<char>) -> Seq<char>
    decreases s.len(),
{
    if s.len() == 0 {
        Seq::empty()
    } else {
        url_encoded(s.drop_last()) + encode_char(s.last())
    }
}

/// URL-encodes `s` character by character.
pub fn urlencoded(s: &str) -> (r: String)
    ensures
        r@ == url_encoded(s@),
{
    let v = text::chars_of(s);
    let mut out = String::new();
    let mut i: usize = 0;
    assert(v@.take(0) =~= Seq::<char>::empty());
    while i < v.len()
        invariant
            i <= v@.len(),
            v@ == s@,
            out@ == url_encoded(v@.take(i as int)),
        decreases v@.len() - i,
    {
        let c = v[i];
        assert(v@.take(i + 1).drop_last() =~= v@.take(i as int));
        if ('A' <= c && c <= 'Z') || ('a' <= c && c <= 'z') || ('0' <= c && c <= '9') || c == '-'
            || c == '_' || c == '.' || c == '~' {
            text::push_char(&mut out, c);
        } else {
            text::push_char(&mut out, '%');
            let code: u32 = c as u32;
            let h = text::hex_padded(code as u64, 2, true);
            text::push_chars(&mut out, h.as_slice());
        }
        assert(out@ =~= url_encoded(v@.take(i as int)) + encode_char(c));
        i = i + 1;
    }
    assert(v@.take(i as int) =~= v@);
    out
}

pub open spec fn auth_base(provider: Seq<char>, tenant_id: Seq<char>) -> Option<(Seq<char>, Seq<char>)> {
    if provider == "gmail"@ {
        Some(
            (
                "https://accounts.google.com/o/oauth2/v2/auth"@,
                "https://www.googleapis.com/auth/gmail.readonly"@,
            ),
        )
    } else if provider == "outlook"@ {
        Some(
            (
                "https://login.microsoftonline.com/"@ + tenant_id + "/oauth2/v2.0/authorize"@,
                "https://graph.microsoft.com/Mail.Read offline_access"@,
            ),
        )
    } else {
        None
    }
}

/// The authorization URL of the PKCE flow for a provider.
pub open spec fn auth_url_text(
    base: Seq<char>,
    scope: Seq<char>,
    client_id: Seq<char>,
    challenge: Seq<char>,
    redirect_uri: Seq<char>,
) -> Seq<char> {
    base + "?client_id="@ + client_id + "&response_type=code&redirect_uri="@ + url_encoded(
        redirect_uri,
    ) + "&scope="@ + url_encoded(scope) + "&code_challenge="@ + challenge
        + "&code_challenge_method=S256&access_type=offline&prompt=consent"@
}

/// Builds the authorization URL of the PKCE flow for `gmail` or `outlook`.
pub fn build_auth_url(
    provider: &str,
    client_id: &str,
    tenant_id: &str,
    challenge: &str,
    redirect_uri: &str,
) -> (r: Result<String, MailError>)
    ensures
        match auth_base(provider@, tenant_id@) {
            Some((base, scope)) => r matches Ok(u) && u@ == auth_url_text(
                base,
                scope,
                client_id@,
                challenge@,
                redirect_uri@,
            ),
            None => r matches Err(e) && e@ == MailErrorView::UnknownProvider(provider@),
        },
{
    let (base, scope) = if text::str_eq(provider, "gmail") {
        (
            "https://accounts.google.com/o/oauth2/v2/auth".to_owned(),
            "https://www.googleapis.com/auth/gmail.readonly",
        )
    } else if text::str_eq(provider, "outlook") {
        let mut b = "https://login.microsoftonline.com/".to_owned();
        text::push_str(&mut b, tenant_id);
        text::push_str(&mut b, "/oauth2/v2.0/authorize");
        (b, "https://graph.microsoft.com/Mail.Read offline_access")
    } else {
        return Err(MailError::UnknownProvider(provider.to_owned()));
    };
    let mut u = base;
    text::push_str(&mut u, "?client_id=");
    text::push_str(&mut u, client_id);
    text::push_str(&mut u, "&response_type=code&redirect_uri=");
    let redir = urlencoded(redirect_uri);
    text::push_str(&mut u, redir.as_str());
    text::push_str(&mut u, "&scope=");
    let sc = urlencoded(scope);
    text::push_str(&mut u, sc.as_str());
    text::push_str(&mut u, "&code_challenge=");
    text::push_str(&mut u, challenge);
    text::push_str(&mut u, "&code_challenge_method=S256&access_type=offline&prompt=consent");
    let ghost (b0, s0) = auth_base(provider@, tenant_id@)->0;
    assert(u@ =~= auth_url_text(b0, s0, client_id@, challenge@, redirect_uri@));
    Ok(u)
}

// ---------------------------------------------------------------------------
// Sender addresses
// ---------------------------------------------------------------------------

/// Display name and lower-cased address of a `From` header: `Name <email>`
/// (the name trimmed and unquoted, the address taken after the last `<`), or
/// a bare address, which then serves as the name too. An empty name is
/// replaced by the address.
pub open spec fn parsed_from(raw: Seq<char>) -> (Seq<char>, Seq<char>) {
    match text::rfind_char(raw, '<') {
        Some(a) => {
            let name = text::strip_both(text::trim(raw.take(a)), '"');
            let email = text::lowercase(text::trim(text::strip_trailing(raw.skip(a + 1), '>')));
            (if name.len() == 0 { email } else { name }, email)
        },
        None => {
            let email = text::lowercase(text::trim(raw));
            (email, email)
        },
    }
}

/// Splits a `From` header into display name and lower-cased address.
pub fn parse_from(raw: &str) -> (r: (String, String))
    ensures
        r.0@ == parsed_from(raw@).0,
        r.1@ == parsed_from(raw@).1,
{
    let v = text::chars_of(raw);
    let n = v.len();
    proof {
        text::lemma_rfind_char_bounds(v@, '<');
    }
    match text::rfind_char_in(v.as_slice(), '<') {
        Some(a) => {
            let head = text::slice_chars(v.as_slice(), 0, a);
            let head_t = text::trim_chars(head.as_slice());
            let name1 = text::strip_leading_chars(head_t.as_slice(), '"');
            let name = text::strip_trailing_chars(name1.as_slice(), '"');
            let tail = text::slice_chars(v.as_slice(), a + 1, n);
            let tail1 = text::strip_trailing_chars(tail.as_slice(), '>');
            let tail_t = text::trim_chars(tail1.as_slice());
            let email = text::lowercase_chars(tail_t.as_slice());
            assert(head@ =~= raw@.take(a as int));
            assert(tail@ =~= raw@.skip(a + 1));
            let email_s = text::string_of(email.as_slice());
            if name.len() == 0 {
                (email_s.clone(), email_s)
            } else {
                (text::string_of(name.as_slice()), email_s)
            }
        },
        None => {
            let t = text::trim_chars(v.as_slice());
            let email = text::lowercase_chars(t.as_slice());
            let email_s = text::string_of(email.as_slice());
            (email_s.clone(), email_s)
        },
    }
}

// ---------------------------------------------------------------------------
// MIME encoded words
// ---------------------------------------------------------------------------

/// What std `String::from_utf8_lossy` gives for a byte sequence: the decoded
/// text, with U+FFFD for each invalid sequence.
pub uninterp spec fn utf8_lossy(b: Seq<u8>) -> Seq<char>;

/// std `String::from_utf8_lossy`. Claimed: the result is a function of the
/// bytes, and valid UTF-8 is decoded as it stands; how invalid sequences are
/// replaced is not restated.
#[verifier::external_body]
fn lossy_text(b: &[u8]) -> (r: String)
    ensures
        r@ == utf8_lossy(b@),
        vstd::utf8::valid_utf8(b@) ==> r@ == vstd::utf8::decode_utf8(b@),
{
    String::from_utf8_lossy(b).to_string()
}

/// std `String::from_utf8`: the text of valid UTF-8, nothing for other bytes.
#[verifier::external_body]
fn utf8_text(b: Vec<u8>) -> (r: Option<String>)
    ensures
        r is Some <==> vstd::utf8::valid_utf8(b@),
        r matches Some(s) ==> s@ == vstd::utf8::decode_utf8(b@),
{
    String::from_utf8(b).ok()
}

/// What base64's standard engine (padded, `+` and `/`) decodes a text to;
/// `None` where the text is not valid base64.
pub uninterp spec fn base64_standard_decoded(t: Seq<char>) -> Option<Seq<u8>>;

/// base64 `STANDARD.decode` on the bytes of a text. Claimed only that the
/// outcome is a function of the text; the alphabet and padding rules are not
/// restated.
#[verifier::external_body]
pub(crate) fn base64_decode_standard(t: &str) -> (r: Option<Vec<u8>>)
    ensures
        match r {
            Some(b) => base64_standard_decoded(t@) == Some(b@),
            None => base64_standard_decoded(t@) is None,
        },
{
    base64::engine::general_purpose::STANDARD.decode(t).ok()
}

/// The text of an encoded word with the given (upper-cased) encoding: `B` is
/// base64 of UTF-8 (spaces read as `+`), `Q` maps `_` and `=20` to spaces;
/// where decoding fails, and for other encodings, the text as it stands.
pub open spec fn word_text(enc: Seq<char>, t: Seq<char>) -> Seq<char> {
    if enc == "B"@ {
        match base64_standard_decoded(text::replace_char(t, ' ', '+')) {
            Some(b) => if vstd::utf8::valid_utf8(b) {
                vstd::utf8::decode_utf8(b)
            } else {
                t
            },
            None => t,
        }
    } else if enc == "Q"@ {
        text::replace_sub(text::replace_char(t, '_', ' '), "=20"@, " "@)
    } else {
        t
    }
}

/// One encoded word, `charset?encoding?text`, decoded; without two `?` it
/// stands as it is.
pub open spec fn decoded_word(w: Seq<char>) -> Seq<char> {
    match text::find_char(w, '?') {
        Some(i) => if 0 <= i < w.len() {
            let after = w.skip(i + 1);
            match text::find_char(after, '?') {
                Some(j) => if 0 <= j < after.len() {
                    word_text(text::uppercase(after.take(j)), after.skip(j + 1))
                } else {
                    w
                },
                None => w,
            }
        } else {
            w
        },
        None => w,
    }
}

/// `s` with each `=?...?=` replaced by its decoded word; an opening `=?`
/// without a closing `?=` is dropped and the rest kept.
pub open spec fn decoded_words(s: Seq<char>) -> Seq<char>
    decreases s.len(),
{
    match text::find_sub(s, "=?"@) {
        Some(start) => if 0 <= start && start + 2 <= s.len() {
            let rest = s.skip(start + 2);
            match text::find_sub(rest, "?="@) {
                Some(end) => if 0 <= end && end + 2 <= rest.len() {
                    s.take(start) + decoded_word(rest.take(end)) + decoded_words(
                        rest.skip(end + 2),
                    )
                } else {
                    s.take(start) + rest
                },
                None => s.take(start) + rest,
            }
        } else {
            s
        },
        None => s,
    }
}

/// The text of an encoded word with the given (upper-cased) encoding.
fn word_text_exec(enc: &[char], t: &[char]) -> (r: Vec<char>)
    ensures
        r@ == word_text(enc@, t@),
{
    proof {
        reveal_strlit("B");
        reveal_strlit("Q");
        reveal_strlit("=20");
        reveal_strlit(" ");
    }
    let b = ['B'];
    let q = ['Q'];
    if text::chars_eq(enc, b.as_slice()) {
        assert(b@ =~= "B"@);
        let plus = text::replace_char_chars(t, ' ', '+');
        let plus_s = text::string_of(plus.as_slice());
        match base64_decode_standard(plus_s.as_str()) {
            Some(bytes) => match utf8_text(bytes) {
                Some(u) => text::chars_of(u.as_str()),
                None => text::copy_chars(t),
            },
            None => text::copy_chars(t),
        }
    } else if text::chars_eq(enc, q.as_slice()) {
        assert(b@ =~= "B"@);
        assert(q@ =~= "Q"@);
        let spaced = text::replace_char_chars(t, '_', ' ');
        let pat = ['=', '2', '0'];
        let sp = [' '];
        assert(pat@ =~= "=20"@);
        assert(sp@ =~= " "@);
        text::replace_sub_chars(spaced.as_slice(), pat.as_slice(), sp.as_slice())
    } else {
        assert(b@ =~= "B"@);
        assert(q@ =~= "Q"@);
        text::copy_chars(t)
    }
}

/// One encoded word decoded.
fn decoded_word_exec(w: &[char]) -> (r: Vec<char>)
    ensures
        r@ == decoded_word(w@),
{
    proof {
        text::lemma_find_char_bounds(w@, '?');
    }
    match text::find_char_in(w, '?') {
        Some(i) => {
            let n = w.len();
            let after = text::slice_chars(w, i + 1, n);
            assert(after@ =~= w@.skip(i + 1));
            proof {
                text::lemma_find_char_bounds(after@, '?');
            }
            match text::find_char_in(after.as_slice(), '?') {
                Some(j) => {
                    let enc = text::slice_chars(after.as_slice(), 0, j);
                    let t = text::slice_chars(after.as_slice(), j + 1, after.len());
                    assert(enc@ =~= after@.take(j as int));
                    assert(t@ =~= after@.skip(j + 1));
                    let enc_u = text::uppercase_chars(enc.as_slice());
                    word_text_exec(enc_u.as_slice(), t.as_slice())
                },
                None => text::copy_chars(w),
            }
        },
        None => text::copy_chars(w),
    }
}

/// Appends `b` to `a`.
fn append_chars(a: &mut Vec<char>, b: &[char])
    ensures
        final(a)@ == old(a)@ + b@,
{
    let ghost start = a@;
    let mut i: usize = 0;
    while i < b.len()
        invariant
            i <= b@.len(),
            a@ == start + b@.take(i as int),
        decreases b@.len() - i,
    {
        a.push(b[i]);
        i = i + 1;
        assert(b@.take(i as int) =~= b@.take(i - 1).push(b@[i - 1]));
    }
    assert(b@.take(i as int) =~= b@);
}

/// `s` with its encoded words decoded.
pub fn decode_encoded_words(s: &[char]) -> (r: Vec<char>)
    ensures
        r@ == decoded_words(s@),
    decreases s@.len(),
{
    proof {
        reveal_strlit("=?");
        reveal_strlit("?=");
    }
    let open = ['=', '?'];
    let close = ['?', '='];
    assert(open@ =~= "=?"@);
    assert(close@ =~= "?="@);
    proof {
        text::lemma_find_sub_bounds(s@, open@);
    }
    match text::find_sub_in(s, open.as_slice()) {
        Some(start) => {
            let n = s.len();
            let mut out = text::slice_chars(s, 0, start);
            let rest = text::slice_chars(s, start + 2, n);
            assert(out@ =~= s@.take(start as int));
            assert(rest@ =~= s@.skip(start + 2));
            proof {
                text::lemma_find_sub_bounds(rest@, close@);
            }
            match text::find_sub_in(rest.as_slice(), close.as_slice()) {
                Some(end) => {
                    let w = text::slice_chars(rest.as_slice(), 0, end);
                    let tail = text::slice_chars(rest.as_slice(), end + 2, rest.len());
                    assert(w@ =~= rest@.take(end as int));
                    assert(tail@ =~= rest@.skip(end + 2));
                    let d = decoded_word_exec(w.as_slice());
                    append_chars(&mut out, d.as_slice());
                    let more = decode_encoded_words(tail.as_slice());
                    append_chars(&mut out, more.as_slice());
                    out
                },
                None => {
                    append_chars(&mut out, rest.as_slice());
                    out
                },
            }
        },
        None => text::copy_chars(s),
    }
}

/// A header value of an IMAP envelope as text: the bytes read as UTF-8
/// (lossily), and encoded words decoded where an `=?` occurs.
pub open spec fn decoded_mime(b: Seq<u8>) -> Seq<char> {
    let raw = utf8_lossy(b);
    if text::find_sub(raw, "=?"@) is Some {
        decoded_words(raw)
    } else {
        raw
    }
}

/// Decodes a header value of an IMAP envelope.
pub fn decode_mime(bytes: &[u8]) -> (r: String)
    ensures
        r@ == decoded_mime(bytes@),
{
    let raw = lossy_text(bytes);
    let v = text::chars_of(raw.as_str());
    proof {
        reveal_strlit("=?");
    }
    let open = ['=', '?'];
    assert(open@ =~= "=?"@);
    if text::contains_sub(v.as_slice(), open.as_slice()) {
        let d = decode_encoded_words(v.as_slice());
        text::string_of(d.as_slice())
    } else {
        raw
    }
}

// ---------------------------------------------------------------------------
// IMAP envelopes
// ---------------------------------------------------------------------------

/// An address of an IMAP envelope, its parts as raw bytes.
pub struct EnvelopeAddress {
    pub name: Option<Vec<u8>>,
    pub mailbox: Option<Vec<u8>>,
    pub host: Option<Vec<u8>>,
}

pub struct EnvelopeAddressView {
    pub name: Option<Seq<u8>>,
    pub mailbox: Option<Seq<u8>>,
    pub host: Option<Seq<u8>>,
}

pub open spec fn opt_bytes_view(b: Option<Vec<u8>>) -> Option<Seq<u8>> {
    match b {
        Some(v) => Some(v@),
        None => None,
    }
}

impl View for EnvelopeAddress {
    type V = EnvelopeAddressView;

    open spec fn view(&self) -> EnvelopeAddressView {
        EnvelopeAddressView {
            name: opt_bytes_view(self.name),
            mailbox: opt_bytes_view(self.mailbox),
            host: opt_bytes_view(self.host),
        }
    }
}

/// The parts of an IMAP envelope that a mail sync reads.
pub struct Envelope {
    pub from: Option<Vec<EnvelopeAddress>>,
    pub subject: Option<Vec<u8>>,
    pub date: Option<Vec<u8>>,
    pub message_id: Option<Vec<u8>>,
}

pub struct EnvelopeView {
    pub from: Option<Seq<EnvelopeAddressView>>,
    pub subject: Option<Seq<u8>>,
    pub date: Option<Seq<u8>>,
    pub message_id: Option<Seq<u8>>,
}

impl View for Envelope {
    type V = EnvelopeView;

    open spec fn view(&self) -> EnvelopeView {
        EnvelopeView {
            from: match self.from {
                Some(l) => Some(l@.map_values(|a: EnvelopeAddress| a@)),
                None => None,
            },
            subject: opt_bytes_view(self.subject),
            date: opt_bytes_view(self.date),
            message_id: opt_bytes_view(self.message_id),
        }
    }
}

/// Lower-cased text of an optional address part; empty when absent.
pub open spec fn lower_part(b: Option<Seq<u8>>) -> Seq<char> {
    match b {
        Some(x) => text::lowercase(utf8_lossy(x)),
        None => Seq::empty(),
    }
}

/// The message that an envelope describes, with `fallback_id` as its id where
/// the envelope has no message id; none without a sender whose mailbox and
/// host are both non-empty.
pub open spec fn envelope_message(e: EnvelopeView, fallback_id: Seq<char>) -> Option<MailMessageView> {
    match e.from {
        Some(list) => if list.len() == 0 {
            None
        } else {
            let addr = list[0];
            let mailbox = lower_part(addr.mailbox);
            let host = lower_part(addr.host);
            if mailbox.len() == 0 || host.len() == 0 {
                None
            } else {
                let from_email = mailbox + "@"@ + host;
                let from_name = match addr.name {
                    Some(b) => if decoded_mime(b).len() == 0 {
                        from_email
                    } else {
                        decoded_mime(b)
                    },
                    None => from_email,
                };
                Some(
                    MailMessageView {
                        id: match e.message_id {
                            Some(b) => text::trim(utf8_lossy(b)),
                            None => fallback_id,
                        },
                        from_name,
                        from_email,
                        subject: match e.subject {
                            Some(b) => decoded_mime(b),
                            None => "(no subject)"@,
                        },
                        date: match e.date {
                            Some(b) => utf8_lossy(b),
                            None => Seq::empty(),
                        },
                        snippet: Seq::empty(),
                        provider: "imap"@,
                    },
                )
            }
        },
        None => None,
    }
}

/// Lower-cased text of an optional address part.
fn lower_part_exec(b: &Option<Vec<u8>>) -> (r: String)
    ensures
        r@ == lower_part(opt_bytes_view(*b)),
{
    match b {
        Some(x) => {
            let t = lossy_text(x.as_slice());
            text::to_lowercase(t.as_str())
        },
        None => String::new(),
    }
}

/// The message of an envelope, with `fallback_id` where it has no message id.
pub fn parse_envelope_with(env: &Envelope, fallback_id: String) -> (r: Option<MailMessage>)
    ensures
        match r {
            Some(m) => envelope_message(env@, fallback_id@) == Some(m@),
            None => envelope_message(env@, fallback_id@) is None,
        },
{
    let list = match &env.from {
        Some(l) => l,
        None => return None,
    };
    if list.len() == 0 {
        return None;
    }
    let addr = &list[0];
    assert(env@.from == Some(list@.map_values(|a: EnvelopeAddress| a@)));
    assert(env@.from->0[0] == addr@);
    let mailbox = lower_part_exec(&addr.mailbox);
    let host = lower_part_exec(&addr.host);
    if mailbox.as_str().is_empty() || host.as_str().is_empty() {
        return None;
    }
    let mut from_email = mailbox;
    text::push_str(&mut from_email, "@");
    text::push_str(&mut from_email, host.as_str());
    let from_name = match &addr.name {
        Some(b) => {
            let d = decode_mime(b.as_slice());
            if d.as_str().is_empty() {
                from_email.clone()
            } else {
                d
            }
        },
        None => from_email.clone(),
    };
    let subject = match &env.subject {
        Some(b) => decode_mime(b.as_slice()),
        None => "(no subject)".to_owned(),
    };
    let date = match &env.date {
        Some(b) => lossy_text(b.as_slice()),
        None => String::new(),
    };
    let id = match &env.message_id {
        Some(b) => {
            let t = lossy_text(b.as_slice());
            let v = text::chars_of(t.as_str());
            let tv = text::trim_chars(v.as_slice());
            text::string_of(tv.as_slice())
        },
        None => fallback_id,
    };
    Some(
        MailMessage {
            id,
            from_name,
            from_email,
            subject,
            date,
            snippet: String::new(),
            provider: "imap".to_owned(),
        },
    )
}

/// The message of an envelope; where it has no message id, a fresh random
/// uuid stands in.
pub fn parse_envelope(env: &Envelope) -> (r: Option<MailMessage>)
    ensures
        r is Some <==> envelope_message(env@, Seq::empty()) is Some,
        env@.message_id is Some ==> match r {
            Some(m) => envelope_message(env@, Seq::empty()) == Some(m@),
            None => true,
        },
        r matches Some(m) ==> envelope_message(env@, m.id@) == Some(m@),
{
    match &env.message_id {
        Some(_) => parse_envelope_with(env, String::new()),
        None => {
            let id = crate::board::new_uuid();
            let r = parse_envelope_with(env, id);
            r
        },
    }
}

// ---------------------------------------------------------------------------
// Gmail and Outlook messages
// ---------------------------------------------------------------------------

/// Two characters equal up to ASCII case.
pub open spec fn char_eq_ignore_ascii_case(a: char, b: char) -> bool {
    ||| a == b
    ||| ('A' <= a <= 'Z' && (a as u32) + 32 == (b as u32))
    ||| ('A' <= b <= 'Z' && (b as u32) + 32 == (a as u32))
}

/// Two texts equal up to ASCII case (std `str::eq_ignore_ascii_case`).
pub open spec fn eq_ignore_ascii_case(a: Seq<char>, b: Seq<char>) -> bool {
    a.len() == b.len() && forall|i: int| 0 <= i < a.len() ==> char_eq_ignore_ascii_case(a[i], b[i])
}

/// Whether two texts are equal up to ASCII case.
pub fn eq_ignore_ascii_case_exec(a: &[char], b: &[char]) -> (r: bool)
    ensures
        r == eq_ignore_ascii_case(a@, b@),
{
    if a.len() != b.len() {
        return false;
    }
    let mut i: usize = 0;
    while i < a.len()
        invariant
            a@.len() == b@.len(),
            i <= a@.len(),
            forall|j: int| 0 <= j < i ==> char_eq_ignore_ascii_case(a@[j], b@[j]),
        decreases a@.len() - i,
    {
        let x = a[i];
        let y = b[i];
        let xu: u32 = x as u32;
        let yu: u32 = y as u32;
        let same = x == y || ('A' <= x && x <= 'Z' && xu + 32 == yu) || ('A' <= y && y <= 'Z' && yu
            + 32 == xu);
        if !same {
            return false;
        }
        i = i + 1;
    }
    true
}

/// The value of the first header named `name` (ASCII case ignored); empty
/// when there is none or its value is not a string.
pub open spec fn header_value(headers: Seq<(Seq<char>, Option<Seq<char>>)>, name: Seq<char>) -> Seq<char>
    decreases headers.len(),
{
    if headers.len() == 0 {
        Seq::empty()
    } else if eq_ignore_ascii_case(headers[0].0, name) {
        match headers[0].1 {
            Some(v) => v,
            None => Seq::empty(),
        }
    } else {
        header_value(headers.skip(1), name)
    }
}

pub open spec fn headers_view(h: Seq<(String, Option<String>)>) -> Seq<(Seq<char>, Option<Seq<char>>)> {
    h.map_values(|p: (String, Option<String>)| (p.0@, field::opt_string_view(p.1)))
}

/// The value of the first header named `name`.
pub fn header_value_exec(headers: &Vec<(String, Option<String>)>, name: &str) -> (r: String)
    ensures
        r@ == header_value(headers_view(headers@), name@),
{
    let nv = text::chars_of(name);
    let mut i: usize = 0;
    assert(headers_view(headers@).skip(0) =~= headers_view(headers@));
    while i < headers.len()
        invariant
            i <= headers@.len(),
            nv@ == name@,
            header_value(headers_view(headers@), name@) == header_value(
                headers_view(headers@).skip(i as int),
                name@,
            ),
        decreases headers@.len() - i,
    {
        let hv = text::chars_of(headers[i].0.as_str());
        let ghost rest = headers_view(headers@).skip(i as int);
        assert(rest[0] == (headers@[i as int].0@, field::opt_string_view(headers@[i as int].1)));
        if eq_ignore_ascii_case_exec(hv.as_slice(), nv.as_slice()) {
            return match &headers[i].1 {
                Some(v) => v.clone(),
                None => String::new(),
            };
        }
        assert(rest.skip(1) =~= headers_view(headers@).skip(i + 1));
        i = i + 1;
    }
    String::new()
}

/// The message that Gmail's metadata describes: sender from `From`, subject
/// (or `(no subject)`), date, and the `Message-ID` header as id, Gmail's own
/// id where that header is empty.
pub open spec fn gmail_message_of(
    headers: Seq<(Seq<char>, Option<Seq<char>>)>,
    msg_id: Seq<char>,
    snippet: Seq<char>,
) -> MailMessageView {
    let from = parsed_from(header_value(headers, "From"@));
    let subject = header_value(headers, "Subject"@);
    let message_id = header_value(headers, "Message-ID"@);
    MailMessageView {
        id: if message_id.len() == 0 { msg_id } else { message_id },
        from_name: from.0,
        from_email: from.1,
        subject: if subject.len() == 0 { "(no subject)"@ } else { subject },
        date: header_value(headers, "Date"@),
        snippet,
        provider: "gmail"@,
    }
}

/// The message of a Gmail metadata answer, from its headers (name, and value
/// where it is a string), the message's Gmail id and its snippet.
pub fn gmail_message(headers: &Vec<(String, Option<String>)>, msg_id: &str, snippet: &str) -> (r: MailMessage)
    ensures
        r@ == gmail_message_of(headers_view(headers@), msg_id@, snippet@),
{
    let from_raw = header_value_exec(headers, "From");
    let (from_name, from_email) = parse_from(from_raw.as_str());
    let subject = header_value_exec(headers, "Subject");
    let subject = if subject.as_str().is_empty() {
        "(no subject)".to_owned()
    } else {
        subject
    };
    let date = header_value_exec(headers, "Date");
    let message_id = header_value_exec(headers, "Message-ID");
    let id = if message_id.as_str().is_empty() {
        msg_id.to_owned()
    } else {
        message_id
    };
    MailMessage {
        id,
        from_name,
        from_email,
        subject,
        date,
        snippet: snippet.to_owned(),
        provider: "gmail".to_owned(),
    }
}

/// The fields of an Outlook message that are read, each present where the
/// answer holds a string there.
pub struct OutlookItem {
    pub from_address: Option<String>,
    pub from_name: Option<String>,
    pub subject: Option<String>,
    pub received: Option<String>,
    pub body_preview: Option<String>,
    pub internet_message_id: Option<String>,
    pub id: Option<String>,
}

pub struct OutlookItemView {
    pub from_address: Option<Seq<char>>,
    pub from_name: Option<Seq<char>>,
    pub subject: Option<Seq<char>>,
    pub received: Option<Seq<char>>,
    pub body_preview: Option<Seq<char>>,
    pub internet_message_id: Option<Seq<char>>,
    pub id: Option<Seq<char>>,
}

impl View for OutlookItem {
    type V = OutlookItemView;

    open spec fn view(&self) -> OutlookItemView {
        OutlookItemView {
            from_address: field::opt_string_view(self.from_address),
            from_name: field::opt_string_view(self.from_name),
            subject: field::opt_string_view(self.subject),
            received: field::opt_string_view(self.received),
            body_preview: field::opt_string_view(self.body_preview),
            internet_message_id: field::opt_string_view(self.internet_message_id),
            id: field::opt_string_view(self.id),
        }
    }
}

pub open spec fn or_text(v: Option<Seq<char>>, d: Seq<char>) -> Seq<char> {
    match v {
        Some(x) => x,
        None => d,
    }
}

/// The message an Outlook item describes; none without a sender address or
/// with an empty one.
pub open spec fn outlook_message_of(item: OutlookItemView) -> Option<MailMessageView> {
    match item.from_address {
        Some(a) => {
            let from_email = text::lowercase(a);
            let name = or_text(item.from_name, from_email);
            if from_email.len() == 0 {
                None
            } else {
                Some(
                    MailMessageView {
                        id: match item.internet_message_id {
                            Some(x) => if x.len() > 0 {
                                x
                            } else {
                                or_text(item.id, Seq::empty())
                            },
                            None => or_text(item.id, Seq::empty()),
                        },
                        from_name: if name.len() == 0 { from_email } else { name },
                        from_email,
                        subject: or_text(item.subject, "(no subject)"@),
                        date: or_text(item.received, Seq::empty()),
                        snippet: or_text(item.body_preview, Seq::empty()),
                        provider: "outlook"@,
                    },
                )
            }
        },
        None => None,
    }
}

fn or_text_exec(v: &Option<String>, d: &str) -> (r: String)
    ensures
        r@ == or_text(field::opt_string_view(*v), d@),
{
    match v {
        Some(x) => x.clone(),
        None => d.to_owned(),
    }
}

/// The message of an Outlook item.
pub fn outlook_message(item: &OutlookItem) -> (r: Option<MailMessage>)
    ensures
        match r {
            Some(m) => outlook_message_of(item@) == Some(m@),
            None => outlook_message_of(item@) is None,
        },
{
    proof {
        reveal_strlit("");
    }
    let addr = match &item.from_address {
        Some(a) => a,
        None => return None,
    };
    let from_email = text::to_lowercase(addr.as_str());
    let name = or_text_exec(&item.from_name, from_email.as_str());
    let from_name = if name.as_str().is_empty() {
        from_email.clone()
    } else {
        name
    };
    let subject = or_text_exec(&item.subject, "(no subject)");
    let date = or_text_exec(&item.received, "");
    let snippet = or_text_exec(&item.body_preview, "");
    let id = match &item.internet_message_id {
        Some(x) => if !x.as_str().is_empty() {
            x.clone()
        } else {
            or_text_exec(&item.id, "")
        },
        None => or_text_exec(&item.id, ""),
    };
    if from_email.as_str().is_empty() {
        return None;
    }
    let ghost iv = item@;
    assert(iv.from_address == Some(addr@));
    assert(from_email@ == text::lowercase(addr@));
    assert(from_name@ == (if or_text(iv.from_name, from_email@).len() == 0 { from_email@ } else { or_text(iv.from_name, from_email@) }));
    assert(subject@ == or_text(iv.subject, "(no subject)"@));
    assert(date@ == or_text(iv.received, Seq::empty()));
    assert(snippet@ == or_text(iv.body_preview, Seq::empty()));
    assert(id@ == (match iv.internet_message_id {
        Some(x) => if x.len() > 0 { x } else { or_text(iv.id, Seq::empty()) },
        None => or_text(iv.id, Seq::empty()),
    }));
    Some(
        MailMessage {
            id,
            from_name,
            from_email,
            subject,
            date,
            snippet,
            provider: "outlook".to_owned(),
        },
    )
}

// ---------------------------------------------------------------------------
// Tokens
// ---------------------------------------------------------------------------

/// The token of a token endpoint's answer: its access and refresh tokens,
/// and the expiry `now + expires_in` (3600 s where the answer gives none).
/// `answer` is the answer's text, kept in the error when the access token is
/// missing.
pub fn token_from_response(
    access_token: Option<String>,
    refresh_token: Option<String>,
    expires_in: Option<i64>,
    now: i64,
    answer: String,
) -> (r: Result<MailToken, MailError>)
    requires
        i64::MIN <= now + (match expires_in {
            Some(e) => e as int,
            None => 3600,
        }) <= i64::MAX,
    ensures
        match (access_token, refresh_token) {
            (None, _) => r matches Err(e) && e@ == MailErrorView::NoAccessToken(answer@),
            (Some(_), None) => r matches Err(e) && e@ == MailErrorView::NoRefreshToken,
            (Some(a), Some(f)) => r matches Ok(t) && t.access_token@ == a@ && t.refresh_token@
                == f@ && t.expires_at == now + (match expires_in {
                Some(e) => e as int,
                None => 3600,
            }),
        },
{
    let access = match access_token {
        Some(a) => a,
        None => return Err(MailError::NoAccessToken(answer)),
    };
    let refresh = match refresh_token {
        Some(f) => f,
        None => return Err(MailError::NoRefreshToken),
    };
    let e = match expires_in {
        Some(e) => e,
        None => 3600,
    };
    Ok(MailToken { access_token: access, refresh_token: refresh, expires_at: now + e })
}

/// Whether a token expiring at `expires_at` is still good at `now`, with a
/// minute to spare.
pub fn token_still_valid(now: i64, expires_at: i64) -> (r: bool)
    ensures
        r == (now + 60 < expires_at),
{
    let n: i128 = now as i128;
    let e: i128 = expires_at as i128;
    n + 60 < e
}

// ---------------------------------------------------------------------------
// PKCE
// ---------------------------------------------------------------------------

/// The character of a six-bit value in base64's URL-safe alphabet
/// (RFC 4648, section 5): `A`-`Z`, `a`-`z`, `0`-`9`, `-`, `_`.
pub open spec fn base64_url_char(v: nat) -> char {
    if v < 26 {
        ('A' as nat + v) as char
    } else if v < 52 {
        ('a' as nat + (v - 26)) as char
    } else if v < 62 {
        ('0' as nat + (v - 52)) as char
    } else if v == 62 {
        '-'
    } else {
        '_'
    }
}

/// Bytes in base64 with the URL-safe alphabet and without padding: each
/// three bytes give four characters, a last one or two bytes give two or
/// three.
pub open spec fn base64_url_nopad(b: Seq<u8>) -> Seq<char>
    decreases b.len(),
{
    let c = |v: int| base64_url_char(v as nat);
    let x = b[0] as int;
    let y = if b.len() > 1 { b[1] as int } else { 0 };
    let z = if b.len() > 2 { b[2] as int } else { 0 };
    if b.len() == 0 {
        Seq::empty()
    } else if b.len() == 1 {
        seq![c(x / 4), c((x % 4) * 16)]
    } else if b.len() == 2 {
        seq![c(x / 4), c((x % 4) * 16 + y / 16), c((y % 16) * 4)]
    } else {
        seq![c(x / 4), c((x % 4) * 16 + y / 16), c((y % 16) * 4 + z / 64), c(z % 64)]
            + base64_url_nopad(b.skip(3))
    }
}

/// base64 `URL_SAFE_NO_PAD.encode`: the bytes in base64 with the URL-safe
/// alphabet and no padding.
#[verifier::external_body]
fn encode_url_nopad(b: &[u8]) -> (r: String)
    ensures
        r@ == base64_url_nopad(b@),
{
    base64::engine::general_purpose::URL_SAFE_NO_PAD.encode(b)
}

/// The SHA-256 digest of a byte sequence.
pub uninterp spec fn sha256_digest(b: Seq<u8>) -> Seq<u8>;

/// sha2 `Sha256::digest`. Claimed: the digest is a function of the bytes and
/// has 32 bytes; the compression function is not restated.
#[verifier::external_body]
fn sha256(b: &[u8]) -> (r: Vec<u8>)
    ensures
        r@ == sha256_digest(b@),
        r@.len() == 32,
{
    sha2::Sha256::digest(b).to_vec()
}

/// Sixteen random bytes: those of a fresh uuid `Uuid::new_v4()`. Nothing is
/// claimed of their values.
#[verifier::external_body]
fn random_uuid_bytes() -> (r: Vec<u8>)
    ensures
        r@.len() == 16,
{
    uuid::Uuid::new_v4().as_bytes().to_vec()
}

/// The PKCE verifier for the given random bytes, and its S256 challenge.
pub open spec fn pkce_of(b: Seq<u8>) -> (Seq<char>, Seq<char>) {
    let verifier = base64_url_nopad(b);
    (verifier, base64_url_nopad(sha256_digest(vstd::utf8::encode_utf8(verifier))))
}

/// The PKCE verifier and challenge made from the given random bytes.
pub fn pkce_pair(bytes: &[u8]) -> (r: (String, String))
    ensures
        r.0@ == pkce_of(bytes@).0,
        r.1@ == pkce_of(bytes@).1,
{
    let verifier = encode_url_nopad(bytes);
    let digest = sha256(verifier.as_str().as_bytes());
    let challenge = encode_url_nopad(digest.as_slice());
    (verifier, challenge)
}

/// A fresh PKCE verifier, made from 64 random bytes, and its challenge.
pub fn generate_pkce() -> (r: (String, String))
    ensures
        exists|b: Seq<u8>| b.len() == 64 && r.0@ == pkce_of(b).0 && r.1@ == pkce_of(b).1,
{
    let mut bytes: Vec<u8> = Vec::new();
    let mut k: usize = 0;
    while k < 4
        invariant
            k <= 4,
            bytes@.len() == 16 * k,
        decreases 4 - k,
    {
        let id = random_uuid_bytes();
        let mut j: usize = 0;
        while j < 16
            invariant
                j <= 16,
                id@.len() == 16,
                bytes@.len() == 16 * k + j,
            decreases 16 - j,
        {
            bytes.push(id[j]);
            j = j + 1;
        }
        k = k + 1;
    }
    let r = pkce_pair(bytes.as_slice());
    assert(bytes@.len() == 64);
    r
}

// ---------------------------------------------------------------------------
// The OAuth callback
// ---------------------------------------------------------------------------

/// `s` without leading whitespace.
pub open spec fn skip_whitespace(s: Seq<char>) -> Seq<char>
    decreases s.len(),
{
    if s.len() > 0 && text::is_whitespace(s[0]) {
        skip_whitespace(s.skip(1))
    } else {
        s
    }
}

/// The characters of `s` up to its first whitespace.
pub open spec fn word_prefix(s: Seq<char>) -> Seq<char>
    decreases s.len(),
{
    if s.len() > 0 && !text::is_whitespace(s[0]) {
        seq![s[0]] + word_prefix(s.skip(1))
    } else {
        Seq::empty()
    }
}

/// The first whitespace-separated word of `s`, empty when there is none.
pub open spec fn first_word(s: Seq<char>) -> Seq<char> {
    word_prefix(skip_whitespace(s))
}

/// The first line of `s` (std `str::lines`), empty for an empty text.
pub open spec fn first_line(s: Seq<char>) -> Seq<char> {
    match text::find_char(s, '\n') {
        Some(k) => if 0 < k <= s.len() && s[k - 1] == '\r' {
            s.take(k - 1)
        } else {
            s.take(k)
        },
        None => s,
    }
}

/// The query string of the request line: after its first `?`, up to the next
/// `?` and the first whitespace.
pub open spec fn request_query(req: Seq<char>) -> Seq<char> {
    let pieces = text::split_on(first_line(req), '?');
    if pieces.len() > 1 {
        first_word(pieces[1])
    } else {
        Seq::empty()
    }
}

/// The first of `ps` that starts with `pre`.
pub open spec fn first_with_prefix(ps: Seq<Seq<char>>, pre: Seq<char>) -> Option<Seq<char>>
    decreases ps.len(),
{
    if ps.len() == 0 {
        None
    } else if text::starts_with(ps[0], pre) {
        Some(ps[0])
    } else {
        first_with_prefix(ps.skip(1), pre)
    }
}

/// What the OAuth redirect request gives: the denial (the `error=` parameter's
/// value) where there is one, else the `code=` parameter's value.
pub open spec fn oauth_callback_outcome(req: Seq<char>) -> Result<Seq<char>, MailErrorView> {
    let params = text::split_on(request_query(req), '&');
    match first_with_prefix(params, "error="@) {
        Some(p) => Err(MailErrorView::OAuthDenied(text::strip_leading_pat(p, "error="@))),
        None => match first_with_prefix(params, "code="@) {
            Some(p) => Ok(p.skip(5)),
            None => Err(MailErrorView::NoOAuthCode),
        },
    }
}

/// The text of the request: its bytes as UTF-8, empty where they are not.
pub open spec fn request_text(b: Seq<u8>) -> Seq<char> {
    if vstd::utf8::valid_utf8(b) {
        vstd::utf8::decode_utf8(b)
    } else {
        Seq::empty()
    }
}

fn skip_whitespace_exec(s: &[char]) -> (r: Vec<char>)
    ensures
        r@ == skip_whitespace(s@),
{
    let mut lo: usize = 0;
    assert(s@.skip(0) =~= s@);
    while lo < s.len() && text::is_whitespace_exec(s[lo])
        invariant
            lo <= s@.len(),
            skip_whitespace(s@) == skip_whitespace(s@.skip(lo as int)),
        decreases s@.len() - lo,
    {
        assert(s@.skip(lo as int).skip(1) =~= s@.skip(lo + 1));
        lo = lo + 1;
    }
    let r = text::slice_chars(s, lo, s.len());
    assert(r@ =~= s@.skip(lo as int));
    r
}

proof fn lemma_word_prefix(s: Seq<char>, k: int)
    requires
        0 <= k <= s.len(),
        forall|j: int| 0 <= j < k ==> !text::is_whitespace(s[j]),
        k == s.len() || text::is_whitespace(s[k]),
    ensures
        word_prefix(s) == s.take(k),
    decreases k,
{
    if k > 0 {
        lemma_word_prefix(s.skip(1), k - 1);
        assert(s.take(k) =~= seq![s[0]] + s.skip(1).take(k - 1));
    } else {
        assert(s.take(0) =~= Seq::<char>::empty());
    }
}

fn first_word_exec(s: &[char]) -> (r: Vec<char>)
    ensures
        r@ == first_word(s@),
{
    let t = skip_whitespace_exec(s);
    let mut k: usize = 0;
    while k < t.len() && !text::is_whitespace_exec(t[k])
        invariant
            k <= t@.len(),
            forall|j: int| 0 <= j < k ==> !text::is_whitespace(t@[j]),
        decreases t@.len() - k,
    {
        k = k + 1;
    }
    proof {
        lemma_word_prefix(t@, k as int);
    }
    text::slice_chars(t.as_slice(), 0, k)
}

fn first_line_exec(s: &[char]) -> (r: Vec<char>)
    ensures
        r@ == first_line(s@),
{
    proof {
        text::lemma_find_char_bounds(s@, '\n');
    }
    match text::find_char_in(s, '\n') {
        Some(k) => {
            if k > 0 && s[k - 1] == '\r' {
                text::slice_chars(s, 0, k - 1)
            } else {
                text::slice_chars(s, 0, k)
            }
        },
        None => text::copy_chars(s),
    }
}

proof fn lemma_first_with_prefix(ps: Seq<Seq<char>>, pre: Seq<char>)
    ensures
        first_with_prefix(ps, pre) matches Some(x) ==> text::starts_with(x, pre),
    decreases ps.len(),
{
    if ps.len() > 0 && !text::starts_with(ps[0], pre) {
        lemma_first_with_prefix(ps.skip(1), pre);
    }
}

fn first_with_prefix_exec(ps: &Vec<Vec<char>>, pre: &[char]) -> (r: Option<usize>)
    ensures
        match r {
            Some(i) => i < ps@.len() && first_with_prefix(ps@.map_values(|p: Vec<char>| p@), pre@)
                == Some(ps@[i as int]@),
            None => first_with_prefix(ps@.map_values(|p: Vec<char>| p@), pre@) is None,
        },
{
    let ghost all = ps@.map_values(|p: Vec<char>| p@);
    let mut i: usize = 0;
    assert(all.skip(0) =~= all);
    while i < ps.len()
        invariant
            i <= ps@.len(),
            all == ps@.map_values(|p: Vec<char>| p@),
            first_with_prefix(all, pre@) == first_with_prefix(all.skip(i as int), pre@),
        decreases ps@.len() - i,
    {
        assert(all.skip(i as int)[0] == ps@[i as int]@);
        if text::starts_with_exec(ps[i].as_slice(), pre) {
            return Some(i);
        }
        assert(all.skip(i as int).skip(1) =~= all.skip(i + 1));
        i = i + 1;
    }
    None
}

/// The authorization code of the OAuth redirect request `req` (raw bytes),
/// or the denial it carries, or that it carries no code.
pub fn oauth_code_from_request(req: Vec<u8>) -> (r: Result<String, MailError>)
    ensures
        match oauth_callback_outcome(request_text(req@)) {
            Ok(c) => r matches Ok(s) && s@ == c,
            Err(e) => r matches Err(x) && x@ == e,
        },
{
    let ghost bytes = req@;
    let t: Vec<char> = match utf8_text(req) {
        Some(s) => text::chars_of(s.as_str()),
        None => Vec::new(),
    };
    assert(t@ =~= request_text(bytes));
    let line = first_line_exec(t.as_slice());
    let pieces = text::split_chars(line.as_slice(), '?');
    let query: Vec<char> = if pieces.len() > 1 {
        first_word_exec(pieces[1].as_slice())
    } else {
        Vec::new()
    };
    assert(query@ =~= request_query(t@));
    let params = text::split_chars(query.as_slice(), '&');
    assert(params@.map_values(|p: Vec<char>| p@) =~= text::split_on(query@, '&'));
    proof {
        reveal_strlit("error=");
        reveal_strlit("code=");
    }
    let err_pre = ['e', 'r', 'r', 'o', 'r', '='];
    let code_pre = ['c', 'o', 'd', 'e', '='];
    assert(err_pre@ =~= "error="@);
    assert(code_pre@ =~= "code="@);
    match first_with_prefix_exec(&params, err_pre.as_slice()) {
        Some(i) => {
            let v = text::strip_leading_pat_chars(params[i].as_slice(), err_pre.as_slice());
            Err(MailError::OAuthDenied(text::string_of(v.as_slice())))
        },
        None => match first_with_prefix_exec(&params, code_pre.as_slice()) {
            Some(i) => {
                let p = &params[i];
                proof {
                    lemma_first_with_prefix(params@.map_values(|p: Vec<char>| p@), code_pre@);
                }
                let v = text::slice_chars(p.as_slice(), 5, p.len());
                assert(v@ =~= p@.skip(5));
                Ok(text::string_of(v.as_slice()))
            },
            None => Err(MailError::NoOAuthCode),
        },
    }
}

// ---------------------------------------------------------------------------
// Fetch windows and queries
// ---------------------------------------------------------------------------

/// `n` in decimal, with a minus sign when negative.
pub open spec fn signed_decimal(n: int) -> Seq<char> {
    if n < 0 {
        seq!['-'] + text::decimal((-n) as nat)
    } else {
        text::decimal(n as nat)
    }
}

/// `n` in decimal, with a minus sign when negative.
pub fn signed_decimal_string(n: i64) -> (r: String)
    ensures
        r@ == signed_decimal(n as int),
{
    if n < 0 {
        let m: i128 = -(n as i128);
        let mag: u64 = m as u64;
        let mut s = String::new();
        text::push_char(&mut s, '-');
        let d = text::decimal_chars(mag);
        text::push_chars(&mut s, d.as_slice());
        s
    } else {
        let mag: u64 = n as u64;
        text::decimal_string(mag)
    }
}

/// Gmail's search for the inbox messages after a time.
pub open spec fn gmail_query_text(since_ts: int) -> Seq<char> {
    "in:inbox after:"@ + signed_decimal(since_ts)
}

/// The Gmail search query for the inbox messages after `since_ts`.
pub fn gmail_query(since_ts: i64) -> (r: String)
    ensures
        r@ == gmail_query_text(since_ts as int),
{
    let mut q = "in:inbox after:".to_owned();
    let d = signed_decimal_string(since_ts);
    text::push_str(&mut q, d.as_str());
    q
}

/// What chrono's `%Y-%m-%dT%H:%M:%SZ` gives for a Unix time in UTC; nothing
/// where the time is out of chrono's range.
pub uninterp spec fn utc_iso_text(ts: i64) -> Option<Seq<char>>;

/// chrono `DateTime::from_timestamp(ts, 0)` formatted `%Y-%m-%dT%H:%M:%SZ`,
/// nothing where `from_timestamp` gives nothing. Claimed only that the
/// outcome is a function of `ts`; the calendar arithmetic is not restated.
#[verifier::external_body]
fn utc_iso(ts: i64) -> (r: Option<String>)
    ensures
        match r {
            Some(t) => utc_iso_text(ts) == Some(t@),
            None => utc_iso_text(ts) is None,
        },
{
    match chrono::DateTime::from_timestamp(ts, 0) {
        Some(dt) => Some(dt.format("%Y-%m-%dT%H:%M:%SZ").to_string()),
        None => None,
    }
}

/// A Unix time as `%Y-%m-%dT%H:%M:%SZ` in UTC; the epoch's text where the
/// time is out of range.
pub open spec fn utc_iso_or_epoch(ts: i64) -> Seq<char> {
    match utc_iso_text(ts) {
        Some(t) => t,
        None => "1970-01-01T00:00:00Z"@,
    }
}

/// A Unix time as `%Y-%m-%dT%H:%M:%SZ` in UTC, the epoch where it is out of range.
pub fn utc_iso_time(ts: i64) -> (r: String)
    ensures
        r@ == utc_iso_or_epoch(ts),
{
    match utc_iso(ts) {
        Some(t) => t,
        None => "1970-01-01T00:00:00Z".to_owned(),
    }
}

/// Microsoft Graph's listing of the messages received since a time, newest
/// first, two hundred at most.
pub open spec fn outlook_messages_url_text(since: Seq<char>) -> Seq<char> {
    "https://graph.microsoft.com/v1.0/me/messages?$select=id,internetMessageId,from,subject,receivedDateTime,bodyPreview&$top=200&$filter=receivedDateTime ge "@
        + since + "&$orderby=receivedDateTime+desc"@
}

/// The Microsoft Graph URL that lists the messages received since `since_ts`.
pub fn outlook_messages_url(since_ts: i64) -> (r: String)
    ensures
        r@ == outlook_messages_url_text(utc_iso_or_epoch(since_ts)),
{
    let since = utc_iso_time(since_ts);
    let mut u =
        "https://graph.microsoft.com/v1.0/me/messages?$select=id,internetMessageId,from,subject,receivedDateTime,bodyPreview&$top=200&$filter=receivedDateTime ge ".to_owned();
    text::push_str(&mut u, since.as_str());
    text::push_str(&mut u, "&$orderby=receivedDateTime+desc");
    u
}

/// What chrono's `%-d-%b-%Y` gives for a Unix time in UTC, as IMAP's
/// `SINCE` takes it; nothing where the time is out of chrono's range.
pub uninterp spec fn imap_day_text(ts: i64) -> Option<Seq<char>>;

/// chrono `DateTime::from_timestamp(ts, 0)` formatted `%-d-%b-%Y`, such as
/// `1-Jan-2024`; nothing where `from_timestamp` gives nothing. Claimed only
/// that the outcome is a function of `ts`; the calendar arithmetic is not
/// restated.
#[verifier::external_body]
fn imap_day(ts: i64) -> (r: Option<String>)
    ensures
        match r {
            Some(t) => imap_day_text(ts) == Some(t@),
            None => imap_day_text(ts) is None,
        },
{
    match chrono::DateTime::from_timestamp(ts, 0) {
        Some(dt) => Some(dt.format("%-d-%b-%Y").to_string()),
        None => None,
    }
}

/// The IMAP date of a Unix time; the epoch's where it is out of range.
pub open spec fn imap_day_or_epoch(ts: i64) -> Seq<char> {
    match imap_day_text(ts) {
        Some(t) => t,
        None => "1-Jan-1970"@,
    }
}

/// The IMAP search for the messages since `since_ts`.
pub fn imap_search_query(since_ts: i64) -> (r: String)
    ensures
        r@ == "SINCE "@ + imap_day_or_epoch(since_ts),
{
    let mut q = "SINCE ".to_owned();
    match imap_day(since_ts) {
        Some(d) => text::push_str(&mut q, d.as_str()),
        None => text::push_str(&mut q, "1-Jan-1970"),
    }
    q
}

/// Greater-or-equal on message numbers: the order of a descending sort.
pub open spec fn desc_u32() -> spec_fn(u32, u32) -> bool {
    |a: u32, b: u32| a >= b
}

/// Numbers in decimal, separated by commas.
pub open spec fn joined_decimals(s: Seq<u32>) -> Seq<char>
    decreases s.len(),
{
    if s.len() == 0 {
        Seq::empty()
    } else if s.len() == 1 {
        text::decimal(s[0] as nat)
    } else {
        joined_decimals(s.drop_last()) + ","@ + text::decimal(s.last() as nat)
    }
}

/// The IMAP sequence set that fetches the two hundred highest message numbers
/// of a search, highest first.
pub open spec fn imap_fetch_set_of(ids: Seq<u32>) -> Seq<char> {
    let sorted = ids.sort_by(desc_u32());
    joined_decimals(sorted.take(if sorted.len() < 200 { sorted.len() as int } else { 200 }))
}

/// Message numbers sorted from highest to lowest.
pub fn sort_desc_u32(v: &Vec<u32>) -> (r: Vec<u32>)
    ensures
        r@ == v@.sort_by(desc_u32()),
{
    broadcast use vstd::seq_lib::group_to_multiset_ensures;

    let mut r: Vec<u32> = Vec::new();
    let mut i: usize = 0;
    while i < v.len()
        invariant
            i <= v@.len(),
            vstd::relations::sorted_by(r@, desc_u32()),
            r@.to_multiset() == v@.take(i as int).to_multiset(),
        decreases v@.len() - i,
    {
        let x = v[i];
        let mut j: usize = 0;
        while j < r.len() && r[j] >= x
            invariant
                j <= r@.len(),
                forall|k: int| 0 <= k < j ==> r@[k] >= x,
            decreases r@.len() - j,
        {
            j = j + 1;
        }
        let ghost old_r = r@;
        r.insert(j, x);
        proof {
            assert(r@ == old_r.insert(j as int, x));
            assert forall|a: int, b: int| 0 <= a < b < r@.len() implies #[trigger] (desc_u32())(
                r@[a],
                r@[b],
            ) by {
                assert(vstd::relations::sorted_by(old_r, desc_u32()));
                if b < j {
                    assert((desc_u32())(old_r[a], old_r[b]));
                } else if b == j {
                    assert(r@[a] == old_r[a]);
                } else if a < j {
                    assert(r@[b] == old_r[b - 1]);
                    if j < old_r.len() {
                        assert((desc_u32())(old_r[j as int], old_r[b - 1]) || j == b - 1);
                    }
                    assert(!(j < old_r.len()) || old_r[j as int] < x);
                } else if a == j {
                    assert(r@[b] == old_r[b - 1]);
                    assert(old_r[j as int] < x);
                    assert((desc_u32())(old_r[j as int], old_r[b - 1]) || j == b - 1);
                } else {
                    assert((desc_u32())(old_r[a - 1], old_r[b - 1]));
                }
            }
            vstd::seq_lib::to_multiset_insert(old_r, j as int, x);
            assert(v@.take(i + 1) =~= v@.take(i as int).push(x));
            vstd::seq_lib::to_multiset_build(v@.take(i as int), x);
        }
        i = i + 1;
    }
    proof {
        assert(v@.take(i as int) =~= v@);
        let leq = desc_u32();
        assert(vstd::relations::total_ordering(leq));
        v@.lemma_sort_by_ensures(leq);
        vstd::seq_lib::lemma_sorted_unique(r@, v@.sort_by(leq), leq);
    }
    r
}

/// The IMAP sequence set of the two hundred highest message numbers of a
/// search, highest first, comma-separated.
pub fn imap_fetch_set(ids: &Vec<u32>) -> (r: String)
    ensures
        r@ == imap_fetch_set_of(ids@),
{
    let sorted = sort_desc_u32(ids);
    let n: usize = if sorted.len() < 200 { sorted.len() } else { 200 };
    let mut out = String::new();
    let mut i: usize = 0;
    proof {
        reveal_strlit(",");
    }
    while i < n
        invariant
            i <= n <= sorted@.len(),
            out@ == joined_decimals(sorted@.take(i as int)),
        decreases n - i,
    {
        let ghost before = out@;
        if i > 0 {
            text::push_char(&mut out, ',');
        }
        let d = text::decimal_chars(sorted[i] as u64);
        text::push_chars(&mut out, d.as_slice());
        proof {
            let t = sorted@.take(i + 1);
            assert(t.drop_last() =~= sorted@.take(i as int));
            assert(t.last() == sorted@[i as int]);
            if i == 0 {
                assert(before =~= Seq::<char>::empty());
                assert(out@ =~= joined_decimals(t));
            } else {
                reveal_strlit(",");
                assert(out@ =~= before + ","@ + text::decimal(sorted@[i as int] as nat));
            }
        }
        i = i + 1;
    }
    out
}

/// Whether a provider setting fetches from Gmail.
pub open spec fn uses_gmail(p: Seq<char>) -> bool {
    p == "gmail"@ || p == "both"@
}

/// Whether a provider setting fetches from Outlook.
pub open spec fn uses_outlook(p: Seq<char>) -> bool {
    p == "outlook"@ || p == "both"@
}

/// Whether a provider setting fetches over IMAP: `imap`, or a comma-separated
/// list with `imap` among its trimmed items.
pub open spec fn uses_imap(p: Seq<char>) -> bool {
    p == "imap"@ || exists|i: int|
        0 <= i < text::split_on(p, ',').len() && #[trigger] text::trim(text::split_on(p, ',')[i])
            == "imap"@
}

/// Whether the provider setting `p` fetches from Gmail.
pub fn provider_uses_gmail(p: &str) -> (r: bool)
    ensures
        r == uses_gmail(p@),
{
    text::str_eq(p, "gmail") || text::str_eq(p, "both")
}

/// Whether the provider setting `p` fetches from Outlook.
pub fn provider_uses_outlook(p: &str) -> (r: bool)
    ensures
        r == uses_outlook(p@),
{
    text::str_eq(p, "outlook") || text::str_eq(p, "both")
}

/// Whether the provider setting `p` fetches over IMAP.
pub fn provider_uses_imap(p: &str) -> (r: bool)
    ensures
        r == uses_imap(p@),
{
    if text::str_eq(p, "imap") {
        return true;
    }
    let v = text::chars_of(p);
    let pieces = text::split_chars(v.as_slice(), ',');
    let mut i: usize = 0;
    while i < pieces.len()
        invariant
            i <= pieces@.len(),
            v@ == p@,
            p@ != "imap"@,
            pieces@.len() == text::split_on(p@, ',').len(),
            forall|k: int| 0 <= k < pieces@.len() ==> #[trigger] pieces@[k]@ == text::split_on(p@, ',')[k],
            forall|k: int| 0 <= k < i ==> text::trim(#[trigger] text::split_on(p@, ',')[k]) != "imap"@,
        decreases pieces@.len() - i,
    {
        let t = text::trim_chars(pieces[i].as_slice());
        assert(pieces@[i as int]@ == text::split_on(p@, ',')[i as int]);
        if text::str_eq_chars("imap", t.as_slice()) {
            return true;
        }
        i = i + 1;
    }
    false
}

/// Where a fetch starts: the parsed `last_sync` time, else thirty days
/// before `now`.
pub open spec fn since_ts_of(last_sync: Option<i64>, now: int) -> int {
    match last_sync {
        Some(t) => t as int,
        None => now - 30 * 86400,
    }
}

/// Where a fetch starts, from the parsed last sync time and the current time.
pub fn since_ts(last_sync: Option<i64>, now: i64) -> (r: i64)
    requires
        now >= i64::MIN + 30 * 86400,
    ensures
        r == since_ts_of(last_sync, now as int),
{
    match last_sync {
        Some(t) => t,
        None => now - 30 * 86400,
    }
}

/// What chrono's RFC 3339 parser gives for a text: its Unix time in seconds,
/// or nothing where the text is not RFC 3339.
pub uninterp spec fn rfc3339_seconds(t: Seq<char>) -> Option<i64>;

/// chrono `DateTime::parse_from_rfc3339` and `timestamp`. Claimed only that
/// the outcome is a function of the text; the grammar is not restated.
#[verifier::external_body]
fn parse_rfc3339(t: &str) -> (r: Option<i64>)
    ensures
        r == rfc3339_seconds(t@),
{
    chrono::DateTime::parse_from_rfc3339(t).ok().map(|dt| dt.timestamp())
}

/// The current Unix time in seconds (chrono `Utc::now().timestamp()`).
/// Nothing is claimed of its value.
#[verifier::external_body]
pub(crate) fn unix_now() -> i64 {
    chrono::Utc::now().timestamp()
}

/// Where the mail fetch of a board starts, for the clock reading `now`: the
/// board's last sync time where it parses, else thirty days before `now`;
/// nothing where `now` lies within thirty days of the earliest time.
pub open spec fn mail_since_of(last_sync: Option<Seq<char>>, now: i64) -> Option<i64> {
    let parsed = match last_sync {
        Some(t) => rfc3339_seconds(t),
        None => None,
    };
    match parsed {
        Some(x) => Some(x),
        None => if now < i64::MIN + 30 * 86400 {
            None
        } else {
            Some((now - 30 * 86400) as i64)
        },
    }
}

/// Where the mail fetch of a board starts, for the clock reading `now`.
pub fn mail_since_at(last_sync: &Option<String>, now: i64) -> (r: Option<i64>)
    ensures
        r == mail_since_of(field::opt_string_view(*last_sync), now),
{
    let parsed = match last_sync {
        Some(t) => parse_rfc3339(t.as_str()),
        None => None,
    };
    match parsed {
        Some(x) => Some(x),
        None => {
            if now < i64::MIN + 30 * 86400 {
                None
            } else {
                Some(since_ts(None, now))
            }
        },
    }
}

/// Where the mail fetch of a board starts, reading the clock: what
/// `mail_since_at` gives for the reading taken.
pub fn mail_since(last_sync: &Option<String>) -> (r: Option<i64>)
    ensures
        exists|now: i64| r == mail_since_of(field::opt_string_view(*last_sync), now),
{
    let now = unix_now();
    mail_since_at(last_sync, now)
}

/// The inbox column: the preferred one where the board has it, else the
/// board's first column.
pub open spec fn inbox_col_of(cols: Seq<Seq<char>>, preferred: Option<Seq<char>>) -> Option<Seq<char>> {
    match preferred {
        Some(p) => if cols.contains(p) {
            Some(p)
        } else if cols.len() > 0 {
            Some(cols[0])
        } else {
            None
        },
        None => if cols.len() > 0 {
            Some(cols[0])
        } else {
            None
        },
    }
}

pub open spec fn strings_view(v: Seq<String>) -> Seq<Seq<char>> {
    v.map_values(|s: String| s@)
}

/// The column where new contacts go, of the board's columns in order.
pub fn resolve_inbox_col(cols: &Vec<String>, preferred: Option<&str>) -> (r: Result<String, MailError>)
    ensures
        match inbox_col_of(
            strings_view(cols@),
            match preferred {
                Some(p) => Some(p@),
                None => None,
            },
        ) {
            Some(c) => r matches Ok(s) && s@ == c,
            None => r matches Err(e) && e@ == MailErrorView::NoColumns,
        },
{
    let ghost cv = strings_view(cols@);
    if let Some(p) = preferred {
        let mut i: usize = 0;
        while i < cols.len()
            invariant
                i <= cols@.len(),
                preferred == Some(p),
                cv == strings_view(cols@),
                forall|k: int| 0 <= k < i ==> cv[k] != p@,
            decreases cols@.len() - i,
        {
            if text::str_eq(cols[i].as_str(), p) {
                assert(cv[i as int] == p@);
                assert(cv.contains(p@));
                let res = p.to_owned();
                assert(res@ == p@);
                return Ok(res);
            }
            i = i + 1;
        }
        assert(!cv.contains(p@));
    }
    if cols.len() > 0 {
        assert(cv[0] == cols@[0]@);
        Ok(cols[0].clone())
    } else {
        Err(MailError::NoColumns)
    }
}

// ---------------------------------------------------------------------------
// Grouping and ordering fetched messages
// ---------------------------------------------------------------------------

/// `a` sorts before `b`: the order of `String` (byte-wise UTF-8, which is
/// code point order).
pub open spec fn str_lt(a: Seq<char>, b: Seq<char>) -> bool
    decreases a.len(),
{
    if a.len() == 0 {
        b.len() > 0
    } else if b.len() == 0 {
        false
    } else if a[0] != b[0] {
        a[0] < b[0]
    } else {
        str_lt(a.skip(1), b.skip(1))
    }
}

/// Whether `a` sorts before `b`.
pub fn str_lt_exec(a: &[char], b: &[char]) -> (r: bool)
    ensures
        r == str_lt(a@, b@),
{
    let mut i: usize = 0;
    assert(a@.skip(0) =~= a@);
    assert(b@.skip(0) =~= b@);
    while i < a.len() && i < b.len() && a[i] == b[i]
        invariant
            i <= a@.len(),
            i <= b@.len(),
            str_lt(a@, b@) == str_lt(a@.skip(i as int), b@.skip(i as int)),
        decreases a@.len() - i,
    {
        assert(a@.skip(i as int).skip(1) =~= a@.skip(i + 1));
        assert(b@.skip(i as int).skip(1) =~= b@.skip(i + 1));
        i = i + 1;
    }
    if i == a.len() {
        i < b.len()
    } else if i == b.len() {
        false
    } else {
        a[i] < b[i]
    }
}

/// `x` put into the descending list `s` after every element whose key is not
/// below its own: the step of a stable descending sort.
pub open spec fn insert_desc<T>(s: Seq<T>, x: T, key: spec_fn(T) -> Seq<char>) -> Seq<T>
    decreases s.len(),
{
    if s.len() == 0 {
        seq![x]
    } else if str_lt(key(s[0]), key(x)) {
        seq![x] + s
    } else {
        seq![s[0]] + insert_desc(s.skip(1), x, key)
    }
}

/// `s` stably sorted by descending key: greater keys first, equal keys in
/// their original order.
pub open spec fn sort_desc_by<T>(s: Seq<T>, key: spec_fn(T) -> Seq<char>) -> Seq<T>
    decreases s.len(),
{
    if s.len() == 0 {
        Seq::empty()
    } else {
        insert_desc(sort_desc_by(s.drop_last(), key), s.last(), key)
    }
}

pub proof fn lemma_sort_desc_len<T>(s: Seq<T>, key: spec_fn(T) -> Seq<char>)
    ensures
        sort_desc_by(s, key).len() == s.len(),
    decreases s.len(),
{
    if s.len() > 0 {
        lemma_sort_desc_len(s.drop_last(), key);
        lemma_insert_desc_len(sort_desc_by(s.drop_last(), key), s.last(), key);
    }
}

pub proof fn lemma_insert_desc_len<T>(s: Seq<T>, x: T, key: spec_fn(T) -> Seq<char>)
    ensures
        insert_desc(s, x, key).len() == s.len() + 1,
    decreases s.len(),
{
    if s.len() > 0 && !str_lt(key(s[0]), key(x)) {
        lemma_insert_desc_len(s.skip(1), x, key);
    }
}

pub proof fn lemma_insert_desc_at<T>(s: Seq<T>, x: T, key: spec_fn(T) -> Seq<char>, j: int)
    requires
        0 <= j <= s.len(),
        forall|k: int| 0 <= k < j ==> !str_lt(key(s[k]), key(x)),
        j == s.len() || str_lt(key(s[j]), key(x)),
    ensures
        insert_desc(s, x, key) == s.insert(j, x),
    decreases s.len(),
{
    if s.len() == 0 {
        assert(s.insert(j, x) =~= seq![x]);
    } else if j == 0 {
        assert(s.insert(0, x) =~= seq![x] + s);
    } else {
        assert forall|k: int| 0 <= k < j - 1 implies !str_lt(key(s.skip(1)[k]), key(x)) by {
            assert(s.skip(1)[k] == s[k + 1]);
        }
        if j < s.len() {
            assert(s.skip(1)[j - 1] == s[j]);
        }
        lemma_insert_desc_at(s.skip(1), x, key, j - 1);
        assert(s.insert(j, x) =~= seq![s[0]] + s.skip(1).insert(j - 1, x));
    }
}

/// The sort key of a message: its date text.
pub open spec fn message_date() -> spec_fn(MailMessageView) -> Seq<char> {
    |m: MailMessageView| m.date
}

pub open spec fn messages_view(v: Seq<MailMessage>) -> Seq<MailMessageView> {
    v.map_values(|m: MailMessage| m@)
}

/// Messages stably sorted by date text, latest first.
pub fn sort_by_date_desc(v: Vec<MailMessage>) -> (r: Vec<MailMessage>)
    ensures
        messages_view(r@) == sort_desc_by(messages_view(v@), message_date()),
{
    let ghost vv = messages_view(v@);
    let mut r: Vec<MailMessage> = Vec::new();
    let mut src = v;
    let mut i: usize = 0;
    while i < src.len()
        invariant
            i <= src@.len(),
            vv == messages_view(src@),
            messages_view(r@) == sort_desc_by(vv.take(i as int), message_date()),
        decreases src@.len() - i,
    {
        let x = src[i].clone_message();
        let xd = text::chars_of(x.date.as_str());
        let mut j: usize = 0;
        while j < r.len()
            invariant
                j <= r@.len(),
                xd@ == x.date@,
                forall|k: int| 0 <= k < j ==> !str_lt(r@[k].date@, x.date@),
            ensures
                j <= r@.len(),
                forall|k: int| 0 <= k < j ==> !str_lt(r@[k].date@, x.date@),
                j == r@.len() || str_lt(r@[j as int].date@, x.date@),
            decreases r@.len() - j,
        {
            let rd = text::chars_of(r[j].date.as_str());
            if str_lt_exec(rd.as_slice(), xd.as_slice()) {
                break;
            }
            j = j + 1;
        }
        proof {
            let rv = messages_view(r@);
            assert forall|k: int| 0 <= k < j implies !str_lt((message_date())(rv[k]), (message_date())(x@)) by {
                assert(rv[k] == r@[k]@);
            }
            if j < r@.len() {
                assert(rv[j as int] == r@[j as int]@);
            }
        }
        let ghost rv0 = messages_view(r@);
        assert(vv[i as int] == x@);
        r.insert(j, x);
        proof {
            lemma_insert_desc_at(rv0, vv[i as int], message_date(), j as int);
            assert(messages_view(r@) =~= rv0.insert(j as int, vv[i as int]));
            assert(vv.take(i + 1).drop_last() =~= vv.take(i as int));
        }
        i = i + 1;
    }
    assert(vv.take(i as int) =~= vv);
    r
}

impl MailMessage {
    /// A copy of the message.
    pub fn clone_message(&self) -> (r: MailMessage)
        ensures
            r@ == self@,
    {
        MailMessage {
            id: self.id.clone(),
            from_name: self.from_name.clone(),
            from_email: self.from_email.clone(),
            subject: self.subject.clone(),
            date: self.date.clone(),
            snippet: self.snippet.clone(),
            provider: self.provider.clone(),
        }
    }
}

/// Messages grouped by sender address: one group per address, in the order
/// in which the addresses first occur, each holding that sender's messages
/// in their order.
pub open spec fn groups_by_sender(s: Seq<MailMessageView>) -> Seq<(Seq<char>, Seq<MailMessageView>)>
    decreases s.len(),
{
    if s.len() == 0 {
        Seq::empty()
    } else {
        let g = groups_by_sender(s.drop_last());
        let m = s.last();
        match board::key_index(g, m.from_email) {
            Some(i) => g.update(i, (m.from_email, g[i].1.push(m))),
            None => g.push((m.from_email, seq![m])),
        }
    }
}

pub open spec fn groups_view(g: Seq<(String, Vec<MailMessage>)>) -> Seq<(Seq<char>, Seq<MailMessageView>)> {
    g.map_values(|p: (String, Vec<MailMessage>)| (p.0@, messages_view(p.1@)))
}

proof fn lemma_groups_unique(s: Seq<MailMessageView>)
    ensures
        board::keys_unique(groups_by_sender(s)),
    decreases s.len(),
{
    if s.len() > 0 {
        let g = groups_by_sender(s.drop_last());
        lemma_groups_unique(s.drop_last());
        board::lemma_key_index_bounds(g, s.last().from_email);
    }
}

/// Groups messages by sender address.
pub fn group_by_sender(msgs: Vec<MailMessage>) -> (r: Vec<(String, Vec<MailMessage>)>)
    ensures
        groups_view(r@) == groups_by_sender(messages_view(msgs@)),
{
    let ghost mv = messages_view(msgs@);
    let mut r: Vec<(String, Vec<MailMessage>)> = Vec::new();
    let mut i: usize = 0;
    while i < msgs.len()
        invariant
            i <= msgs@.len(),
            mv == messages_view(msgs@),
            groups_view(r@) == groups_by_sender(mv.take(i as int)),
        decreases msgs@.len() - i,
    {
        let m = msgs[i].clone_message();
        let ghost g = groups_view(r@);
        proof {
            assert(mv.take(i + 1).drop_last() =~= mv.take(i as int));
            assert(mv.take(i + 1).last() == m@);
            lemma_groups_unique(mv.take(i as int));
        }
        let ghost mm = m@;
        match board::find_key(&r, m.from_email.as_str()) {
            Some(k) => {
                proof {
                    assert(g[k as int].0 == mm.from_email);
                    board::lemma_key_index(g, mm.from_email, k as int);
                }
                let (key, mut list) = r.remove(k);
                assert(key@ == g[k as int].0);
                assert(messages_view(list@) == g[k as int].1);
                list.push(m);
                assert(messages_view(list@) =~= g[k as int].1.push(mm));
                r.insert(k, (key, list));
                assert(groups_view(r@) =~= g.update(k as int, (mm.from_email, g[k as int].1.push(mm))));
            },
            None => {
                proof {
                    assert forall|j: int| 0 <= j < g.len() implies g[j].0 != mm.from_email by {
                        assert(g[j].0 == r@[j].0@);
                    }
                    board::lemma_key_index_none(g, mm.from_email);
                }
                let key = m.from_email.clone();
                let mut list: Vec<MailMessage> = Vec::new();
                list.push(m);
                assert(messages_view(list@) =~= seq![mm]);
                r.push((key, list));
                assert(groups_view(r@) =~= g.push((mm.from_email, seq![mm])));
            },
        }
        i = i + 1;
    }
    assert(mv.take(i as int) =~= mv);
    r
}

/// The title of a new contact card: the address alone where the sender's
/// name is the address, else `Name <address>`.
pub open spec fn contact_title_of(from_name: Seq<char>, email: Seq<char>) -> Seq<char> {
    if from_name == email {
        email
    } else {
        from_name + " <"@ + email + ">"@
    }
}

/// The title of a new contact card.
pub fn contact_title(from_name: &str, email: &str) -> (r: String)
    ensures
        r@ == contact_title_of(from_name@, email@),
{
    if text::str_eq(from_name, email) {
        email.to_owned()
    } else {
        let mut t = from_name.to_owned();
        text::push_str(&mut t, " <");
        text::push_str(&mut t, email);
        text::push_str(&mut t, ">");
        t
    }
}

/// The comment that records an email on its contact card.
pub open spec fn email_comment_text_of(m: MailMessageView) -> Seq<char> {
    "**"@ + m.subject + "**\n"@ + m.date + "\n\n"@ + m.snippet
}

/// The comment text that records an email: bold subject, date, snippet.
pub fn email_comment_text(m: &MailMessage) -> (r: String)
    ensures
        r@ == email_comment_text_of(m@),
{
    let mut t = "**".to_owned();
    text::push_str(&mut t, m.subject.as_str());
    text::push_str(&mut t, "**\n");
    text::push_str(&mut t, m.date.as_str());
    text::push_str(&mut t, "\n\n");
    text::push_str(&mut t, m.snippet.as_str());
    t
}

/// The messages not yet recorded (their ids absent from `recorded`), in
/// order.
pub open spec fn unrecorded(msgs: Seq<MailMessageView>, recorded: Seq<(Seq<char>, Seq<char>)>) -> Seq<MailMessageView>
    decreases msgs.len(),
{
    if msgs.len() == 0 {
        Seq::empty()
    } else {
        let rest = unrecorded(msgs.drop_last(), recorded);
        if board::lookup(recorded, msgs.last().id) is Some {
            rest
        } else {
            rest.push(msgs.last())
        }
    }
}

/// The emails to record: the first `keep_last` of those not yet recorded.
pub open spec fn emails_to_add_of(
    msgs: Seq<MailMessageView>,
    recorded: Seq<(Seq<char>, Seq<char>)>,
    keep_last: nat,
) -> Seq<MailMessageView> {
    let u = unrecorded(msgs, recorded);
    u.take(if u.len() < keep_last { u.len() as int } else { keep_last as int })
}

pub open spec fn pairs_view(v: Seq<(String, String)>) -> Seq<(Seq<char>, Seq<char>)> {
    v.map_values(|p: (String, String)| (p.0@, p.1@))
}

/// The emails of `msgs` to record on a contact card whose recorded message
/// ids (with their comment ids) are `recorded`.
pub fn emails_to_add(msgs: &Vec<MailMessage>, recorded: &Vec<(String, String)>, keep_last: usize) -> (r: Vec<MailMessage>)
    requires
        board::keys_unique(pairs_view(recorded@)),
    ensures
        messages_view(r@) == emails_to_add_of(messages_view(msgs@), pairs_view(recorded@), keep_last as nat),
{
    let ghost mv = messages_view(msgs@);
    let ghost rv = pairs_view(recorded@);
    let mut u: Vec<MailMessage> = Vec::new();
    let mut i: usize = 0;
    while i < msgs.len()
        invariant
            i <= msgs@.len(),
            mv == messages_view(msgs@),
            rv == pairs_view(recorded@),
            board::keys_unique(rv),
            messages_view(u@) == unrecorded(mv.take(i as int), rv),
        decreases msgs@.len() - i,
    {
        let m = msgs[i].clone_message();
        proof {
            assert(mv.take(i + 1).drop_last() =~= mv.take(i as int));
            assert(mv.take(i + 1).last() == m@);
        }
        let found = board::find_key(recorded, m.id.as_str());
        proof {
            match found {
                Some(k) => {
                    assert(rv[k as int].0 == m.id@);
                    board::lemma_key_index(rv, m.id@, k as int);
                },
                None => {
                    assert forall|j: int| 0 <= j < rv.len() implies rv[j].0 != m.id@ by {
                        assert(rv[j].0 == recorded@[j].0@);
                    }
                    board::lemma_key_index_none(rv, m.id@);
                },
            }
        }
        if found.is_none() {
            u.push(m);
            assert(messages_view(u@) =~= unrecorded(mv.take(i as int), rv).push(m@));
        }
        i = i + 1;
    }
    assert(mv.take(i as int) =~= mv);
    let n: usize = if u.len() < keep_last { u.len() } else { keep_last };
    let mut r: Vec<MailMessage> = Vec::new();
    let mut j: usize = 0;
    while j < n
        invariant
            j <= n <= u@.len(),
            messages_view(r@) == messages_view(u@).take(j as int),
        decreases n - j,
    {
        let c = u[j].clone_message();
        let ghost r0 = r@;
        r.push(c);
        proof {
            assert(r@ == r0.push(c));
            assert(messages_view(u@)[j as int] == u@[j as int]@);
            assert(messages_view(r@) =~= messages_view(r0).push(c@));
            assert(messages_view(r@) =~= messages_view(u@).take(j + 1));
        }
        j = j + 1;
    }
    r
}

// ---------------------------------------------------------------------------
// Mail settings stored on the board
// ---------------------------------------------------------------------------

/// The text stored under `key` at the root of the board.
pub open spec fn root_text(root: Seq<(Seq<char>, ValueView)>, key: Seq<char>) -> Option<Seq<char>> {
    board::as_text(board::lookup(root, key))
}

/// How many emails to keep per contact, as stored: an unsigned number as it
/// is, a signed one raised to at least 1, two otherwise.
pub open spec fn keep_last_of(v: Option<ValueView>) -> u64 {
    match v {
        Some(ValueView::Uint(n)) => n,
        Some(ValueView::Int(n)) => if n < 1 {
            1
        } else {
            n as u64
        },
        _ => 2,
    }
}

/// The mail settings stored at the root of a board: none without a provider.
pub open spec fn mail_config_of(root: Seq<(Seq<char>, ValueView)>) -> Option<MailConfigView> {
    match root_text(root, "mail_provider"@) {
        None => None,
        Some(p) => Some(
            MailConfigView {
                provider: p,
                gmail_client_id: root_text(root, "mail_gmail_client_id"@),
                outlook_client_id: root_text(root, "mail_outlook_client_id"@),
                outlook_tenant_id: or_text(root_text(root, "mail_outlook_tenant_id"@), "common"@),
                inbox_col_id: root_text(root, "mail_inbox_col_id"@),
                keep_last: keep_last_of(board::lookup(root, "mail_keep_last"@)),
                last_sync: root_text(root, "mail_last_sync"@),
            },
        ),
    }
}

/// The value stored under `key` at the root of the board.
fn root_value<'a>(doc: &'a BoardDoc, key: &str) -> (r: Option<&'a Value>)
    requires
        board::keys_unique(doc@.root),
    ensures
        match r {
            Some(v) => board::lookup(doc@.root, key@) == Some(v@),
            None => board::lookup(doc@.root, key@) is None,
        },
{
    match board::find_key(&doc.root, key) {
        Some(i) => {
            proof {
                assert(doc@.root[i as int].0 == key@);
                board::lemma_key_index(doc@.root, key@, i as int);
                assert(doc@.root[i as int].1 == doc.root@[i as int].1@);
            }
            Some(&doc.root[i].1)
        },
        None => {
            proof {
                assert forall|j: int| 0 <= j < doc@.root.len() implies doc@.root[j].0 != key@ by {
                    assert(doc@.root[j].0 == doc.root@[j].0@);
                }
                board::lemma_key_index_none(doc@.root, key@);
            }
            None
        },
    }
}

/// The text stored under `key` at the root of the board.
fn root_text_exec(doc: &BoardDoc, key: &str) -> (r: Option<String>)
    requires
        board::keys_unique(doc@.root),
    ensures
        field::opt_string_view(r) == root_text(doc@.root, key@),
{
    match root_value(doc, key) {
        Some(Value::Str(s)) => Some(s.clone()),
        _ => None,
    }
}

/// The mail settings of a board, if a provider is set.
pub fn get_mail_config(doc: &BoardDoc) -> (r: Option<MailConfig>)
    requires
        board::doc_wf(doc@),
    ensures
        match r {
            Some(c) => mail_config_of(doc@.root) == Some(c@),
            None => mail_config_of(doc@.root) is None,
        },
{
    let provider = match root_text_exec(doc, "mail_provider") {
        Some(p) => p,
        None => return None,
    };
    let tenant = match root_text_exec(doc, "mail_outlook_tenant_id") {
        Some(t) => t,
        None => "common".to_owned(),
    };
    let keep_last: u64 = match root_value(doc, "mail_keep_last") {
        Some(Value::Uint(n)) => *n,
        Some(Value::Int(n)) => if *n < 1 {
            1
        } else {
            *n as u64
        },
        _ => 2,
    };
    Some(
        MailConfig {
            provider,
            gmail_client_id: root_text_exec(doc, "mail_gmail_client_id"),
            outlook_client_id: root_text_exec(doc, "mail_outlook_client_id"),
            outlook_tenant_id: tenant,
            inbox_col_id: root_text_exec(doc, "mail_inbox_col_id"),
            keep_last,
            last_sync: root_text_exec(doc, "mail_last_sync"),
        },
    )
}

/// `m` with `key` set to the text `v`.
pub open spec fn put_text(m: Seq<(Seq<char>, ValueView)>, key: Seq<char>, v: Seq<char>) -> Seq<(Seq<char>, ValueView)> {
    board::put(m, key, ValueView::Str(v))
}

/// `m` with `key` set to the text `v` where there is one; as it is otherwise.
pub open spec fn put_opt_text(m: Seq<(Seq<char>, ValueView)>, key: Seq<char>, v: Option<Seq<char>>) -> Seq<(Seq<char>, ValueView)> {
    match v {
        Some(x) => put_text(m, key, x),
        None => m,
    }
}

/// The root of a board after its mail settings are written (`Some`): each
/// setting stored, the absent optional ones left as they were; or removed
/// (`None`): all seven entries deleted.
pub open spec fn config_root(root: Seq<(Seq<char>, ValueView)>, c: Option<MailConfigView>) -> Seq<(Seq<char>, ValueView)> {
    match c {
        None => board::remove(
            board::remove(
                board::remove(
                    board::remove(
                        board::remove(
                            board::remove(board::remove(root, "mail_provider"@), "mail_gmail_client_id"@),
                            "mail_outlook_client_id"@,
                        ),
                        "mail_outlook_tenant_id"@,
                    ),
                    "mail_inbox_col_id"@,
                ),
                "mail_keep_last"@,
            ),
            "mail_last_sync"@,
        ),
        Some(c) => {
            let r1 = put_text(root, "mail_provider"@, c.provider);
            let r2 = put_opt_text(r1, "mail_gmail_client_id"@, c.gmail_client_id);
            let r3 = put_opt_text(r2, "mail_outlook_client_id"@, c.outlook_client_id);
            let r4 = put_text(r3, "mail_outlook_tenant_id"@, c.outlook_tenant_id);
            let r5 = put_opt_text(r4, "mail_inbox_col_id"@, c.inbox_col_id);
            let r6 = board::put(r5, "mail_keep_last"@, ValueView::Uint(c.keep_last));
            put_opt_text(r6, "mail_last_sync"@, c.last_sync)
        },
    }
}

pub open spec fn opt_config_view(c: Option<&MailConfig>) -> Option<MailConfigView> {
    match c {
        Some(x) => Some(x@),
        None => None,
    }
}

fn put_root_text(doc: &mut BoardDoc, key: &str, v: &str)
    requires
        board::doc_wf(old(doc)@),
    ensures
        board::doc_wf(final(doc)@),
        final(doc)@ == (BoardDocView { root: put_text(old(doc)@.root, key@, v@), ..old(doc)@ }),
{
    board::put_value(&mut doc.root, key.to_owned(), Value::Str(v.to_owned()));
}

fn put_root_opt_text(doc: &mut BoardDoc, key: &str, v: &Option<String>)
    requires
        board::doc_wf(old(doc)@),
    ensures
        board::doc_wf(final(doc)@),
        final(doc)@ == (BoardDocView {
            root: put_opt_text(old(doc)@.root, key@, field::opt_string_view(*v)),
            ..old(doc)@
        }),
{
    match v {
        Some(x) => put_root_text(doc, key, x.as_str()),
        None => {},
    }
}

fn remove_root(doc: &mut BoardDoc, key: &str)
    requires
        board::doc_wf(old(doc)@),
    ensures
        board::doc_wf(final(doc)@),
        final(doc)@ == (BoardDocView { root: board::remove(old(doc)@.root, key@), ..old(doc)@ }),
{
    board::remove_value(&mut doc.root, key);
}

/// Writes the mail settings of a board (`Some`), or removes them (`None`).
pub fn set_mail_config(doc: &mut BoardDoc, config: Option<&MailConfig>) -> (r: Result<(), DocError>)
    requires
        board::doc_wf(old(doc)@),
    ensures
        board::doc_wf(final(doc)@),
        final(doc)@ == (BoardDocView {
            root: config_root(old(doc)@.root, opt_config_view(config)),
            ..old(doc)@
        }),
        r is Ok,
{
    match config {
        None => {
            remove_root(doc, "mail_provider");
            remove_root(doc, "mail_gmail_client_id");
            remove_root(doc, "mail_outlook_client_id");
            remove_root(doc, "mail_outlook_tenant_id");
            remove_root(doc, "mail_inbox_col_id");
            remove_root(doc, "mail_keep_last");
            remove_root(doc, "mail_last_sync");
        },
        Some(c) => {
            put_root_text(doc, "mail_provider", c.provider.as_str());
            put_root_opt_text(doc, "mail_gmail_client_id", &c.gmail_client_id);
            put_root_opt_text(doc, "mail_outlook_client_id", &c.outlook_client_id);
            put_root_text(doc, "mail_outlook_tenant_id", c.outlook_tenant_id.as_str());
            put_root_opt_text(doc, "mail_inbox_col_id", &c.inbox_col_id);
            board::put_value(&mut doc.root, "mail_keep_last".to_owned(), Value::Uint(c.keep_last));
            put_root_opt_text(doc, "mail_last_sync", &c.last_sync);
        },
    }
    Ok(())
}

/// The id of a custom field that the mail sync keeps under `key` at the root.
pub fn get_mail_field_id(doc: &BoardDoc, key: &str) -> (r: Option<String>)
    requires
        board::doc_wf(doc@),
    ensures
        field::opt_string_view(r) == root_text(doc@.root, key@),
{
    root_text_exec(doc, key)
}

/// Keeps `field_id` under `key` at the root.
pub fn set_mail_field_id(doc: &mut BoardDoc, key: &str, field_id: &str) -> (r: Result<(), DocError>)
    requires
        board::doc_wf(old(doc)@),
    ensures
        board::doc_wf(final(doc)@),
        final(doc)@ == (BoardDocView { root: put_text(old(doc)@.root, key@, field_id@), ..old(doc)@ }),
        r is Ok,
{
    put_root_text(doc, key, field_id);
    Ok(())
}

/// What a stored optional setting reads back as: the value written, or, where
/// none was written, what was stored before.
pub open spec fn kept_or(v: Option<Seq<char>>, before: Option<Seq<char>>) -> Option<Seq<char>> {
    match v {
        Some(x) => Some(x),
        None => before,
    }
}

proof fn lemma_put_same(m: Seq<(Seq<char>, ValueView)>, key: Seq<char>, v: ValueView)
    requires
        board::keys_unique(m),
    ensures
        board::keys_unique(board::put(m, key, v)),
        board::lookup(board::put(m, key, v), key) == Some(v),
{
    board::lemma_put_keys_unique(m, key, v);
}

proof fn lemma_put_other(m: Seq<(Seq<char>, ValueView)>, key: Seq<char>, v: ValueView, k: Seq<char>)
    requires
        board::keys_unique(m),
        k != key,
    ensures
        board::lookup(board::put(m, key, v), k) == board::lookup(m, k),
{
    board::lemma_put_keys_unique(m, key, v);
}

proof fn lemma_put_opt_same(m: Seq<(Seq<char>, ValueView)>, key: Seq<char>, v: Option<Seq<char>>)
    requires
        board::keys_unique(m),
    ensures
        board::keys_unique(put_opt_text(m, key, v)),
        root_text(put_opt_text(m, key, v), key) == kept_or(v, root_text(m, key)),
{
    if v is Some {
        lemma_put_same(m, key, ValueView::Str(v->0));
    }
}

proof fn lemma_put_opt_other(m: Seq<(Seq<char>, ValueView)>, key: Seq<char>, v: Option<Seq<char>>, k: Seq<char>)
    requires
        board::keys_unique(m),
        k != key,
    ensures
        board::lookup(put_opt_text(m, key, v), k) == board::lookup(m, k),
{
    if v is Some {
        lemma_put_other(m, key, ValueView::Str(v->0), k);
    }
}

proof fn lemma_mail_keys_distinct()
    ensures
        "mail_provider"@ != "mail_gmail_client_id"@,
        "mail_provider"@ != "mail_outlook_client_id"@,
        "mail_provider"@ != "mail_outlook_tenant_id"@,
        "mail_provider"@ != "mail_inbox_col_id"@,
        "mail_provider"@ != "mail_keep_last"@,
        "mail_provider"@ != "mail_last_sync"@,
        "mail_gmail_client_id"@ != "mail_outlook_client_id"@,
        "mail_gmail_client_id"@ != "mail_outlook_tenant_id"@,
        "mail_gmail_client_id"@ != "mail_inbox_col_id"@,
        "mail_gmail_client_id"@ != "mail_keep_last"@,
        "mail_gmail_client_id"@ != "mail_last_sync"@,
        "mail_outlook_client_id"@ != "mail_outlook_tenant_id"@,
        "mail_outlook_client_id"@ != "mail_inbox_col_id"@,
        "mail_outlook_client_id"@ != "mail_keep_last"@,
        "mail_outlook_client_id"@ != "mail_last_sync"@,
        "mail_outlook_tenant_id"@ != "mail_inbox_col_id"@,
        "mail_outlook_tenant_id"@ != "mail_keep_last"@,
        "mail_outlook_tenant_id"@ != "mail_last_sync"@,
        "mail_inbox_col_id"@ != "mail_keep_last"@,
        "mail_inbox_col_id"@ != "mail_last_sync"@,
        "mail_keep_last"@ != "mail_last_sync"@,
{
    reveal_strlit("mail_provider");
    reveal_strlit("mail_gmail_client_id");
    reveal_strlit("mail_outlook_client_id");
    reveal_strlit("mail_outlook_tenant_id");
    reveal_strlit("mail_inbox_col_id");
    reveal_strlit("mail_keep_last");
    reveal_strlit("mail_last_sync");
    assert("mail_provider"@.len() == 13);
    assert("mail_gmail_client_id"@.len() == 20);
    assert("mail_outlook_client_id"@.len() == 22);
    assert("mail_outlook_tenant_id"@.len() == 22);
    assert("mail_inbox_col_id"@.len() == 17);
    assert("mail_keep_last"@.len() == 14);
    assert("mail_last_sync"@.len() == 14);
    assert("mail_outlook_client_id"@[13] != "mail_outlook_tenant_id"@[13]);
    assert("mail_keep_last"@[5] != "mail_last_sync"@[5]);
}

/// Reading the mail settings after writing them gives what was written; an
/// optional setting left out reads as what the board held before.
#[verifier::rlimit(40)]
pub proof fn law_mail_config_round_trip(root: Seq<(Seq<char>, ValueView)>, c: MailConfigView)
    requires
        board::keys_unique(root),
    ensures
        mail_config_of(config_root(root, Some(c))) == Some(
            MailConfigView {
                gmail_client_id: kept_or(c.gmail_client_id, root_text(root, "mail_gmail_client_id"@)),
                outlook_client_id: kept_or(
                    c.outlook_client_id,
                    root_text(root, "mail_outlook_client_id"@),
                ),
                inbox_col_id: kept_or(c.inbox_col_id, root_text(root, "mail_inbox_col_id"@)),
                last_sync: kept_or(c.last_sync, root_text(root, "mail_last_sync"@)),
                ..c
            },
        ),
{
    lemma_mail_keys_distinct();
    let k1 = "mail_provider"@;
    let k2 = "mail_gmail_client_id"@;
    let k3 = "mail_outlook_client_id"@;
    let k4 = "mail_outlook_tenant_id"@;
    let k5 = "mail_inbox_col_id"@;
    let k6 = "mail_keep_last"@;
    let k7 = "mail_last_sync"@;
    let r1 = put_text(root, k1, c.provider);
    let r2 = put_opt_text(r1, k2, c.gmail_client_id);
    let r3 = put_opt_text(r2, k3, c.outlook_client_id);
    let r4 = put_text(r3, k4, c.outlook_tenant_id);
    let r5 = put_opt_text(r4, k5, c.inbox_col_id);
    let r6 = board::put(r5, k6, ValueView::Uint(c.keep_last));
    let r7 = put_opt_text(r6, k7, c.last_sync);
    lemma_put_same(root, k1, ValueView::Str(c.provider));
    lemma_put_opt_same(r1, k2, c.gmail_client_id);
    lemma_put_opt_same(r2, k3, c.outlook_client_id);
    lemma_put_same(r3, k4, ValueView::Str(c.outlook_tenant_id));
    lemma_put_opt_same(r4, k5, c.inbox_col_id);
    lemma_put_same(r5, k6, ValueView::Uint(c.keep_last));
    lemma_put_opt_same(r6, k7, c.last_sync);
    assert(r7 == config_root(root, Some(c)));
    // provider
    lemma_put_opt_other(r1, k2, c.gmail_client_id, k1);
    lemma_put_opt_other(r2, k3, c.outlook_client_id, k1);
    lemma_put_other(r3, k4, ValueView::Str(c.outlook_tenant_id), k1);
    lemma_put_opt_other(r4, k5, c.inbox_col_id, k1);
    lemma_put_other(r5, k6, ValueView::Uint(c.keep_last), k1);
    lemma_put_opt_other(r6, k7, c.last_sync, k1);
    // gmail
    lemma_put_other(root, k1, ValueView::Str(c.provider), k2);
    lemma_put_opt_other(r2, k3, c.outlook_client_id, k2);
    lemma_put_other(r3, k4, ValueView::Str(c.outlook_tenant_id), k2);
    lemma_put_opt_other(r4, k5, c.inbox_col_id, k2);
    lemma_put_other(r5, k6, ValueView::Uint(c.keep_last), k2);
    lemma_put_opt_other(r6, k7, c.last_sync, k2);
    // outlook
    lemma_put_other(root, k1, ValueView::Str(c.provider), k3);
    lemma_put_opt_other(r1, k2, c.gmail_client_id, k3);
    lemma_put_other(r3, k4, ValueView::Str(c.outlook_tenant_id), k3);
    lemma_put_opt_other(r4, k5, c.inbox_col_id, k3);
    lemma_put_other(r5, k6, ValueView::Uint(c.keep_last), k3);
    lemma_put_opt_other(r6, k7, c.last_sync, k3);
    // tenant
    lemma_put_opt_other(r4, k5, c.inbox_col_id, k4);
    lemma_put_other(r5, k6, ValueView::Uint(c.keep_last), k4);
    lemma_put_opt_other(r6, k7, c.last_sync, k4);
    // inbox
    lemma_put_other(root, k1, ValueView::Str(c.provider), k5);
    lemma_put_opt_other(r1, k2, c.gmail_client_id, k5);
    lemma_put_opt_other(r2, k3, c.outlook_client_id, k5);
    lemma_put_other(r3, k4, ValueView::Str(c.outlook_tenant_id), k5);
    lemma_put_other(r5, k6, ValueView::Uint(c.keep_last), k5);
    lemma_put_opt_other(r6, k7, c.last_sync, k5);
    // keep_last
    lemma_put_opt_other(r6, k7, c.last_sync, k6);
    // last_sync
    lemma_put_other(root, k1, ValueView::Str(c.provider), k7);
    lemma_put_opt_other(r1, k2, c.gmail_client_id, k7);
    lemma_put_opt_other(r2, k3, c.outlook_client_id, k7);
    lemma_put_other(r3, k4, ValueView::Str(c.outlook_tenant_id), k7);
    lemma_put_opt_other(r4, k5, c.inbox_col_id, k7);
    lemma_put_other(r5, k6, ValueView::Uint(c.keep_last), k7);
}

/// Once the mail settings are removed, the board has none.
pub proof fn law_mail_config_removed(root: Seq<(Seq<char>, ValueView)>)
    requires
        board::keys_unique(root),
    ensures
        mail_config_of(config_root(root, None)) is None,
{
    reveal_strlit("mail_provider");
    reveal_strlit("mail_gmail_client_id");
    reveal_strlit("mail_outlook_client_id");
    reveal_strlit("mail_outlook_tenant_id");
    reveal_strlit("mail_inbox_col_id");
    reveal_strlit("mail_keep_last");
    reveal_strlit("mail_last_sync");
    let k1 = "mail_provider"@;
    let r1 = board::remove(root, k1);
    field::lemma_lookup_remove(root, k1, k1);
    field::lemma_remove_unique(root, k1);
    let r2 = board::remove(r1, "mail_gmail_client_id"@);
    field::lemma_lookup_remove(r1, "mail_gmail_client_id"@, k1);
    field::lemma_remove_unique(r1, "mail_gmail_client_id"@);
    let r3 = board::remove(r2, "mail_outlook_client_id"@);
    field::lemma_lookup_remove(r2, "mail_outlook_client_id"@, k1);
    field::lemma_remove_unique(r2, "mail_outlook_client_id"@);
    let r4 = board::remove(r3, "mail_outlook_tenant_id"@);
    field::lemma_lookup_remove(r3, "mail_outlook_tenant_id"@, k1);
    field::lemma_remove_unique(r3, "mail_outlook_tenant_id"@);
    let r5 = board::remove(r4, "mail_inbox_col_id"@);
    field::lemma_lookup_remove(r4, "mail_inbox_col_id"@, k1);
    field::lemma_remove_unique(r4, "mail_inbox_col_id"@);
    let r6 = board::remove(r5, "mail_keep_last"@);
    field::lemma_lookup_remove(r5, "mail_keep_last"@, k1);
    field::lemma_remove_unique(r5, "mail_keep_last"@);
    field::lemma_lookup_remove(r6, "mail_last_sync"@, k1);
}

/// Reading a mail field id after keeping it gives the id kept.
pub proof fn law_mail_field_id_round_trip(root: Seq<(Seq<char>, ValueView)>, key: Seq<char>, id: Seq<char>)
    requires
        board::keys_unique(root),
    ensures
        root_text(put_text(root, key, id), key) == Some(id),
{
    board::lemma_put_keys_unique(root, key, ValueView::Str(id));
}

// ---------------------------------------------------------------------------
// The contact fields
// ---------------------------------------------------------------------------

/// The ids of the custom fields that contact cards carry.
pub struct CrmFieldIds {
    pub email: String,
    pub last_seen: String,
    pub email_count: String,
    pub provider: String,
    pub labels: String,
}

pub struct CrmFieldIdsView {
    pub email: Seq<char>,
    pub last_seen: Seq<char>,
    pub email_count: Seq<char>,
    pub provider: Seq<char>,
    pub labels: Seq<char>,
}

impl View for CrmFieldIds {
    type V = CrmFieldIdsView;

    open spec fn view(&self) -> CrmFieldIdsView {
        CrmFieldIdsView {
            email: self.email@,
            last_seen: self.last_seen@,
            email_count: self.email_count@,
            provider: self.provider@,
            labels: self.labels@,
        }
    }
}

/// Making sure of one contact field kept under `key`: where the root holds
/// an id there, that id must be `id` and nothing changes; else the field is
/// created under `id` and `id` is kept under `key`.
pub open spec fn crm_step(
    d: BoardDocView,
    key: Seq<char>,
    name: Seq<char>,
    t: FieldType,
    options: Seq<Seq<char>>,
    id: Seq<char>,
) -> Option<BoardDocView> {
    match root_text(d.root, key) {
        Some(x) => if x == id {
            Some(d)
        } else {
            None
        },
        None => {
            let d1 = field::created_field_doc(d, id, name, t, options, None, false);
            Some(BoardDocView { root: put_text(d1.root, key, id), ..d1 })
        },
    }
}

/// The board after the five contact fields are made sure of with the given
/// ids, in order; none where an id does not match what the board keeps.
pub open spec fn crm_fields_doc(d: BoardDocView, ids: CrmFieldIdsView) -> Option<BoardDocView> {
    match crm_step(d, "mail_field_email"@, "Email"@, FieldType::Text, seq![], ids.email) {
        None => None,
        Some(d1) => match crm_step(
            d1,
            "mail_field_last_seen"@,
            "Last Seen"@,
            FieldType::Date,
            seq![],
            ids.last_seen,
        ) {
            None => None,
            Some(d2) => match crm_step(
                d2,
                "mail_field_email_count"@,
                "Email Count"@,
                FieldType::Number,
                seq![],
                ids.email_count,
            ) {
                None => None,
                Some(d3) => match crm_step(
                    d3,
                    "mail_field_provider"@,
                    "Provider"@,
                    FieldType::Select,
                    seq!["gmail"@, "outlook"@],
                    ids.provider,
                ) {
                    None => None,
                    Some(d4) => crm_step(
                        d4,
                        "mail_field_labels"@,
                        "Labels"@,
                        FieldType::Text,
                        seq![],
                        ids.labels,
                    ),
                },
            },
        },
    }
}

/// Makes sure of the contact field kept under `key`, creating it with the
/// given name, type and options where the board keeps none.
fn ensure_crm_field(doc: &mut BoardDoc, key: &str, name: &str, t: FieldType, options: Vec<String>) -> (r: Result<String, DocError>)
    requires
        board::doc_wf(old(doc)@),
    ensures
        board::doc_wf(final(doc)@),
        r matches Ok(id) && crm_step(old(doc)@, key@, name@, t, field::option_views(options@), id@)
            == Some(final(doc)@),
{
    match get_mail_field_id(doc, key) {
        Some(existing) => Ok(existing),
        None => {
            let f = match field::create_field(doc, name, t, options, None, false) {
                Ok(f) => f,
                Err(e) => return Err(e),
            };
            match set_mail_field_id(doc, key, f.id.as_str()) {
                Ok(()) => {},
                Err(e) => return Err(e),
            }
            Ok(f.id)
        },
    }
}

/// Makes sure that the board has the five custom fields of contact cards
/// (Email, Last Seen, Email Count, Provider, Labels), creating the missing
/// ones, and gives their ids.
pub fn ensure_crm_fields(doc: &mut BoardDoc) -> (r: Result<CrmFieldIds, DocError>)
    requires
        board::doc_wf(old(doc)@),
    ensures
        board::doc_wf(final(doc)@),
        r matches Ok(ids) && crm_fields_doc(old(doc)@, ids@) == Some(final(doc)@),
{
    let ghost d0 = doc@;
    let text_t = match FieldType::from_str("text") {
        Some(t) => t,
        None => FieldType::Text,
    };
    let date_t = match FieldType::from_str("date") {
        Some(t) => t,
        None => FieldType::Text,
    };
    let number_t = match FieldType::from_str("number") {
        Some(t) => t,
        None => FieldType::Text,
    };
    let select_t = match FieldType::from_str("select") {
        Some(t) => t,
        None => FieldType::Text,
    };
    proof {
        reveal_strlit("text");
        reveal_strlit("date");
        reveal_strlit("number");
        reveal_strlit("select");
    }
    assert("text"@ =~= field::field_type_name(FieldType::Text));
    assert("date"@ =~= field::field_type_name(FieldType::Date));
    assert("number"@ =~= field::field_type_name(FieldType::Number));
    assert("select"@ =~= field::field_type_name(FieldType::Select));
    assert(text_t == FieldType::Text);
    assert(date_t == FieldType::Date);
    assert(number_t == FieldType::Number);
    assert(select_t == FieldType::Select);
    let email = match ensure_crm_field(doc, "mail_field_email", "Email", text_t, Vec::new()) {
        Ok(id) => id,
        Err(e) => return Err(e),
    };
    let ghost d1 = doc@;
    let last_seen = match ensure_crm_field(doc, "mail_field_last_seen", "Last Seen", date_t, Vec::new()) {
        Ok(id) => id,
        Err(e) => return Err(e),
    };
    let ghost d2 = doc@;
    let email_count = match ensure_crm_field(
        doc,
        "mail_field_email_count",
        "Email Count",
        number_t,
        Vec::new(),
    ) {
        Ok(id) => id,
        Err(e) => return Err(e),
    };
    let ghost d3 = doc@;
    let mut opts: Vec<String> = Vec::new();
    opts.push("gmail".to_owned());
    opts.push("outlook".to_owned());
    assert(field::option_views(opts@) =~= seq!["gmail"@, "outlook"@]);
    let provider = match ensure_crm_field(doc, "mail_field_provider", "Provider", select_t, opts) {
        Ok(id) => id,
        Err(e) => return Err(e),
    };
    let ghost d4 = doc@;
    let labels = match ensure_crm_field(doc, "mail_field_labels", "Labels", text_t, Vec::new()) {
        Ok(id) => id,
        Err(e) => return Err(e),
    };
    proof {
        assert(field::option_views(Seq::<String>::empty()) =~= Seq::<Seq<char>>::empty());
    }
    let ids = CrmFieldIds { email, last_seen, email_count, provider, labels };
    assert(crm_fields_doc(d0, ids@) == Some(doc@));
    Ok(ids)
}

// ---------------------------------------------------------------------------
// Contact cards and their email comments
// ---------------------------------------------------------------------------

/// Whether a card is the contact of `email`: its `field` holds a text whose
/// lowercase is `email`, and it is not deleted.
pub open spec fn is_contact(c: CardObjectView, field: Seq<char>, email: Seq<char>) -> bool {
    &&& board::as_text(board::lookup(board::custom_fields_or_empty(c), field)) matches Some(v)
        && text::lowercase(v) == email
    &&& !board::is_true(c.deleted)
}

/// The first card, in the board's key order, that is the contact of `email`.
pub open spec fn contact_card_of(
    cards: Seq<(Seq<char>, CardObjectView)>,
    field: Seq<char>,
    email: Seq<char>,
) -> Option<Seq<char>>
    decreases cards.len(),
{
    if cards.len() == 0 {
        None
    } else if is_contact(cards[0].1, field, email) {
        Some(cards[0].0)
    } else {
        contact_card_of(cards.skip(1), field, email)
    }
}

/// The contact card of `email`: the first card whose email field (the custom
/// field `email_field`) holds the address, in any case, and that is not deleted.
pub fn find_contact_card(doc: &BoardDoc, email_field: &str, email: &str) -> (r: Option<String>)
    requires
        board::doc_wf(doc@),
    ensures
        field::opt_string_view(r) == contact_card_of(doc@.cards, email_field@, email@),
{
    let ghost cards = doc@.cards;
    let mut i: usize = 0;
    assert(cards.skip(0) =~= cards);
    while i < doc.cards.len()
        invariant
            i <= doc.cards@.len(),
            cards == doc@.cards,
            board::doc_wf(doc@),
            contact_card_of(cards, email_field@, email@) == contact_card_of(
                cards.skip(i as int),
                email_field@,
                email@,
            ),
        decreases doc.cards@.len() - i,
    {
        let card = &doc.cards[i].1;
        let ghost cv = card@;
        assert(cards.skip(i as int)[0] == (doc.cards@[i as int].0@, cv));
        let mut matched = false;
        if let Some(m) = &card.custom_fields {
            proof {
                assert(board::keys_unique(board::custom_fields_or_empty(cards[i as int].1)));
            }
            match board::find_key(m, email_field) {
                Some(k) => {
                    proof {
                        assert(board::entries_view(m@)[k as int].0 == email_field@);
                        board::lemma_key_index(board::entries_view(m@), email_field@, k as int);
                    }
                    if let Value::Str(v) = &m[k].1 {
                        let low = text::to_lowercase(v.as_str());
                        if text::str_eq(low.as_str(), email) {
                            matched = !board::is_true_exec(&card.deleted);
                        }
                    }
                },
                None => {
                    proof {
                        assert forall|j: int| 0 <= j < board::entries_view(m@).len() implies board::entries_view(m@)[j].0 != email_field@ by {
                            assert(board::entries_view(m@)[j].0 == m@[j].0@);
                        }
                        board::lemma_key_index_none(board::entries_view(m@), email_field@);
                    }
                },
            }
        }
        assert(matched == is_contact(cv, email_field@, email@));
        if matched {
            return Some(doc.cards[i].0.clone());
        }
        assert(cards.skip(i as int).skip(1) =~= cards.skip(i + 1));
        i = i + 1;
    }
    None
}

/// The recorded emails of a comments list: message id to comment id, for
/// each comment that is not deleted and has both as text; where a message id
/// repeats, the later comment wins.
pub open spec fn mail_ids_in(l: Seq<CommentObjectView>) -> Seq<(Seq<char>, Seq<char>)>
    decreases l.len(),
{
    if l.len() == 0 {
        Seq::empty()
    } else {
        let m = mail_ids_in(l.drop_last());
        let c = l.last();
        if !board::is_true(c.deleted) && board::as_text(c.id) is Some && board::as_text(
            c.mail_message_id,
        ) is Some {
            board::put(m, board::as_text(c.mail_message_id)->0, board::as_text(c.id)->0)
        } else {
            m
        }
    }
}

/// The recorded emails of card `card`; none where the card or its comments
/// list is missing.
pub open spec fn mail_ids_of_card(d: BoardDocView, card: Seq<char>) -> Seq<(Seq<char>, Seq<char>)> {
    match comment::comments_of(d, card) {
        Ok(l) => mail_ids_in(l),
        Err(_) => Seq::empty(),
    }
}

proof fn lemma_mail_ids_unique(l: Seq<CommentObjectView>)
    ensures
        board::keys_unique(mail_ids_in(l)),
    decreases l.len(),
{
    if l.len() > 0 {
        lemma_mail_ids_unique(l.drop_last());
        let c = l.last();
        if !board::is_true(c.deleted) && board::as_text(c.id) is Some && board::as_text(
            c.mail_message_id,
        ) is Some {
            board::lemma_put_keys_unique(
                mail_ids_in(l.drop_last()),
                board::as_text(c.mail_message_id)->0,
                board::as_text(c.id)->0,
            );
        }
    }
}

/// Sets `key` to `v` in a map of texts: in place when present, else appended.
fn put_pair(m: &mut Vec<(String, String)>, key: String, v: String)
    requires
        board::keys_unique(pairs_view(old(m)@)),
    ensures
        pairs_view(final(m)@) == board::put(pairs_view(old(m)@), key@, v@),
        board::keys_unique(pairs_view(final(m)@)),
{
    let ghost old_view = pairs_view(m@);
    let ghost k = key@;
    let ghost vv = v@;
    proof {
        board::lemma_put_keys_unique(old_view, k, vv);
    }
    match board::find_key(m, key.as_str()) {
        Some(i) => {
            proof {
                assert(old_view[i as int].0 == k);
                board::lemma_key_index(old_view, k, i as int);
            }
            m.remove(i);
            m.insert(i, (key, v));
            assert(pairs_view(m@) =~= old_view.update(i as int, (k, vv)));
        },
        None => {
            proof {
                assert forall|j: int| 0 <= j < old_view.len() implies old_view[j].0 != k by {
                    assert(old_view[j].0 == m@[j].0@);
                }
                board::lemma_key_index_none(old_view, k);
            }
            m.push((key, v));
            assert(pairs_view(m@) =~= old_view.push((k, vv)));
        },
    }
}

/// The emails already recorded on card `card_id`: message id to comment id.
pub fn mail_comment_ids(doc: &BoardDoc, card_id: &str) -> (r: Vec<(String, String)>)
    requires
        board::doc_wf(doc@),
    ensures
        pairs_view(r@) == mail_ids_of_card(doc@, card_id@),
        board::keys_unique(pairs_view(r@)),
{
    let mut r: Vec<(String, String)> = Vec::new();
    let i = match board::find_card(doc, card_id) {
        Some(i) => i,
        None => {
            assert(pairs_view(r@) =~= Seq::<(Seq<char>, Seq<char>)>::empty());
            return r;
        },
    };
    let l = match &doc.cards[i].1.comments {
        Some(l) => l,
        None => {
            assert(pairs_view(r@) =~= Seq::<(Seq<char>, Seq<char>)>::empty());
            return r;
        },
    };
    let ghost lv = board::comments_view(l@);
    assert(comment::comments_of(doc@, card_id@) == Ok::<Seq<CommentObjectView>, DocErrorView>(lv));
    let mut j: usize = 0;
    assert(pairs_view(r@) =~= mail_ids_in(lv.take(0)));
    while j < l.len()
        invariant
            j <= l@.len(),
            lv == board::comments_view(l@),
            pairs_view(r@) == mail_ids_in(lv.take(j as int)),
            board::keys_unique(pairs_view(r@)),
        decreases l@.len() - j,
    {
        let c = &l[j];
        proof {
            assert(lv.take(j + 1).drop_last() =~= lv.take(j as int));
            assert(lv.take(j + 1).last() == c@);
        }
        let deleted = board::is_true_exec(&c.deleted);
        if !deleted {
            match (&c.id, &c.mail_message_id) {
                (Some(Value::Str(cid)), Some(Value::Str(mid))) => {
                    put_pair(&mut r, mid.clone(), cid.clone());
                },
                _ => {},
            }
        }
        j = j + 1;
    }
    assert(lv.take(j as int) =~= lv);
    r
}

/// Records on the comment `comment_id` of card `card_id` the id of the email
/// it holds; where the card has no such comment, nothing changes.
pub open spec fn tagged_doc(d: BoardDocView, card: Seq<char>, comment_id: Seq<char>, msg_id: Seq<char>) -> Result<BoardDocView, DocErrorView> {
    match comment::comments_of(d, card) {
        Err(e) => Err(e),
        Ok(l) => match comment::comment_index(l, comment_id) {
            None => Ok(d),
            Some(_) => Ok(
                comment::with_comments(
                    d,
                    card,
                    comment::edited_comments(l, comment_id, comment::mail_id_edit(msg_id)),
                ),
            ),
        },
    }
}

/// Records on the comment `comment_id` of card `card_id` the id of the email
/// it holds.
pub fn tag_comment_message_id(doc: &mut BoardDoc, card_id: &str, comment_id: &str, msg_id: &str) -> (r: Result<(), DocError>)
    requires
        board::doc_wf(old(doc)@),
    ensures
        board::doc_wf(final(doc)@),
        match tagged_doc(old(doc)@, card_id@, comment_id@, msg_id@) {
            Err(g) => r matches Err(e) && e@ == g && final(doc)@ == old(doc)@,
            Ok(n) => r is Ok && final(doc)@ == n,
        },
{
    match comment::has_comment(doc, card_id, comment_id) {
        Err(e) => Err(e),
        Ok(false) => Ok(()),
        Ok(true) => comment::set_comment_mail_message_id(doc, card_id, comment_id, msg_id),
    }
}

/// The email comments of a list that pruning considers: those not deleted
/// that carry a message id, as (comment id, creation time), each empty where
/// it is not text.
pub open spec fn mail_entries(l: Seq<CommentObjectView>) -> Seq<(Seq<char>, Seq<char>)>
    decreases l.len(),
{
    if l.len() == 0 {
        Seq::empty()
    } else {
        let rest = mail_entries(l.drop_last());
        let c = l.last();
        if !board::is_true(c.deleted) && board::as_text(c.mail_message_id) is Some {
            rest.push(
                (
                    or_text(board::as_text(c.id), Seq::empty()),
                    or_text(board::as_text(c.created_at), Seq::empty()),
                ),
            )
        } else {
            rest
        }
    }
}

/// The sort key of a pruning entry: its creation time.
pub open spec fn entry_time() -> spec_fn((Seq<char>, Seq<char>)) -> Seq<char> {
    |e: (Seq<char>, Seq<char>)| e.1
}

/// The comments that pruning deletes: all but the `keep_last` newest email
/// comments, newest first by creation time (ties in list order).
pub open spec fn prune_targets(l: Seq<CommentObjectView>, keep_last: nat) -> Seq<Seq<char>> {
    let e = mail_entries(l);
    if e.len() <= keep_last {
        Seq::empty()
    } else {
        sort_desc_by(e, entry_time()).skip(keep_last as int).map_values(
            |p: (Seq<char>, Seq<char>)| p.0,
        )
    }
}

/// The board after deleting, in order, the comments `ids` of card `card`;
/// a deletion that fails changes nothing.
pub open spec fn deleted_each(d: BoardDocView, card: Seq<char>, ids: Seq<Seq<char>>) -> BoardDocView
    decreases ids.len(),
{
    if ids.len() == 0 {
        d
    } else {
        let d1 = deleted_each(d, card, ids.drop_last());
        match comment::comment_edit_outcome(d1, card, ids.last(), comment::delete_edit()) {
            Ok(n) => n,
            Err(_) => d1,
        }
    }
}

/// The board after pruning the email comments of card `card` to the newest
/// `keep_last`, or the error that looking up its comments gives.
pub open spec fn pruned_doc(d: BoardDocView, card: Seq<char>, keep_last: nat) -> Result<BoardDocView, DocErrorView> {
    match comment::comments_of(d, card) {
        Err(e) => Err(e),
        Ok(l) => Ok(deleted_each(d, card, prune_targets(l, keep_last))),
    }
}

/// Entries stably sorted by creation time, newest first.
fn sort_entries_desc(v: &Vec<(String, String)>) -> (r: Vec<(String, String)>)
    ensures
        pairs_view(r@) == sort_desc_by(pairs_view(v@), entry_time()),
{
    let ghost vv = pairs_view(v@);
    let mut r: Vec<(String, String)> = Vec::new();
    let mut i: usize = 0;
    while i < v.len()
        invariant
            i <= v@.len(),
            vv == pairs_view(v@),
            pairs_view(r@) == sort_desc_by(vv.take(i as int), entry_time()),
        decreases v@.len() - i,
    {
        let x = (v[i].0.clone(), v[i].1.clone());
        let xt = text::chars_of(x.1.as_str());
        let mut j: usize = 0;
        while j < r.len()
            invariant
                j <= r@.len(),
                xt@ == x.1@,
                forall|k: int| 0 <= k < j ==> !str_lt(r@[k].1@, x.1@),
            ensures
                j <= r@.len(),
                forall|k: int| 0 <= k < j ==> !str_lt(r@[k].1@, x.1@),
                j == r@.len() || str_lt(r@[j as int].1@, x.1@),
            decreases r@.len() - j,
        {
            let rt = text::chars_of(r[j].1.as_str());
            if str_lt_exec(rt.as_slice(), xt.as_slice()) {
                break;
            }
            j = j + 1;
        }
        let ghost rv0 = pairs_view(r@);
        let ghost xv = (x.0@, x.1@);
        proof {
            assert forall|k: int| 0 <= k < j implies !str_lt((entry_time())(rv0[k]), (entry_time())(xv)) by {
                assert(rv0[k] == (r@[k].0@, r@[k].1@));
            }
            if j < r@.len() {
                assert(rv0[j as int] == (r@[j as int].0@, r@[j as int].1@));
            }
            assert(vv[i as int] == xv);
        }
        r.insert(j, x);
        proof {
            lemma_insert_desc_at(rv0, xv, entry_time(), j as int);
            assert(pairs_view(r@) =~= rv0.insert(j as int, xv));
            assert(vv.take(i + 1).drop_last() =~= vv.take(i as int));
        }
        i = i + 1;
    }
    assert(vv.take(i as int) =~= vv);
    r
}

/// The email comments of a comments list, as pruning considers them.
fn mail_entries_exec(l: &Vec<board::CommentObject>) -> (r: Vec<(String, String)>)
    ensures
        pairs_view(r@) == mail_entries(board::comments_view(l@)),
{
    let ghost lv = board::comments_view(l@);
    let mut r: Vec<(String, String)> = Vec::new();
    let mut j: usize = 0;
    assert(pairs_view(r@) =~= mail_entries(lv.take(0)));
    while j < l.len()
        invariant
            j <= l@.len(),
            lv == board::comments_view(l@),
            pairs_view(r@) == mail_entries(lv.take(j as int)),
        decreases l@.len() - j,
    {
        let c = &l[j];
        proof {
            assert(lv.take(j + 1).drop_last() =~= lv.take(j as int));
            assert(lv.take(j + 1).last() == c@);
        }
        let deleted = board::is_true_exec(&c.deleted);
        let has_mail = match &c.mail_message_id {
            Some(Value::Str(_)) => true,
            _ => false,
        };
        if !deleted && has_mail {
            let id = match &c.id {
                Some(Value::Str(s)) => s.clone(),
                _ => String::new(),
            };
            let at = match &c.created_at {
                Some(Value::Str(s)) => s.clone(),
                _ => String::new(),
            };
            proof {
                reveal_strlit("");
            }
            let ghost r0 = pairs_view(r@);
            r.push((id, at));
            assert(pairs_view(r@) =~= r0.push((id@, at@)));
        }
        j = j + 1;
    }
    assert(lv.take(j as int) =~= lv);
    r
}

/// Deletes all but the `keep_last` newest email comments of card `card_id`.
pub fn prune_mail_comments(doc: &mut BoardDoc, card_id: &str, keep_last: usize) -> (r: Result<(), DocError>)
    requires
        board::doc_wf(old(doc)@),
    ensures
        board::doc_wf(final(doc)@),
        match pruned_doc(old(doc)@, card_id@, keep_last as nat) {
            Err(g) => r matches Err(e) && e@ == g && final(doc)@ == old(doc)@,
            Ok(n) => r is Ok && final(doc)@ == n,
        },
{
    let i = match board::find_card(doc, card_id) {
        Some(i) => i,
        None => return Err(DocError::NotFound(card_id.to_owned())),
    };
    let entries = match &doc.cards[i].1.comments {
        Some(l) => mail_entries_exec(l),
        None => {
            let msg = "card missing comments list".to_owned();
            proof {
                reveal_strlit("card missing comments list");
            }
            return Err(DocError::InvalidDocument(msg));
        },
    };
    let ghost d0 = doc@;
    let ghost l0 = d0.cards[i as int].1.comments->0;
    assert(comment::comments_of(d0, card_id@) == Ok::<Seq<CommentObjectView>, DocErrorView>(l0));
    if entries.len() <= keep_last {
        assert(deleted_each(d0, card_id@, Seq::empty()) == d0);
        assert(prune_targets(l0, keep_last as nat) =~= Seq::<Seq<char>>::empty());
        return Ok(());
    }
    let sorted = sort_entries_desc(&entries);
    proof {
        lemma_sort_desc_len(pairs_view(entries@), entry_time());
    }
    let ghost targets = prune_targets(l0, keep_last as nat);
    assert(targets =~= pairs_view(sorted@).skip(keep_last as int).map_values(
        |p: (Seq<char>, Seq<char>)| p.0,
    ));
    let mut k: usize = keep_last;
    while k < sorted.len()
        invariant
            keep_last <= k <= sorted@.len(),
            targets.len() == sorted@.len() - keep_last,
            forall|q: int| 0 <= q < targets.len() ==> #[trigger] targets[q] == sorted@[q + keep_last].0@,
            board::doc_wf(doc@),
            doc@ == deleted_each(d0, card_id@, targets.take(k - keep_last)),
        decreases sorted@.len() - k,
    {
        let ghost before = doc@;
        let _ = comment::delete_comment(doc, card_id, sorted[k].0.as_str());
        proof {
            let t = targets.take(k + 1 - keep_last);
            assert(t.drop_last() =~= targets.take(k - keep_last));
            assert(t.last() == targets[k - keep_last]);
        }
        k = k + 1;
    }
    assert(targets.take(k - keep_last) =~= targets);
    Ok(())
}

// ---------------------------------------------------------------------------
// Recording the emails of one contact
// ---------------------------------------------------------------------------

/// Adding, in order, a comment for each of `msgs` to card `card` and tagging
/// it with the message id; the comments get the ids `cids` and the creation
/// times `ats`. The board reached, and the error where a step failed.
pub open spec fn adds_outcome(
    d: BoardDocView,
    card: Seq<char>,
    msgs: Seq<MailMessageView>,
    author: Seq<char>,
    cids: Seq<Seq<char>>,
    ats: Seq<Seq<char>>,
) -> (BoardDocView, Option<DocErrorView>)
    decreases msgs.len(),
{
    if msgs.len() == 0 {
        (d, None)
    } else {
        let (d1, e1) = adds_outcome(d, card, msgs.drop_last(), author, cids.drop_last(), ats.drop_last());
        match e1 {
            Some(e) => (d1, Some(e)),
            None => match comment::comments_of(d1, card) {
                Err(e) => (d1, Some(e)),
                Ok(l) => {
                    let d2 = comment::with_comments(
                        d1,
                        card,
                        l.push(
                            comment::new_comment_object(
                                cids.last(),
                                author,
                                email_comment_text_of(msgs.last()),
                                ats.last(),
                                None,
                                None,
                                None,
                            ),
                        ),
                    );
                    match tagged_doc(d2, card, cids.last(), msgs.last().id) {
                        Err(e) => (d2, Some(e)),
                        Ok(d3) => (d3, None),
                    }
                },
            },
        }
    }
}

/// Recording the emails of one contact on its card `card`: the emails not
/// yet recorded are added (at most `keep_last`, newest first as `msgs`
/// comes), the email comments pruned to `keep_last`, and the card's Last
/// Seen, Email Count (the contact's recorded emails plus the added ones) and
/// Provider fields set from the newest email. The board reached, and the
/// number of emails added or the error of the step that failed.
pub open spec fn contact_mail_outcome(
    d: BoardDocView,
    card: Seq<char>,
    msgs: Seq<MailMessageView>,
    keep_last: nat,
    author: Seq<char>,
    ids: CrmFieldIdsView,
    cids: Seq<Seq<char>>,
    ats: Seq<Seq<char>>,
) -> (BoardDocView, Result<nat, DocErrorView>) {
    let existing = mail_ids_of_card(d, card);
    let to_add = emails_to_add_of(msgs, existing, keep_last);
    let (d1, e1) = adds_outcome(d, card, to_add, author, cids, ats);
    match e1 {
        Some(e) => (d1, Err(e)),
        None => match pruned_doc(d1, card, keep_last) {
            Err(e) => (d1, Err(e)),
            Ok(d2) => {
                let count = existing.len() + to_add.len();
                if field::card_missing(d2, card) {
                    (d2, Err(DocErrorView::NotFound(card)))
                } else {
                    let d3 = field::edited_card_doc(d2, card, field::set_field_edit(ids.last_seen, msgs[0].date));
                    if field::card_missing(d3, card) {
                        (d3, Err(DocErrorView::NotFound(card)))
                    } else {
                        let d4 = field::edited_card_doc(
                            d3,
                            card,
                            field::set_field_edit(ids.email_count, text::decimal(count as nat)),
                        );
                        if field::card_missing(d4, card) {
                            (d4, Err(DocErrorView::NotFound(card)))
                        } else {
                            let d5 = field::edited_card_doc(
                                d4,
                                card,
                                field::set_field_edit(ids.provider, msgs[0].provider),
                            );
                            (d5, Ok(to_add.len()))
                        }
                    }
                }
            },
        },
    }
}

/// Records the fetched emails of one contact on its card `card_id`:
/// `msgs` is the contact's messages, newest first. Gives the number of
/// emails added.
pub fn record_contact_mail(
    doc: &mut BoardDoc,
    clock: &mut HybridClock,
    card_id: &str,
    msgs: &Vec<MailMessage>,
    keep_last: usize,
    author: &str,
    ids: &CrmFieldIds,
) -> (r: Result<usize, DocError>)
    requires
        board::doc_wf(old(doc)@),
        msgs@.len() > 0,
        mail_ids_of_card(old(doc)@, card_id@).len() + msgs@.len() <= usize::MAX,
    ensures
        board::doc_wf(final(doc)@),
        r matches Ok(n) ==> n <= msgs@.len() && n <= keep_last,
        exists|cids: Seq<Seq<char>>, ats: Seq<Seq<char>>|
            #![trigger contact_mail_outcome(old(doc)@, card_id@, messages_view(msgs@), keep_last as nat, author@, ids@, cids, ats)]
            contact_mail_outcome(
                old(doc)@,
                card_id@,
                messages_view(msgs@),
                keep_last as nat,
                author@,
                ids@,
                cids,
                ats,
            ) == (final(doc)@, match r {
                Ok(n) => Ok::<nat, DocErrorView>(n as nat),
                Err(e) => Err(e@),
            }),
{
    let ghost d0 = doc@;
    let existing = mail_comment_ids(doc, card_id);
    let to_add = emails_to_add(msgs, &existing, keep_last);
    let ghost ta = messages_view(to_add@);
    let ghost mv = messages_view(msgs@);
    proof {
        lemma_unrecorded_len(mv, pairs_view(existing@));
        law_emails_to_add_are_new(mv, pairs_view(existing@), keep_last as nat);
        assert(ta == emails_to_add_of(mv, mail_ids_of_card(d0, card_id@), keep_last as nat));
    }
    let ghost mut cids: Seq<Seq<char>> = Seq::empty();
    let ghost mut ats: Seq<Seq<char>> = Seq::empty();
    let mut added: usize = 0;
    assert(ta.take(0) =~= Seq::<MailMessageView>::empty());
    while added < to_add.len()
        invariant
            added <= to_add@.len(),
            ta == messages_view(to_add@),
            ta.len() <= msgs@.len(),
            cids.len() == added,
            ats.len() == added,
            board::doc_wf(doc@),
            adds_outcome(d0, card_id@, ta.take(added as int), author@, cids, ats) == (doc@, None::<DocErrorView>),
            ta == emails_to_add_of(mv, mail_ids_of_card(d0, card_id@), keep_last as nat),
            mv == messages_view(msgs@),
            d0 == old(doc)@,
        decreases to_add@.len() - added,
    {
        let m = &to_add[added];
        let ghost before_doc = doc@;
        let ghost old_cids = cids;
        let ghost old_ats = ats;
        let t = email_comment_text(m);
        proof {
            let tk = ta.take(added + 1);
            assert(tk.drop_last() =~= ta.take(added as int));
            assert(tk.last() == m@);
        }
        let c = match comment::add_comment(doc, clock, card_id, t.as_str(), author, None, None, None) {
            Ok(c) => c,
            Err(e) => {
                proof {
                    assert(old_cids.push(Seq::empty()).drop_last() =~= old_cids);
                    assert(old_ats.push(Seq::empty()).drop_last() =~= old_ats);
                    assert(ta.take(added + 1).drop_last() =~= ta.take(added as int));
                    assert(comment::comments_of(before_doc, card_id@) is Err);
                }
                let ghost (c2, a2) = lemma_adds_then_fail(
                    d0,
                    card_id@,
                    ta,
                    added as int + 1,
                    author@,
                    old_cids.push(Seq::empty()),
                    old_ats.push(Seq::empty()),
                );
                proof {
                    assert(contact_mail_outcome(d0, card_id@, mv, keep_last as nat, author@, ids@, c2, a2) == (doc@, Err::<nat, DocErrorView>(e@)));
                }
                return Err(e);
            },
        };
        let ghost after_add = doc@;
        proof {
            cids = old_cids.push(c.id@);
            ats = old_ats.push(c.created_at@);
            assert(cids.drop_last() =~= old_cids);
            assert(ats.drop_last() =~= old_ats);
        }
        match tag_comment_message_id(doc, card_id, c.id.as_str(), m.id.as_str()) {
            Ok(()) => {},
            Err(e) => {
                let ghost (c2, a2) = lemma_adds_then_fail(d0, card_id@, ta, added as int + 1, author@, cids, ats);
                proof {
                    assert(contact_mail_outcome(d0, card_id@, mv, keep_last as nat, author@, ids@, c2, a2) == (doc@, Err::<nat, DocErrorView>(e@)));
                }
                return Err(e);
            },
        }
        added = added + 1;
    }
    assert(ta.take(added as int) =~= ta);
    let ghost d1 = doc@;
    match prune_mail_comments(doc, card_id, keep_last) {
        Ok(()) => {},
        Err(e) => {
            assert(contact_mail_outcome(d0, card_id@, mv, keep_last as nat, author@, ids@, cids, ats) == (doc@, Err::<nat, DocErrorView>(e@)));
            return Err(e);
        },
    }
    let count: usize = existing.len() + added;
    let count_s = text::decimal_string(count as u64);
    let newest = &msgs[0];
    assert(mv[0] == newest@);
    match field::set_card_field(doc, card_id, ids.last_seen.as_str(), newest.date.as_str()) {
        Ok(()) => {},
        Err(e) => {
            assert(contact_mail_outcome(d0, card_id@, mv, keep_last as nat, author@, ids@, cids, ats) == (doc@, Err::<nat, DocErrorView>(e@)));
            return Err(e);
        },
    }
    match field::set_card_field(doc, card_id, ids.email_count.as_str(), count_s.as_str()) {
        Ok(()) => {},
        Err(e) => {
            assert(contact_mail_outcome(d0, card_id@, mv, keep_last as nat, author@, ids@, cids, ats) == (doc@, Err::<nat, DocErrorView>(e@)));
            return Err(e);
        },
    }
    match field::set_card_field(doc, card_id, ids.provider.as_str(), newest.provider.as_str()) {
        Ok(()) => {},
        Err(e) => {
            assert(contact_mail_outcome(d0, card_id@, mv, keep_last as nat, author@, ids@, cids, ats) == (doc@, Err::<nat, DocErrorView>(e@)));
            return Err(e);
        },
    }
    assert(contact_mail_outcome(d0, card_id@, mv, keep_last as nat, author@, ids@, cids, ats) == (doc@, Ok::<nat, DocErrorView>(added as nat)));
    Ok(added)
}

proof fn lemma_unrecorded_len(msgs: Seq<MailMessageView>, recorded: Seq<(Seq<char>, Seq<char>)>)
    ensures
        unrecorded(msgs, recorded).len() <= msgs.len(),
    decreases msgs.len(),
{
    if msgs.len() > 0 {
        lemma_unrecorded_len(msgs.drop_last(), recorded);
    }
}

/// Once a step fails, the later steps are not taken: the outcome of all the
/// emails is that of the first `k`, for the ids and times given here.
proof fn lemma_adds_then_fail(
    d: BoardDocView,
    card: Seq<char>,
    msgs: Seq<MailMessageView>,
    k: int,
    author: Seq<char>,
    cids: Seq<Seq<char>>,
    ats: Seq<Seq<char>>,
) -> (w: (Seq<Seq<char>>, Seq<Seq<char>>))
    requires
        0 < k <= msgs.len(),
        cids.len() == k,
        ats.len() == k,
        adds_outcome(d, card, msgs.take(k), author, cids, ats).1 is Some,
    ensures
        adds_outcome(d, card, msgs, author, w.0, w.1) == adds_outcome(d, card, msgs.take(k), author, cids, ats),
    decreases msgs.len() - k,
{
    if k == msgs.len() {
        assert(msgs.take(k) =~= msgs);
        (cids, ats)
    } else {
        let c2 = cids.push(Seq::empty());
        let a2 = ats.push(Seq::empty());
        assert(msgs.take(k + 1).drop_last() =~= msgs.take(k));
        assert(c2.drop_last() =~= cids);
        assert(a2.drop_last() =~= ats);
        assert(adds_outcome(d, card, msgs.take(k + 1), author, c2, a2) == adds_outcome(d, card, msgs.take(k), author, cids, ats));
        lemma_adds_then_fail(d, card, msgs, k + 1, author, c2, a2)
    }
}

/// Preparing a newly created contact card: its email field set to the
/// address, then the auto-apply defaults applied. The board reached and the
/// outcome.
pub open spec fn contact_init_outcome(d: BoardDocView, card: Seq<char>, email_field: Seq<char>, email: Seq<char>) -> (BoardDocView, Result<(), DocErrorView>) {
    if field::card_missing(d, card) {
        (d, Err(DocErrorView::NotFound(card)))
    } else {
        let d1 = field::edited_card_doc(d, card, field::set_field_edit(email_field, email));
        match d1.field_definitions {
            None => (d1, Ok(())),
            Some(defs) => (
                field::edited_card_doc(d1, card, field::apply_defaults_edit(field::defaults_to_apply(defs))),
                if field::card_missing(d1, card) {
                    Err(DocErrorView::NotFound(card))
                } else {
                    Ok(())
                },
            ),
        }
    }
}

/// Prepares a newly created contact card: sets its email field to the
/// address and applies the auto-apply defaults.
pub fn init_contact_card(doc: &mut BoardDoc, card_id: &str, email_field: &str, email: &str) -> (r: Result<(), DocError>)
    requires
        board::doc_wf(old(doc)@),
    ensures
        board::doc_wf(final(doc)@),
        contact_init_outcome(old(doc)@, card_id@, email_field@, email@) == (final(doc)@, match r {
            Ok(()) => Ok::<(), DocErrorView>(()),
            Err(e) => Err(e@),
        }),
{
    match field::set_card_field(doc, card_id, email_field, email) {
        Ok(()) => {},
        Err(e) => return Err(e),
    }
    field::apply_default_fields(doc, card_id)
}

// ---------------------------------------------------------------------------
// Laws of the mail sync
// ---------------------------------------------------------------------------

pub proof fn lemma_str_lt_transitive(a: Seq<char>, b: Seq<char>, c: Seq<char>)
    requires
        str_lt(a, b),
        str_lt(b, c),
    ensures
        str_lt(a, c),
    decreases a.len(),
{
    if a.len() > 0 && b.len() > 0 && c.len() > 0 && a[0] == b[0] && b[0] == c[0] {
        lemma_str_lt_transitive(a.skip(1), b.skip(1), c.skip(1));
    }
}

pub proof fn lemma_str_lt_irreflexive(a: Seq<char>)
    ensures
        !str_lt(a, a),
    decreases a.len(),
{
    if a.len() > 0 {
        lemma_str_lt_irreflexive(a.skip(1));
    }
}

/// Sorted from the greatest key down: no element's key is below a later one's.
pub open spec fn sorted_desc_by<T>(s: Seq<T>, key: spec_fn(T) -> Seq<char>) -> bool {
    forall|i: int, j: int| 0 <= i < j < s.len() ==> !str_lt(#[trigger] key(s[i]), #[trigger] key(s[j]))
}

proof fn lemma_insert_desc_members<T>(s: Seq<T>, x: T, key: spec_fn(T) -> Seq<char>)
    ensures
        forall|k: int| 0 <= k < insert_desc(s, x, key).len() ==> #[trigger] insert_desc(s, x, key)[k] == x
            || s.contains(insert_desc(s, x, key)[k]),
        insert_desc(s, x, key).to_multiset() == s.to_multiset().insert(x),
    decreases s.len(),
{
    broadcast use vstd::seq_lib::group_to_multiset_ensures;

    if s.len() == 0 {
        assert(seq![x].to_multiset() =~= Seq::<T>::empty().to_multiset().insert(x)) by {
            vstd::seq_lib::to_multiset_build(Seq::<T>::empty(), x);
            assert(Seq::<T>::empty().push(x) =~= seq![x]);
        }
    } else if str_lt(key(s[0]), key(x)) {
        let r = seq![x] + s;
        assert forall|k: int| 0 <= k < r.len() implies #[trigger] r[k] == x || s.contains(r[k]) by {
            if k > 0 {
                assert(r[k] == s[k - 1]);
            }
        }
        assert(r =~= s.insert(0, x));
        vstd::seq_lib::to_multiset_insert(s, 0, x);
    } else {
        let t = s.skip(1);
        lemma_insert_desc_members(t, x, key);
        let it = insert_desc(t, x, key);
        let r = seq![s[0]] + it;
        assert forall|k: int| 0 <= k < r.len() implies #[trigger] r[k] == x || s.contains(r[k]) by {
            if k == 0 {
                assert(s[0] == r[0]);
            } else {
                assert(r[k] == it[k - 1]);
                if it[k - 1] != x {
                    let q = choose|q: int| 0 <= q < t.len() && t[q] == it[k - 1];
                    assert(s[q + 1] == t[q]);
                }
            }
        }
        assert(r =~= it.insert(0, s[0]));
        vstd::seq_lib::to_multiset_insert(it, 0, s[0]);
        assert(s =~= t.insert(0, s[0]));
        vstd::seq_lib::to_multiset_insert(t, 0, s[0]);
        assert(r.to_multiset() =~= s.to_multiset().insert(x));
    }
}

proof fn lemma_insert_desc_sorted<T>(s: Seq<T>, x: T, key: spec_fn(T) -> Seq<char>)
    requires
        sorted_desc_by(s, key),
    ensures
        sorted_desc_by(insert_desc(s, x, key), key),
    decreases s.len(),
{
    if s.len() == 0 {
    } else if str_lt(key(s[0]), key(x)) {
        let r = seq![x] + s;
        assert forall|i: int, j: int| 0 <= i < j < r.len() implies !str_lt(#[trigger] key(r[i]), #[trigger] key(r[j])) by {
            if i == 0 {
                assert(r[j] == s[j - 1]);
                if j - 1 > 0 {
                    assert(!str_lt(key(s[0]), key(s[j - 1])));
                }
                if str_lt(key(x), key(s[j - 1])) {
                    lemma_str_lt_transitive(key(s[0]), key(x), key(s[j - 1]));
                    lemma_str_lt_irreflexive(key(s[0]));
                }
            } else {
                assert(r[i] == s[i - 1]);
                assert(r[j] == s[j - 1]);
            }
        }
    } else {
        let t = s.skip(1);
        assert(sorted_desc_by(t, key)) by {
            assert forall|i: int, j: int| 0 <= i < j < t.len() implies !str_lt(#[trigger] key(t[i]), #[trigger] key(t[j])) by {
                assert(t[i] == s[i + 1]);
                assert(t[j] == s[j + 1]);
            }
        }
        lemma_insert_desc_sorted(t, x, key);
        lemma_insert_desc_members(t, x, key);
        let it = insert_desc(t, x, key);
        let r = seq![s[0]] + it;
        assert forall|i: int, j: int| 0 <= i < j < r.len() implies !str_lt(#[trigger] key(r[i]), #[trigger] key(r[j])) by {
            if i == 0 {
                assert(r[j] == it[j - 1]);
                if it[j - 1] != x {
                    assert(it[j - 1] == x || t.contains(it[j - 1]));
                    let q = choose|q: int| 0 <= q < t.len() && t[q] == it[j - 1];
                    assert(s[q + 1] == t[q]);
                    assert(!str_lt(key(s[0]), key(s[q + 1])));
                }
            } else {
                assert(r[i] == it[i - 1]);
                assert(r[j] == it[j - 1]);
            }
        }
    }
}

/// Sorting emails by date gives them latest first, and exactly the emails
/// given, each as often as given.
pub proof fn law_sorted_by_date(s: Seq<MailMessageView>)
    ensures
        sorted_desc_by(sort_desc_by(s, message_date()), message_date()),
        sort_desc_by(s, message_date()).to_multiset() == s.to_multiset(),
    decreases s.len(),
{
    lemma_sort_desc_props(s, message_date());
}

pub proof fn lemma_sort_desc_props<T>(s: Seq<T>, key: spec_fn(T) -> Seq<char>)
    ensures
        sorted_desc_by(sort_desc_by(s, key), key),
        sort_desc_by(s, key).to_multiset() == s.to_multiset(),
    decreases s.len(),
{
    broadcast use vstd::seq_lib::group_to_multiset_ensures;

    if s.len() > 0 {
        lemma_sort_desc_props(s.drop_last(), key);
        lemma_insert_desc_sorted(sort_desc_by(s.drop_last(), key), s.last(), key);
        lemma_insert_desc_members(sort_desc_by(s.drop_last(), key), s.last(), key);
        assert(s =~= s.drop_last().push(s.last()));
        vstd::seq_lib::to_multiset_build(s.drop_last(), s.last());
    } else {
        assert(sort_desc_by(s, key) =~= s);
    }
}

/// The emails picked for recording are ones not recorded yet, at most
/// `keep_last` of them.
pub proof fn law_emails_to_add_are_new(
    msgs: Seq<MailMessageView>,
    recorded: Seq<(Seq<char>, Seq<char>)>,
    keep_last: nat,
)
    ensures
        emails_to_add_of(msgs, recorded, keep_last).len() <= keep_last,
        forall|i: int| 0 <= i < emails_to_add_of(msgs, recorded, keep_last).len() ==> board::lookup(
            recorded,
            #[trigger] emails_to_add_of(msgs, recorded, keep_last)[i].id,
        ) is None,
{
    lemma_unrecorded_new(msgs, recorded);
}

proof fn lemma_unrecorded_new(msgs: Seq<MailMessageView>, recorded: Seq<(Seq<char>, Seq<char>)>)
    ensures
        forall|i: int| 0 <= i < unrecorded(msgs, recorded).len() ==> board::lookup(
            recorded,
            #[trigger] unrecorded(msgs, recorded)[i].id,
        ) is None,
    decreases msgs.len(),
{
    if msgs.len() > 0 {
        lemma_unrecorded_new(msgs.drop_last(), recorded);
    }
}

/// Making sure of the contact fields of a board that keeps all five ids
/// changes nothing.
pub proof fn law_crm_fields_settled(d: BoardDocView, ids: CrmFieldIdsView)
    requires
        root_text(d.root, "mail_field_email"@) == Some(ids.email),
        root_text(d.root, "mail_field_last_seen"@) == Some(ids.last_seen),
        root_text(d.root, "mail_field_email_count"@) == Some(ids.email_count),
        root_text(d.root, "mail_field_provider"@) == Some(ids.provider),
        root_text(d.root, "mail_field_labels"@) == Some(ids.labels),
    ensures
        crm_fields_doc(d, ids) == Some(d),
{
}


// ── Pruning keeps the newest ─────────────────────────────────────────────────

/// A comment that counts as a recorded email: not deleted, with a message id.
pub open spec fn live_mail(c: CommentObjectView) -> bool {
    !board::is_true(c.deleted) && board::as_text(c.mail_message_id) is Some
}

/// No two comments share an id.
pub open spec fn comment_ids_distinct(l: Seq<CommentObjectView>) -> bool {
    forall|i: int, j: int|
        0 <= i < l.len() && 0 <= j < l.len() && i != j && board::as_text(#[trigger] l[i].id) is Some
            ==> board::as_text(l[i].id) != board::as_text(#[trigger] l[j].id)
}

/// Every recorded email comment has an id.
pub open spec fn mail_comments_have_ids(l: Seq<CommentObjectView>) -> bool {
    forall|i: int| 0 <= i < l.len() && live_mail(#[trigger] l[i]) ==> board::as_text(l[i].id) is Some
}

/// Whether the id of comment `c` is one of `ids`.
pub open spec fn id_among(c: CommentObjectView, ids: Set<Seq<char>>) -> bool {
    match board::as_text(c.id) {
        Some(x) => ids.contains(x),
        None => false,
    }
}

/// `l` with each comment whose id is one of `ids` marked deleted.
pub open spec fn marked_deleted(l: Seq<CommentObjectView>, ids: Set<Seq<char>>) -> Seq<CommentObjectView> {
    Seq::new(
        l.len(),
        |i: int|
            if id_among(l[i], ids) {
                comment::delete_edit()(l[i])
            } else {
                l[i]
            },
    )
}

/// The entries whose id is not one of `ids`, in order.
pub open spec fn entries_without(e: Seq<(Seq<char>, Seq<char>)>, ids: Set<Seq<char>>) -> Seq<(Seq<char>, Seq<char>)>
    decreases e.len(),
{
    if e.len() == 0 {
        e
    } else {
        let rest = entries_without(e.drop_last(), ids);
        if ids.contains(e.last().0) {
            rest
        } else {
            rest.push(e.last())
        }
    }
}

/// The ids of entries.
pub open spec fn entry_ids(e: Seq<(Seq<char>, Seq<char>)>) -> Seq<Seq<char>> {
    e.map_values(|p: (Seq<char>, Seq<char>)| p.0)
}

/// Deleting the comments `ids` one by one marks exactly the comments with
/// those ids deleted.
proof fn lemma_deleted_each_marks(d: BoardDocView, card: Seq<char>, l: Seq<CommentObjectView>, ids: Seq<Seq<char>>)
    requires
        board::doc_wf(d),
        comment::comments_of(d, card) == Ok::<Seq<CommentObjectView>, DocErrorView>(l),
        comment_ids_distinct(l),
    ensures
        board::doc_wf(deleted_each(d, card, ids)),
        comment::comments_of(deleted_each(d, card, ids), card) == Ok::<Seq<CommentObjectView>, DocErrorView>(
            marked_deleted(l, ids.to_set()),
        ),
    decreases ids.len(),
{
    if ids.len() == 0 {
        assert(marked_deleted(l, ids.to_set()) =~= l);
    } else {
        let pre = ids.drop_last();
        let x = ids.last();
        lemma_deleted_each_marks(d, card, l, pre);
        let d1 = deleted_each(d, card, pre);
        let l1 = marked_deleted(l, pre.to_set());
        assert(ids =~= pre.push(x));
        assert(ids.to_set() =~= pre.to_set().insert(x)) by {
            assert forall|a: Seq<char>| ids.contains(a) <==> (pre.contains(a) || a == x) by {
                if ids.contains(a) {
                    let k = choose|k: int| 0 <= k < ids.len() && ids[k] == a;
                    if k < pre.len() {
                        assert(pre[k] == a);
                    }
                }
                if pre.contains(a) {
                    let k = choose|k: int| 0 <= k < pre.len() && pre[k] == a;
                    assert(ids[k] == a);
                }
                if a == x {
                    assert(ids[ids.len() - 1] == a);
                }
            }
        }
        if exists|i: int| 0 <= i < l.len() && board::as_text(l[i].id) == Some(x) {
            let i = choose|i: int| 0 <= i < l.len() && board::as_text(l[i].id) == Some(x);
            assert(comment::is_first_comment(l1, x, i)) by {
                assert(l1[i].id == l[i].id);
                assert forall|j: int| 0 <= j < i implies board::as_text(l1[j].id) != Some(x) by {
                    assert(l1[j].id == l[j].id);
                }
            }
            comment::lemma_comment_index(l1, x, i);
            let l2 = l1.update(i, comment::delete_edit()(l1[i]));
            assert(l2 =~= marked_deleted(l, ids.to_set())) by {
                assert forall|j: int| 0 <= j < l.len() implies #[trigger] l2[j] == marked_deleted(
                    l,
                    ids.to_set(),
                )[j] by {
                    if j != i {
                        assert(board::as_text(l[j].id) != Some(x));
                    }
                }
            }
            let kc = board::key_index(d1.cards, card);
            board::lemma_key_index_bounds(d1.cards, card);
            let c1 = d1.cards[kc->0].1;
            comment::lemma_put_card_back(d1, card, kc->0, board::CardObjectView { comments: Some(l2), ..c1 });
            board::lemma_put_keys_unique(d1.cards, card, board::CardObjectView { comments: Some(l2), ..c1 });
        } else {
            assert(comment::comment_index(l1, x) is None) by {
                if exists|i: int| comment::is_first_comment(l1, x, i) {
                    let i = choose|i: int| comment::is_first_comment(l1, x, i);
                    assert(l1[i].id == l[i].id);
                }
            }
            assert(marked_deleted(l, ids.to_set()) =~= l1) by {
                assert forall|j: int| 0 <= j < l.len() implies #[trigger] marked_deleted(l, ids.to_set())[j] == l1[j] by {
                    assert(board::as_text(l[j].id) != Some(x));
                }
            }
        }
    }
}


/// The recorded emails after marking comments deleted are those whose id
/// was not marked.
proof fn lemma_marked_entries(l: Seq<CommentObjectView>, ids: Set<Seq<char>>)
    requires
        mail_comments_have_ids(l),
    ensures
        mail_entries(marked_deleted(l, ids)) == entries_without(mail_entries(l), ids),
    decreases l.len(),
{
    let m = marked_deleted(l, ids);
    if l.len() > 0 {
        let pre = l.drop_last();
        assert(mail_comments_have_ids(pre)) by {
            assert forall|i: int| 0 <= i < pre.len() && live_mail(#[trigger] pre[i]) implies board::as_text(
                pre[i].id,
            ) is Some by {
                assert(pre[i] == l[i]);
            }
        }
        lemma_marked_entries(pre, ids);
        assert(m.drop_last() =~= marked_deleted(pre, ids));
        let c = l.last();
        assert(m.last() == m[l.len() - 1]);
        assert(c == l[l.len() - 1]);
        let e = mail_entries(l);
        if live_mail(c) {
            assert(board::as_text(l[l.len() - 1].id) is Some);
            assert(e.drop_last() =~= mail_entries(pre));
        }
    }
}


/// No two entries share an id.
pub open spec fn entry_ids_distinct(e: Seq<(Seq<char>, Seq<char>)>) -> bool {
    forall|i: int, j: int| 0 <= i < e.len() && 0 <= j < e.len() && i != j ==> #[trigger] e[i].0 != #[trigger] e[j].0
}

proof fn lemma_without_len(e: Seq<(Seq<char>, Seq<char>)>, ids: Set<Seq<char>>)
    requires
        entry_ids_distinct(e),
    ensures
        entries_without(e, ids).len() + entry_ids(e).to_set().intersect(ids).len() == e.len(),
        entry_ids(e).to_set().intersect(ids).finite(),
    decreases e.len(),
{
    broadcast use vstd::set::group_set_axioms, vstd::seq_lib::seq_to_set_is_finite;

    let ks = entry_ids(e);
    if e.len() == 0 {
        assert(ks.to_set().intersect(ids) =~= Set::<Seq<char>>::empty());
    } else {
        let pre = e.drop_last();
        let x = e.last().0;
        assert(entry_ids_distinct(pre)) by {
            assert forall|i: int, j: int| 0 <= i < pre.len() && 0 <= j < pre.len() && i != j implies #[trigger] pre[i].0
                != #[trigger] pre[j].0 by {
                assert(pre[i] == e[i]);
                assert(pre[j] == e[j]);
            }
        }
        lemma_without_len(pre, ids);
        let kp = entry_ids(pre);
        assert(ks =~= kp.push(x));
        assert(ks.to_set() =~= kp.to_set().insert(x)) by {
            assert forall|a: Seq<char>| ks.contains(a) <==> (kp.contains(a) || a == x) by {
                if ks.contains(a) {
                    let k = choose|k: int| 0 <= k < ks.len() && ks[k] == a;
                    if k < kp.len() {
                        assert(kp[k] == a);
                    }
                }
                if kp.contains(a) {
                    let k = choose|k: int| 0 <= k < kp.len() && kp[k] == a;
                    assert(ks[k] == a);
                }
                if a == x {
                    assert(ks[ks.len() - 1] == a);
                }
            }
        }
        assert(!kp.contains(x)) by {
            if kp.contains(x) {
                let k = choose|k: int| 0 <= k < kp.len() && kp[k] == x;
                assert(e[k].0 == x);
                assert(e[e.len() - 1].0 == x);
            }
        }
        let ip = kp.to_set().intersect(ids);
        if ids.contains(x) {
            assert(ks.to_set().intersect(ids) =~= ip.insert(x));
        } else {
            assert(ks.to_set().intersect(ids) =~= ip);
        }
    }
}

/// The ids of the entries pruning deletes are `len - keep_last` distinct ids
/// of the entries.
proof fn lemma_prune_ids(e: Seq<(Seq<char>, Seq<char>)>, keep_last: nat)
    requires
        entry_ids_distinct(e),
        keep_last < e.len(),
    ensures
        ({
            let t = entry_ids(sort_desc_by(e, entry_time()).skip(keep_last as int)).to_set();
            &&& entry_ids(e).to_set().intersect(t) == t
            &&& t.len() == e.len() - keep_last
        }),
{
    broadcast use vstd::set::group_set_axioms, vstd::seq_lib::group_to_multiset_ensures;

    let s = sort_desc_by(e, entry_time());
    lemma_sort_desc_props(e, entry_time());
    lemma_sort_desc_len(e, entry_time());
    assert(e.no_duplicates()) by {
        assert forall|i: int, j: int| 0 <= i < e.len() && 0 <= j < e.len() && i != j implies e[i] != e[j] by {
            assert(e[i].0 != e[j].0);
        }
    }
    e.lemma_multiset_has_no_duplicates();
    s.lemma_multiset_has_no_duplicates_conv();
    let u = s.skip(keep_last as int);
    let t = entry_ids(u).to_set();
    assert forall|q: int| 0 <= q < s.len() implies #[trigger] e.contains(s[q]) by {
        assert(s.to_multiset().count(s[q]) > 0);
    }
    assert(entry_ids(u).no_duplicates()) by {
        assert forall|i: int, j: int| 0 <= i < u.len() && 0 <= j < u.len() && i != j implies entry_ids(u)[i]
            != entry_ids(u)[j] by {
            let a = s[i + keep_last];
            let b = s[j + keep_last];
            assert(u[i] == a && u[j] == b);
            assert(a != b);
            assert(e.contains(a) && e.contains(b));
            let p = choose|p: int| 0 <= p < e.len() && e[p] == a;
            let r = choose|r: int| 0 <= r < e.len() && e[r] == b;
            assert(p != r);
            assert(e[p].0 != e[r].0);
        }
    }
    entry_ids(u).unique_seq_to_set();
    assert(entry_ids(e).to_set().intersect(t) =~= t) by {
        assert forall|x: Seq<char>| t.contains(x) implies entry_ids(e).to_set().contains(x) by {
            let q = choose|q: int| 0 <= q < entry_ids(u).len() && entry_ids(u)[q] == x;
            let a = s[q + keep_last];
            assert(u[q] == a);
            assert(e.contains(a));
            let p = choose|p: int| 0 <= p < e.len() && e[p] == a;
            assert(entry_ids(e)[p] == x);
        }
    }
}


/// Each recorded email is the entry of a live email comment, so with
/// distinct comment ids the entries have distinct ids.
proof fn lemma_entries_from_comments(l: Seq<CommentObjectView>)
    requires
        comment_ids_distinct(l),
        mail_comments_have_ids(l),
    ensures
        forall|k: int|
            0 <= k < mail_entries(l).len() ==> exists|i: int|
                0 <= i < l.len() && live_mail(l[i]) && board::as_text(l[i].id) == Some(
                    #[trigger] mail_entries(l)[k].0,
                ),
        entry_ids_distinct(mail_entries(l)),
    decreases l.len(),
{
    if l.len() > 0 {
        let pre = l.drop_last();
        assert(comment_ids_distinct(pre)) by {
            assert forall|i: int, j: int|
                0 <= i < pre.len() && 0 <= j < pre.len() && i != j && board::as_text(#[trigger] pre[i].id) is Some
                    implies board::as_text(pre[i].id) != board::as_text(#[trigger] pre[j].id) by {
                assert(pre[i] == l[i]);
                assert(pre[j] == l[j]);
            }
        }
        assert(mail_comments_have_ids(pre)) by {
            assert forall|i: int| 0 <= i < pre.len() && live_mail(#[trigger] pre[i]) implies board::as_text(
                pre[i].id,
            ) is Some by {
                assert(pre[i] == l[i]);
            }
        }
        lemma_entries_from_comments(pre);
        let ep = mail_entries(pre);
        let e = mail_entries(l);
        let c = l.last();
        let n = l.len() - 1;
        assert(c == l[n]);
        if live_mail(c) {
            assert(e == ep.push(e.last()));
            assert forall|k: int| 0 <= k < e.len() implies exists|i: int|
                0 <= i < l.len() && live_mail(l[i]) && board::as_text(l[i].id) == Some(#[trigger] e[k].0) by {
                if k < ep.len() {
                    assert(e[k] == ep[k]);
                    let i = choose|i: int|
                        0 <= i < pre.len() && live_mail(pre[i]) && board::as_text(pre[i].id) == Some(ep[k].0);
                    assert(pre[i] == l[i]);
                } else {
                    assert(board::as_text(l[n].id) is Some);
                }
            }
            assert forall|i: int, j: int| 0 <= i < e.len() && 0 <= j < e.len() && i != j implies #[trigger] e[i].0
                != #[trigger] e[j].0 by {
                if i < ep.len() && j < ep.len() {
                    assert(e[i] == ep[i] && e[j] == ep[j]);
                } else if i < ep.len() {
                    assert(e[i] == ep[i]);
                    let q = choose|q: int|
                        0 <= q < pre.len() && live_mail(pre[q]) && board::as_text(pre[q].id) == Some(ep[i].0);
                    assert(pre[q] == l[q]);
                    assert(board::as_text(l[n].id) is Some);
                    assert(board::as_text(l[q].id) != board::as_text(l[n].id));
                } else if j < ep.len() {
                    assert(e[j] == ep[j]);
                    let q = choose|q: int|
                        0 <= q < pre.len() && live_mail(pre[q]) && board::as_text(pre[q].id) == Some(ep[j].0);
                    assert(pre[q] == l[q]);
                    assert(board::as_text(l[n].id) is Some);
                    assert(board::as_text(l[q].id) != board::as_text(l[n].id));
                }
            }
        } else {
            assert(e == ep);
            assert forall|k: int| 0 <= k < e.len() implies exists|i: int|
                0 <= i < l.len() && live_mail(l[i]) && board::as_text(l[i].id) == Some(#[trigger] e[k].0) by {
                let i = choose|i: int|
                    0 <= i < pre.len() && live_mail(pre[i]) && board::as_text(pre[i].id) == Some(ep[k].0);
                assert(pre[i] == l[i]);
            }
        }
    }
}

/// Pruning the email comments of a card to `keep_last` leaves exactly
/// `keep_last` of them, or all of them where there were no more. Comment ids
/// are taken to be distinct, and each email comment to have one, as the
/// comments that `add_comment` makes are.
pub proof fn law_prune_leaves_keep_last(d: BoardDocView, card: Seq<char>, l: Seq<CommentObjectView>, keep_last: nat)
    requires
        board::doc_wf(d),
        comment::comments_of(d, card) == Ok::<Seq<CommentObjectView>, DocErrorView>(l),
        comment_ids_distinct(l),
        mail_comments_have_ids(l),
    ensures
        pruned_doc(d, card, keep_last) matches Ok(n) && comment::comments_of(n, card) matches Ok(l2)
            && mail_entries(l2).len() == if mail_entries(l).len() <= keep_last {
            mail_entries(l).len()
        } else {
            keep_last
        },
{
    let e = mail_entries(l);
    let targets = prune_targets(l, keep_last);
    lemma_deleted_each_marks(d, card, l, targets);
    lemma_marked_entries(l, targets.to_set());
    lemma_entries_from_comments(l);
    if e.len() <= keep_last {
        assert(targets.to_set() =~= Set::<Seq<char>>::empty());
        lemma_without_len(e, targets.to_set());
        assert(entry_ids(e).to_set().intersect(targets.to_set()) =~= Set::<Seq<char>>::empty());
    } else {
        assert(targets == entry_ids(sort_desc_by(e, entry_time()).skip(keep_last as int)));
        lemma_prune_ids(e, keep_last);
        lemma_without_len(e, targets.to_set());
    }
}


/// No entry that was dropped from `before` is newer than an entry kept in
/// `after`.
pub open spec fn kept_newest(before: Seq<(Seq<char>, Seq<char>)>, after: Seq<(Seq<char>, Seq<char>)>) -> bool {
    forall|x: (Seq<char>, Seq<char>), y: (Seq<char>, Seq<char>)|
        #![trigger after.contains(x), before.contains(y)]
        after.contains(x) && before.contains(y) && !after.contains(y) ==> !str_lt(x.1, y.1)
}

proof fn lemma_without_members(e: Seq<(Seq<char>, Seq<char>)>, ids: Set<Seq<char>>)
    ensures
        forall|k: int|
            0 <= k < entries_without(e, ids).len() ==> e.contains(#[trigger] entries_without(e, ids)[k])
                && !ids.contains(entries_without(e, ids)[k].0),
        forall|i: int| 0 <= i < e.len() && !ids.contains(#[trigger] e[i].0) ==> entries_without(e, ids).contains(e[i]),
    decreases e.len(),
{
    if e.len() > 0 {
        let pre = e.drop_last();
        lemma_without_members(pre, ids);
        let w = entries_without(e, ids);
        let wp = entries_without(pre, ids);
        assert forall|k: int| 0 <= k < w.len() implies e.contains(#[trigger] w[k]) && !ids.contains(w[k].0) by {
            if k < wp.len() {
                assert(w[k] == wp[k]);
                let q = choose|q: int| 0 <= q < pre.len() && pre[q] == wp[k];
                assert(e[q] == pre[q]);
            } else {
                assert(w[k] == e[e.len() - 1]);
            }
        }
        assert forall|i: int| 0 <= i < e.len() && !ids.contains(#[trigger] e[i].0) implies w.contains(e[i]) by {
            if i < pre.len() {
                assert(e[i] == pre[i]);
                let q = choose|q: int| 0 <= q < wp.len() && wp[q] == pre[i];
                if !ids.contains(e.last().0) {
                    assert(w[q] == wp[q]);
                }
            } else {
                assert(w[w.len() - 1] == e[i]);
            }
        }
    }
}

/// Pruning keeps the newest email comments: none that it deletes is newer
/// than one it keeps. Comment ids are taken to be distinct, and each email
/// comment to have one, as the comments that `add_comment` makes are.
pub proof fn law_prune_keeps_newest(d: BoardDocView, card: Seq<char>, l: Seq<CommentObjectView>, keep_last: nat)
    requires
        board::doc_wf(d),
        comment::comments_of(d, card) == Ok::<Seq<CommentObjectView>, DocErrorView>(l),
        comment_ids_distinct(l),
        mail_comments_have_ids(l),
    ensures
        pruned_doc(d, card, keep_last) matches Ok(n) && comment::comments_of(n, card) matches Ok(l2)
            && kept_newest(mail_entries(l), mail_entries(l2)),
{
    broadcast use vstd::seq_lib::group_to_multiset_ensures;

    let e = mail_entries(l);
    let targets = prune_targets(l, keep_last);
    let t = targets.to_set();
    lemma_deleted_each_marks(d, card, l, targets);
    lemma_marked_entries(l, t);
    lemma_entries_from_comments(l);
    lemma_without_members(e, t);
    let w = entries_without(e, t);
    if e.len() <= keep_last {
        assert(t =~= Set::<Seq<char>>::empty());
        assert forall|x: (Seq<char>, Seq<char>), y: (Seq<char>, Seq<char>)|
            #![trigger w.contains(x), e.contains(y)]
            w.contains(x) && e.contains(y) && !w.contains(y) implies !str_lt(x.1, y.1) by {
            let i = choose|i: int| 0 <= i < e.len() && e[i] == y;
            assert(!t.contains(e[i].0));
        }
    } else {
        let s = sort_desc_by(e, entry_time());
        let k = keep_last as int;
        let u = s.skip(k);
        assert(targets == entry_ids(u));
        lemma_sort_desc_props(e, entry_time());
        lemma_sort_desc_len(e, entry_time());
        assert forall|x: (Seq<char>, Seq<char>), y: (Seq<char>, Seq<char>)|
            #![trigger w.contains(x), e.contains(y)]
            w.contains(x) && e.contains(y) && !w.contains(y) implies !str_lt(x.1, y.1) by {
            let kx = choose|kx: int| 0 <= kx < w.len() && w[kx] == x;
            assert(e.contains(w[kx]) && !t.contains(w[kx].0));
            assert(s.to_multiset().count(x) > 0);
            let p = choose|p: int| 0 <= p < s.len() && s[p] == x;
            if p >= k {
                assert(u[p - k] == x);
                assert(entry_ids(u)[p - k] == x.0);
                assert(targets.contains(x.0));
            }
            let iy = choose|iy: int| 0 <= iy < e.len() && e[iy] == y;
            assert(t.contains(e[iy].0));
            let q0 = choose|q0: int| 0 <= q0 < targets.len() && targets[q0] == y.0;
            let q = q0 + k;
            assert(u[q0] == s[q]);
            assert(s[q].0 == y.0);
            assert(s.to_multiset().count(s[q]) > 0);
            let r = choose|r: int| 0 <= r < e.len() && e[r] == s[q];
            if r != iy {
                assert(e[r].0 != e[iy].0);
            }
            assert(s[q] == y);
            assert(p < q);
            assert(!str_lt(entry_time()(s[p]), entry_time()(s[q])));
        }
    }
}


/// The number of messages over all groups.
pub open spec fn grouped_count(g: Seq<(Seq<char>, Seq<MailMessageView>)>) -> nat
    decreases g.len(),
{
    if g.len() == 0 {
        0
    } else {
        grouped_count(g.drop_last()) + g.last().1.len()
    }
}

proof fn lemma_grouped_count_grow(g: Seq<(Seq<char>, Seq<MailMessageView>)>, i: int, m: MailMessageView)
    requires
        0 <= i < g.len(),
    ensures
        grouped_count(g.update(i, (g[i].0, g[i].1.push(m)))) == grouped_count(g) + 1,
    decreases g.len(),
{
    let u = g.update(i, (g[i].0, g[i].1.push(m)));
    if i == g.len() - 1 {
        assert(u.drop_last() =~= g.drop_last());
    } else {
        lemma_grouped_count_grow(g.drop_last(), i, m);
        assert(u.drop_last() =~= g.drop_last().update(i, (g[i].0, g[i].1.push(m))));
    }
}

/// Grouping by sender splits the messages without losing or adding any:
/// one group per address, every message in the group of its own sender, and
/// as many messages over all groups as were given.
pub proof fn law_groups_partition_messages(s: Seq<MailMessageView>)
    ensures
        board::keys_unique(groups_by_sender(s)),
        forall|i: int, j: int|
            0 <= i < groups_by_sender(s).len() && 0 <= j < groups_by_sender(s)[i].1.len() ==> (
            #[trigger] groups_by_sender(s)[i].1[j]).from_email == groups_by_sender(s)[i].0,
        grouped_count(groups_by_sender(s)) == s.len(),
    decreases s.len(),
{
    lemma_groups_unique(s);
    if s.len() > 0 {
        let pre = s.drop_last();
        let m = s.last();
        law_groups_partition_messages(pre);
        let g = groups_by_sender(pre);
        board::lemma_key_index_bounds(g, m.from_email);
        let r = groups_by_sender(s);
        match board::key_index(g, m.from_email) {
            Some(i) => {
                lemma_grouped_count_grow(g, i, m);
                assert forall|a: int, b: int| 0 <= a < r.len() && 0 <= b < r[a].1.len() implies (
                #[trigger] r[a].1[b]).from_email == r[a].0 by {
                    if a == i && b == g[i].1.len() {
                        assert(r[a].1[b] == m);
                    } else if a == i {
                        assert(r[a].1[b] == g[i].1[b]);
                    }
                }
            },
            None => {
                assert(r.drop_last() =~= g);
                assert forall|a: int, b: int| 0 <= a < r.len() && 0 <= b < r[a].1.len() implies (
                #[trigger] r[a].1[b]).from_email == r[a].0 by {
                    if a < g.len() {
                        assert(r[a] == g[a]);
                    }
                }
            },
        }
    }
}


// ── Syncing the contacts of a board ──────────────────────────────────────────

/// Each group of messages holds at least one message.
proof fn lemma_groups_nonempty(s: Seq<MailMessageView>)
    ensures
        forall|i: int| 0 <= i < groups_by_sender(s).len() ==> #[trigger] groups_by_sender(s)[i].1.len() > 0,
    decreases s.len(),
{
    if s.len() > 0 {
        let g = groups_by_sender(s.drop_last());
        lemma_groups_nonempty(s.drop_last());
        board::lemma_key_index_bounds(g, s.last().from_email);
        let r = groups_by_sender(s);
        assert forall|i: int| 0 <= i < r.len() implies #[trigger] r[i].1.len() > 0 by {
            if i < g.len() {
                assert(g[i].1.len() > 0);
            }
        }
    }
}

proof fn lemma_grouped_count_prefix(g: Seq<(Seq<char>, Seq<MailMessageView>)>, i: int)
    requires
        0 <= i < g.len(),
    ensures
        grouped_count(g.take(i)) + g[i].1.len() == grouped_count(g.take(i + 1)),
        grouped_count(g.take(i + 1)) <= grouped_count(g),
    decreases g.len(),
{
    assert(g.take(i + 1).drop_last() =~= g.take(i));
    if i + 1 < g.len() {
        lemma_grouped_count_prefix(g.drop_last(), i);
        assert(g.drop_last().take(i) =~= g.take(i));
        assert(g.drop_last().take(i + 1) =~= g.take(i + 1));
    } else {
        assert(g.take(i + 1) =~= g);
    }
}

/// A new contact card: live, with its title, in column `column`, with no
/// custom fields and no comments yet.
pub open spec fn new_contact_card(title: Seq<char>, column: Seq<char>) -> CardObjectView {
    CardObjectView {
        deleted: Some(ValueView::Boolean(false)),
        number: None,
        title: Some(ValueView::Str(title)),
        column_id: Some(ValueView::Str(column)),
        custom_fields: Some(Seq::empty()),
        comments: Some(Seq::empty()),
    }
}

/// The board with the new contact card `id` appended.
pub open spec fn with_contact_card(d: BoardDocView, id: Seq<char>, title: Seq<char>, column: Seq<char>) -> BoardDocView {
    BoardDocView { cards: d.cards.push((id, new_contact_card(title, column))), ..d }
}

/// Adds the new contact card `id`, which the board does not hold yet.
pub fn add_contact_card(doc: &mut BoardDoc, id: String, title: String, column: &str)
    requires
        board::doc_wf(old(doc)@),
        board::key_index(old(doc)@.cards, id@) is None,
    ensures
        board::doc_wf(final(doc)@),
        final(doc)@ == with_contact_card(old(doc)@, id@, title@, column@),
{
    let ghost d0 = doc@;
    let ghost idv = id@;
    let ghost tv = title@;
    let card = board::CardObject {
        deleted: Some(Value::Boolean(false)),
        number: None,
        title: Some(Value::Str(title)),
        column_id: Some(Value::Str(column.to_owned())),
        custom_fields: Some(Vec::new()),
        comments: Some(Vec::new()),
    };
    assert(card@.custom_fields == Some(Seq::<(Seq<char>, ValueView)>::empty()));
    assert(card@.comments == Some(Seq::<CommentObjectView>::empty()));
    doc.cards.push((id, card));
    let ghost n = doc@;
    assert(n.cards =~= d0.cards.push((idv, new_contact_card(tv, column@))));
    assert(n == with_contact_card(d0, idv, tv, column@));
    assert(board::keys_unique(n.cards)) by {
        assert forall|i: int, j: int| 0 <= i < n.cards.len() && 0 <= j < n.cards.len() && i != j implies n.cards[i].0
            != n.cards[j].0 by {
            if j == d0.cards.len() {
                assert(d0.cards[i].0 != idv);
            } else if i == d0.cards.len() {
                assert(d0.cards[j].0 != idv);
            }
        }
    }
    assert forall|i: int| 0 <= i < n.cards.len() implies board::keys_unique(
        board::custom_fields_or_empty(#[trigger] n.cards[i].1),
    ) by {
        if i < d0.cards.len() {
            assert(n.cards[i] == d0.cards[i]);
        }
    }
}

/// The error for a card whose email comments could not be counted.
pub open spec fn too_many_mails_message() -> Seq<char> {
    "too many email comments"@
}

/// The error for a new contact card id that the board already holds.
pub open spec fn taken_id_message(id: Seq<char>) -> Seq<char> {
    "card id already in use: "@ + id
}

/// The card of a contact after it is found or created, and whether it was
/// created: the first live card whose email field holds the address, else a
/// new card `new_id` titled after the newest message, in column `inbox_col`,
/// with its email field set and the auto-apply defaults applied.
pub open spec fn contact_card_outcome(
    d: BoardDocView,
    addr: Seq<char>,
    ms: Seq<MailMessageView>,
    inbox_col: Seq<char>,
    ids: CrmFieldIdsView,
    new_id: Seq<char>,
) -> (BoardDocView, Result<(Seq<char>, bool), DocErrorView>) {
    match contact_card_of(d.cards, ids.email, addr) {
        Some(c) => (d, Ok((c, false))),
        None => if board::key_index(d.cards, new_id) is Some {
            (d, Err(DocErrorView::InvalidDocument(taken_id_message(new_id))))
        } else {
            let d0 = with_contact_card(d, new_id, contact_title_of(ms[0].from_name, addr), inbox_col);
            let o = contact_init_outcome(d0, new_id, ids.email, addr);
            match o.1 {
                Ok(()) => (o.0, Ok((new_id, true))),
                Err(e) => (o.0, Err(e)),
            }
        },
    }
}

/// One contact of a sync: the sender `addr` with its messages `msgs`. Its
/// card is found or created, then its emails, newest first, are recorded.
/// The board reached, and whether the card was created and how many emails
/// were added, or the error of the step that failed.
pub open spec fn contact_one_outcome(
    d: BoardDocView,
    addr: Seq<char>,
    msgs: Seq<MailMessageView>,
    inbox_col: Seq<char>,
    keep_last: nat,
    author: Seq<char>,
    ids: CrmFieldIdsView,
    new_id: Seq<char>,
    cids: Seq<Seq<char>>,
    ats: Seq<Seq<char>>,
) -> (BoardDocView, Result<(bool, nat), DocErrorView>) {
    let ms = sort_desc_by(msgs, message_date());
    let o = contact_card_outcome(d, addr, ms, inbox_col, ids, new_id);
    match o.1 {
        Err(e) => (o.0, Err(e)),
        Ok((card, created)) => if mail_ids_of_card(o.0, card).len() + ms.len() > usize::MAX {
            (o.0, Err(DocErrorView::InvalidDocument(too_many_mails_message())))
        } else {
            let r = contact_mail_outcome(o.0, card, ms, keep_last, author, ids, cids, ats);
            match r.1 {
                Err(e) => (r.0, Err(e)),
                Ok(n) => (r.0, Ok((created, n))),
            }
        },
    }
}

/// One contact of a sync, the group `(addr, msgs)` of a sender, with the
/// running counts (created, updated, added) grown by it. A new card takes
/// the id of `new_ids` at the number of cards created so far.
pub open spec fn contact_sync_step(
    d: BoardDocView,
    tally: (nat, nat, nat),
    group: (Seq<char>, Seq<MailMessageView>),
    inbox_col: Seq<char>,
    keep_last: nat,
    author: Seq<char>,
    ids: CrmFieldIdsView,
    new_ids: Seq<Seq<char>>,
    cids: Seq<Seq<char>>,
    ats: Seq<Seq<char>>,
) -> (BoardDocView, Result<(nat, nat, nat), DocErrorView>) {
    let o = contact_one_outcome(d, group.0, group.1, inbox_col, keep_last, author, ids, new_ids[tally.0 as int], cids, ats);
    match o.1 {
        Err(e) => (o.0, Err(e)),
        Ok((created, n)) => (o.0, Ok(if created {
            (tally.0 + 1, tally.1, tally.2 + n)
        } else {
            (tally.0, tally.1 + 1, tally.2 + n)
        })),
    }
}

/// The contacts of a sync, group by group in order, stopping at the first
/// error; the board reached and the counts (created, updated, added).
pub open spec fn contacts_sync_outcome(
    d: BoardDocView,
    groups: Seq<(Seq<char>, Seq<MailMessageView>)>,
    inbox_col: Seq<char>,
    keep_last: nat,
    author: Seq<char>,
    ids: CrmFieldIdsView,
    new_ids: Seq<Seq<char>>,
    cidss: Seq<Seq<Seq<char>>>,
    atss: Seq<Seq<Seq<char>>>,
) -> (BoardDocView, Result<(nat, nat, nat), DocErrorView>)
    decreases groups.len(),
{
    if groups.len() == 0 {
        (d, Ok((0nat, 0nat, 0nat)))
    } else {
        let o = contacts_sync_outcome(
            d,
            groups.drop_last(),
            inbox_col,
            keep_last,
            author,
            ids,
            new_ids,
            cidss.drop_last(),
            atss.drop_last(),
        );
        match o.1 {
            Err(e) => (o.0, Err(e)),
            Ok(t) => contact_sync_step(o.0, t, groups.last(), inbox_col, keep_last, author, ids, new_ids, cidss.last(), atss.last()),
        }
    }
}

fn clone_messages(v: &Vec<MailMessage>) -> (r: Vec<MailMessage>)
    ensures
        messages_view(r@) == messages_view(v@),
{
    let mut r: Vec<MailMessage> = Vec::new();
    let mut i: usize = 0;
    while i < v.len()
        invariant
            i <= v@.len(),
            messages_view(r@) == messages_view(v@).take(i as int),
        decreases v@.len() - i,
    {
        let m = v[i].clone_message();
        let ghost before = messages_view(r@);
        r.push(m);
        assert(messages_view(r@) =~= before.push(v@[i as int]@));
        assert(messages_view(v@).take(i + 1) =~= messages_view(v@).take(i as int).push(v@[i as int]@));
        i = i + 1;
    }
    assert(messages_view(v@).take(v@.len() as int) =~= messages_view(v@));
    r
}


/// `c` lengthened to `n` entries with empty ones.
pub open spec fn padded<T>(c: Seq<Seq<T>>, n: nat) -> Seq<Seq<T>> {
    c + Seq::new((n - c.len()) as nat, |j: int| Seq::<T>::empty())
}

proof fn lemma_errs_persist(
    d0: BoardDocView,
    gv: Seq<(Seq<char>, Seq<MailMessageView>)>,
    i: int,
    k: int,
    inbox_col: Seq<char>,
    keep_last: nat,
    author: Seq<char>,
    ids: CrmFieldIdsView,
    nv: Seq<Seq<char>>,
    c2: Seq<Seq<Seq<char>>>,
    a2: Seq<Seq<Seq<char>>>,
)
    requires
        0 <= i < k <= gv.len(),
        c2.len() == i + 1,
        a2.len() == i + 1,
        contacts_sync_outcome(d0, gv.take(i + 1), inbox_col, keep_last, author, ids, nv, c2, a2).1 is Err,
    ensures
        contacts_sync_outcome(d0, gv.take(k), inbox_col, keep_last, author, ids, nv, padded(c2, k as nat), padded(a2, k as nat))
            == contacts_sync_outcome(d0, gv.take(i + 1), inbox_col, keep_last, author, ids, nv, c2, a2),
    decreases k,
{
    if k == i + 1 {
        assert(padded(c2, k as nat) =~= c2);
        assert(padded(a2, k as nat) =~= a2);
    } else {
        lemma_errs_persist(d0, gv, i, k - 1, inbox_col, keep_last, author, ids, nv, c2, a2);
        assert(gv.take(k).drop_last() =~= gv.take(k - 1));
        assert(padded(c2, k as nat).drop_last() =~= padded(c2, (k - 1) as nat));
        assert(padded(a2, k as nat).drop_last() =~= padded(a2, (k - 1) as nat));
    }
}

proof fn lemma_take_all_errs(
    d0: BoardDocView,
    gv: Seq<(Seq<char>, Seq<MailMessageView>)>,
    i: int,
    inbox_col: Seq<char>,
    keep_last: nat,
    author: Seq<char>,
    ids: CrmFieldIdsView,
    nv: Seq<Seq<char>>,
    c2: Seq<Seq<Seq<char>>>,
    a2: Seq<Seq<Seq<char>>>,
)
    requires
        0 <= i < gv.len(),
        c2.len() == i + 1,
        a2.len() == i + 1,
        contacts_sync_outcome(d0, gv.take(i + 1), inbox_col, keep_last, author, ids, nv, c2, a2).1 is Err,
    ensures
        contacts_sync_outcome(d0, gv, inbox_col, keep_last, author, ids, nv, padded(c2, gv.len()), padded(a2, gv.len()))
            == contacts_sync_outcome(d0, gv.take(i + 1), inbox_col, keep_last, author, ids, nv, c2, a2),
{
    lemma_errs_persist(d0, gv, i, gv.len() as int, inbox_col, keep_last, author, ids, nv, c2, a2);
    assert(gv.take(gv.len() as int) =~= gv);
}

proof fn lemma_sync_stops(
    d0: BoardDocView,
    gv: Seq<(Seq<char>, Seq<MailMessageView>)>,
    i: int,
    inbox_col: Seq<char>,
    keep_last: nat,
    author: Seq<char>,
    ids: CrmFieldIdsView,
    nv: Seq<Seq<char>>,
    cidss: Seq<Seq<Seq<char>>>,
    atss: Seq<Seq<Seq<char>>>,
    di: BoardDocView,
    tally: (nat, nat, nat),
    cw: Seq<Seq<char>>,
    aw: Seq<Seq<char>>,
    d1: BoardDocView,
    err: DocErrorView,
)
    requires
        0 <= i < gv.len(),
        cidss.len() == i,
        atss.len() == i,
        contacts_sync_outcome(d0, gv.take(i), inbox_col, keep_last, author, ids, nv, cidss, atss) == (di, Ok::<(nat, nat, nat), DocErrorView>(tally)),
        contact_one_outcome(di, gv[i].0, gv[i].1, inbox_col, keep_last, author, ids, nv[tally.0 as int], cw, aw) == (d1, Err::<(bool, nat), DocErrorView>(err)),
    ensures
        contacts_sync_outcome(d0, gv, inbox_col, keep_last, author, ids, nv, padded(cidss.push(cw), gv.len()), padded(atss.push(aw), gv.len()))
            == (d1, Err::<(nat, nat, nat), DocErrorView>(err)),
{
    let c2 = cidss.push(cw);
    let a2 = atss.push(aw);
    assert(c2.drop_last() =~= cidss);
    assert(a2.drop_last() =~= atss);
    assert(gv.take(i + 1).drop_last() =~= gv.take(i));
    assert(gv.take(i + 1).last() == gv[i]);
    assert(contacts_sync_outcome(d0, gv.take(i + 1), inbox_col, keep_last, author, ids, nv, c2, a2) == (d1, Err::<(nat, nat, nat), DocErrorView>(err)));
    lemma_take_all_errs(d0, gv, i, inbox_col, keep_last, author, ids, nv, c2, a2);
}

proof fn lemma_sync_continues(
    d0: BoardDocView,
    gv: Seq<(Seq<char>, Seq<MailMessageView>)>,
    i: int,
    inbox_col: Seq<char>,
    keep_last: nat,
    author: Seq<char>,
    ids: CrmFieldIdsView,
    nv: Seq<Seq<char>>,
    cidss: Seq<Seq<Seq<char>>>,
    atss: Seq<Seq<Seq<char>>>,
    di: BoardDocView,
    cw: Seq<Seq<char>>,
    aw: Seq<Seq<char>>,
    d1: BoardDocView,
)
    requires
        0 <= i < gv.len(),
        cidss.len() == i,
        atss.len() == i,
        contacts_sync_outcome(d0, gv.take(i), inbox_col, keep_last, author, ids, nv, cidss, atss).1 is Ok,
        contacts_sync_outcome(d0, gv.take(i), inbox_col, keep_last, author, ids, nv, cidss, atss).0 == di,
    ensures
        ({
            let t = contacts_sync_outcome(d0, gv.take(i), inbox_col, keep_last, author, ids, nv, cidss, atss).1->Ok_0;
            let o = contact_one_outcome(di, gv[i].0, gv[i].1, inbox_col, keep_last, author, ids, nv[t.0 as int], cw, aw);
            contacts_sync_outcome(d0, gv.take(i + 1), inbox_col, keep_last, author, ids, nv, cidss.push(cw), atss.push(aw))
                == match o.1 {
                Err(e) => (o.0, Err::<(nat, nat, nat), DocErrorView>(e)),
                Ok((c, n)) => (o.0, Ok(if c { (t.0 + 1, t.1, t.2 + n) } else { (t.0, t.1 + 1, t.2 + n) })),
            }
        }),
{
    assert(cidss.push(cw).drop_last() =~= cidss);
    assert(atss.push(aw).drop_last() =~= atss);
    assert(gv.take(i + 1).drop_last() =~= gv.take(i));
    assert(gv.take(i + 1).last() == gv[i]);
}

/// One contact of a sync: finds or creates the contact card of `addr`
/// (a new card takes the id `new_id`) and records the sender's messages on
/// it, newest first. Gives whether the card was created and the number of
/// emails added.
fn sync_one_contact(
    doc: &mut BoardDoc,
    clock: &mut HybridClock,
    addr: &str,
    group: &Vec<MailMessage>,
    inbox_col: &str,
    keep_last: usize,
    author: &str,
    ids: &CrmFieldIds,
    new_id: &str,
) -> (r: Result<(bool, usize), DocError>)
    requires
        board::doc_wf(old(doc)@),
        group@.len() > 0,
    ensures
        board::doc_wf(final(doc)@),
        r matches Ok((_, n)) ==> n <= group@.len() && n <= keep_last,
        exists|cids: Seq<Seq<char>>, ats: Seq<Seq<char>>|
            #[trigger] contact_one_outcome(old(doc)@, addr@, messages_view(group@), inbox_col@, keep_last as nat, author@, ids@, new_id@, cids, ats)
                == (final(doc)@, match r {
                Ok((c, n)) => Ok::<(bool, nat), DocErrorView>((c, n as nat)),
                Err(e) => Err(e@),
            }),
{
    let ghost di = doc@;
    let ghost gm = messages_view(group@);
    let ms = sort_by_date_desc(clone_messages(group));
    proof {
        lemma_sort_desc_len(gm, message_date());
    }
    let found = find_contact_card(doc, ids.email.as_str(), addr);
    let card_id: String;
    let is_new: bool;
    match found {
        Some(c) => {
            card_id = c;
            is_new = false;
        },
        None => {
            match board::find_card(doc, new_id) {
                Some(_) => {
                    let mut msg = "card id already in use: ".to_owned();
                    text::push_str(&mut msg, new_id);
                    proof {
                        reveal_strlit("card id already in use: ");
                        let e: Seq<Seq<char>> = Seq::empty();
                        assert(contact_one_outcome(di, addr@, gm, inbox_col@, keep_last as nat, author@, ids@, new_id@, e, e).1
                            == Err::<(bool, nat), DocErrorView>(DocErrorView::InvalidDocument(msg@)));
                    }
                    return Err(DocError::InvalidDocument(msg));
                },
                None => {},
            }
            let title = contact_title(ms[0].from_name.as_str(), addr);
            add_contact_card(doc, new_id.to_owned(), title, inbox_col);
            match init_contact_card(doc, new_id, ids.email.as_str(), addr) {
                Ok(()) => {},
                Err(e) => {
                    proof {
                        let w: Seq<Seq<char>> = Seq::empty();
                        assert(contact_one_outcome(di, addr@, gm, inbox_col@, keep_last as nat, author@, ids@, new_id@, w, w)
                            == (doc@, Err::<(bool, nat), DocErrorView>(e@)));
                    }
                    return Err(e);
                },
            }
            card_id = new_id.to_owned();
            is_new = true;
        },
    }
    assert(contact_card_outcome(di, addr@, messages_view(ms@), inbox_col@, ids@, new_id@) == (doc@, Ok::<(Seq<char>, bool), DocErrorView>((card_id@, is_new))));
    let existing = mail_comment_ids(doc, card_id.as_str());
    if existing.len() > usize::MAX - ms.len() {
        let msg = "too many email comments".to_owned();
        proof {
            reveal_strlit("too many email comments");
            let w: Seq<Seq<char>> = Seq::empty();
            assert(contact_one_outcome(di, addr@, gm, inbox_col@, keep_last as nat, author@, ids@, new_id@, w, w)
                == (doc@, Err::<(bool, nat), DocErrorView>(DocErrorView::InvalidDocument(msg@))));
        }
        return Err(DocError::InvalidDocument(msg));
    }
    let ghost dc = doc@;
    let rec = record_contact_mail(doc, clock, card_id.as_str(), &ms, keep_last, author, ids);
    let ghost (cw, aw) = choose|cids: Seq<Seq<char>>, ats: Seq<Seq<char>>|
        #[trigger] contact_mail_outcome(dc, card_id@, messages_view(ms@), keep_last as nat, author@, ids@, cids, ats) == (doc@, match rec {
            Ok(n) => Ok::<nat, DocErrorView>(n as nat),
            Err(e) => Err(e@),
        });
    assert(contact_one_outcome(di, addr@, gm, inbox_col@, keep_last as nat, author@, ids@, new_id@, cw, aw).0 == doc@);
    match rec {
        Ok(n) => Ok((is_new, n)),
        Err(e) => Err(e),
    }
}

/// Syncs the contacts of fetched mail into the board: groups the messages by
/// sender and, sender by sender, finds the sender's contact card or creates
/// it (taking the next id of `new_ids`), then records the sender's emails on
/// it, newest first. Gives the numbers of contacts created and updated and
/// of emails added. `new_ids` holds the ids for new cards, one per sender at
/// least; an id that the board already holds is refused.
pub fn sync_contacts(
    doc: &mut BoardDoc,
    clock: &mut HybridClock,
    messages: Vec<MailMessage>,
    inbox_col: &str,
    keep_last: usize,
    author: &str,
    ids: &CrmFieldIds,
    new_ids: Vec<String>,
) -> (r: Result<SyncResult, DocError>)
    requires
        board::doc_wf(old(doc)@),
        new_ids@.len() >= groups_by_sender(messages_view(messages@)).len(),
    ensures
        board::doc_wf(final(doc)@),
        exists|cidss: Seq<Seq<Seq<char>>>, atss: Seq<Seq<Seq<char>>>|
            #![trigger contacts_sync_outcome(old(doc)@, groups_by_sender(messages_view(messages@)), inbox_col@, keep_last as nat, author@, ids@, crate::net::strings_view(new_ids@), cidss, atss)]
            contacts_sync_outcome(
                old(doc)@,
                groups_by_sender(messages_view(messages@)),
                inbox_col@,
                keep_last as nat,
                author@,
                ids@,
                crate::net::strings_view(new_ids@),
                cidss,
                atss,
            ) == (final(doc)@, match r {
                Ok(s) => Ok::<(nat, nat, nat), DocErrorView>(
                    (s.contacts_created as nat, s.contacts_updated as nat, s.emails_added as nat),
                ),
                Err(e) => Err(e@),
            }),
        r matches Ok(s) ==> s.contacts_created + s.contacts_updated == groups_by_sender(
            messages_view(messages@),
        ).len(),
        r matches Ok(s) ==> s.emails_added <= messages@.len(),
        r matches Ok(s) ==> s.emails_added <= keep_last * groups_by_sender(messages_view(messages@)).len(),
{
    let ghost d0 = doc@;
    let ghost mv = messages_view(messages@);
    let ghost nv = crate::net::strings_view(new_ids@);
    let n_msgs = messages.len();
    assert(mv.len() == n_msgs);
    let groups = group_by_sender(messages);
    let ghost gv = groups_view(groups@);
    proof {
        lemma_groups_nonempty(mv);
        law_groups_partition_messages(mv);
    }
    let ghost mut cidss: Seq<Seq<Seq<char>>> = Seq::empty();
    let ghost mut atss: Seq<Seq<Seq<char>>> = Seq::empty();
    let mut created: usize = 0;
    let mut updated: usize = 0;
    let mut added: usize = 0;
    let mut i: usize = 0;
    assert(gv.take(0) =~= Seq::<(Seq<char>, Seq<MailMessageView>)>::empty());
    while i < groups.len()
        invariant
            i <= groups@.len(),
            gv == groups_view(groups@),
            gv == groups_by_sender(mv),
            grouped_count(gv) == mv.len(),
            mv.len() == n_msgs,
            forall|k: int| 0 <= k < gv.len() ==> #[trigger] gv[k].1.len() > 0,
            gv.len() <= nv.len(),
            nv == crate::net::strings_view(new_ids@),
            cidss.len() == i,
            atss.len() == i,
            created + updated == i,
            added <= grouped_count(gv.take(i as int)),
            added <= keep_last * i,
            board::doc_wf(doc@),
            d0 == old(doc)@,
            mv == messages_view(messages@),
            contacts_sync_outcome(d0, gv.take(i as int), inbox_col@, keep_last as nat, author@, ids@, nv, cidss, atss)
                == (doc@, Ok::<(nat, nat, nat), DocErrorView>((created as nat, updated as nat, added as nat))),
        decreases groups@.len() - i,
    {
        let ghost di = doc@;
        let ghost g = gv[i as int];
        proof {
            lemma_grouped_count_prefix(gv, i as int);
            assert(g.1 == messages_view(groups@[i as int].1@));
        }
        let step = sync_one_contact(
            doc,
            clock,
            groups[i].0.as_str(),
            &groups[i].1,
            inbox_col,
            keep_last,
            author,
            ids,
            new_ids[created].as_str(),
        );
        let ghost (cw, aw) = choose|cids: Seq<Seq<char>>, ats: Seq<Seq<char>>|
            #[trigger] contact_one_outcome(di, g.0, g.1, inbox_col@, keep_last as nat, author@, ids@, nv[created as int], cids, ats) == (doc@, match step {
                Ok((c, n)) => Ok::<(bool, nat), DocErrorView>((c, n as nat)),
                Err(e) => Err(e@),
            });
        let ghost c2 = cidss.push(cw);
        let ghost a2 = atss.push(aw);
        match step {
            Ok((is_new, n)) => {
                if is_new {
                    created = created + 1;
                } else {
                    updated = updated + 1;
                }
                proof {
                    assert(keep_last * i + n <= keep_last * (i + 1)) by (nonlinear_arith)
                        requires
                            n <= keep_last,
                    ;
                }
                added = added + n;
                proof {
                    lemma_sync_continues(d0, gv, i as int, inbox_col@, keep_last as nat, author@, ids@, nv, cidss, atss, di, cw, aw, doc@);
                    cidss = c2;
                    atss = a2;
                }
                i = i + 1;
            },
            Err(e) => {
                proof {
                    lemma_sync_stops(d0, gv, i as int, inbox_col@, keep_last as nat, author@, ids@, nv, cidss, atss, di, (created as nat, updated as nat, added as nat), cw, aw, doc@, e@);
                    let pc = padded(cidss.push(cw), gv.len());
                    let pa = padded(atss.push(aw), gv.len());
                    assert(contacts_sync_outcome(old(doc)@, groups_by_sender(messages_view(messages@)), inbox_col@, keep_last as nat, author@, ids@, crate::net::strings_view(new_ids@), pc, pa)
                        == (doc@, Err::<(nat, nat, nat), DocErrorView>(e@)));
                }
                return Err(e);
            },
        }
    }
    assert(gv.take(i as int) =~= gv);
    Ok(SyncResult { contacts_created: created, contacts_updated: updated, emails_added: added })
}


// ── Percent-decoding ─────────────────────────────────────────────────────────

/// The value of a hexadecimal digit, either case.
pub open spec fn hex_value(c: char) -> Option<nat> {
    if '0' <= c <= '9' {
        Some((c as nat - '0' as nat) as nat)
    } else if 'A' <= c <= 'F' {
        Some((c as nat - 'A' as nat + 10) as nat)
    } else if 'a' <= c <= 'f' {
        Some((c as nat - 'a' as nat + 10) as nat)
    } else {
        None
    }
}

/// `s` percent-decoded: each `%` followed by two hexadecimal digits stands
/// for the character with that code; every other character for itself.
pub open spec fn url_decoded(s: Seq<char>) -> Seq<char>
    decreases s.len(),
{
    if s.len() == 0 {
        Seq::empty()
    } else if s[0] == '%' && s.len() >= 3 && hex_value(s[1]) is Some && hex_value(s[2]) is Some {
        seq![((hex_value(s[1])->0 * 16 + hex_value(s[2])->0) as char)] + url_decoded(s.skip(3))
    } else {
        seq![s[0]] + url_decoded(s.skip(1))
    }
}

proof fn lemma_url_encoded_front(s: Seq<char>)
    requires
        s.len() > 0,
    ensures
        url_encoded(s) == encode_char(s[0]) + url_encoded(s.skip(1)),
    decreases s.len(),
{
    if s.len() == 1 {
        assert(s.drop_last() =~= Seq::<char>::empty());
        assert(s.skip(1) =~= Seq::<char>::empty());
        assert(url_encoded(s.skip(1)) =~= Seq::<char>::empty());
        assert(encode_char(s[0]) + Seq::<char>::empty() =~= encode_char(s[0]));
        assert(url_encoded(s) =~= Seq::<char>::empty() + encode_char(s.last()));
    } else {
        lemma_url_encoded_front(s.drop_last());
        assert(s.drop_last().skip(1) =~= s.skip(1).drop_last());
        assert(s.skip(1).last() == s.last());
        assert(s.drop_last()[0] == s[0]);
        assert(url_encoded(s.skip(1)) == url_encoded(s.skip(1).drop_last()) + encode_char(s.skip(1).last()));
        assert(url_encoded(s) =~= encode_char(s[0]) + url_encoded(s.skip(1)));
    }
}

proof fn lemma_hex_digit_value(k: nat)
    requires
        k < 16,
    ensures
        hex_value(text::hex_digit_upper(k)) == Some(k),
{
}

proof fn lemma_encode_ascii(c: char)
    requires
        (c as u32) < 128,
        !is_unreserved(c),
    ensures
        encode_char(c) == seq!['%', text::hex_digit_upper((c as u32 as nat) / 16), text::hex_digit_upper((c as u32 as nat) % 16)],
{
    let n = c as u32 as nat;
    reveal_with_fuel(text::hex, 2);
    if n < 16 {
        assert(text::hex(n, true) == seq![text::hex_digit_upper(n)]);
        assert(text::zero_pad(text::hex(n, true), 2) =~= seq!['0', text::hex_digit_upper(n)]);
    } else {
        assert(n / 16 < 16);
        assert(text::hex(n / 16, true) == seq![text::hex_digit_upper(n / 16)]);
        assert(text::hex(n, true) =~= seq![text::hex_digit_upper(n / 16), text::hex_digit_upper(n % 16)]);
    }
}

proof fn lemma_decode_encoded_char(c: char, rest: Seq<char>)
    requires
        (c as u32) < 128,
    ensures
        url_decoded(encode_char(c) + rest) == seq![c] + url_decoded(rest),
{
    let e = encode_char(c) + rest;
    if is_unreserved(c) {
        assert(e[0] == c);
        assert(e.skip(1) =~= rest);
    } else {
        lemma_encode_ascii(c);
        let n = c as u32 as nat;
        lemma_hex_digit_value(n / 16);
        lemma_hex_digit_value(n % 16);
        assert(e[0] == '%');
        assert(e[1] == text::hex_digit_upper(n / 16));
        assert(e[2] == text::hex_digit_upper(n % 16));
        assert(e.skip(3) =~= rest);
        assert((n / 16) * 16 + n % 16 == n);
        assert(((n / 16 * 16 + n % 16) as char) == c);
    }
}

/// Percent-decoding the URL encoding of an ASCII text gives the text back.
pub proof fn law_url_encoding_round_trip(s: Seq<char>)
    requires
        forall|i: int| 0 <= i < s.len() ==> (#[trigger] s[i] as u32) < 128,
    ensures
        url_decoded(url_encoded(s)) == s,
    decreases s.len(),
{
    if s.len() == 0 {
        assert(url_encoded(s) =~= Seq::<char>::empty());
    } else {
        lemma_url_encoded_front(s);
        assert forall|i: int| 0 <= i < s.skip(1).len() implies (#[trigger] s.skip(1)[i] as u32) < 128 by {
            assert(s.skip(1)[i] == s[i + 1]);
        }
        law_url_encoding_round_trip(s.skip(1));
        assert((s[0] as u32) < 128);
        lemma_decode_encoded_char(s[0], url_encoded(s.skip(1)));
        assert(seq![s[0]] + s.skip(1) =~= s);
    }
}


proof fn lemma_with_contact_card(d: BoardDocView, id: Seq<char>, title: Seq<char>, column: Seq<char>)
    requires
        board::doc_wf(d),
        board::key_index(d.cards, id) is None,
    ensures
        board::doc_wf(with_contact_card(d, id, title, column)),
        board::key_index(with_contact_card(d, id, title, column).cards, id) == Some(d.cards.len() as int),
        board::lookup(with_contact_card(d, id, title, column).cards, id) == Some(new_contact_card(title, column)),
{
    let n = with_contact_card(d, id, title, column);
    assert forall|i: int| 0 <= i < d.cards.len() implies d.cards[i].0 != id by {}
    assert(board::keys_unique(n.cards)) by {
        assert forall|i: int, j: int| 0 <= i < n.cards.len() && 0 <= j < n.cards.len() && i != j implies n.cards[i].0
            != n.cards[j].0 by {
            if j == d.cards.len() {
                assert(d.cards[i].0 != id);
            } else if i == d.cards.len() {
                assert(d.cards[j].0 != id);
            }
        }
    }
    assert forall|i: int| 0 <= i < n.cards.len() implies board::keys_unique(
        board::custom_fields_or_empty(#[trigger] n.cards[i].1),
    ) by {
        if i < d.cards.len() {
            assert(n.cards[i] == d.cards[i]);
        }
    }
    board::lemma_key_index(n.cards, id, d.cards.len() as int);
}

/// The card a sync settles on for a sender. A card it creates takes the
/// given id, is live, carries the title made from the sender's newest
/// message, sits in the inbox column and holds the sender's address in its
/// email field. A card it finds is the first live card whose email field
/// holds the address, and the board is left as it was.
pub proof fn law_contact_card_settled(
    d: BoardDocView,
    addr: Seq<char>,
    ms: Seq<MailMessageView>,
    inbox_col: Seq<char>,
    ids: CrmFieldIdsView,
    new_id: Seq<char>,
)
    requires
        board::doc_wf(d),
    ensures
        ({
            let o = contact_card_outcome(d, addr, ms, inbox_col, ids, new_id);
            o.1 matches Ok((card, created)) ==> if created {
                &&& card == new_id
                &&& board::lookup(d.cards, card) is None
                &&& board::lookup(o.0.cards, card) matches Some(c) && c.title == Some(
                    ValueView::Str(contact_title_of(ms[0].from_name, addr)),
                ) && c.column_id == Some(ValueView::Str(inbox_col)) && !board::is_true(c.deleted)
                &&& field::card_field(o.0, card, ids.email) == Ok::<Option<Seq<char>>, DocErrorView>(Some(addr))
            } else {
                &&& contact_card_of(d.cards, ids.email, addr) == Some(card)
                &&& o.0 == d
            }
        }),
{
    if contact_card_of(d.cards, ids.email, addr) is None && board::key_index(d.cards, new_id) is None {
        let title = contact_title_of(ms[0].from_name, addr);
        let d0 = with_contact_card(d, new_id, title, inbox_col);
        lemma_with_contact_card(d, new_id, title, inbox_col);
        let i = d.cards.len() as int;
        let nc = new_contact_card(title, inbox_col);
        let c1 = field::set_field_edit(ids.email, addr)(nc);
        board::lemma_put_keys_unique(board::custom_fields_or_empty(nc), ids.email, ValueView::Str(addr));
        field::lemma_replace_card(d0, new_id, i, c1);
        field::law_set_then_get(d0, new_id, ids.email, addr);
        let d1 = field::edited_card_doc(d0, new_id, field::set_field_edit(ids.email, addr));
        board::lemma_put_keys_unique(d0.cards, new_id, c1);
        assert(board::lookup(d1.cards, new_id) == Some(c1));
        match d1.field_definitions {
            None => {},
            Some(defs) => {
                field::law_defaults_keep_explicit_values(d1, new_id, ids.email);
                let c2 = field::apply_defaults_edit(field::defaults_to_apply(defs))(c1);
                board::lemma_put_keys_unique(d1.cards, new_id, c2);
            },
        }
    }
}


/// An upper-case hexadecimal digit.
pub open spec fn is_hex_upper(c: char) -> bool {
    ('0' <= c <= '9') || ('A' <= c <= 'F')
}

/// A text made only of unreserved characters and `%XX` triples, `XX` two
/// upper-case hexadecimal digits.
pub open spec fn well_encoded(e: Seq<char>) -> bool
    decreases e.len(),
{
    if e.len() == 0 {
        true
    } else if is_unreserved(e[0]) {
        well_encoded(e.skip(1))
    } else {
        e[0] == '%' && e.len() >= 3 && is_hex_upper(e[1]) && is_hex_upper(e[2]) && well_encoded(e.skip(3))
    }
}

/// The URL encoding of an ASCII text is made only of unreserved characters
/// and `%XX` triples; each unreserved character of the text stands for
/// itself, and every other one for the triple of its code.
pub proof fn law_url_encoding_shape(s: Seq<char>)
    requires
        forall|i: int| 0 <= i < s.len() ==> (#[trigger] s[i] as u32) < 128,
    ensures
        well_encoded(url_encoded(s)),
        s.len() > 0 ==> url_encoded(s) == encode_char(s[0]) + url_encoded(s.skip(1)),
        forall|c: char| is_unreserved(c) ==> encode_char(c) == seq![c],
        forall|c: char|
            (c as u32) < 128 && !is_unreserved(c) ==> #[trigger] encode_char(c) == seq![
                '%',
                text::hex_digit_upper((c as u32 as nat) / 16),
                text::hex_digit_upper((c as u32 as nat) % 16),
            ],
    decreases s.len(),
{
    assert forall|c: char| (c as u32) < 128 && !is_unreserved(c) implies #[trigger] encode_char(c) == seq![
        '%',
        text::hex_digit_upper((c as u32 as nat) / 16),
        text::hex_digit_upper((c as u32 as nat) % 16),
    ] by {
        lemma_encode_ascii(c);
    }
    if s.len() == 0 {
        assert(url_encoded(s) =~= Seq::<char>::empty());
    } else {
        lemma_url_encoded_front(s);
        assert forall|i: int| 0 <= i < s.skip(1).len() implies (#[trigger] s.skip(1)[i] as u32) < 128 by {
            assert(s.skip(1)[i] == s[i + 1]);
        }
        law_url_encoding_shape(s.skip(1));
        let rest = url_encoded(s.skip(1));
        let c = s[0];
        let e = encode_char(c) + rest;
        assert((c as u32) < 128);
        if is_unreserved(c) {
            assert(e[0] == c);
            assert(e.skip(1) =~= rest);
        } else {
            lemma_encode_ascii(c);
            let n = c as u32 as nat;
            assert(e[0] == '%');
            assert(e[1] == text::hex_digit_upper(n / 16));
            assert(e[2] == text::hex_digit_upper(n % 16));
            assert(e.skip(3) =~= rest);
        }
    }
}


// ── One contact card per sender ──────────────────────────────────────────────

/// What decides whether a card is a contact: its deleted flag and its
/// email field.
pub open spec fn contact_data(c: CardObjectView, email: Seq<char>) -> (Option<ValueView>, Option<ValueView>) {
    (c.deleted, board::lookup(board::custom_fields_or_empty(c), email))
}

/// `d2` is well formed and keeps the cards of `d`, under the same keys and
/// in the same places, with the same contact data.
pub open spec fn contact_data_kept(d: BoardDocView, d2: BoardDocView, email: Seq<char>) -> bool {
    &&& board::doc_wf(d2)
    &&& d2.cards.len() == d.cards.len()
    &&& forall|i: int| 0 <= i < d.cards.len() ==> (#[trigger] d2.cards[i]).0 == d.cards[i].0
    &&& forall|i: int| 0 <= i < d.cards.len() ==> contact_data((#[trigger] d2.cards[i]).1, email) == contact_data(d.cards[i].1, email)
}

proof fn lemma_kept_trans(a: BoardDocView, b: BoardDocView, c: BoardDocView, email: Seq<char>)
    requires
        contact_data_kept(a, b, email),
        contact_data_kept(b, c, email),
    ensures
        contact_data_kept(a, c, email),
{
    assert forall|i: int| 0 <= i < a.cards.len() implies (#[trigger] c.cards[i]).0 == a.cards[i].0 && contact_data(c.cards[i].1, email)
        == contact_data(a.cards[i].1, email) by {
        assert(c.cards[i].0 == b.cards[i].0);
        assert(b.cards[i].0 == a.cards[i].0);
    }
}

proof fn lemma_kept_refl(d: BoardDocView, email: Seq<char>)
    requires
        board::doc_wf(d),
    ensures
        contact_data_kept(d, d, email),
{
}

proof fn lemma_with_comments_kept(d: BoardDocView, card: Seq<char>, l: Seq<CommentObjectView>, email: Seq<char>)
    requires
        board::doc_wf(d),
        board::lookup(d.cards, card) is Some,
    ensures
        contact_data_kept(d, comment::with_comments(d, card, l), email),
{
    board::lemma_key_index_bounds(d.cards, card);
    let i = board::key_index(d.cards, card)->0;
    let c = board::lookup(d.cards, card)->0;
    comment::lemma_put_card_back(d, card, i, CardObjectView { comments: Some(l), ..c });
    let n = comment::with_comments(d, card, l);
    assert forall|j: int| 0 <= j < d.cards.len() implies (#[trigger] n.cards[j]).0 == d.cards[j].0 && contact_data(
        n.cards[j].1,
        email,
    ) == contact_data(d.cards[j].1, email) by {
        if j != i {
            assert(n.cards[j] == d.cards[j]);
        }
    }
}

proof fn lemma_set_other_field_kept(d: BoardDocView, card: Seq<char>, f: Seq<char>, v: Seq<char>, email: Seq<char>)
    requires
        board::doc_wf(d),
        f != email,
    ensures
        contact_data_kept(d, field::edited_card_doc(d, card, field::set_field_edit(f, v)), email),
{
    if board::lookup(d.cards, card) is Some {
        board::lemma_key_index_bounds(d.cards, card);
        let i = board::key_index(d.cards, card)->0;
        let c = d.cards[i].1;
        let nc = field::set_field_edit(f, v)(c);
        assert(board::keys_unique(board::custom_fields_or_empty(c)));
        board::lemma_put_keys_unique(board::custom_fields_or_empty(c), f, ValueView::Str(v));
        field::lemma_replace_card(d, card, i, nc);
        let n = field::edited_card_doc(d, card, field::set_field_edit(f, v));
        assert forall|j: int| 0 <= j < d.cards.len() implies (#[trigger] n.cards[j]).0 == d.cards[j].0 && contact_data(
            n.cards[j].1,
            email,
        ) == contact_data(d.cards[j].1, email) by {
            if j != i {
                assert(n.cards[j] == d.cards[j]);
            }
        }
    }
}

proof fn lemma_adds_kept(
    d: BoardDocView,
    card: Seq<char>,
    msgs: Seq<MailMessageView>,
    author: Seq<char>,
    cids: Seq<Seq<char>>,
    ats: Seq<Seq<char>>,
    email: Seq<char>,
)
    requires
        board::doc_wf(d),
    ensures
        contact_data_kept(d, adds_outcome(d, card, msgs, author, cids, ats).0, email),
    decreases msgs.len(),
{
    if msgs.len() == 0 {
        lemma_kept_refl(d, email);
    } else {
        lemma_adds_kept(d, card, msgs.drop_last(), author, cids.drop_last(), ats.drop_last(), email);
        let o = adds_outcome(d, card, msgs.drop_last(), author, cids.drop_last(), ats.drop_last());
        if o.1 is None {
            if let Ok(l) = comment::comments_of(o.0, card) {
                let nl = l.push(
                    comment::new_comment_object(cids.last(), author, email_comment_text_of(msgs.last()), ats.last(), None, None, None),
                );
                lemma_with_comments_kept(o.0, card, nl, email);
                let d2 = comment::with_comments(o.0, card, nl);
                lemma_kept_trans(d, o.0, d2, email);
                if let Ok(l2) = comment::comments_of(d2, card) {
                    if comment::comment_index(l2, cids.last()) is Some {
                        let el = comment::edited_comments(l2, cids.last(), comment::mail_id_edit(msgs.last().id));
                        lemma_with_comments_kept(d2, card, el, email);
                        lemma_kept_trans(d, d2, comment::with_comments(d2, card, el), email);
                    }
                }
            }
        }
    }
}

proof fn lemma_deleted_each_kept(d: BoardDocView, card: Seq<char>, ids: Seq<Seq<char>>, email: Seq<char>)
    requires
        board::doc_wf(d),
    ensures
        contact_data_kept(d, deleted_each(d, card, ids), email),
    decreases ids.len(),
{
    if ids.len() == 0 {
        lemma_kept_refl(d, email);
    } else {
        lemma_deleted_each_kept(d, card, ids.drop_last(), email);
        let d1 = deleted_each(d, card, ids.drop_last());
        if let Ok(l) = comment::comments_of(d1, card) {
            if comment::comment_index(l, ids.last()) is Some {
                let el = comment::edited_comments(l, ids.last(), comment::delete_edit());
                lemma_with_comments_kept(d1, card, el, email);
                lemma_kept_trans(d, d1, comment::with_comments(d1, card, el), email);
            }
        }
    }
}

/// The fields that recording mail writes are not the email field.
pub open spec fn crm_fields_apart(ids: CrmFieldIdsView) -> bool {
    ids.email != ids.last_seen && ids.email != ids.email_count && ids.email != ids.provider
}

proof fn lemma_contact_mail_kept(
    d: BoardDocView,
    card: Seq<char>,
    msgs: Seq<MailMessageView>,
    keep_last: nat,
    author: Seq<char>,
    ids: CrmFieldIdsView,
    cids: Seq<Seq<char>>,
    ats: Seq<Seq<char>>,
)
    requires
        board::doc_wf(d),
        crm_fields_apart(ids),
    ensures
        contact_data_kept(d, contact_mail_outcome(d, card, msgs, keep_last, author, ids, cids, ats).0, ids.email),
{
    let email = ids.email;
    let existing = mail_ids_of_card(d, card);
    let to_add = emails_to_add_of(msgs, existing, keep_last);
    lemma_adds_kept(d, card, to_add, author, cids, ats, email);
    let d1 = adds_outcome(d, card, to_add, author, cids, ats).0;
    if adds_outcome(d, card, to_add, author, cids, ats).1 is None {
        if let Ok(l) = comment::comments_of(d1, card) {
            lemma_deleted_each_kept(d1, card, prune_targets(l, keep_last), email);
            let d2 = deleted_each(d1, card, prune_targets(l, keep_last));
            lemma_kept_trans(d, d1, d2, email);
            let count = existing.len() + to_add.len();
            lemma_set_other_field_kept(d2, card, ids.last_seen, msgs[0].date, email);
            let d3 = field::edited_card_doc(d2, card, field::set_field_edit(ids.last_seen, msgs[0].date));
            lemma_kept_trans(d, d2, d3, email);
            lemma_set_other_field_kept(d3, card, ids.email_count, text::decimal(count as nat), email);
            let d4 = field::edited_card_doc(d3, card, field::set_field_edit(ids.email_count, text::decimal(count as nat)));
            lemma_kept_trans(d, d3, d4, email);
            lemma_set_other_field_kept(d4, card, ids.provider, msgs[0].provider, email);
            let d5 = field::edited_card_doc(d4, card, field::set_field_edit(ids.provider, msgs[0].provider));
            lemma_kept_trans(d, d4, d5, email);
        }
    }
}


/// What a new contact card's contact data is: live, with the address.
pub open spec fn new_contact_data(addr: Seq<char>) -> (Option<ValueView>, Option<ValueView>) {
    (Some(ValueView::Boolean(false)), Some(ValueView::Str(addr)))
}

/// The shape of one contact step that succeeds: a found card leaves every
/// card's contact data as it was; a created card is appended with the
/// address and leaves the other cards' contact data as it was.
pub open spec fn contact_step_shape(
    d: BoardDocView,
    d2: BoardDocView,
    addr: Seq<char>,
    email: Seq<char>,
    card: Seq<char>,
    created: bool,
) -> bool {
    if created {
        created_card_shape(d, d2, addr, email, card)
    } else {
        contact_data_kept(d, d2, email) && contact_card_of(d.cards, email, addr) == Some(card)
    }
}

/// `d2` is `d` with the contact card `card` of `addr` appended, and the other
/// cards' contact data as it was; no card of `d` was the contact of `addr`.
pub open spec fn created_card_shape(d: BoardDocView, d2: BoardDocView, addr: Seq<char>, email: Seq<char>, card: Seq<char>) -> bool {
    &&& board::doc_wf(d2)
    &&& d2.cards.len() == d.cards.len() + 1
    &&& forall|i: int| 0 <= i < d.cards.len() ==> (#[trigger] d2.cards[i]).0 == d.cards[i].0
    &&& forall|i: int| 0 <= i < d.cards.len() ==> contact_data((#[trigger] d2.cards[i]).1, email) == contact_data(d.cards[i].1, email)
    &&& d2.cards[d.cards.len() as int].0 == card
    &&& contact_data(d2.cards[d.cards.len() as int].1, email) == new_contact_data(addr)
    &&& contact_card_of(d.cards, email, addr) is None
}

proof fn lemma_contact_step_shape(
    d: BoardDocView,
    addr: Seq<char>,
    msgs: Seq<MailMessageView>,
    inbox_col: Seq<char>,
    keep_last: nat,
    author: Seq<char>,
    ids: CrmFieldIdsView,
    new_id: Seq<char>,
    cids: Seq<Seq<char>>,
    ats: Seq<Seq<char>>,
)
    requires
        board::doc_wf(d),
        crm_fields_apart(ids),
    ensures
        ({
            let o = contact_one_outcome(d, addr, msgs, inbox_col, keep_last, author, ids, new_id, cids, ats);
            o.1 matches Ok((created, _)) ==> contact_step_shape(
                d,
                o.0,
                addr,
                ids.email,
                contact_card_outcome(d, addr, sort_desc_by(msgs, message_date()), inbox_col, ids, new_id).1->Ok_0.0,
                created,
            )
        }),
{
    let email = ids.email;
    let ms = sort_desc_by(msgs, message_date());
    let oc = contact_card_outcome(d, addr, ms, inbox_col, ids, new_id);
    if let Ok((card, created)) = oc.1 {
        let o = contact_one_outcome(d, addr, msgs, inbox_col, keep_last, author, ids, new_id, cids, ats);
        if !created {
            lemma_contact_mail_kept(oc.0, card, ms, keep_last, author, ids, cids, ats);
        } else {
            let n = d.cards.len() as int;
            let title = contact_title_of(ms[0].from_name, addr);
            let d0 = with_contact_card(d, new_id, title, inbox_col);
            lemma_with_contact_card(d, new_id, title, inbox_col);
            let nc = new_contact_card(title, inbox_col);
            let c1 = field::set_field_edit(email, addr)(nc);
            board::lemma_put_keys_unique(board::custom_fields_or_empty(nc), email, ValueView::Str(addr));
            field::lemma_replace_card(d0, new_id, n, c1);
            let d1 = field::edited_card_doc(d0, new_id, field::set_field_edit(email, addr));
            assert(d1.cards == d0.cards.update(n, (new_id, c1)));
            let d2 = oc.0;
            match d1.field_definitions {
                None => {
                    assert(d2 == d1);
                },
                Some(defs) => {
                    board::lemma_key_index(d1.cards, new_id, n);
                    let c2 = field::apply_defaults_edit(field::defaults_to_apply(defs))(c1);
                    field::lemma_fill_keeps(board::custom_fields_or_empty(c1), field::defaults_to_apply(defs), email);
                    field::lemma_replace_card(d1, new_id, n, c2);
                    assert(d2.cards == d1.cards.update(n, (new_id, c2)));
                },
            }
            // d2 has the shape; recording the mail keeps it.
            lemma_contact_mail_kept(d2, card, ms, keep_last, author, ids, cids, ats);
            let d3 = o.0;
            assert forall|i: int| 0 <= i < d.cards.len() implies (#[trigger] d3.cards[i]).0 == d.cards[i].0 && contact_data(
                d3.cards[i].1,
                email,
            ) == contact_data(d.cards[i].1, email) by {
                assert(d3.cards[i].0 == d2.cards[i].0);
                assert(d2.cards[i] == d0.cards[i]);
                assert(d0.cards[i] == d.cards[i]);
            }
            assert(d3.cards[n].0 == d2.cards[n].0);
        }
    }
}


/// At most one card of `cards` is the contact of `a`.
pub open spec fn at_most_one_contact(cards: Seq<(Seq<char>, CardObjectView)>, email: Seq<char>, a: Seq<char>) -> bool {
    forall|i: int, j: int|
        0 <= i < cards.len() && 0 <= j < cards.len() && is_contact(#[trigger] cards[i].1, email, a) && is_contact(
            #[trigger] cards[j].1,
            email,
            a,
        ) ==> i == j
}

/// Exactly one card of `cards` is the contact of `a`.
pub open spec fn one_contact(cards: Seq<(Seq<char>, CardObjectView)>, email: Seq<char>, a: Seq<char>) -> bool {
    &&& at_most_one_contact(cards, email, a)
    &&& exists|i: int| 0 <= i < cards.len() && is_contact(#[trigger] cards[i].1, email, a)
}

proof fn lemma_contact_card_of_members(cards: Seq<(Seq<char>, CardObjectView)>, email: Seq<char>, a: Seq<char>)
    ensures
        contact_card_of(cards, email, a) is None ==> forall|i: int| 0 <= i < cards.len() ==> !is_contact(#[trigger] cards[i].1, email, a),
        contact_card_of(cards, email, a) is Some ==> exists|i: int| 0 <= i < cards.len() && is_contact(#[trigger] cards[i].1, email, a),
    decreases cards.len(),
{
    if cards.len() > 0 {
        lemma_contact_card_of_members(cards.skip(1), email, a);
        if !is_contact(cards[0].1, email, a) {
            assert forall|i: int| 0 < i < cards.len() && is_contact(#[trigger] cards[i].1, email, a) implies contact_card_of(cards, email, a) is Some by {
                assert(cards.skip(1)[i - 1] == cards[i]);
            }
            if contact_card_of(cards.skip(1), email, a) is Some {
                let k = choose|k: int| 0 <= k < cards.skip(1).len() && is_contact(#[trigger] cards.skip(1)[k].1, email, a);
                assert(cards[k + 1] == cards.skip(1)[k]);
            }
        }
    }
}

/// Contact data decides whether a card is a contact.
proof fn lemma_contact_by_data(c1: CardObjectView, c2: CardObjectView, email: Seq<char>, a: Seq<char>)
    requires
        contact_data(c1, email) == contact_data(c2, email),
    ensures
        is_contact(c1, email, a) == is_contact(c2, email, a),
{
}

proof fn lemma_sync_contacts_one_card(
    d: BoardDocView,
    g: Seq<(Seq<char>, Seq<MailMessageView>)>,
    inbox_col: Seq<char>,
    keep_last: nat,
    author: Seq<char>,
    ids: CrmFieldIdsView,
    nv: Seq<Seq<char>>,
    cidss: Seq<Seq<Seq<char>>>,
    atss: Seq<Seq<Seq<char>>>,
)
    requires
        board::doc_wf(d),
        crm_fields_apart(ids),
        forall|a: Seq<char>| at_most_one_contact(d.cards, ids.email, a),
        board::keys_unique(g),
        forall|k: int| 0 <= k < g.len() ==> text::lowercase(#[trigger] g[k].0) == g[k].0,
    ensures
        ({
            let o = contacts_sync_outcome(d, g, inbox_col, keep_last, author, ids, nv, cidss, atss);
            o.1 is Ok ==> {
                &&& board::doc_wf(o.0)
                &&& forall|a: Seq<char>| at_most_one_contact(o.0.cards, ids.email, a)
                &&& forall|k: int| 0 <= k < g.len() ==> one_contact(o.0.cards, ids.email, #[trigger] g[k].0)
            }
        }),
    decreases g.len(),
{
    let email = ids.email;
    if g.len() > 0 {
        let pre = g.drop_last();
        assert(board::keys_unique(pre)) by {
            assert forall|i: int, j: int| 0 <= i < pre.len() && 0 <= j < pre.len() && i != j implies pre[i].0 != pre[j].0 by {
                assert(pre[i] == g[i] && pre[j] == g[j]);
            }
        }
        assert forall|k: int| 0 <= k < pre.len() implies text::lowercase(#[trigger] pre[k].0) == pre[k].0 by {
            assert(pre[k] == g[k]);
        }
        lemma_sync_contacts_one_card(d, pre, inbox_col, keep_last, author, ids, nv, cidss.drop_last(), atss.drop_last());
        let o = contacts_sync_outcome(d, pre, inbox_col, keep_last, author, ids, nv, cidss.drop_last(), atss.drop_last());
        if let Ok(t) = o.1 {
            let n = g.len() - 1;
            let b = g[n].0;
            assert(g.last() == g[n]);
            let new_id = nv[t.0 as int];
            let so = contact_one_outcome(o.0, b, g[n].1, inbox_col, keep_last, author, ids, new_id, cidss.last(), atss.last());
            if let Ok((created, _)) = so.1 {
                lemma_contact_step_shape(o.0, b, g[n].1, inbox_col, keep_last, author, ids, new_id, cidss.last(), atss.last());
                let card = contact_card_outcome(o.0, b, sort_desc_by(g[n].1, message_date()), inbox_col, ids, new_id).1->Ok_0.0;
                let d1 = o.0;
                let d2 = so.0;
                lemma_contact_card_of_members(d1.cards, email, b);
                let m = d1.cards.len() as int;
                if !created {
                    assert forall|a: Seq<char>, i: int| 0 <= i < d2.cards.len() implies #[trigger] is_contact(d2.cards[i].1, email, a)
                        == is_contact(d1.cards[i].1, email, a) by {
                        lemma_contact_by_data(d2.cards[i].1, d1.cards[i].1, email, a);
                    }
                } else {
                    assert forall|a: Seq<char>, i: int| 0 <= i < m implies #[trigger] is_contact(d2.cards[i].1, email, a)
                        == is_contact(d1.cards[i].1, email, a) by {
                        lemma_contact_by_data(d2.cards[i].1, d1.cards[i].1, email, a);
                    }
                    assert forall|a: Seq<char>| is_contact(#[trigger] d2.cards[m].1, email, a) <==> a == b by {
                        assert(contact_data(d2.cards[m].1, email) == new_contact_data(b));
                    }
                }
                assert forall|a: Seq<char>| at_most_one_contact(d2.cards, email, a) by {
                    assert forall|i: int, j: int|
                        0 <= i < d2.cards.len() && 0 <= j < d2.cards.len() && is_contact(#[trigger] d2.cards[i].1, email, a)
                            && is_contact(#[trigger] d2.cards[j].1, email, a) implies i == j by {
                        assert(at_most_one_contact(d1.cards, email, a));
                        if created {
                            if i < m && j < m {
                                assert(is_contact(d1.cards[i].1, email, a));
                                assert(is_contact(d1.cards[j].1, email, a));
                            } else if i < m {
                                assert(a == b);
                                assert(is_contact(d1.cards[i].1, email, a));
                            } else if j < m {
                                assert(a == b);
                                assert(is_contact(d1.cards[j].1, email, a));
                            }
                        } else {
                            assert(is_contact(d1.cards[i].1, email, a));
                            assert(is_contact(d1.cards[j].1, email, a));
                        }
                    }
                }
                assert forall|k: int| 0 <= k < g.len() implies one_contact(d2.cards, email, #[trigger] g[k].0) by {
                    let a = g[k].0;
                    assert(at_most_one_contact(d2.cards, email, a));
                    if k < n {
                        assert(pre[k] == g[k]);
                        assert(one_contact(d1.cards, email, pre[k].0));
                        let i = choose|i: int| 0 <= i < d1.cards.len() && is_contact(#[trigger] d1.cards[i].1, email, a);
                        assert(is_contact(d2.cards[i].1, email, a));
                    } else if created {
                        assert(is_contact(d2.cards[m].1, email, a));
                    } else {
                        let i = choose|i: int| 0 <= i < d1.cards.len() && is_contact(#[trigger] d1.cards[i].1, email, b);
                        assert(is_contact(d2.cards[i].1, email, a));
                    }
                }
            }
        }
    }
}


/// The group keys are exactly the senders' addresses.
proof fn lemma_group_keys(s: Seq<MailMessageView>)
    ensures
        forall|k: int| 0 <= k < groups_by_sender(s).len() ==> exists|i: int| 0 <= i < s.len() && s[i].from_email == (#[trigger] groups_by_sender(s)[k]).0,
        forall|i: int| 0 <= i < s.len() ==> exists|k: int| 0 <= k < groups_by_sender(s).len() && groups_by_sender(s)[k].0 == (#[trigger] s[i]).from_email,
    decreases s.len(),
{
    if s.len() > 0 {
        let pre = s.drop_last();
        lemma_group_keys(pre);
        let g = groups_by_sender(pre);
        let r = groups_by_sender(s);
        let n = s.len() - 1;
        board::lemma_key_index_bounds(g, s.last().from_email);
        assert forall|k: int| 0 <= k < r.len() implies exists|i: int| 0 <= i < s.len() && s[i].from_email == (#[trigger] r[k]).0 by {
            if k < g.len() && r[k].0 == g[k].0 {
                let i = choose|i: int| 0 <= i < pre.len() && pre[i].from_email == g[k].0;
                assert(s[i] == pre[i]);
            } else {
                assert(s[n].from_email == r[k].0);
            }
        }
        assert forall|i: int| 0 <= i < s.len() implies exists|k: int| 0 <= k < r.len() && r[k].0 == (#[trigger] s[i]).from_email by {
            if i < n {
                assert(pre[i] == s[i]);
                let k = choose|k: int| 0 <= k < g.len() && g[k].0 == pre[i].from_email;
                assert(r[k].0 == g[k].0);
            } else {
                match board::key_index(g, s.last().from_email) {
                    Some(q) => {
                        assert(r[q].0 == s[n].from_email);
                    },
                    None => {
                        assert(r[g.len() as int].0 == s[n].from_email);
                    },
                }
            }
        }
    }
}

/// Syncing contacts leaves each sender with exactly one live card that is
/// its contact, and no address with two, where the board had no address
/// with two contact cards before, the senders' addresses are in lower case,
/// and the email field is none of the fields that recording mail writes.
pub proof fn law_one_contact_card_per_sender(
    d: BoardDocView,
    messages: Seq<MailMessageView>,
    inbox_col: Seq<char>,
    keep_last: nat,
    author: Seq<char>,
    ids: CrmFieldIdsView,
    new_ids: Seq<Seq<char>>,
    cidss: Seq<Seq<Seq<char>>>,
    atss: Seq<Seq<Seq<char>>>,
)
    requires
        board::doc_wf(d),
        crm_fields_apart(ids),
        forall|a: Seq<char>| at_most_one_contact(d.cards, ids.email, a),
        forall|i: int| 0 <= i < messages.len() ==> text::lowercase(#[trigger] messages[i].from_email) == messages[i].from_email,
    ensures
        ({
            let o = contacts_sync_outcome(d, groups_by_sender(messages), inbox_col, keep_last, author, ids, new_ids, cidss, atss);
            o.1 is Ok ==> {
                &&& forall|a: Seq<char>| at_most_one_contact(o.0.cards, ids.email, a)
                &&& forall|i: int| 0 <= i < messages.len() ==> one_contact(o.0.cards, ids.email, (#[trigger] messages[i]).from_email)
            }
        }),
{
    let g = groups_by_sender(messages);
    lemma_groups_unique(messages);
    lemma_group_keys(messages);
    assert forall|k: int| 0 <= k < g.len() implies text::lowercase(#[trigger] g[k].0) == g[k].0 by {
        let i = choose|i: int| 0 <= i < messages.len() && messages[i].from_email == g[k].0;
    }
    lemma_sync_contacts_one_card(d, g, inbox_col, keep_last, author, ids, new_ids, cidss, atss);
    let o = contacts_sync_outcome(d, g, inbox_col, keep_last, author, ids, new_ids, cidss, atss);
    if o.1 is Ok {
        assert forall|i: int| 0 <= i < messages.len() implies one_contact(o.0.cards, ids.email, (#[trigger] messages[i]).from_email) by {
            let k = choose|k: int| 0 <= k < g.len() && g[k].0 == messages[i].from_email;
            assert(one_contact(o.0.cards, ids.email, g[k].0));
        }
    }
}


proof fn lemma_set_field_wf(d: BoardDocView, card: Seq<char>, f: Seq<char>, v: Seq<char>)
    requires
        board::doc_wf(d),
    ensures
        board::doc_wf(field::edited_card_doc(d, card, field::set_field_edit(f, v))),
{
    lemma_set_other_field_kept(d, card, f, v, f + seq!['#']);
}

/// After recording a contact's emails (newest first) on its card, the card's
/// Last Seen is the newest email's date, its Provider the newest email's
/// provider, and its Email Count the emails it had recorded plus the ones
/// just added; the three fields are taken to be distinct.
pub proof fn law_recorded_contact_fields(
    d: BoardDocView,
    card: Seq<char>,
    msgs: Seq<MailMessageView>,
    keep_last: nat,
    author: Seq<char>,
    ids: CrmFieldIdsView,
    cids: Seq<Seq<char>>,
    ats: Seq<Seq<char>>,
)
    requires
        board::doc_wf(d),
        msgs.len() > 0,
        ids.last_seen != ids.email_count,
        ids.last_seen != ids.provider,
        ids.email_count != ids.provider,
    ensures
        ({
            let o = contact_mail_outcome(d, card, msgs, keep_last, author, ids, cids, ats);
            o.1 matches Ok(n) ==> {
                &&& field::card_field(o.0, card, ids.last_seen) == Ok::<Option<Seq<char>>, DocErrorView>(Some(msgs[0].date))
                &&& field::card_field(o.0, card, ids.provider) == Ok::<Option<Seq<char>>, DocErrorView>(Some(msgs[0].provider))
                &&& field::card_field(o.0, card, ids.email_count) == Ok::<Option<Seq<char>>, DocErrorView>(
                    Some(text::decimal(mail_ids_of_card(d, card).len() + n)),
                )
            }
        }),
{
    let existing = mail_ids_of_card(d, card);
    let to_add = emails_to_add_of(msgs, existing, keep_last);
    let e = ids.last_seen + seq!['#'];
    lemma_adds_kept(d, card, to_add, author, cids, ats, e);
    let a = adds_outcome(d, card, to_add, author, cids, ats);
    if a.1 is None {
        if let Ok(l) = comment::comments_of(a.0, card) {
            lemma_deleted_each_kept(a.0, card, prune_targets(l, keep_last), e);
            let d2 = deleted_each(a.0, card, prune_targets(l, keep_last));
            let count = existing.len() + to_add.len();
            if !field::card_missing(d2, card) {
                let d3 = field::edited_card_doc(d2, card, field::set_field_edit(ids.last_seen, msgs[0].date));
                field::law_set_then_get(d2, card, ids.last_seen, msgs[0].date);
                lemma_set_field_wf(d2, card, ids.last_seen, msgs[0].date);
                if !field::card_missing(d3, card) {
                    let d4 = field::edited_card_doc(d3, card, field::set_field_edit(ids.email_count, text::decimal(count as nat)));
                    field::law_set_then_get(d3, card, ids.email_count, text::decimal(count as nat));
                    field::law_set_keeps_other_fields(d3, card, ids.email_count, text::decimal(count as nat), card, ids.last_seen);
                    lemma_set_field_wf(d3, card, ids.email_count, text::decimal(count as nat));
                    if !field::card_missing(d4, card) {
                        field::law_set_then_get(d4, card, ids.provider, msgs[0].provider);
                        field::law_set_keeps_other_fields(d4, card, ids.provider, msgs[0].provider, card, ids.last_seen);
                        field::law_set_keeps_other_fields(d4, card, ids.provider, msgs[0].provider, card, ids.email_count);
                    }
                }
            }
        }
    }
}

} // verus!

//! The command line's own parsing and wording: `--field` assignments,
//! `--where` filters, image types, invite files, mail linking settings, and
//! what the sync daemon reports and re-syncs.
use vstd::prelude::*;
use crate::text;
use crate::mail;
use crate::net;

verus! {

// ---------------------------------------------------------------------------
// `--field NAME=VALUE`
// ---------------------------------------------------------------------------

/// The outcome of reading `--field` assignments: each one's trimmed field
/// name and its value (all after the first `=`), or the message of the first
/// one without `=` or with an empty name.
pub open spec fn field_assignments_of(pairs: Seq<Seq<char>>) -> Result<Seq<(Seq<char>, Seq<char>)>, Seq<char>>
    decreases pairs.len(),
{
    if pairs.len() == 0 {
        Ok(Seq::empty())
    } else {
        match field_assignments_of(pairs.drop_last()) {
            Err(e) => Err(e),
            Ok(done) => {
                let p = pairs.last();
                match text::find_char(p, '=') {
                    None => Err("invalid --field '"@ + p + "': expected FIELD_NAME=VALUE"@),
                    Some(pos) => {
                        let key = text::trim(p.take(pos));
                        if key.len() == 0 {
                            Err("invalid --field '"@ + p + "': field name cannot be empty"@)
                        } else {
                            Ok(done.push((key, p.skip(pos + 1))))
                        }
                    },
                }
            },
        }
    }
}

pub open spec fn pairs_view(v: Seq<(String, String)>) -> Seq<(Seq<char>, Seq<char>)> {
    v.map_values(|p: (String, String)| (p.0@, p.1@))
}

/// Reads `--field FIELD=VALUE` assignments.
pub fn parse_field_assignments(pairs: &[String]) -> (r: Result<Vec<(String, String)>, String>)
    ensures
        match field_assignments_of(net::strings_view(pairs@)) {
            Ok(l) => r matches Ok(v) && pairs_view(v@) == l,
            Err(m) => r matches Err(e) && e@ == m,
        },
{
    let ghost pv = net::strings_view(pairs@);
    let mut result: Vec<(String, String)> = Vec::new();
    let mut i: usize = 0;
    assert(pv.take(0) =~= Seq::<Seq<char>>::empty());
    assert(pairs_view(result@) =~= Seq::<(Seq<char>, Seq<char>)>::empty());
    while i < pairs.len()
        invariant
            i <= pairs@.len(),
            pv == net::strings_view(pairs@),
            field_assignments_of(pv.take(i as int)) == Ok::<Seq<(Seq<char>, Seq<char>)>, Seq<char>>(pairs_view(result@)),
        decreases pairs@.len() - i,
    {
        let pair = &pairs[i];
        proof {
            assert(pv.take(i + 1).drop_last() =~= pv.take(i as int));
            assert(pv.take(i + 1).last() == pair@);
            text::lemma_find_char_bounds(pair@, '=');
        }
        let v = text::chars_of(pair.as_str());
        let n = v.len();
        let pos = match text::find_char_in(v.as_slice(), '=') {
            Some(p) => p,
            None => {
                let mut m = "invalid --field '".to_owned();
                text::push_str(&mut m, pair.as_str());
                text::push_str(&mut m, "': expected FIELD_NAME=VALUE");
                proof {
                    lemma_assignments_stop(pv, i as int + 1);
                }
                return Err(m);
            },
        };
        let head = text::slice_chars(v.as_slice(), 0, pos);
        assert(head@ =~= pair@.take(pos as int));
        let key = text::trim_chars(head.as_slice());
        if key.len() == 0 {
            let mut m = "invalid --field '".to_owned();
            text::push_str(&mut m, pair.as_str());
            text::push_str(&mut m, "': field name cannot be empty");
            proof {
                lemma_assignments_stop(pv, i as int + 1);
            }
            return Err(m);
        }
        let value = text::slice_chars(v.as_slice(), pos + 1, n);
        assert(value@ =~= pair@.skip(pos + 1));
        let ghost before = result@;
        result.push((text::string_of(key.as_slice()), text::string_of(value.as_slice())));
        assert(pairs_view(result@) =~= pairs_view(before).push((key@, value@)));
        i = i + 1;
    }
    assert(pv.take(i as int) =~= pv);
    Ok(result)
}

/// Once an assignment is refused, the outcome of all of them is that refusal.
proof fn lemma_assignments_stop(pairs: Seq<Seq<char>>, k: int)
    requires
        0 < k <= pairs.len(),
        field_assignments_of(pairs.take(k)) is Err,
    ensures
        field_assignments_of(pairs) == field_assignments_of(pairs.take(k)),
    decreases pairs.len() - k,
{
    if k == pairs.len() {
        assert(pairs.take(k) =~= pairs);
    } else {
        assert(pairs.take(k + 1).drop_last() =~= pairs.take(k));
        lemma_assignments_stop(pairs, k + 1);
    }
}

// ---------------------------------------------------------------------------
// `--where FIELD<op>VALUE`
// ---------------------------------------------------------------------------

/// The filter operators, tried in this order.
pub open spec fn filter_ops() -> Seq<Seq<char>> {
    seq![">="@, "<="@, "!="@, ">"@, "<"@, "~"@, "="@]
}

/// The filter that `expr` spells with the first of `ops` that occurs in it
/// after a non-empty field name: (field, operator, value), both trimmed.
pub open spec fn filter_with(expr: Seq<char>, ops: Seq<Seq<char>>) -> Option<(Seq<char>, Seq<char>, Seq<char>)>
    decreases ops.len(),
{
    if ops.len() == 0 {
        None
    } else {
        let op = ops[0];
        match text::find_sub(expr, op) {
            Some(pos) => {
                let field = text::trim(expr.take(pos));
                if field.len() > 0 && 0 <= pos && pos + op.len() <= expr.len() {
                    Some((field, op, text::trim(expr.skip(pos + op.len()))))
                } else {
                    filter_with(expr, ops.skip(1))
                }
            },
            None => filter_with(expr, ops.skip(1)),
        }
    }
}

/// Reads a `--where` filter such as `Stage=Qualified`, `Amount>10000` or
/// `Name~Acme`.
pub fn parse_filter_expr(expr: &str) -> (r: Option<(String, String, String)>)
    ensures
        match r {
            Some((f, o, v)) => filter_with(expr@, filter_ops()) == Some((f@, o@, v@)),
            None => filter_with(expr@, filter_ops()) is None,
        },
{
    proof {
        reveal_strlit(">=");
        reveal_strlit("<=");
        reveal_strlit("!=");
        reveal_strlit(">");
        reveal_strlit("<");
        reveal_strlit("~");
        reveal_strlit("=");
    }
    let ops: [&str; 7] = [">=", "<=", "!=", ">", "<", "~", "="];
    let ghost all = filter_ops();
    let v = text::chars_of(expr);
    let n = v.len();
    let mut k: usize = 0;
    assert(all.skip(0) =~= all);
    while k < 7
        invariant
            k <= 7,
            v@ == expr@,
            n == v@.len(),
            all == filter_ops(),
            forall|j: int| 0 <= j < 7 ==> #[trigger] ops@[j]@ == all[j],
            filter_with(expr@, all) == filter_with(expr@, all.skip(k as int)),
        decreases 7 - k,
    {
        let op = ops[k];
        let ov = text::chars_of(op);
        let ghost rest = all.skip(k as int);
        assert(rest[0] == op@);
        assert(rest.skip(1) =~= all.skip(k + 1));
        proof {
            text::lemma_find_sub_bounds(expr@, op@);
        }
        match text::find_sub_in(v.as_slice(), ov.as_slice()) {
            Some(pos) => {
                assert(text::is_first_occurrence(expr@, op@, pos as int));
                assert(pos + ov@.len() <= v@.len());
                let head = text::slice_chars(v.as_slice(), 0, pos);
                assert(head@ =~= expr@.take(pos as int));
                let field = text::trim_chars(head.as_slice());
                if field.len() > 0 {
                    let tail = text::slice_chars(v.as_slice(), pos + ov.len(), n);
                    assert(tail@ =~= expr@.skip(pos + op@.len()));
                    let value = text::trim_chars(tail.as_slice());
                    return Some((text::string_of(field.as_slice()), op.to_owned(), text::string_of(value.as_slice())));
                }
            },
            None => {},
        }
        k = k + 1;
    }
    None
}

// ---------------------------------------------------------------------------
// Image types
// ---------------------------------------------------------------------------

/// What std `Path::extension` gives for a path text: the part of its file
/// name after the last `.`, where there is one (and the name is not a dot
/// file without another `.`).
pub uninterp spec fn path_extension(p: Seq<char>) -> Option<Seq<char>>;

/// std `Path::new(p).extension()` read as text. Claimed only that the
/// outcome is a function of the text; the component rules are not restated.
#[verifier::external_body]
fn extension_of(p: &str) -> (r: Option<String>)
    ensures
        match r {
            Some(e) => path_extension(p@) == Some(e@),
            None => path_extension(p@) is None,
        },
{
    std::path::Path::new(p).extension().and_then(|e| e.to_str()).map(|e| e.to_owned())
}

/// The image type of a lower-cased extension; PNG where it is not known.
pub open spec fn mime_of_ext(ext: Seq<char>) -> Seq<char> {
    if ext == "png"@ {
        "image/png"@
    } else if ext == "jpg"@ || ext == "jpeg"@ {
        "image/jpeg"@
    } else if ext == "gif"@ {
        "image/gif"@
    } else if ext == "webp"@ {
        "image/webp"@
    } else if ext == "svg"@ {
        "image/svg+xml"@
    } else {
        "image/png"@
    }
}

/// The image type of a file, from its extension in any case.
pub fn mime_from_ext(path: &str) -> (r: &'static str)
    ensures
        r@ == mime_of_ext(text::lowercase(mail::or_text(path_extension(path@), Seq::empty()))),
{
    proof {
        reveal_strlit("");
    }
    let ext = match extension_of(path) {
        Some(e) => e,
        None => String::new(),
    };
    let low = text::to_lowercase(ext.as_str());
    let e = low.as_str();
    if text::str_eq(e, "png") {
        "image/png"
    } else if text::str_eq(e, "jpg") || text::str_eq(e, "jpeg") {
        "image/jpeg"
    } else if text::str_eq(e, "gif") {
        "image/gif"
    } else if text::str_eq(e, "webp") {
        "image/webp"
    } else if text::str_eq(e, "svg") {
        "image/svg+xml"
    } else {
        "image/png"
    }
}

// ---------------------------------------------------------------------------
// Invite files
// ---------------------------------------------------------------------------

/// Whether a `space join` argument names an invite file by its extension.
pub fn has_space_extension(input: &str) -> (r: bool)
    ensures
        r == (input@.len() >= 6 && input@.skip(input@.len() - 6) == ".space"@),
{
    proof {
        reveal_strlit(".space");
    }
    let v = text::chars_of(input);
    if v.len() < 6 {
        return false;
    }
    let tail = text::slice_chars(v.as_slice(), v.len() - 6, v.len());
    assert(tail@ =~= input@.skip(input@.len() - 6));
    text::str_eq_chars(".space", tail.as_slice())
}

/// What an invite file holds: its token (required), the space's name
/// (`Shared Space` when absent) and its document (decoded from base64 when
/// present and valid; none when empty or invalid).
pub open spec fn invite_file_of(
    token: Option<Seq<char>>,
    name: Option<Seq<char>>,
    doc_b64: Option<Seq<char>>,
) -> Result<(Seq<char>, Seq<char>, Option<Seq<u8>>), Seq<char>> {
    match token {
        None => Err("missing or invalid 'token' field in .space file"@),
        Some(t) => {
            let d = mail::or_text(doc_b64, Seq::empty());
            Ok(
                (
                    t,
                    mail::or_text(name, "Shared Space"@),
                    if d.len() == 0 {
                        None
                    } else {
                        mail::base64_standard_decoded(d)
                    },
                ),
            )
        },
    }
}

/// Reads the parts of an invite file: its `token`, `space_name` and
/// `space_doc` values (each present where the file holds a string there).
pub fn invite_file_parts(token: Option<String>, name: Option<String>, doc_b64: Option<String>) -> (r: Result<(String, String, Option<Vec<u8>>), String>)
    ensures
        match invite_file_of(
            crate::field::opt_string_view(token),
            crate::field::opt_string_view(name),
            crate::field::opt_string_view(doc_b64),
        ) {
            Ok((t, n, d)) => r matches Ok((rt, rn, rd)) && rt@ == t && rn@ == n && match rd {
                Some(b) => d == Some(b@),
                None => d is None,
            },
            Err(m) => r matches Err(e) && e@ == m,
        },
{
    proof {
        reveal_strlit("");
    }
    let t = match token {
        Some(t) => t,
        None => return Err("missing or invalid 'token' field in .space file".to_owned()),
    };
    let n = match name {
        Some(n) => n,
        None => "Shared Space".to_owned(),
    };
    let d = match doc_b64 {
        Some(d) => d,
        None => String::new(),
    };
    let bytes = if d.as_str().is_empty() {
        None
    } else {
        mail::base64_decode_standard(d.as_str())
    };
    Ok((t, n, bytes))
}

// ---------------------------------------------------------------------------
// Linking a board to mail
// ---------------------------------------------------------------------------

/// The loopback address that the OAuth flow redirects to.
pub fn redirect_uri(port: u16) -> (r: String)
    ensures
        r@ == "http://127.0.0.1:"@ + text::decimal(port as nat) + "/callback"@,
{
    let mut s = "http://127.0.0.1:".to_owned();
    let d = text::decimal_string(port as u64);
    text::push_str(&mut s, d.as_str());
    text::push_str(&mut s, "/callback");
    s
}

/// A value that is given and not empty.
pub open spec fn nonempty(v: Option<Seq<char>>) -> Option<Seq<char>> {
    match v {
        Some(x) => if x.len() > 0 {
            Some(x)
        } else {
            None
        },
        None => None,
    }
}

/// A client id when linking: the argument, else the environment variable,
/// each if not empty, else the board's current setting.
pub open spec fn resolved_id(arg: Option<Seq<char>>, env: Option<Seq<char>>, existing: Option<Seq<char>>) -> Option<Seq<char>> {
    match nonempty(arg) {
        Some(x) => Some(x),
        None => match nonempty(env) {
            Some(x) => Some(x),
            None => existing,
        },
    }
}

fn nonempty_exec(v: Option<String>) -> (r: Option<String>)
    ensures
        crate::field::opt_string_view(r) == nonempty(crate::field::opt_string_view(v)),
{
    match v {
        Some(x) => if x.as_str().is_empty() {
            None
        } else {
            Some(x)
        },
        None => None,
    }
}

/// Picks a client id when linking a board to mail.
pub fn resolve_client_id(arg: Option<String>, env: Option<String>, existing: Option<String>) -> (r: Option<String>)
    ensures
        crate::field::opt_string_view(r) == resolved_id(
            crate::field::opt_string_view(arg),
            crate::field::opt_string_view(env),
            crate::field::opt_string_view(existing),
        ),
{
    match nonempty_exec(arg) {
        Some(x) => Some(x),
        None => match nonempty_exec(env) {
            Some(x) => Some(x),
            None => existing,
        },
    }
}

/// The tenant when linking: the argument if not empty, else the environment
/// variable (even empty), else the board's current tenant, else `common`.
pub open spec fn resolved_tenant(arg: Option<Seq<char>>, env: Option<Seq<char>>, existing: Option<Seq<char>>) -> Seq<char> {
    match nonempty(arg) {
        Some(x) => x,
        None => match env {
            Some(x) => x,
            None => mail::or_text(existing, "common"@),
        },
    }
}

/// Picks the Outlook tenant when linking a board to mail.
pub fn resolve_tenant(arg: Option<String>, env: Option<String>, existing: Option<String>) -> (r: String)
    ensures
        r@ == resolved_tenant(
            crate::field::opt_string_view(arg),
            crate::field::opt_string_view(env),
            crate::field::opt_string_view(existing),
        ),
{
    match nonempty_exec(arg) {
        Some(x) => x,
        None => match env {
            Some(x) => x,
            None => match existing {
                Some(x) => x,
                None => "common".to_owned(),
            },
        },
    }
}

/// Whether a provider that needs a client id lacks one: Gmail (a provider
/// naming `gmail`, or `both`) without a Gmail id, or the same for Outlook.
pub open spec fn lacks_client_id(provider: Seq<char>, gmail: bool, outlook: bool) -> bool {
    ((text::find_sub(provider, "gmail"@) is Some || provider == "both"@) && !gmail)
        || ((text::find_sub(provider, "outlook"@) is Some || provider == "both"@) && !outlook)
}

/// Whether linking should warn that a provider's client id is missing.
pub fn needs_client_id(provider: &str, config: &mail::MailConfig) -> (r: bool)
    ensures
        r == lacks_client_id(provider@, config.gmail_client_id is Some, config.outlook_client_id is Some),
{
    proof {
        reveal_strlit("gmail");
        reveal_strlit("outlook");
    }
    let v = text::chars_of(provider);
    let g = ['g', 'm', 'a', 'i', 'l'];
    let o = ['o', 'u', 't', 'l', 'o', 'o', 'k'];
    assert(g@ =~= "gmail"@);
    assert(o@ =~= "outlook"@);
    let both = text::str_eq(provider, "both");
    let wants_gmail = text::contains_sub(v.as_slice(), g.as_slice()) || both;
    let wants_outlook = text::contains_sub(v.as_slice(), o.as_slice()) || both;
    (wants_gmail && config.gmail_client_id.is_none()) || (wants_outlook && config.outlook_client_id.is_none())
}

// ---------------------------------------------------------------------------
// The sync daemon
// ---------------------------------------------------------------------------

/// The line the sync daemon prints for an event of the node.
pub open spec fn event_line_of(e: net::NetEventView) -> Seq<char> {
    match e {
        net::NetEventView::PeerConnected { peer_id } => "connected: "@ + peer_id,
        net::NetEventView::PeerDisconnected { peer_id } => "disconnected: "@ + peer_id,
        net::NetEventView::BoardSynced { board_id, peer_id } => "synced board "@ + board_id + " with "@
            + peer_id,
        net::NetEventView::SyncError { board_id, error } => "sync error "@ + board_id + ": "@ + error,
    }
}

/// The line the sync daemon prints for an event of the node.
pub fn event_line(e: &net::NetEvent) -> (r: String)
    ensures
        r@ == event_line_of(e@),
{
    match e {
        net::NetEvent::PeerConnected { peer_id } => {
            let mut s = "connected: ".to_owned();
            text::push_str(&mut s, peer_id.as_str());
            s
        },
        net::NetEvent::PeerDisconnected { peer_id } => {
            let mut s = "disconnected: ".to_owned();
            text::push_str(&mut s, peer_id.as_str());
            s
        },
        net::NetEvent::BoardSynced { board_id, peer_id } => {
            let mut s = "synced board ".to_owned();
            text::push_str(&mut s, board_id.as_str());
            text::push_str(&mut s, " with ");
            text::push_str(&mut s, peer_id.as_str());
            s
        },
        net::NetEvent::SyncError { board_id, error } => {
            let mut s = "sync error ".to_owned();
            text::push_str(&mut s, board_id.as_str());
            text::push_str(&mut s, ": ");
            text::push_str(&mut s, error.as_str());
            s
        },
    }
}

/// The last-modified time recorded for a board in a poll, 0 when absent.
pub open spec fn time_in(seen: Seq<(Seq<char>, i64)>, board: Seq<char>) -> i64
    decreases seen.len(),
{
    if seen.len() == 0 {
        0
    } else if seen[0].0 == board {
        seen[0].1
    } else {
        time_in(seen.skip(1), board)
    }
}

pub open spec fn times_view(v: Seq<(String, i64)>) -> Seq<(Seq<char>, i64)> {
    v.map_values(|p: (String, i64)| (p.0@, p.1))
}

/// The boards of the current poll modified since the previous poll, in the
/// current poll's order.
pub open spec fn changed_boards_of(current: Seq<(Seq<char>, i64)>, previous: Seq<(Seq<char>, i64)>) -> Seq<Seq<char>>
    decreases current.len(),
{
    if current.len() == 0 {
        Seq::empty()
    } else {
        let rest = changed_boards_of(current.drop_last(), previous);
        let (b, t) = current.last();
        if t > time_in(previous, b) {
            rest.push(b)
        } else {
            rest
        }
    }
}

fn time_in_exec(seen: &Vec<(String, i64)>, board: &str) -> (r: i64)
    ensures
        r == time_in(times_view(seen@), board@),
{
    let ghost sv = times_view(seen@);
    let mut i: usize = 0;
    assert(sv.skip(0) =~= sv);
    while i < seen.len()
        invariant
            i <= seen@.len(),
            sv == times_view(seen@),
            time_in(sv, board@) == time_in(sv.skip(i as int), board@),
        decreases seen@.len() - i,
    {
        assert(sv.skip(i as int)[0] == (seen@[i as int].0@, seen@[i as int].1));
        if text::str_eq(seen[i].0.as_str(), board) {
            return seen[i].1;
        }
        assert(sv.skip(i as int).skip(1) =~= sv.skip(i + 1));
        i = i + 1;
    }
    0
}

/// The boards that changed between two polls of the store, to sync again.
pub fn changed_boards(current: &Vec<(String, i64)>, previous: &Vec<(String, i64)>) -> (r: Vec<String>)
    ensures
        net::strings_view(r@) == changed_boards_of(times_view(current@), times_view(previous@)),
{
    let ghost cv = times_view(current@);
    let mut r: Vec<String> = Vec::new();
    let mut i: usize = 0;
    while i < current.len()
        invariant
            i <= current@.len(),
            cv == times_view(current@),
            net::strings_view(r@) == changed_boards_of(cv.take(i as int), times_view(previous@)),
        decreases current@.len() - i,
    {
        proof {
            assert(cv.take(i + 1).drop_last() =~= cv.take(i as int));
            assert(cv.take(i + 1).last() == (current@[i as int].0@, current@[i as int].1));
        }
        let old_ts = time_in_exec(previous, current[i].0.as_str());
        if current[i].1 > old_ts {
            let ghost before = r@;
            r.push(current[i].0.clone());
            assert(net::strings_view(r@) =~= net::strings_view(before).push(current@[i as int].0@));
        }
        i = i + 1;
    }
    assert(cv.take(i as int) =~= cv);
    r
}


// ---------------------------------------------------------------------------
// Laws of the filter parser
// ---------------------------------------------------------------------------

/// A character that can be part of a filter operator.
pub open spec fn is_operator_char(c: char) -> bool {
    c == '=' || c == '<' || c == '>' || c == '!' || c == '~'
}

/// No character of `s` can be part of a filter operator.
pub open spec fn operator_free(s: Seq<char>) -> bool {
    forall|i: int| 0 <= i < s.len() ==> !is_operator_char(#[trigger] s[i])
}

proof fn lemma_ops_literals()
    ensures
        filter_ops().len() == 7,
        filter_ops()[0] == seq!['>', '='],
        filter_ops()[1] == seq!['<', '='],
        filter_ops()[2] == seq!['!', '='],
        filter_ops()[3] == seq!['>'],
        filter_ops()[4] == seq!['<'],
        filter_ops()[5] == seq!['~'],
        filter_ops()[6] == seq!['='],
{
    reveal_strlit(">=");
    reveal_strlit("<=");
    reveal_strlit("!=");
    reveal_strlit(">");
    reveal_strlit("<");
    reveal_strlit("~");
    reveal_strlit("=");
    assert(">="@ =~= seq!['>', '=']);
    assert("<="@ =~= seq!['<', '=']);
    assert("!="@ =~= seq!['!', '=']);
    assert(">"@ =~= seq!['>']);
    assert("<"@ =~= seq!['<']);
    assert("~"@ =~= seq!['~']);
    assert("="@ =~= seq!['=']);
}

proof fn lemma_filter_none(e: Seq<char>, ops: Seq<Seq<char>>)
    requires
        forall|q: int| 0 <= q < ops.len() ==> text::find_sub(e, #[trigger] ops[q]) is None,
    ensures
        filter_with(e, ops) is None,
    decreases ops.len(),
{
    if ops.len() > 0 {
        assert forall|q: int| 0 <= q < ops.skip(1).len() implies text::find_sub(e, #[trigger] ops.skip(1)[q]) is None by {
            assert(ops.skip(1)[q] == ops[q + 1]);
        }
        assert(text::find_sub(e, ops[0]) is None);
        lemma_filter_none(e, ops.skip(1));
    }
}

/// An expression with none of `=`, `<`, `>` and `~` is no filter.
pub proof fn law_no_operator_no_filter(e: Seq<char>)
    requires
        forall|i: int| 0 <= i < e.len() ==> #[trigger] e[i] != '=' && e[i] != '<' && e[i] != '>' && e[i] != '~',
    ensures
        filter_with(e, filter_ops()) is None,
{
    lemma_ops_literals();
    let ops = filter_ops();
    assert forall|q: int| 0 <= q < ops.len() implies text::find_sub(e, #[trigger] ops[q]) is None by {
        text::lemma_find_sub_bounds(e, ops[q]);
        if let Some(k) = text::find_sub(e, ops[q]) {
            let o = ops[q];
            assert(e.subrange(k, k + o.len()) == o);
            let j: int = if q == 2 { 1 } else { 0 };
            assert(e.subrange(k, k + o.len())[j] == e[k + j]);
            assert(e[k + j] == o[j]);
        }
    }
    lemma_filter_none(e, ops);
}

/// A filter written as field, operator and value, where neither the field
/// nor the value holds an operator character and the field is not blank,
/// reads back as the trimmed field, the operator and the trimmed value.
pub proof fn law_filter_round_trip(f: Seq<char>, op: Seq<char>, v: Seq<char>)
    requires
        filter_ops().contains(op),
        text::trim(f).len() > 0,
        operator_free(f),
        operator_free(v),
    ensures
        filter_with(f + op + v, filter_ops()) == Some((text::trim(f), op, text::trim(v))),
{
    lemma_ops_literals();
    let ops = filter_ops();
    let e = f + op + v;
    let fl = f.len() as int;
    let p = choose|p: int| 0 <= p < ops.len() && ops[p] == op;
    assert(ops[p] == op);
    // Every character of an operator is an operator character.
    assert forall|q: int, j: int| 0 <= q < 7 && 0 <= j < ops[q].len() implies is_operator_char(#[trigger] ops[q][j]) by {}
    // The operator characters of `e` are those of `op`.
    assert forall|i: int| 0 <= i < e.len() && is_operator_char(#[trigger] e[i]) implies fl <= i < fl + op.len() by {
        if i < fl {
            assert(e[i] == f[i]);
        } else if i >= fl + op.len() {
            assert(e[i] == v[i - fl - op.len()]);
        }
    }
    // No earlier operator occurs in `e`.
    assert forall|q: int| 0 <= q < p implies text::find_sub(e, #[trigger] ops[q]) is None by {
        text::lemma_find_sub_bounds(e, ops[q]);
        if let Some(k) = text::find_sub(e, ops[q]) {
            let o = ops[q];
            assert(e.subrange(k, k + o.len()) == o);
            assert(e[k] == o[0]);
            assert(is_operator_char(o[0]));
            assert(fl <= k);
            assert(e[k + o.len() - 1] == o[o.len() - 1]);
            assert(is_operator_char(o[o.len() - 1]));
            assert(k + o.len() - 1 < fl + op.len());
            assert(e[k] == op[k - fl]);
            if o.len() == 2 {
                assert(e[k + 1] == op[k + 1 - fl]);
            }
        }
    }
    // `op` first occurs where it was written.
    assert(e.subrange(fl, fl + op.len()) =~= op);
    assert forall|j: int| 0 <= j < fl implies !text::occurs_at(e, op, j) by {
        if text::occurs_at(e, op, j) {
            assert(e.subrange(j, j + op.len())[0] == e[j]);
            assert(e[j] == f[j]);
            assert(is_operator_char(op[0]));
        }
    }
    text::lemma_find_sub_some(e, op, fl);
    assert(e.take(fl) =~= f);
    assert(e.skip(fl + op.len()) =~= v);
    // Unfold the search over the operators up to `op`.
    assert forall|k: int| 0 <= k <= p implies filter_with(e, ops.skip(k)) == filter_with(e, ops.skip(p)) by {
        lemma_filter_skip(e, ops, k, p);
    }
    assert(ops.skip(0) =~= ops);
    assert(ops.skip(p)[0] == op);
}

proof fn lemma_filter_skip(e: Seq<char>, ops: Seq<Seq<char>>, k: int, p: int)
    requires
        0 <= k <= p < ops.len(),
        forall|q: int| 0 <= q < p ==> text::find_sub(e, #[trigger] ops[q]) is None,
    ensures
        filter_with(e, ops.skip(k)) == filter_with(e, ops.skip(p)),
    decreases p - k,
{
    if k < p {
        assert(ops.skip(k)[0] == ops[k]);
        assert(ops.skip(k).skip(1) =~= ops.skip(k + 1));
        lemma_filter_skip(e, ops, k + 1, p);
    }
}


// ---------------------------------------------------------------------------
// Laws of the field assignments
// ---------------------------------------------------------------------------

/// A `--field` pair that is refused: no `=`, or a blank name before it.
pub open spec fn bad_assignment(p: Seq<char>) -> bool {
    match text::find_char(p, '=') {
        None => true,
        Some(pos) => text::trim(p.take(pos)).len() == 0,
    }
}

/// The assignment a good pair gives: the trimmed name before the first `=`
/// and all after it.
pub open spec fn assignment_of(p: Seq<char>) -> (Seq<char>, Seq<char>) {
    let pos = text::find_char(p, '=')->0;
    (text::trim(p.take(pos)), p.skip(pos + 1))
}

/// Reading `--field` pairs fails exactly when some pair is refused; else it
/// gives each pair's assignment, in order.
pub proof fn law_field_assignments(ps: Seq<Seq<char>>)
    ensures
        field_assignments_of(ps) is Err <==> exists|i: int| 0 <= i < ps.len() && bad_assignment(#[trigger] ps[i]),
        field_assignments_of(ps) matches Ok(v) ==> v.len() == ps.len() && forall|i: int|
            0 <= i < ps.len() ==> #[trigger] v[i] == assignment_of(ps[i]),
    decreases ps.len(),
{
    if ps.len() > 0 {
        let pre = ps.drop_last();
        law_field_assignments(pre);
        let n = ps.len() - 1;
        assert(ps.last() == ps[n]);
        if exists|i: int| 0 <= i < pre.len() && bad_assignment(#[trigger] pre[i]) {
            let i = choose|i: int| 0 <= i < pre.len() && bad_assignment(#[trigger] pre[i]);
            assert(ps[i] == pre[i]);
        }
        if exists|i: int| 0 <= i < ps.len() && bad_assignment(#[trigger] ps[i]) {
            let i = choose|i: int| 0 <= i < ps.len() && bad_assignment(#[trigger] ps[i]);
            if i < n {
                assert(pre[i] == ps[i]);
            }
        }
        if field_assignments_of(pre) is Ok {
            let done = field_assignments_of(pre)->Ok_0;
            if !bad_assignment(ps[n]) {
                let v = done.push(assignment_of(ps[n]));
                assert forall|i: int| 0 <= i < ps.len() implies #[trigger] v[i] == assignment_of(ps[i]) by {
                    if i < n {
                        assert(pre[i] == ps[i]);
                    }
                }
            }
        }
    }
}

} // verus!

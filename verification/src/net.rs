//! Peer-to-peer board sync: the wire messages and their framing, the
//! protocol-version handshake, the responder's answers, LAN announcements,
//! peer addresses, and the decisions of the sync node's event loop.
use vstd::prelude::*;
use crate::text;
use crate::clock;

verus! {

// ---------------------------------------------------------------------------
// Protocol constants
// ---------------------------------------------------------------------------

/// The major protocol version; peers with another major version do not sync.
pub const PROTOCOL_MAJOR: u16 = 1;

/// The largest frame payload accepted, in bytes (10 MiB).
pub const MAX_MSG_SIZE: u32 = 10485760;

/// The UDP port of LAN announcements.
pub const LAN_DISCOVERY_PORT: u16 = 7273;

/// The ALPN identifier of the board-sync protocol.
pub open spec fn protocol_alpn_text() -> Seq<char> {
    "/monotask/board-sync/1.0.0"@
}

/// The ALPN identifier of the board-sync protocol, as bytes.
pub fn protocol_alpn() -> (r: Vec<u8>)
    ensures
        r@ == vstd::utf8::encode_utf8(protocol_alpn_text()),
{
    let s = "/monotask/board-sync/1.0.0";
    let b = s.as_bytes();
    let mut r: Vec<u8> = Vec::new();
    let mut i: usize = 0;
    while i < b.len()
        invariant
            i <= b@.len(),
            r@ == b@.take(i as int),
        decreases b@.len() - i,
    {
        r.push(b[i]);
        i = i + 1;
        assert(r@ =~= b@.take(i as int));
    }
    assert(b@.take(i as int) =~= b@);
    r
}

// ---------------------------------------------------------------------------
// Wire messages
// ---------------------------------------------------------------------------

/// The first frame of every connection: the sender's major version.
#[derive(Debug, Clone)]
pub struct VersionHello {
    pub major: u16,
}

/// The answer to a `VersionHello`: an empty reason accepts, any other refuses.
#[derive(Debug, Clone)]
pub struct VersionReject {
    pub reason: String,
    pub their_major: u16,
    pub our_major: u16,
}

/// What the initiator of a stream asks.
#[derive(Debug, Clone)]
pub enum SyncRequest {
    /// Presence heartbeat: the sender's key, status and display name.
    Presence { pubkey: String, status: String, display_name: String },
    /// Proof of space membership, with the sender's boards of the space and
    /// its space document (empty when not available).
    Hello { space_id: String, board_ids: Vec<String>, signature: Vec<u8>, space_doc_bytes: Vec<u8> },
    /// One round of document sync for a board.
    BoardSync { board_id: String, sync_message: Vec<u8> },
}

/// What the responder of a stream answers.
#[derive(Debug, Clone)]
pub enum SyncResponse {
    /// Hello accepted: the responder's boards of the space and its space document.
    HelloAck { space_id: String, board_ids: Vec<String>, space_doc_bytes: Vec<u8> },
    /// One round of document sync in reply; `None` once this side has converged.
    BoardSync { board_id: String, sync_message: Option<Vec<u8>> },
    /// Refused: not in the same space, bad signature, or the member is kicked.
    Rejected { reason: String },
}

pub enum SyncResponseView {
    HelloAck { space_id: Seq<char>, board_ids: Seq<Seq<char>>, space_doc_bytes: Seq<u8> },
    BoardSync { board_id: Seq<char>, sync_message: Option<Seq<u8>> },
    Rejected { reason: Seq<char> },
}

pub open spec fn strings_view(v: Seq<String>) -> Seq<Seq<char>> {
    v.map_values(|s: String| s@)
}

pub enum SyncRequestView {
    Presence { pubkey: Seq<char>, status: Seq<char>, display_name: Seq<char> },
    Hello { space_id: Seq<char>, board_ids: Seq<Seq<char>>, signature: Seq<u8>, space_doc_bytes: Seq<u8> },
    BoardSync { board_id: Seq<char>, sync_message: Seq<u8> },
}

impl View for SyncRequest {
    type V = SyncRequestView;

    open spec fn view(&self) -> SyncRequestView {
        match self {
            SyncRequest::Presence { pubkey, status, display_name } => SyncRequestView::Presence {
                pubkey: pubkey@,
                status: status@,
                display_name: display_name@,
            },
            SyncRequest::Hello { space_id, board_ids, signature, space_doc_bytes } => SyncRequestView::Hello {
                space_id: space_id@,
                board_ids: strings_view(board_ids@),
                signature: signature@,
                space_doc_bytes: space_doc_bytes@,
            },
            SyncRequest::BoardSync { board_id, sync_message } => SyncRequestView::BoardSync {
                board_id: board_id@,
                sync_message: sync_message@,
            },
        }
    }
}

impl View for SyncResponse {
    type V = SyncResponseView;

    open spec fn view(&self) -> SyncResponseView {
        match self {
            SyncResponse::HelloAck { space_id, board_ids, space_doc_bytes } => SyncResponseView::HelloAck {
                space_id: space_id@,
                board_ids: strings_view(board_ids@),
                space_doc_bytes: space_doc_bytes@,
            },
            SyncResponse::BoardSync { board_id, sync_message } => SyncResponseView::BoardSync {
                board_id: board_id@,
                sync_message: match sync_message {
                    Some(b) => Some(b@),
                    None => None,
                },
            },
            SyncResponse::Rejected { reason } => SyncResponseView::Rejected { reason: reason@ },
        }
    }
}

// ---------------------------------------------------------------------------
// Framing: a 4-byte big-endian length, then the CBOR payload
// ---------------------------------------------------------------------------

/// The big-endian bytes of a 32-bit number.
pub open spec fn be_bytes_u32(x: u32) -> Seq<u8> {
    seq![
        (x / 0x1000000) as u8,
        ((x / 0x10000) % 0x100) as u8,
        ((x / 0x100) % 0x100) as u8,
        (x % 0x100) as u8,
    ]
}

/// The number that four big-endian bytes encode.
pub open spec fn be_value_u32(b: Seq<u8>) -> int {
    b[0] * 0x1000000 + b[1] * 0x10000 + b[2] * 0x100 + b[3]
}

/// A frame: the payload's length, truncated to 32 bits as a `u32` cast
/// truncates, in big-endian bytes, then the payload.
pub open spec fn framed(payload: Seq<u8>) -> Seq<u8> {
    be_bytes_u32((payload.len() % 0x1_0000_0000) as u32) + payload
}

/// The frame that carries `payload`.
pub fn frame(payload: &[u8]) -> (r: Vec<u8>)
    ensures
        r@ == framed(payload@),
{
    let n: u64 = payload.len() as u64;
    let len: u32 = (n % 4294967296) as u32;
    let mut r: Vec<u8> = Vec::new();
    r.push((len / 0x1000000) as u8);
    r.push(((len / 0x10000) % 0x100) as u8);
    r.push(((len / 0x100) % 0x100) as u8);
    r.push((len % 0x100) as u8);
    let mut i: usize = 0;
    let ghost head = r@;
    assert(head == be_bytes_u32(len));
    while i < payload.len()
        invariant
            i <= payload@.len(),
            r@ == head + payload@.take(i as int),
        decreases payload@.len() - i,
    {
        r.push(payload[i]);
        i = i + 1;
        assert(r@ =~= head + payload@.take(i as int));
    }
    assert(payload@.take(i as int) =~= payload@);
    r
}

/// Why a frame is refused.
#[derive(Debug, Clone)]
pub enum FrameError {
    /// The announced payload length exceeds `MAX_MSG_SIZE`.
    TooLarge(u32),
}

impl FrameError {
    /// The message of the error.
    pub fn message(&self) -> (s: String)
        ensures
            match self {
                FrameError::TooLarge(n) => s@ == "message too large: "@ + text::decimal(*n as nat)
                    + " bytes (max 10485760)"@,
            },
    {
        match self {
            FrameError::TooLarge(n) => {
                let mut s = "message too large: ".to_owned();
                let d = text::decimal_string(*n as u64);
                text::push_str(&mut s, d.as_str());
                text::push_str(&mut s, " bytes (max 10485760)");
                s
            },
        }
    }
}

/// The payload length that a frame header announces, refused above
/// `MAX_MSG_SIZE`.
pub fn frame_length(header: &[u8]) -> (r: Result<u32, FrameError>)
    requires
        header@.len() == 4,
    ensures
        be_value_u32(header@) <= MAX_MSG_SIZE ==> r == Ok::<u32, FrameError>(be_value_u32(header@) as u32),
        be_value_u32(header@) > MAX_MSG_SIZE ==> (r matches Err(FrameError::TooLarge(n)) && n
            == be_value_u32(header@)),
{
    let len: u32 = (header[0] as u32) * 0x1000000 + (header[1] as u32) * 0x10000 + (header[2] as u32)
        * 0x100 + (header[3] as u32);
    if len > MAX_MSG_SIZE {
        Err(FrameError::TooLarge(len))
    } else {
        Ok(len)
    }
}

/// A frame's header decodes to the length of the payload it was made for,
/// for every payload that a frame can carry.
pub proof fn law_frame_header_round_trip(payload: Seq<u8>)
    requires
        payload.len() <= MAX_MSG_SIZE,
    ensures
        be_value_u32(framed(payload).take(4)) == payload.len(),
{
    let n = payload.len();
    let x = (n % 0x1_0000_0000) as u32;
    assert(x == n);
    let h = framed(payload).take(4);
    assert(h =~= be_bytes_u32(x));
    assert(be_value_u32(h) == x) by (nonlinear_arith)
        requires
            h[0] == (x / 0x1000000) as u8,
            h[1] == ((x / 0x10000) % 0x100) as u8,
            h[2] == ((x / 0x100) % 0x100) as u8,
            h[3] == (x % 0x100) as u8,
            be_value_u32(h) == h[0] * 0x1000000 + h[1] * 0x10000 + h[2] * 0x100 + h[3],
    ;
}

// ---------------------------------------------------------------------------
// The version handshake
// ---------------------------------------------------------------------------

/// Why a peer of another major version is refused.
pub open spec fn version_reason(their_major: u16) -> Seq<char> {
    "incompatible major version: we speak 1, you speak "@ + text::decimal(their_major as nat)
}

/// The reason of the acceptor's answer: empty for our major version.
pub open spec fn reply_reason(their_major: u16) -> Seq<char> {
    if their_major == PROTOCOL_MAJOR {
        Seq::empty()
    } else {
        version_reason(their_major)
    }
}

/// The acceptor's answer to a `VersionHello`: an empty reason for our major
/// version, the incompatibility otherwise.
pub fn version_reply(hello: &VersionHello) -> (r: VersionReject)
    ensures
        r.their_major == hello.major,
        r.our_major == PROTOCOL_MAJOR,
        r.reason@ == reply_reason(hello.major),
{
    if hello.major != PROTOCOL_MAJOR {
        let mut reason = "incompatible major version: we speak 1, you speak ".to_owned();
        let d = text::decimal_string(hello.major as u64);
        text::push_str(&mut reason, d.as_str());
        VersionReject { reason, their_major: hello.major, our_major: PROTOCOL_MAJOR }
    } else {
        VersionReject { reason: String::new(), their_major: hello.major, our_major: PROTOCOL_MAJOR }
    }
}

/// Both ends of the handshake agree: the dialer goes on after the acceptor's
/// answer exactly when the acceptor goes on, that is when the major versions
/// are equal.
pub proof fn law_handshake_agrees(their_major: u16)
    ensures
        (reply_reason(their_major).len() == 0) == (their_major == PROTOCOL_MAJOR),
{
    reveal_strlit("incompatible major version: we speak 1, you speak ");
}

/// Whether the acceptor goes on after a `VersionHello`.
pub fn version_accepted(hello: &VersionHello) -> (r: bool)
    ensures
        r == (hello.major == PROTOCOL_MAJOR),
{
    hello.major == PROTOCOL_MAJOR
}

/// Whether the dialer goes on after its `VersionHello`: unless it read a
/// reply with a non-empty reason (an unreadable reply does not stop it).
pub fn dial_accepted(reply: &Option<VersionReject>) -> (r: bool)
    ensures
        r == (match reply {
            Some(rej) => rej.reason@.len() == 0,
            None => true,
        }),
{
    match reply {
        Some(rej) => rej.reason.as_str().is_empty(),
        None => true,
    }
}

// ---------------------------------------------------------------------------
// The responder's answers
// ---------------------------------------------------------------------------

/// The answer to a `Hello`: refused for a bad signature, then for a sender
/// that is not an active member of the space; else the responder's boards of
/// the space and its space document.
pub fn hello_response(
    signature_ok: bool,
    is_member: bool,
    space_id: String,
    board_ids: Vec<String>,
    space_doc_bytes: Vec<u8>,
) -> (r: SyncResponse)
    ensures
        !signature_ok ==> r@ == (SyncResponseView::Rejected { reason: "bad signature"@ }),
        signature_ok && !is_member ==> r@ == (SyncResponseView::Rejected { reason: "not a member"@ }),
        signature_ok && is_member ==> r@ == (SyncResponseView::HelloAck {
            space_id: space_id@,
            board_ids: strings_view(board_ids@),
            space_doc_bytes: space_doc_bytes@,
        }),
{
    if !signature_ok {
        return SyncResponse::Rejected { reason: "bad signature".to_owned() };
    }
    if !is_member {
        return SyncResponse::Rejected { reason: "not a member".to_owned() };
    }
    SyncResponse::HelloAck { space_id, board_ids, space_doc_bytes }
}

/// The answer to a `BoardSync`: the reply round (none once converged), or
/// the refusal with the error of applying the peer's round.
pub fn board_sync_response(board_id: String, outcome: Result<Option<Vec<u8>>, String>) -> (r: SyncResponse)
    ensures
        match outcome {
            Ok(reply) => r@ == (SyncResponseView::BoardSync {
                board_id: board_id@,
                sync_message: match reply {
                    Some(b) => Some(b@),
                    None => None,
                },
            }),
            Err(e) => r@ == (SyncResponseView::Rejected { reason: e@ }),
        },
{
    match outcome {
        Ok(reply) => SyncResponse::BoardSync { board_id, sync_message: reply },
        Err(e) => SyncResponse::Rejected { reason: e },
    }
}

/// The answer to a presence heartbeat: an empty sync round.
pub fn presence_response() -> (r: SyncResponse)
    ensures
        r@ == (SyncResponseView::BoardSync { board_id: Seq::empty(), sync_message: None }),
{
    SyncResponse::BoardSync { board_id: String::new(), sync_message: None }
}

// ---------------------------------------------------------------------------
// Sync state keys
// ---------------------------------------------------------------------------

/// The key of the sync state of one board with one peer: `i/` for the
/// initiator role, `r/` for the responder role.
pub open spec fn state_key(initiator: bool, peer: Seq<char>, board: Seq<char>) -> Seq<char> {
    (if initiator { "i/"@ } else { "r/"@ }) + peer + "/"@ + board
}

/// The key of the sync state of board `board` with peer `peer`.
pub fn sync_state_key(initiator: bool, peer: &str, board: &str) -> (r: String)
    ensures
        r@ == state_key(initiator, peer@, board@),
{
    let mut k = if initiator {
        "i/".to_owned()
    } else {
        "r/".to_owned()
    };
    text::push_str(&mut k, peer);
    text::push_str(&mut k, "/");
    text::push_str(&mut k, board);
    k
}

/// The keys kept when the states are filtered by `keep`, in order.
pub open spec fn kept_keys(keys: Seq<Seq<char>>, keep: spec_fn(Seq<char>) -> bool) -> Seq<Seq<char>> {
    keys.filter(keep)
}

/// The sync states kept when a peer disconnects: those whose key does not
/// mention the peer.
pub open spec fn not_of_peer(peer: Seq<char>) -> spec_fn(Seq<char>) -> bool {
    |k: Seq<char>| text::find_sub(k, peer) is None
}

/// The sync states kept when the spaces are announced again: the responder ones.
pub open spec fn not_initiator() -> spec_fn(Seq<char>) -> bool {
    |k: Seq<char>| !text::starts_with(k, "i/"@)
}

/// The state keys that survive the disconnection of `peer`.
pub fn keys_after_disconnect(keys: &Vec<String>, peer: &str) -> (r: Vec<String>)
    ensures
        strings_view(r@) == strings_view(keys@).filter(not_of_peer(peer@)),
{
    let pv = text::chars_of(peer);
    let ghost kv = strings_view(keys@);
    let mut r: Vec<String> = Vec::new();
    let mut i: usize = 0;
    while i < keys.len()
        invariant
            i <= keys@.len(),
            pv@ == peer@,
            kv == strings_view(keys@),
            strings_view(r@) == kv.take(i as int).filter(not_of_peer(peer@)),
        decreases keys@.len() - i,
    {
        let k = text::chars_of(keys[i].as_str());
        let found = text::contains_sub(k.as_slice(), pv.as_slice());
        proof {
            assert(kv.take(i + 1).drop_last() =~= kv.take(i as int));
            assert(kv.take(i + 1).last() == keys@[i as int]@);
            reveal(Seq::filter);
        }
        if !found {
            r.push(keys[i].clone());
        }
        i = i + 1;
    }
    assert(kv.take(i as int) =~= kv);
    r
}

/// The state keys that survive announcing the spaces again: the responder ones.
pub fn keys_after_rehello(keys: &Vec<String>) -> (r: Vec<String>)
    ensures
        strings_view(r@) == strings_view(keys@).filter(not_initiator()),
{
    proof {
        reveal_strlit("i/");
    }
    let pre = ['i', '/'];
    assert(pre@ =~= "i/"@);
    let ghost kv = strings_view(keys@);
    let mut r: Vec<String> = Vec::new();
    let mut i: usize = 0;
    while i < keys.len()
        invariant
            i <= keys@.len(),
            pre@ == "i/"@,
            kv == strings_view(keys@),
            strings_view(r@) == kv.take(i as int).filter(not_initiator()),
        decreases keys@.len() - i,
    {
        let k = text::chars_of(keys[i].as_str());
        let init = text::starts_with_exec(k.as_slice(), pre.as_slice());
        proof {
            assert(kv.take(i + 1).drop_last() =~= kv.take(i as int));
            assert(kv.take(i + 1).last() == keys@[i as int]@);
            reveal(Seq::filter);
        }
        if !init {
            r.push(keys[i].clone());
        }
        i = i + 1;
    }
    assert(kv.take(i as int) =~= kv);
    r
}

// ---------------------------------------------------------------------------
// Hexadecimal node ids (the hex crate)
// ---------------------------------------------------------------------------

/// What `hex::decode` gives for a text: the bytes that each pair of
/// hexadecimal digits (either case) spells; nothing for an odd length or a
/// character that is not a hexadecimal digit.
pub open spec fn hex_decoded(s: Seq<char>) -> Option<Seq<u8>> {
    if (forall|i: int| 0 <= i < s.len() ==> clock::is_hex_digit(#[trigger] s[i])) && s.len() % 2 == 0 {
        Some(
            Seq::new(
                s.len() / 2,
                |i: int|
                    (clock::hex_digit_value(s[2 * i]) * 16 + clock::hex_digit_value(s[2 * i + 1])) as u8,
            ),
        )
    } else {
        None
    }
}

/// What `hex::encode` gives for bytes: two lowercase hexadecimal digits per
/// byte, high digit first.
pub open spec fn hex_encoded(b: Seq<u8>) -> Seq<char> {
    Seq::new(
        b.len() * 2,
        |i: int|
            if i % 2 == 0 {
                text::hex_digit_lower((b[i / 2] / 16) as nat)
            } else {
                text::hex_digit_lower((b[i / 2] % 16) as nat)
            },
    )
}

/// hex `decode`: the bytes a hexadecimal text spells. Claimed as the crate's
/// source shows it (odd length and non-digits refused, either case accepted).
#[verifier::external_body]
fn hex_decode(s: &str) -> (r: Option<Vec<u8>>)
    ensures
        match r {
            Some(b) => hex_decoded(s@) == Some(b@),
            None => hex_decoded(s@) is None,
        },
{
    hex::decode(s).ok()
}

/// hex `encode`: lowercase hexadecimal text of bytes. Claimed as the crate's
/// source shows it.
#[verifier::external_body]
fn hex_encode(b: &[u8]) -> (r: String)
    ensures
        r@ == hex_encoded(b@),
{
    hex::encode(b)
}

/// The 32 bytes of a node id written in hexadecimal.
pub open spec fn node_id_of(s: Seq<char>) -> Option<Seq<u8>> {
    match hex_decoded(s) {
        Some(b) => if b.len() == 32 {
            Some(b)
        } else {
            None
        },
        None => None,
    }
}

/// The 32 bytes of a node id written in hexadecimal, if it is one.
pub fn node_id_bytes(s: &str) -> (r: Option<Vec<u8>>)
    ensures
        match r {
            Some(b) => node_id_of(s@) == Some(b@),
            None => node_id_of(s@) is None,
        },
{
    match hex_decode(s) {
        Some(b) => if b.len() == 32 {
            Some(b)
        } else {
            None
        },
        None => None,
    }
}

/// The parts of a peer address `<node id>` or `<node id>@<socket address>`:
/// the node id's bytes and the socket address text, if any. Nothing where the
/// node id is not 64 hexadecimal digits.
pub open spec fn peer_addr_parts_of(s: Seq<char>) -> Option<(Seq<u8>, Option<Seq<char>>)> {
    match text::find_char(s, '@') {
        Some(k) => if 0 <= k < s.len() {
            match node_id_of(s.take(k)) {
                Some(id) => Some((id, Some(s.skip(k + 1)))),
                None => None,
            }
        } else {
            None
        },
        None => match node_id_of(s) {
            Some(id) => Some((id, None)),
            None => None,
        },
    }
}

/// Splits a peer address into its node id's bytes and its socket address text.
pub fn peer_addr_parts(s: &str) -> (r: Option<(Vec<u8>, Option<String>)>)
    ensures
        match r {
            Some((id, addr)) => peer_addr_parts_of(s@) == Some(
                (
                    id@,
                    match addr {
                        Some(a) => Some(a@),
                        None => None,
                    },
                ),
            ),
            None => peer_addr_parts_of(s@) is None,
        },
{
    let v = text::chars_of(s);
    let n = v.len();
    proof {
        text::lemma_find_char_bounds(v@, '@');
    }
    match text::find_char_in(v.as_slice(), '@') {
        Some(k) => {
            let id_part = text::slice_chars(v.as_slice(), 0, k);
            let addr_part = text::slice_chars(v.as_slice(), k + 1, n);
            assert(id_part@ =~= s@.take(k as int));
            assert(addr_part@ =~= s@.skip(k + 1));
            let id_s = text::string_of(id_part.as_slice());
            match node_id_bytes(id_s.as_str()) {
                Some(id) => Some((id, Some(text::string_of(addr_part.as_slice())))),
                None => None,
            }
        },
        None => match node_id_bytes(s) {
            Some(id) => Some((id, None)),
            None => None,
        },
    }
}

// ---------------------------------------------------------------------------
// LAN announcements: 32 bytes of node id, then the port, big-endian
// ---------------------------------------------------------------------------

/// The announcement of a node: its id's 32 bytes and its port in big-endian.
pub open spec fn announce_of(node_id: Seq<u8>, port: u16) -> Seq<u8> {
    node_id + seq![(port / 256) as u8, (port % 256) as u8]
}

/// The announcement packet of the node whose id is `our_node_id_hex`;
/// nothing where that is not a 32-byte hexadecimal id.
pub fn announce_packet(our_node_id_hex: &str, port: u16) -> (r: Option<Vec<u8>>)
    ensures
        match node_id_of(our_node_id_hex@) {
            Some(id) => r matches Some(p) && p@ == announce_of(id, port) && p@.len() == 34,
            None => r is None,
        },
{
    let mut pkt = match node_id_bytes(our_node_id_hex) {
        Some(b) => b,
        None => return None,
    };
    pkt.push((port / 256) as u8);
    pkt.push((port % 256) as u8);
    Some(pkt)
}

/// The port that an announcement carries.
pub fn announce_port(pkt: &[u8]) -> (r: u16)
    requires
        pkt@.len() >= 34,
    ensures
        r == pkt@[32] * 256 + pkt@[33],
{
    (pkt[32] as u16) * 256 + (pkt[33] as u16)
}

/// What a received announcement tells: the sender's node id in hexadecimal
/// and its port; nothing for a packet under 34 bytes or for our own.
pub open spec fn heard_peer(pkt: Seq<u8>, our_hex: Seq<char>) -> Option<(Seq<char>, u16)> {
    if pkt.len() < 34 {
        None
    } else {
        let id = hex_encoded(pkt.take(32));
        if id == our_hex {
            None
        } else {
            Some((id, (pkt[32] * 256 + pkt[33]) as u16))
        }
    }
}

/// The peer that a received announcement tells of, unless it is our own.
pub fn parse_announce(pkt: &[u8], our_node_id_hex: &str) -> (r: Option<(String, u16)>)
    ensures
        match r {
            Some((id, port)) => heard_peer(pkt@, our_node_id_hex@) == Some((id@, port)),
            None => heard_peer(pkt@, our_node_id_hex@) is None,
        },
{
    if pkt.len() < 34 {
        return None;
    }
    let mut head: Vec<u8> = Vec::new();
    let mut i: usize = 0;
    while i < 32
        invariant
            i <= 32,
            pkt@.len() >= 34,
            head@ == pkt@.take(i as int),
        decreases 32 - i,
    {
        head.push(pkt[i]);
        i = i + 1;
        assert(head@ =~= pkt@.take(i as int));
    }
    let id = hex_encode(head.as_slice());
    let port = announce_port(pkt);
    if text::str_eq(id.as_str(), our_node_id_hex) {
        return None;
    }
    Some((id, port))
}

/// An announcement carries the port it was made with.
pub proof fn law_announce_port_round_trip(node_id: Seq<u8>, port: u16)
    requires
        node_id.len() == 32,
    ensures
        announce_of(node_id, port).len() == 34,
        announce_of(node_id, port)[32] * 256 + announce_of(node_id, port)[33] == port,
{
}

// ---------------------------------------------------------------------------
// Saved and bootstrap peers
// ---------------------------------------------------------------------------

/// The name of the file, in the data directory, that lists saved peers.
pub fn saved_peers_file_name() -> (r: String)
    ensures
        r@ == "saved_peers_iroh.txt"@,
{
    "saved_peers_iroh.txt".to_owned()
}

/// The lines of a text (std `str::lines`): split at `\n`, a `\r` before it
/// dropped, and no empty last line after a final `\n`.
pub open spec fn lines_of(s: Seq<char>) -> Seq<Seq<char>> {
    let pieces = text::split_on(s, '\n');
    let kept = if pieces.len() > 0 && pieces.last().len() == 0 { pieces.drop_last() } else { pieces };
    kept.map_values(|l: Seq<char>| if l.len() > 0 && l.last() == '\r' { l.drop_last() } else { l })
}

/// The saved peers of a saved-peers file: its non-blank lines, trimmed.
pub open spec fn saved_peers_of(content: Seq<char>) -> Seq<Seq<char>> {
    lines_of(content).filter(|l: Seq<char>| text::trim(l).len() > 0).map_values(
        |l: Seq<char>| text::trim(l),
    )
}

/// The peers listed in a saved-peers file.
pub fn parse_saved_peers(content: &str) -> (r: Vec<String>)
    ensures
        strings_view(r@) == saved_peers_of(content@),
{
    let v = text::chars_of(content);
    let pieces = text::split_chars(v.as_slice(), '\n');
    let ghost pv = text::split_on(content@, '\n');
    let n: usize = if pieces.len() > 0 && pieces[pieces.len() - 1].len() == 0 {
        pieces.len() - 1
    } else {
        pieces.len()
    };
    let ghost kept = if pv.len() > 0 && pv.last().len() == 0 { pv.drop_last() } else { pv };
    assert(kept.len() == n);
    let ghost lines = lines_of(content@);
    let ghost nonblank = |l: Seq<char>| text::trim(l).len() > 0;
    let mut r: Vec<String> = Vec::new();
    let mut i: usize = 0;
    while i < n
        invariant
            i <= n <= pieces@.len(),
            pieces@.len() == pv.len(),
            forall|k: int| 0 <= k < pieces@.len() ==> #[trigger] pieces@[k]@ == pv[k],
            kept.len() == n,
            forall|k: int| 0 <= k < n ==> #[trigger] kept[k] == pv[k],
            lines == kept.map_values(|l: Seq<char>| if l.len() > 0 && l.last() == '\r' { l.drop_last() } else { l }),
            nonblank == (|l: Seq<char>| text::trim(l).len() > 0),
            strings_view(r@) == lines.take(i as int).filter(nonblank).map_values(|l: Seq<char>| text::trim(l)),
        decreases n - i,
    {
        let p = &pieces[i];
        let line: Vec<char> = if p.len() > 0 && p[p.len() - 1] == '\r' {
            text::slice_chars(p.as_slice(), 0, p.len() - 1)
        } else {
            text::copy_chars(p.as_slice())
        };
        assert(p@ == kept[i as int]);
        assert(line@ =~= lines[i as int]);
        let t = text::trim_chars(line.as_slice());
        proof {
            reveal(Seq::filter);
            assert(lines.take(i + 1).drop_last() =~= lines.take(i as int));
            assert(lines.take(i + 1).last() == lines[i as int]);
        }
        let ghost before = r@;
        if t.len() > 0 {
            r.push(text::string_of(t.as_slice()));
            assert(strings_view(r@) =~= strings_view(before).push(t@));
        }
        i = i + 1;
    }
    assert(lines.take(i as int) =~= lines);
    r
}

/// The peers to dial: the saved ones, then each configured one not already
/// listed, in order.
pub open spec fn merged_peers(saved: Seq<Seq<char>>, configured: Seq<Seq<char>>) -> Seq<Seq<char>>
    decreases configured.len(),
{
    if configured.len() == 0 {
        saved
    } else {
        let m = merged_peers(saved, configured.drop_last());
        if m.contains(configured.last()) {
            m
        } else {
            m.push(configured.last())
        }
    }
}

/// Whether `v` lists `s`.
pub fn contains_string(v: &Vec<String>, s: &str) -> (r: bool)
    ensures
        r == strings_view(v@).contains(s@),
{
    let mut i: usize = 0;
    while i < v.len()
        invariant
            i <= v@.len(),
            forall|k: int| 0 <= k < i ==> v@[k]@ != s@,
        decreases v@.len() - i,
    {
        if text::str_eq(v[i].as_str(), s) {
            assert(strings_view(v@)[i as int] == s@);
            return true;
        }
        i = i + 1;
    }
    assert forall|k: int| 0 <= k < strings_view(v@).len() implies strings_view(v@)[k] != s@ by {
        assert(strings_view(v@)[k] == v@[k]@);
    }
    false
}

/// The bootstrap peers of a node: the saved peers, then the configured ones
/// not among them.
pub fn merge_bootstrap_peers(saved: Vec<String>, configured: &Vec<String>) -> (r: Vec<String>)
    ensures
        strings_view(r@) == merged_peers(strings_view(saved@), strings_view(configured@)),
{
    let ghost sv = strings_view(saved@);
    let ghost cv = strings_view(configured@);
    let mut r = saved;
    let mut i: usize = 0;
    while i < configured.len()
        invariant
            i <= configured@.len(),
            cv == strings_view(configured@),
            strings_view(r@) == merged_peers(sv, cv.take(i as int)),
        decreases configured@.len() - i,
    {
        proof {
            assert(cv.take(i + 1).drop_last() =~= cv.take(i as int));
            assert(cv.take(i + 1).last() == configured@[i as int]@);
        }
        if !contains_string(&r, configured[i].as_str()) {
            let ghost before = r@;
            r.push(configured[i].clone());
            assert(strings_view(r@) =~= strings_view(before).push(configured@[i as int]@));
        }
        i = i + 1;
    }
    assert(cv.take(i as int) =~= cv);
    r
}

/// The line that appends a peer to the saved-peers file.
pub fn saved_peer_line(addr: &str) -> (r: String)
    ensures
        r@ == addr@ + "\n"@,
{
    let mut s = addr.to_owned();
    text::push_str(&mut s, "\n");
    s
}

/// The boards to sync after a `HelloAck`: ours, then theirs that we lack,
/// each once.
pub open spec fn boards_union(ours: Seq<Seq<char>>, theirs: Seq<Seq<char>>) -> Seq<Seq<char>> {
    merged_peers(merged_peers(Seq::empty(), ours), theirs)
}

/// The boards to sync with a peer after its `HelloAck`.
pub fn boards_to_sync(ours: &Vec<String>, theirs: &Vec<String>) -> (r: Vec<String>)
    ensures
        strings_view(r@) == boards_union(strings_view(ours@), strings_view(theirs@)),
{
    let empty: Vec<String> = Vec::new();
    assert(strings_view(empty@) =~= Seq::<Seq<char>>::empty());
    let first = merge_bootstrap_peers(empty, ours);
    merge_bootstrap_peers(first, theirs)
}

// ---------------------------------------------------------------------------
// Syncing one board with a peer (initiator role)
// ---------------------------------------------------------------------------

/// What the node reports to its owner.
#[derive(Debug, Clone)]
pub enum NetEvent {
    PeerConnected { peer_id: String },
    PeerDisconnected { peer_id: String },
    BoardSynced { board_id: String, peer_id: String },
    SyncError { board_id: String, error: String },
}

/// The next step of syncing one board with a peer.
#[derive(Debug, Clone)]
pub enum BoardSyncStep {
    /// Converged: report the board synced and stop.
    Finished,
    /// Send this round to the peer and read its answer.
    Send(SyncRequest),
    /// Apply the peer's round to the board, then generate the next one.
    Apply(Vec<u8>),
    /// Stop without a report.
    Stop,
    /// Applying the peer's round failed: report the error and stop.
    Failed(String),
}

/// After generating a round: nothing left to send means converged.
pub fn step_after_generate(board_id: &str, round: Option<Vec<u8>>) -> (r: BoardSyncStep)
    ensures
        match round {
            None => r is Finished,
            Some(b) => r matches BoardSyncStep::Send(SyncRequest::BoardSync { board_id: id, sync_message: m })
                && id@ == board_id@ && m@ == b@,
        },
{
    match round {
        None => BoardSyncStep::Finished,
        Some(b) => BoardSyncStep::Send(SyncRequest::BoardSync { board_id: board_id.to_owned(), sync_message: b }),
    }
}

/// After the peer's answer (none where it could not be read).
pub fn step_after_response(resp: Option<SyncResponse>) -> (r: BoardSyncStep)
    ensures
        match resp {
            Some(SyncResponse::BoardSync { sync_message: None, .. }) => r is Finished,
            Some(SyncResponse::BoardSync { sync_message: Some(b), .. }) => r matches BoardSyncStep::Apply(x) && x@ == b@,
            _ => r is Stop,
        },
{
    match resp {
        Some(SyncResponse::BoardSync { sync_message: None, .. }) => BoardSyncStep::Finished,
        Some(SyncResponse::BoardSync { sync_message: Some(b), .. }) => BoardSyncStep::Apply(b),
        _ => BoardSyncStep::Stop,
    }
}

/// After applying the peer's round: go on generating, or report the error.
pub fn step_after_apply(outcome: Result<(), String>) -> (r: Option<BoardSyncStep>)
    ensures
        match outcome {
            Ok(()) => r is None,
            Err(e) => r matches Some(BoardSyncStep::Failed(x)) && x@ == e@,
        },
{
    match outcome {
        Ok(()) => None,
        Err(e) => Some(BoardSyncStep::Failed(e)),
    }
}

// ---------------------------------------------------------------------------
// The sync node's event loop
// ---------------------------------------------------------------------------

/// What the event loop of a sync node keeps: its bootstrap peer addresses,
/// the peers it is connected to, and the spaces it announces.
pub struct SwarmState {
    pub bootstrap: Vec<String>,
    pub connected: Vec<String>,
    pub spaces: Vec<String>,
}

pub struct SwarmStateView {
    pub bootstrap: Seq<Seq<char>>,
    pub connected: Seq<Seq<char>>,
    pub spaces: Seq<Seq<char>>,
}

impl View for SwarmState {
    type V = SwarmStateView;

    open spec fn view(&self) -> SwarmStateView {
        SwarmStateView {
            bootstrap: strings_view(self.bootstrap@),
            connected: strings_view(self.connected@),
            spaces: strings_view(self.spaces@),
        }
    }
}

/// What reaches the event loop: the owner's commands, timer ticks, and the
/// connection tasks' reports.
#[derive(Debug, Clone)]
pub enum SwarmInput {
    Stop,
    AnnounceSpaces(Vec<String>),
    TriggerSync(String),
    ForceRediscovery,
    AddPeer(String),
    GetPeers,
    GetListenAddrs,
    GetPeerPubkeys,
    ReconnectTick,
    PresenceTick,
    /// A connection to the peer was established (dialed or accepted).
    Connected(String),
    /// The connection to the peer ended.
    Disconnected(String),
    /// A LAN announcement was heard from the peer at the socket address.
    Discovered(String, String),
}

/// What the event loop asks to be done.
#[derive(Debug, Clone)]
pub enum SwarmAction {
    /// Close the endpoint and end the loop.
    Shutdown,
    /// Drop the connection to the peer and the sync states that mention it.
    Forget(String),
    /// Report an event to the owner.
    Emit(NetEvent),
    /// Drop the initiator sync states.
    ResetInitiatorStates,
    /// Send `Hello` for each space to the peer and sync the boards.
    Hello(String, Vec<String>),
    /// Dial the peer address.
    Dial(String),
    /// Dial the node at the socket address.
    DialDirect(String, String),
    /// Sync the board with the connected peer.
    SyncBoard(String, String),
    /// Append the address to the saved-peers file.
    SavePeer(String),
    /// Warn that the address is not a peer address.
    WarnInvalidPeer(String),
    /// Answer with the connected peers.
    ReplyPeers(Vec<String>),
    /// Answer with the endpoint's listen addresses.
    ReplyListenAddrs,
    /// Answer with each connected peer's public key (its node id).
    ReplyPubkeys(Vec<(String, String)>),
    /// Send a presence heartbeat to every connected peer.
    SendPresence,
    /// Serve the peer's incoming streams.
    ServeStreams(String),
}

pub enum SwarmActionView {
    Shutdown,
    Forget(Seq<char>),
    Emit(NetEventView),
    ResetInitiatorStates,
    Hello(Seq<char>, Seq<Seq<char>>),
    Dial(Seq<char>),
    DialDirect(Seq<char>, Seq<char>),
    SyncBoard(Seq<char>, Seq<char>),
    SavePeer(Seq<char>),
    WarnInvalidPeer(Seq<char>),
    ReplyPeers(Seq<Seq<char>>),
    ReplyListenAddrs,
    ReplyPubkeys(Seq<(Seq<char>, Seq<char>)>),
    SendPresence,
    ServeStreams(Seq<char>),
}

pub enum NetEventView {
    PeerConnected { peer_id: Seq<char> },
    PeerDisconnected { peer_id: Seq<char> },
    BoardSynced { board_id: Seq<char>, peer_id: Seq<char> },
    SyncError { board_id: Seq<char>, error: Seq<char> },
}

impl View for NetEvent {
    type V = NetEventView;

    open spec fn view(&self) -> NetEventView {
        match self {
            NetEvent::PeerConnected { peer_id } => NetEventView::PeerConnected { peer_id: peer_id@ },
            NetEvent::PeerDisconnected { peer_id } => NetEventView::PeerDisconnected { peer_id: peer_id@ },
            NetEvent::BoardSynced { board_id, peer_id } => NetEventView::BoardSynced {
                board_id: board_id@,
                peer_id: peer_id@,
            },
            NetEvent::SyncError { board_id, error } => NetEventView::SyncError {
                board_id: board_id@,
                error: error@,
            },
        }
    }
}

impl View for SwarmAction {
    type V = SwarmActionView;

    open spec fn view(&self) -> SwarmActionView {
        match self {
            SwarmAction::Shutdown => SwarmActionView::Shutdown,
            SwarmAction::Forget(p) => SwarmActionView::Forget(p@),
            SwarmAction::Emit(e) => SwarmActionView::Emit(e@),
            SwarmAction::ResetInitiatorStates => SwarmActionView::ResetInitiatorStates,
            SwarmAction::Hello(p, s) => SwarmActionView::Hello(p@, strings_view(s@)),
            SwarmAction::Dial(a) => SwarmActionView::Dial(a@),
            SwarmAction::DialDirect(n, a) => SwarmActionView::DialDirect(n@, a@),
            SwarmAction::SyncBoard(p, b) => SwarmActionView::SyncBoard(p@, b@),
            SwarmAction::SavePeer(a) => SwarmActionView::SavePeer(a@),
            SwarmAction::WarnInvalidPeer(a) => SwarmActionView::WarnInvalidPeer(a@),
            SwarmAction::ReplyPeers(v) => SwarmActionView::ReplyPeers(strings_view(v@)),
            SwarmAction::ReplyListenAddrs => SwarmActionView::ReplyListenAddrs,
            SwarmAction::ReplyPubkeys(v) => SwarmActionView::ReplyPubkeys(
                v@.map_values(|p: (String, String)| (p.0@, p.1@)),
            ),
            SwarmAction::SendPresence => SwarmActionView::SendPresence,
            SwarmAction::ServeStreams(p) => SwarmActionView::ServeStreams(p@),
        }
    }
}

pub open spec fn actions_view(v: Seq<SwarmAction>) -> Seq<SwarmActionView> {
    v.map_values(|a: SwarmAction| a@)
}

/// A `Hello` to each connected peer, in order.
pub open spec fn hellos(peers: Seq<Seq<char>>, spaces: Seq<Seq<char>>) -> Seq<SwarmActionView> {
    peers.map_values(|p: Seq<char>| SwarmActionView::Hello(p, spaces))
}

/// A dial of each bootstrap address whose node id parses, in order.
pub open spec fn dials(addrs: Seq<Seq<char>>) -> Seq<SwarmActionView>
    decreases addrs.len(),
{
    if addrs.len() == 0 {
        Seq::empty()
    } else {
        let d = dials(addrs.drop_last());
        if peer_addr_parts_of(addrs.last()) is Some {
            d.push(SwarmActionView::Dial(addrs.last()))
        } else {
            d
        }
    }
}

/// The event loop's transition: the state after an input and the actions
/// it asks for, in order.
pub open spec fn swarm_next(s: SwarmStateView, input: SwarmInputView) -> (SwarmStateView, Seq<SwarmActionView>) {
    match input {
        SwarmInputView::Stop => (s, seq![SwarmActionView::Shutdown]),
        SwarmInputView::AnnounceSpaces(ids) => (
            SwarmStateView { spaces: ids, ..s },
            seq![SwarmActionView::ResetInitiatorStates] + hellos(s.connected, ids),
        ),
        SwarmInputView::TriggerSync(board) => (
            s,
            (if s.connected.len() == 0 { dials(s.bootstrap) } else { Seq::empty() }) + s.connected.map_values(
                |p: Seq<char>| SwarmActionView::SyncBoard(p, board),
            ),
        ),
        SwarmInputView::ForceRediscovery => (
            s,
            seq![SwarmActionView::ResetInitiatorStates] + hellos(s.connected, s.spaces),
        ),
        SwarmInputView::AddPeer(addr) => {
            let known = s.bootstrap.contains(addr);
            let s2 = if known { s } else { SwarmStateView { bootstrap: s.bootstrap.push(addr), ..s } };
            let saved: Seq<SwarmActionView> = if known { Seq::empty() } else { seq![SwarmActionView::SavePeer(addr)] };
            let dial: Seq<SwarmActionView> = match peer_addr_parts_of(addr) {
                Some((id, _)) => if s.connected.contains(hex_encoded(id)) {
                    Seq::empty()
                } else {
                    seq![SwarmActionView::Dial(addr)]
                },
                None => seq![SwarmActionView::WarnInvalidPeer(addr)],
            };
            (s2, saved + dial)
        },
        SwarmInputView::GetPeers => (s, seq![SwarmActionView::ReplyPeers(s.connected)]),
        SwarmInputView::GetListenAddrs => (s, seq![SwarmActionView::ReplyListenAddrs]),
        SwarmInputView::GetPeerPubkeys => (
            s,
            seq![SwarmActionView::ReplyPubkeys(s.connected.map_values(|p: Seq<char>| (p, p)))],
        ),
        SwarmInputView::ReconnectTick => (
            s,
            if s.connected.len() == 0 && s.bootstrap.len() > 0 { dials(s.bootstrap) } else { Seq::empty() },
        ),
        SwarmInputView::PresenceTick => (s, seq![SwarmActionView::SendPresence]),
        SwarmInputView::Connected(p) => (
            SwarmStateView {
                connected: if s.connected.contains(p) { s.connected } else { s.connected.push(p) },
                ..s
            },
            seq![SwarmActionView::Emit(NetEventView::PeerConnected { peer_id: p })] + (if s.spaces.len() > 0 {
                seq![SwarmActionView::Hello(p, s.spaces)]
            } else {
                Seq::empty()
            }) + seq![SwarmActionView::ServeStreams(p)],
        ),
        SwarmInputView::Disconnected(p) => (
            SwarmStateView { connected: s.connected.filter(other_than(p)), ..s },
            seq![
                SwarmActionView::Forget(p),
                SwarmActionView::Emit(NetEventView::PeerDisconnected { peer_id: p }),
            ],
        ),
        SwarmInputView::Discovered(node, addr) => (
            s,
            if s.connected.contains(node) || node_id_of(node) is None {
                Seq::empty()
            } else {
                seq![SwarmActionView::DialDirect(node, addr)]
            },
        ),
    }
}

pub enum SwarmInputView {
    Stop,
    AnnounceSpaces(Seq<Seq<char>>),
    TriggerSync(Seq<char>),
    ForceRediscovery,
    AddPeer(Seq<char>),
    GetPeers,
    GetListenAddrs,
    GetPeerPubkeys,
    ReconnectTick,
    PresenceTick,
    Connected(Seq<char>),
    Disconnected(Seq<char>),
    Discovered(Seq<char>, Seq<char>),
}

impl View for SwarmInput {
    type V = SwarmInputView;

    open spec fn view(&self) -> SwarmInputView {
        match self {
            SwarmInput::Stop => SwarmInputView::Stop,
            SwarmInput::AnnounceSpaces(v) => SwarmInputView::AnnounceSpaces(strings_view(v@)),
            SwarmInput::TriggerSync(b) => SwarmInputView::TriggerSync(b@),
            SwarmInput::ForceRediscovery => SwarmInputView::ForceRediscovery,
            SwarmInput::AddPeer(a) => SwarmInputView::AddPeer(a@),
            SwarmInput::GetPeers => SwarmInputView::GetPeers,
            SwarmInput::GetListenAddrs => SwarmInputView::GetListenAddrs,
            SwarmInput::GetPeerPubkeys => SwarmInputView::GetPeerPubkeys,
            SwarmInput::ReconnectTick => SwarmInputView::ReconnectTick,
            SwarmInput::PresenceTick => SwarmInputView::PresenceTick,
            SwarmInput::Connected(p) => SwarmInputView::Connected(p@),
            SwarmInput::Disconnected(p) => SwarmInputView::Disconnected(p@),
            SwarmInput::Discovered(n, a) => SwarmInputView::Discovered(n@, a@),
        }
    }
}

fn clone_strings(v: &Vec<String>) -> (r: Vec<String>)
    ensures
        strings_view(r@) == strings_view(v@),
{
    let mut r: Vec<String> = Vec::new();
    let mut i: usize = 0;
    while i < v.len()
        invariant
            i <= v@.len(),
            strings_view(r@) == strings_view(v@).take(i as int),
        decreases v@.len() - i,
    {
        let c = v[i].clone();
        let ghost before = r@;
        r.push(c);
        proof {
            assert(r@ == before.push(c));
            assert(strings_view(r@) =~= strings_view(before).push(c@));
            assert(strings_view(v@)[i as int] == c@);
        }
        i = i + 1;
        assert(strings_view(r@) =~= strings_view(v@).take(i as int));
    }
    assert(strings_view(v@).take(i as int) =~= strings_view(v@));
    r
}

/// Appends a `Hello` with `spaces` for each connected peer.
fn push_hellos(out: &mut Vec<SwarmAction>, peers: &Vec<String>, spaces: &Vec<String>)
    ensures
        actions_view(final(out)@) == actions_view(old(out)@) + hellos(strings_view(peers@), strings_view(spaces@)),
{
    let ghost start = actions_view(out@);
    let ghost pv = strings_view(peers@);
    let ghost sv = strings_view(spaces@);
    let mut i: usize = 0;
    while i < peers.len()
        invariant
            i <= peers@.len(),
            pv == strings_view(peers@),
            sv == strings_view(spaces@),
            actions_view(out@) == start + hellos(pv.take(i as int), sv),
        decreases peers@.len() - i,
    {
        let a = SwarmAction::Hello(peers[i].clone(), clone_strings(spaces));
        let ghost before = out@;
        out.push(a);
        proof {
            assert(out@ == before.push(a));
            assert(actions_view(out@) =~= actions_view(before).push(a@));
            assert(pv[i as int] == peers@[i as int]@);
            assert(hellos(pv.take(i + 1), sv) =~= hellos(pv.take(i as int), sv).push(SwarmActionView::Hello(pv[i as int], sv)));
        }
        i = i + 1;
        assert(actions_view(out@) =~= start + hellos(pv.take(i as int), sv));
    }
    assert(pv.take(i as int) =~= pv);
}

/// Appends a dial of each bootstrap address whose node id parses.
fn push_dials(out: &mut Vec<SwarmAction>, addrs: &Vec<String>)
    ensures
        actions_view(final(out)@) == actions_view(old(out)@) + dials(strings_view(addrs@)),
{
    let ghost start = actions_view(out@);
    let ghost av = strings_view(addrs@);
    let mut i: usize = 0;
    while i < addrs.len()
        invariant
            i <= addrs@.len(),
            av == strings_view(addrs@),
            actions_view(out@) == start + dials(av.take(i as int)),
        decreases addrs@.len() - i,
    {
        proof {
            assert(av.take(i + 1).drop_last() =~= av.take(i as int));
            assert(av.take(i + 1).last() == addrs@[i as int]@);
        }
        let ghost before = actions_view(out@);
        if peer_addr_parts(addrs[i].as_str()).is_some() {
            out.push(SwarmAction::Dial(addrs[i].clone()));
            assert(actions_view(out@) =~= before.push(SwarmActionView::Dial(addrs@[i as int]@)));
        }
        i = i + 1;
    }
    assert(av.take(i as int) =~= av);
}

/// The peers other than `p`.
pub open spec fn other_than(p: Seq<char>) -> spec_fn(Seq<char>) -> bool {
    |q: Seq<char>| q != p
}

/// Removes `p` from the connected peers.
fn without_peer(v: &Vec<String>, p: &str) -> (r: Vec<String>)
    ensures
        strings_view(r@) == strings_view(v@).filter(other_than(p@)),
{
    let ghost vv = strings_view(v@);
    let ghost keep = other_than(p@);
    let mut r: Vec<String> = Vec::new();
    let mut i: usize = 0;
    while i < v.len()
        invariant
            i <= v@.len(),
            vv == strings_view(v@),
            keep == other_than(p@),
            strings_view(r@) == vv.take(i as int).filter(keep),
        decreases v@.len() - i,
    {
        proof {
            reveal(Seq::filter);
            assert(vv.take(i + 1).drop_last() =~= vv.take(i as int));
            assert(vv.take(i + 1).last() == v@[i as int]@);
        }
        if !text::str_eq(v[i].as_str(), p) {
            let ghost before = r@;
            r.push(v[i].clone());
            assert(strings_view(r@) =~= strings_view(before).push(v@[i as int]@));
        }
        i = i + 1;
    }
    assert(vv.take(i as int) =~= vv);
    r
}

/// Runs one input through the event loop's decisions: updates the state and
/// gives the actions to perform, in order.
pub fn swarm_step(state: &mut SwarmState, input: SwarmInput) -> (r: Vec<SwarmAction>)
    ensures
        swarm_next(old(state)@, input@) == (final(state)@, actions_view(r@)),
{
    let mut out: Vec<SwarmAction> = Vec::new();
    let ghost s0 = state@;
    match input {
        SwarmInput::Stop => {
            out.push(SwarmAction::Shutdown);
            assert(actions_view(out@) =~= seq![SwarmActionView::Shutdown]);
        },
        SwarmInput::AnnounceSpaces(ids) => {
            out.push(SwarmAction::ResetInitiatorStates);
            push_hellos(&mut out, &state.connected, &ids);
            state.spaces = ids;
        },
        SwarmInput::TriggerSync(board) => {
            if state.connected.len() == 0 {
                push_dials(&mut out, &state.bootstrap);
            }
            let ghost mid = actions_view(out@);
            let ghost cv = strings_view(state.connected@);
            let mut i: usize = 0;
            while i < state.connected.len()
                invariant
                    i <= state.connected@.len(),
                    cv == strings_view(state.connected@),
                    actions_view(out@) == mid + cv.take(i as int).map_values(
                        |p: Seq<char>| SwarmActionView::SyncBoard(p, board@),
                    ),
                decreases state.connected@.len() - i,
            {
                let a = SwarmAction::SyncBoard(state.connected[i].clone(), board.clone());
                let ghost before = out@;
                out.push(a);
                proof {
                    assert(out@ == before.push(a));
                    assert(actions_view(out@) =~= actions_view(before).push(a@));
                    assert(cv[i as int] == state.connected@[i as int]@);
                }
                i = i + 1;
                assert(actions_view(out@) =~= mid + cv.take(i as int).map_values(
                    |p: Seq<char>| SwarmActionView::SyncBoard(p, board@),
                ));
            }
            assert(cv.take(i as int) =~= cv);
            proof {
                if s0.connected.len() != 0 {
                    assert(mid =~= Seq::<SwarmActionView>::empty());
                }
            }
        },
        SwarmInput::ForceRediscovery => {
            out.push(SwarmAction::ResetInitiatorStates);
            push_hellos(&mut out, &state.connected, &state.spaces);
        },
        SwarmInput::AddPeer(addr) => {
            if !contains_string(&state.bootstrap, addr.as_str()) {
                state.bootstrap.push(addr.clone());
                out.push(SwarmAction::SavePeer(addr.clone()));
            }
            match peer_addr_parts(addr.as_str()) {
                Some((id, _)) => {
                    let id_hex = hex_encode(id.as_slice());
                    if !contains_string(&state.connected, id_hex.as_str()) {
                        out.push(SwarmAction::Dial(addr));
                    }
                },
                None => {
                    out.push(SwarmAction::WarnInvalidPeer(addr));
                },
            }
            assert(state@.bootstrap =~= swarm_next(s0, input@).0.bootstrap);
            assert(actions_view(out@) =~= swarm_next(s0, input@).1);
        },
        SwarmInput::GetPeers => {
            out.push(SwarmAction::ReplyPeers(clone_strings(&state.connected)));
            assert(actions_view(out@) =~= swarm_next(s0, input@).1);
        },
        SwarmInput::GetListenAddrs => {
            out.push(SwarmAction::ReplyListenAddrs);
            assert(actions_view(out@) =~= swarm_next(s0, input@).1);
        },
        SwarmInput::GetPeerPubkeys => {
            let mut pairs: Vec<(String, String)> = Vec::new();
            let ghost cv = strings_view(state.connected@);
            let mut i: usize = 0;
            while i < state.connected.len()
                invariant
                    i <= state.connected@.len(),
                    cv == strings_view(state.connected@),
                    pairs@.map_values(|p: (String, String)| (p.0@, p.1@)) == cv.take(i as int).map_values(
                        |p: Seq<char>| (p, p),
                    ),
                decreases state.connected@.len() - i,
            {
                let a = state.connected[i].clone();
                let b = state.connected[i].clone();
                let ghost before = pairs@;
                pairs.push((a, b));
                proof {
                    assert(pairs@ == before.push((a, b)));
                    assert(cv[i as int] == state.connected@[i as int]@);
                    assert(pairs@.map_values(|p: (String, String)| (p.0@, p.1@)) =~= before.map_values(|p: (String, String)| (p.0@, p.1@)).push((a@, b@)));
                }
                i = i + 1;
                assert(pairs@.map_values(|p: (String, String)| (p.0@, p.1@)) =~= cv.take(i as int).map_values(
                    |p: Seq<char>| (p, p),
                ));
            }
            assert(cv.take(i as int) =~= cv);
            out.push(SwarmAction::ReplyPubkeys(pairs));
            assert(actions_view(out@) =~= swarm_next(s0, input@).1);
        },
        SwarmInput::ReconnectTick => {
            if state.connected.len() == 0 && state.bootstrap.len() > 0 {
                push_dials(&mut out, &state.bootstrap);
            }
            assert(actions_view(out@) =~= swarm_next(s0, input@).1);
        },
        SwarmInput::PresenceTick => {
            out.push(SwarmAction::SendPresence);
            assert(actions_view(out@) =~= swarm_next(s0, input@).1);
        },
        SwarmInput::Connected(p) => {
            if !contains_string(&state.connected, p.as_str()) {
                state.connected.push(p.clone());
            }
            out.push(SwarmAction::Emit(NetEvent::PeerConnected { peer_id: p.clone() }));
            if state.spaces.len() > 0 {
                out.push(SwarmAction::Hello(p.clone(), clone_strings(&state.spaces)));
            }
            out.push(SwarmAction::ServeStreams(p));
            assert(state@.connected =~= swarm_next(s0, input@).0.connected);
            assert(actions_view(out@) =~= swarm_next(s0, input@).1);
        },
        SwarmInput::Disconnected(p) => {
            state.connected = without_peer(&state.connected, p.as_str());
            out.push(SwarmAction::Forget(p.clone()));
            out.push(SwarmAction::Emit(NetEvent::PeerDisconnected { peer_id: p }));
            assert(actions_view(out@) =~= swarm_next(s0, input@).1);
        },
        SwarmInput::Discovered(node, addr) => {
            if !contains_string(&state.connected, node.as_str()) && node_id_bytes(node.as_str()).is_some() {
                out.push(SwarmAction::DialDirect(node, addr));
            }
            assert(actions_view(out@) =~= swarm_next(s0, input@).1);
        },
    }
    out
}

// ---------------------------------------------------------------------------
// What the event loop keeps
// ---------------------------------------------------------------------------

/// No element occurs twice.
pub open spec fn no_duplicates(s: Seq<Seq<char>>) -> bool {
    forall|i: int, j: int| 0 <= i < j < s.len() ==> s[i] != s[j]
}

proof fn lemma_filter_no_duplicates(s: Seq<Seq<char>>, f: spec_fn(Seq<char>) -> bool)
    requires
        no_duplicates(s),
    ensures
        no_duplicates(s.filter(f)),
        forall|x: Seq<char>| s.filter(f).contains(x) ==> s.contains(x),
    decreases s.len(),
{
    reveal(Seq::filter);
    if s.len() > 0 {
        lemma_filter_no_duplicates(s.drop_last(), f);
        let r = s.drop_last().filter(f);
        assert forall|x: Seq<char>| s.filter(f).contains(x) implies s.contains(x) by {
            let sf = s.filter(f);
            let q = choose|q: int| 0 <= q < sf.len() && sf[q] == x;
            if q < r.len() {
                assert(r[q] == x);
                assert(r.contains(x));
                assert(s.drop_last().contains(x));
                let k = choose|k: int| 0 <= k < s.drop_last().len() && s.drop_last()[k] == x;
                assert(s.drop_last()[k] == s[k]);
                assert(s[k] == x);
            } else {
                assert(sf == r.push(s.last()));
                assert(s[s.len() - 1] == x);
            }
        }
        if f(s.last()) {
            assert forall|i: int, j: int| 0 <= i < j < s.filter(f).len() implies s.filter(f)[i] != s.filter(f)[j] by {
                if j == r.len() {
                    if r[i] == s.last() {
                        assert(r.contains(s.last()));
                        assert(s.drop_last().contains(s.last()));
                        let k = choose|k: int| 0 <= k < s.drop_last().len() && s.drop_last()[k] == s.last();
                        assert(s.drop_last()[k] == s[k]);
                        assert(s[k] == s[s.len() - 1]);
                    }
                }
            }
        }
    }
}

/// The event loop never lists a connected peer or a bootstrap address twice.
pub proof fn law_swarm_lists_stay_unique(s: SwarmStateView, input: SwarmInputView)
    requires
        no_duplicates(s.connected),
        no_duplicates(s.bootstrap),
    ensures
        no_duplicates(swarm_next(s, input).0.connected),
        no_duplicates(swarm_next(s, input).0.bootstrap),
{
    match input {
        SwarmInputView::Disconnected(p) => {
            lemma_filter_no_duplicates(s.connected, other_than(p));
        },
        SwarmInputView::Connected(p) => {
            if !s.connected.contains(p) {
                let c = s.connected.push(p);
                assert forall|i: int, j: int| 0 <= i < j < c.len() implies c[i] != c[j] by {
                    if j == s.connected.len() {
                        assert(s.connected[i] == c[i]);
                    }
                }
            }
        },
        SwarmInputView::AddPeer(a) => {
            if !s.bootstrap.contains(a) {
                let b = s.bootstrap.push(a);
                assert forall|i: int, j: int| 0 <= i < j < b.len() implies b[i] != b[j] by {
                    if j == s.bootstrap.len() {
                        assert(s.bootstrap[i] == b[i]);
                    }
                }
            }
        },
        _ => {},
    }
}

/// A disconnected peer is no longer listed as connected.
pub proof fn law_disconnected_peer_is_gone(s: SwarmStateView, p: Seq<char>)
    ensures
        !swarm_next(s, SwarmInputView::Disconnected(p)).0.connected.contains(p),
{
    let r = s.connected.filter(other_than(p));
    if r.contains(p) {
        let k = choose|k: int| 0 <= k < r.len() && r[k] == p;
        s.connected.lemma_filter_pred(other_than(p), k);
    }
}

/// Merging peer lists keeps each address once when the saved list does.
pub proof fn law_merged_peers_unique(saved: Seq<Seq<char>>, configured: Seq<Seq<char>>)
    requires
        no_duplicates(saved),
    ensures
        no_duplicates(merged_peers(saved, configured)),
        forall|x: Seq<char>| saved.contains(x) ==> merged_peers(saved, configured).contains(x),
        forall|x: Seq<char>| configured.contains(x) ==> merged_peers(saved, configured).contains(x),
    decreases configured.len(),
{
    if configured.len() > 0 {
        let c0 = configured.drop_last();
        law_merged_peers_unique(saved, c0);
        let m = merged_peers(saved, c0);
        let x = configured.last();
        if !m.contains(x) {
            let m2 = m.push(x);
            assert forall|i: int, j: int| 0 <= i < j < m2.len() implies m2[i] != m2[j] by {
                if j == m.len() {
                    assert(m[i] == m2[i]);
                }
            }
            assert forall|y: Seq<char>| m.contains(y) implies m2.contains(y) by {
                let k = choose|k: int| 0 <= k < m.len() && m[k] == y;
                assert(m2[k] == y);
            }
            assert(m2[m.len() as int] == x);
        }
        assert forall|y: Seq<char>| configured.contains(y) implies merged_peers(saved, configured).contains(y) by {
            let k = choose|k: int| 0 <= k < configured.len() && configured[k] == y;
            if k < c0.len() {
                assert(c0[k] == y);
                assert(c0.contains(y));
            }
        }
    }
}


// ---------------------------------------------------------------------------
// Serving an accepted connection
// ---------------------------------------------------------------------------

/// Where the serving of an accepted connection stands.
#[derive(Debug, Clone, Copy, PartialEq, Eq, Structural)]
pub enum ServePhase {
    /// The dialer's first stream, its `VersionHello`, is awaited.
    AwaitingHello,
    /// The handshake passed: each further stream is a request.
    Serving,
    /// The connection is done with.
    Closed,
}

/// What happened on the connection.
#[derive(Debug, Clone, Copy)]
pub enum ServeEvent {
    /// A stream carried a `VersionHello` with this major version.
    Hello(u16),
    /// A stream carried a request.
    Request,
    /// No further stream could be accepted or read.
    Ended,
}

/// What serving asks for.
#[derive(Debug, Clone)]
pub enum ServeAction {
    /// Write this answer to the handshake.
    Reply(VersionReject),
    /// Answer the request of the stream.
    Answer,
    /// Report the peer disconnected.
    ReportDisconnected(String),
    /// Stop serving the connection.
    Stop,
}

pub enum ServeActionView {
    Reply(Seq<char>, u16, u16),
    Answer,
    ReportDisconnected(Seq<char>),
    Stop,
}

impl View for ServeAction {
    type V = ServeActionView;

    open spec fn view(&self) -> ServeActionView {
        match self {
            ServeAction::Reply(r) => ServeActionView::Reply(r.reason@, r.their_major, r.our_major),
            ServeAction::Answer => ServeActionView::Answer,
            ServeAction::ReportDisconnected(p) => ServeActionView::ReportDisconnected(p@),
            ServeAction::Stop => ServeActionView::Stop,
        }
    }
}

pub open spec fn serve_actions_view(v: Seq<ServeAction>) -> Seq<ServeActionView> {
    v.map_values(|a: ServeAction| a@)
}

/// The serving transition: the first stream must be a `VersionHello` of our
/// major version, which is accepted; any other first stream, or a stream
/// that cannot be read, ends the connection with one report. Afterwards
/// each stream is answered, until none comes, which ends the connection
/// with one report. A closed connection asks for nothing.
pub open spec fn serve_next(phase: ServePhase, peer: Seq<char>, ev: ServeEvent) -> (ServePhase, Seq<ServeActionView>) {
    let closing = seq![ServeActionView::ReportDisconnected(peer), ServeActionView::Stop];
    match phase {
        ServePhase::AwaitingHello => match ev {
            ServeEvent::Hello(m) => if m == PROTOCOL_MAJOR {
                (ServePhase::Serving, seq![ServeActionView::Reply(reply_reason(m), m, PROTOCOL_MAJOR)])
            } else {
                (ServePhase::Closed, seq![ServeActionView::Reply(reply_reason(m), m, PROTOCOL_MAJOR)] + closing)
            },
            _ => (ServePhase::Closed, closing),
        },
        ServePhase::Serving => match ev {
            ServeEvent::Ended => (ServePhase::Closed, closing),
            _ => (ServePhase::Serving, seq![ServeActionView::Answer]),
        },
        ServePhase::Closed => (ServePhase::Closed, Seq::empty()),
    }
}

/// One step of serving a connection from peer `peer`.
pub fn serve_step(phase: ServePhase, peer: &str, ev: ServeEvent) -> (r: (ServePhase, Vec<ServeAction>))
    ensures
        (r.0, serve_actions_view(r.1@)) == serve_next(phase, peer@, ev),
{
    let mut out: Vec<ServeAction> = Vec::new();
    let next = match phase {
        ServePhase::AwaitingHello => match ev {
            ServeEvent::Hello(m) => {
                out.push(ServeAction::Reply(version_reply(&VersionHello { major: m })));
                if m == PROTOCOL_MAJOR {
                    ServePhase::Serving
                } else {
                    out.push(ServeAction::ReportDisconnected(peer.to_owned()));
                    out.push(ServeAction::Stop);
                    ServePhase::Closed
                }
            },
            _ => {
                out.push(ServeAction::ReportDisconnected(peer.to_owned()));
                out.push(ServeAction::Stop);
                ServePhase::Closed
            },
        },
        ServePhase::Serving => match ev {
            ServeEvent::Ended => {
                out.push(ServeAction::ReportDisconnected(peer.to_owned()));
                out.push(ServeAction::Stop);
                ServePhase::Closed
            },
            _ => {
                out.push(ServeAction::Answer);
                ServePhase::Serving
            },
        },
        ServePhase::Closed => ServePhase::Closed,
    };
    assert(serve_actions_view(out@) =~= serve_next(phase, peer@, ev).1);
    (next, out)
}

/// The actions of serving a connection through the events `evs`, from the
/// phase `phase` on, and the phase reached.
pub open spec fn serve_run(phase: ServePhase, peer: Seq<char>, evs: Seq<ServeEvent>) -> (ServePhase, Seq<ServeActionView>)
    decreases evs.len(),
{
    if evs.len() == 0 {
        (phase, Seq::empty())
    } else {
        let o = serve_run(phase, peer, evs.drop_last());
        let n = serve_next(o.0, peer, evs.last());
        (n.0, o.1 + n.1)
    }
}

/// How many reports of a disconnection a list of actions holds.
pub open spec fn reports(a: Seq<ServeActionView>) -> nat
    decreases a.len(),
{
    if a.len() == 0 {
        0
    } else {
        reports(a.drop_last()) + if a.last() is ReportDisconnected {
            1nat
        } else {
            0nat
        }
    }
}

proof fn lemma_reports_concat(a: Seq<ServeActionView>, b: Seq<ServeActionView>)
    ensures
        reports(a + b) == reports(a) + reports(b),
    decreases b.len(),
{
    if b.len() == 0 {
        assert(a + b =~= a);
    } else {
        lemma_reports_concat(a, b.drop_last());
        assert((a + b).drop_last() =~= a + b.drop_last());
    }
}

proof fn lemma_reports_literal(peer: Seq<char>, m: u16)
    ensures
        reports(seq![ServeActionView::ReportDisconnected(peer), ServeActionView::Stop]) == 1,
        reports(seq![ServeActionView::Reply(reply_reason(m), m, PROTOCOL_MAJOR)]) == 0,
        reports(seq![ServeActionView::Answer]) == 0,
{
    reveal_with_fuel(reports, 3);
    assert(seq![ServeActionView::ReportDisconnected(peer), ServeActionView::Stop].drop_last() =~= seq![ServeActionView::ReportDisconnected(peer)]);
    assert(seq![ServeActionView::ReportDisconnected(peer)].drop_last() =~= Seq::<ServeActionView>::empty());
    assert(seq![ServeActionView::Reply(reply_reason(m), m, PROTOCOL_MAJOR)].drop_last() =~= Seq::<ServeActionView>::empty());
    assert(seq![ServeActionView::Answer].drop_last() =~= Seq::<ServeActionView>::empty());
}

/// Serving a connection reports the peer disconnected at most once, and only
/// where it ends, in any run of events. A first `VersionHello` of another
/// major version gets its refusal, the report and the stop, and nothing is
/// served on that connection afterwards.
pub proof fn law_serving_reports_once(peer: Seq<char>, evs: Seq<ServeEvent>)
    ensures
        reports(serve_run(ServePhase::AwaitingHello, peer, evs).1) <= 1,
        reports(serve_run(ServePhase::AwaitingHello, peer, evs).1) == 1 <==> serve_run(ServePhase::AwaitingHello, peer, evs).0
            == ServePhase::Closed,
        evs.len() > 0 && (evs[0] matches ServeEvent::Hello(m) && m != PROTOCOL_MAJOR) ==> {
            &&& serve_run(ServePhase::AwaitingHello, peer, evs).0 == ServePhase::Closed
            &&& !serve_run(ServePhase::AwaitingHello, peer, evs).1.contains(ServeActionView::Answer)
        },
    decreases evs.len(),
{
    if evs.len() > 0 {
        let pre = evs.drop_last();
        law_serving_reports_once(peer, pre);
        let o = serve_run(ServePhase::AwaitingHello, peer, pre);
        let n = serve_next(o.0, peer, evs.last());
        lemma_reports_concat(o.1, n.1);
        let closing = seq![ServeActionView::ReportDisconnected(peer), ServeActionView::Stop];
        lemma_reports_literal(peer, 0);
        match o.0 {
            ServePhase::AwaitingHello => match evs.last() {
                ServeEvent::Hello(m) => {
                    lemma_reports_literal(peer, m);
                    lemma_reports_concat(seq![ServeActionView::Reply(reply_reason(m), m, PROTOCOL_MAJOR)], closing);
                    assert(reports(n.1) == if m == PROTOCOL_MAJOR { 0nat } else { 1nat });
                },
                _ => {
                    assert(n.1 == closing);
                },
            },
            ServePhase::Serving => match evs.last() {
                ServeEvent::Ended => {
                    assert(n.1 == closing);
                },
                _ => {
                    assert(n.1 == seq![ServeActionView::Answer]);
                },
            },
            ServePhase::Closed => {
                assert(n.1 =~= Seq::<ServeActionView>::empty());
                assert(reports(n.1) == 0);
            },
        }
        assert(reports(n.1) == if n.0 == ServePhase::Closed && o.0 != ServePhase::Closed { 1nat } else { 0nat });
        assert(serve_run(ServePhase::AwaitingHello, peer, evs) == (n.0, o.1 + n.1));
        if evs[0] matches ServeEvent::Hello(m) && m != PROTOCOL_MAJOR {
            if pre.len() == 0 {
                assert(o.0 == ServePhase::AwaitingHello);
                assert(evs.last() == evs[0]);
                assert(!n.1.contains(ServeActionView::Answer)) by {
                    if n.1.contains(ServeActionView::Answer) {
                        let k = choose|k: int| 0 <= k < n.1.len() && n.1[k] == ServeActionView::Answer;
                    }
                }
                assert(o.1 + n.1 =~= n.1);
            } else {
                assert(pre[0] == evs[0]);
                assert(n.1 =~= Seq::<ServeActionView>::empty());
                assert(o.1 + n.1 =~= o.1);
            }
        }
    }
}


// ---------------------------------------------------------------------------
// One board's sync with a peer, as the initiator
// ---------------------------------------------------------------------------

/// Where syncing one board with a peer stands.
#[derive(Debug, Clone, Copy, PartialEq, Eq, Structural)]
pub enum BoardSyncPhase {
    /// Not begun.
    Start,
    /// The next round is being generated from the board.
    Generating,
    /// A round was sent; the peer's answer is awaited.
    AwaitingAnswer,
    /// The peer's round is being applied to the board.
    Applying,
    /// The sync is over.
    Done,
}

/// What happened during the sync of one board.
#[derive(Debug)]
pub enum BoardSyncEvent {
    /// The sync is asked for.
    Begin,
    /// The next round from the board: none once converged.
    Generated(Option<Vec<u8>>),
    /// The peer's answer; none where the round could not be sent or the
    /// answer not read.
    Answered(Option<SyncResponse>),
    /// The outcome of applying the peer's round.
    Applied(Result<(), String>),
}

/// What syncing one board asks for.
#[derive(Debug, Clone)]
pub enum BoardSyncAction {
    /// Clear the sync state under this key.
    ResetState(String),
    /// Generate the next round from the board.
    Generate,
    /// Send this request to the peer.
    Send(SyncRequest),
    /// Apply the peer's round to the board.
    Apply(Vec<u8>),
    /// Report this event.
    Report(NetEvent),
    /// End the sync.
    Stop,
}

pub enum BoardSyncActionView {
    ResetState(Seq<char>),
    Generate,
    Send(SyncRequestView),
    Apply(Seq<u8>),
    Report(NetEventView),
    Stop,
}

impl View for BoardSyncAction {
    type V = BoardSyncActionView;

    open spec fn view(&self) -> BoardSyncActionView {
        match self {
            BoardSyncAction::ResetState(k) => BoardSyncActionView::ResetState(k@),
            BoardSyncAction::Generate => BoardSyncActionView::Generate,
            BoardSyncAction::Send(r) => BoardSyncActionView::Send(r@),
            BoardSyncAction::Apply(b) => BoardSyncActionView::Apply(b@),
            BoardSyncAction::Report(e) => BoardSyncActionView::Report(e@),
            BoardSyncAction::Stop => BoardSyncActionView::Stop,
        }
    }
}

pub open spec fn board_sync_actions_view(v: Seq<BoardSyncAction>) -> Seq<BoardSyncActionView> {
    v.map_values(|a: BoardSyncAction| a@)
}

/// The events of a board sync, by their views.
pub enum BoardSyncEventView {
    Begin,
    Generated(Option<Seq<u8>>),
    Answered(Option<SyncResponseView>),
    Applied(Result<(), Seq<char>>),
}

impl View for BoardSyncEvent {
    type V = BoardSyncEventView;

    open spec fn view(&self) -> BoardSyncEventView {
        match self {
            BoardSyncEvent::Begin => BoardSyncEventView::Begin,
            BoardSyncEvent::Generated(r) => BoardSyncEventView::Generated(
                match r {
                    Some(b) => Some(b@),
                    None => None,
                },
            ),
            BoardSyncEvent::Answered(a) => BoardSyncEventView::Answered(
                match a {
                    Some(x) => Some(x@),
                    None => None,
                },
            ),
            BoardSyncEvent::Applied(o) => BoardSyncEventView::Applied(
                match o {
                    Ok(()) => Ok(()),
                    Err(e) => Err(e@),
                },
            ),
        }
    }
}

/// The transition of a board sync with `peer`: it begins by clearing the
/// initiator's sync state and generating a round; a converged board (no
/// round left, or the peer answering without one) is reported synced; a
/// round that fails to apply is reported as an error; an answer that is
/// missing or of another kind ends the sync without a report. An event
/// that does not fit the phase changes nothing; a finished sync asks for
/// nothing.
pub open spec fn board_sync_next(
    phase: BoardSyncPhase,
    peer: Seq<char>,
    board: Seq<char>,
    ev: BoardSyncEventView,
) -> (BoardSyncPhase, Seq<BoardSyncActionView>) {
    let synced = seq![
        BoardSyncActionView::Report(NetEventView::BoardSynced { board_id: board, peer_id: peer }),
        BoardSyncActionView::Stop,
    ];
    match phase {
        BoardSyncPhase::Start => match ev {
            BoardSyncEventView::Begin => (
                BoardSyncPhase::Generating,
                seq![BoardSyncActionView::ResetState(state_key(true, peer, board)), BoardSyncActionView::Generate],
            ),
            _ => (phase, Seq::empty()),
        },
        BoardSyncPhase::Generating => match ev {
            BoardSyncEventView::Generated(None) => (BoardSyncPhase::Done, synced),
            BoardSyncEventView::Generated(Some(b)) => (BoardSyncPhase::AwaitingAnswer, seq![BoardSyncActionView::Send(SyncRequestView::BoardSync { board_id: board, sync_message: b })]),
            _ => (phase, Seq::empty()),
        },
        BoardSyncPhase::AwaitingAnswer => match ev {
            BoardSyncEventView::Answered(Some(SyncResponseView::BoardSync { sync_message: None, .. })) => (
                BoardSyncPhase::Done,
                synced,
            ),
            BoardSyncEventView::Answered(Some(SyncResponseView::BoardSync { sync_message: Some(b), .. })) => (
                BoardSyncPhase::Applying,
                seq![BoardSyncActionView::Apply(b)],
            ),
            BoardSyncEventView::Answered(_) => (BoardSyncPhase::Done, seq![BoardSyncActionView::Stop]),
            _ => (phase, Seq::empty()),
        },
        BoardSyncPhase::Applying => match ev {
            BoardSyncEventView::Applied(Ok(())) => (BoardSyncPhase::Generating, seq![BoardSyncActionView::Generate]),
            BoardSyncEventView::Applied(Err(e)) => (
                BoardSyncPhase::Done,
                seq![
                    BoardSyncActionView::Report(NetEventView::SyncError { board_id: board, error: e }),
                    BoardSyncActionView::Stop,
                ],
            ),
            _ => (phase, Seq::empty()),
        },
        BoardSyncPhase::Done => (phase, Seq::empty()),
    }
}

/// One step of syncing board `board` with peer `peer`.
pub fn board_sync_step(phase: BoardSyncPhase, peer: &str, board: &str, ev: BoardSyncEvent) -> (r: (BoardSyncPhase, Vec<BoardSyncAction>))
    ensures
        (r.0, board_sync_actions_view(r.1@)) == board_sync_next(phase, peer@, board@, ev@),
{
    let mut out: Vec<BoardSyncAction> = Vec::new();
    let next = match phase {
        BoardSyncPhase::Start => match ev {
            BoardSyncEvent::Begin => {
                out.push(BoardSyncAction::ResetState(sync_state_key(true, peer, board)));
                out.push(BoardSyncAction::Generate);
                BoardSyncPhase::Generating
            },
            _ => phase,
        },
        BoardSyncPhase::Generating => match ev {
            BoardSyncEvent::Generated(None) => {
                out.push(BoardSyncAction::Report(NetEvent::BoardSynced { board_id: board.to_owned(), peer_id: peer.to_owned() }));
                out.push(BoardSyncAction::Stop);
                BoardSyncPhase::Done
            },
            BoardSyncEvent::Generated(Some(b)) => {
                out.push(BoardSyncAction::Send(SyncRequest::BoardSync { board_id: board.to_owned(), sync_message: b }));
                BoardSyncPhase::AwaitingAnswer
            },
            _ => phase,
        },
        BoardSyncPhase::AwaitingAnswer => match ev {
            BoardSyncEvent::Answered(Some(SyncResponse::BoardSync { sync_message: None, .. })) => {
                out.push(BoardSyncAction::Report(NetEvent::BoardSynced { board_id: board.to_owned(), peer_id: peer.to_owned() }));
                out.push(BoardSyncAction::Stop);
                BoardSyncPhase::Done
            },
            BoardSyncEvent::Answered(Some(SyncResponse::BoardSync { sync_message: Some(b), .. })) => {
                out.push(BoardSyncAction::Apply(b));
                BoardSyncPhase::Applying
            },
            BoardSyncEvent::Answered(_) => {
                out.push(BoardSyncAction::Stop);
                BoardSyncPhase::Done
            },
            _ => phase,
        },
        BoardSyncPhase::Applying => match ev {
            BoardSyncEvent::Applied(Ok(())) => {
                out.push(BoardSyncAction::Generate);
                BoardSyncPhase::Generating
            },
            BoardSyncEvent::Applied(Err(e)) => {
                out.push(BoardSyncAction::Report(NetEvent::SyncError { board_id: board.to_owned(), error: e }));
                out.push(BoardSyncAction::Stop);
                BoardSyncPhase::Done
            },
            _ => phase,
        },
        BoardSyncPhase::Done => phase,
    };
    assert(board_sync_actions_view(out@) =~= board_sync_next(phase, peer@, board@, ev@).1);
    (next, out)
}

/// The actions of a board sync through the events `evs` from `phase` on,
/// and the phase reached.
pub open spec fn board_sync_run(
    phase: BoardSyncPhase,
    peer: Seq<char>,
    board: Seq<char>,
    evs: Seq<BoardSyncEventView>,
) -> (BoardSyncPhase, Seq<BoardSyncActionView>)
    decreases evs.len(),
{
    if evs.len() == 0 {
        (phase, Seq::empty())
    } else {
        let o = board_sync_run(phase, peer, board, evs.drop_last());
        let n = board_sync_next(o.0, peer, board, evs.last());
        (n.0, o.1 + n.1)
    }
}

/// How many reports a list of board-sync actions holds.
pub open spec fn sync_reports(a: Seq<BoardSyncActionView>) -> nat
    decreases a.len(),
{
    if a.len() == 0 {
        0
    } else {
        sync_reports(a.drop_last()) + if a.last() is Report {
            1nat
        } else {
            0nat
        }
    }
}

proof fn lemma_sync_reports_concat(a: Seq<BoardSyncActionView>, b: Seq<BoardSyncActionView>)
    ensures
        sync_reports(a + b) == sync_reports(a) + sync_reports(b),
    decreases b.len(),
{
    if b.len() == 0 {
        assert(a + b =~= a);
    } else {
        lemma_sync_reports_concat(a, b.drop_last());
        assert((a + b).drop_last() =~= a + b.drop_last());
    }
}

/// A board sync reports at most one event, and only when it ends; its first
/// step clears the initiator's sync state of the board with the peer.
pub proof fn law_board_sync_reports_once(peer: Seq<char>, board: Seq<char>, evs: Seq<BoardSyncEventView>)
    ensures
        sync_reports(board_sync_run(BoardSyncPhase::Start, peer, board, evs).1) <= 1,
        sync_reports(board_sync_run(BoardSyncPhase::Start, peer, board, evs).1) == 1 ==> board_sync_run(
            BoardSyncPhase::Start,
            peer,
            board,
            evs,
        ).0 == BoardSyncPhase::Done,
        board_sync_run(BoardSyncPhase::Start, peer, board, evs).0 != BoardSyncPhase::Done ==> sync_reports(
            board_sync_run(BoardSyncPhase::Start, peer, board, evs).1,
        ) == 0,
        board_sync_run(BoardSyncPhase::Start, peer, board, evs).1.len() > 0 ==> board_sync_run(
            BoardSyncPhase::Start,
            peer,
            board,
            evs,
        ).1[0] == BoardSyncActionView::ResetState(state_key(true, peer, board)),
    decreases evs.len(),
{
    reveal_with_fuel(sync_reports, 3);
    if evs.len() > 0 {
        let pre = evs.drop_last();
        law_board_sync_reports_once(peer, board, pre);
        let o = board_sync_run(BoardSyncPhase::Start, peer, board, pre);
        let n = board_sync_next(o.0, peer, board, evs.last());
        lemma_sync_reports_concat(o.1, n.1);
        let r = board_sync_run(BoardSyncPhase::Start, peer, board, evs);
        assert(r == (n.0, o.1 + n.1));
        assert(sync_reports(n.1) == if n.0 == BoardSyncPhase::Done && o.0 != BoardSyncPhase::Done && n.1.len() == 2 { 1nat } else { 0nat });
        if o.1.len() > 0 {
            assert((o.1 + n.1)[0] == o.1[0]);
        } else {
            assert(o.0 == BoardSyncPhase::Start) by {
                lemma_run_start_silent(peer, board, pre);
            }
        }
    }
}

proof fn lemma_run_start_silent(peer: Seq<char>, board: Seq<char>, evs: Seq<BoardSyncEventView>)
    ensures
        board_sync_run(BoardSyncPhase::Start, peer, board, evs).1.len() == 0 ==> board_sync_run(
            BoardSyncPhase::Start,
            peer,
            board,
            evs,
        ).0 == BoardSyncPhase::Start,
    decreases evs.len(),
{
    if evs.len() > 0 {
        lemma_run_start_silent(peer, board, evs.drop_last());
    }
}

} // verus!

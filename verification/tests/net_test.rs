use monotask::net::{
    board_sync_step, BoardSyncAction, BoardSyncEvent, BoardSyncPhase, serve_step, ServeAction, ServeEvent, ServePhase,
    announce_packet, announce_port, board_sync_response, boards_to_sync, dial_accepted, frame, frame_length,
    hello_response, keys_after_disconnect, keys_after_rehello, merge_bootstrap_peers, node_id_bytes,
    parse_announce, parse_saved_peers, peer_addr_parts, presence_response, protocol_alpn, saved_peer_line,
    saved_peers_file_name, step_after_apply, step_after_generate, step_after_response, swarm_step,
    sync_state_key, version_accepted, version_reply, BoardSyncStep, FrameError, NetEvent, SwarmAction,
    SwarmInput, SwarmState, SyncRequest, SyncResponse, VersionHello, VersionReject, MAX_MSG_SIZE,
    PROTOCOL_MAJOR,
};

const NODE_A: &str = "0101010101010101010101010101010101010101010101010101010101010101";
const NODE_B: &str = "abababababababababababababababababababababababababababababababab";

#[test]
fn behaviour_module_exists() {
    assert!(true);
}

#[test]
fn announce_packet_layout_is_34_bytes() {
    let node_id = "00".repeat(32);
    let port: u16 = 7272;
    let pkt = announce_packet(&node_id, port).unwrap();
    assert_eq!(pkt.len(), 34);
    assert_eq!(announce_port(&pkt), port);
}

#[test]
fn announcements_round_trip() {
    let pkt = announce_packet(NODE_B, 0x1234).unwrap();
    assert_eq!(&pkt[32..], &[0x12, 0x34]);
    assert_eq!(parse_announce(&pkt, NODE_A), Some((NODE_B.to_string(), 0x1234)));
    assert_eq!(parse_announce(&pkt, NODE_B), None);
    assert_eq!(parse_announce(&pkt[..33], NODE_A), None);
    assert_eq!(announce_packet("abc", 1), None);
    assert_eq!(announce_packet(&"00".repeat(31), 1), None);
}

#[test]
fn node_ids_and_addresses() {
    assert_eq!(node_id_bytes(&NODE_B.to_uppercase()), Some(vec![0xab; 32]));
    assert_eq!(node_id_bytes("zz"), None);
    let (id, addr) = peer_addr_parts(&format!("{NODE_A}@127.0.0.1:7272")).unwrap();
    assert_eq!(id, vec![1u8; 32]);
    assert_eq!(addr, Some("127.0.0.1:7272".to_string()));
    assert_eq!(peer_addr_parts(NODE_A), Some((vec![1u8; 32], None)));
    assert_eq!(peer_addr_parts("short@1.2.3.4:5"), None);
}

#[test]
fn frames() {
    let f = frame(&[1, 2, 3]);
    assert_eq!(f, vec![0, 0, 0, 3, 1, 2, 3]);
    assert_eq!(frame_length(&f[..4]).unwrap(), 3);
    let big = (MAX_MSG_SIZE + 1).to_be_bytes();
    let FrameError::TooLarge(n) = frame_length(&big).unwrap_err();
    assert_eq!(n, 10485761);
    assert_eq!(FrameError::TooLarge(n).message(), "message too large: 10485761 bytes (max 10485760)");
    assert_eq!(frame_length(&MAX_MSG_SIZE.to_be_bytes()).unwrap(), MAX_MSG_SIZE);
    assert_eq!(protocol_alpn(), b"/monotask/board-sync/1.0.0".to_vec());
}

#[test]
fn version_handshake() {
    let ok = version_reply(&VersionHello { major: PROTOCOL_MAJOR });
    assert!(ok.reason.is_empty());
    assert!(version_accepted(&VersionHello { major: 1 }));
    let no = version_reply(&VersionHello { major: 7 });
    assert_eq!(no.reason, "incompatible major version: we speak 1, you speak 7");
    assert_eq!((no.their_major, no.our_major), (7, 1));
    assert!(!version_accepted(&VersionHello { major: 7 }));
    assert!(dial_accepted(&None));
    assert!(dial_accepted(&Some(ok)));
    assert!(!dial_accepted(&Some(no)));
    let _ = VersionReject { reason: String::new(), their_major: 1, our_major: 1 };
}

#[test]
fn responder_answers() {
    let r = hello_response(false, true, "s".into(), vec![], vec![]);
    assert!(matches!(r, SyncResponse::Rejected { ref reason } if reason == "bad signature"));
    let r = hello_response(true, false, "s".into(), vec![], vec![]);
    assert!(matches!(r, SyncResponse::Rejected { ref reason } if reason == "not a member"));
    let r = hello_response(true, true, "s".into(), vec!["b".into()], vec![9]);
    assert!(matches!(r, SyncResponse::HelloAck { ref space_id, ref board_ids, ref space_doc_bytes } if space_id == "s" && board_ids == &vec!["b".to_string()] && space_doc_bytes == &vec![9u8]));
    let r = board_sync_response("b".into(), Err("boom".into()));
    assert!(matches!(r, SyncResponse::Rejected { ref reason } if reason == "boom"));
    let r = board_sync_response("b".into(), Ok(Some(vec![1])));
    assert!(matches!(r, SyncResponse::BoardSync { ref board_id, sync_message: Some(ref m) } if board_id == "b" && m == &vec![1u8]));
    assert!(matches!(presence_response(), SyncResponse::BoardSync { ref board_id, sync_message: None } if board_id.is_empty()));
}

#[test]
fn sync_state_keys() {
    assert_eq!(sync_state_key(true, "p", "b"), "i/p/b");
    assert_eq!(sync_state_key(false, "p", "b"), "r/p/b");
    let keys = vec!["i/p1/b".to_string(), "r/p2/b".to_string(), "r/p1/c".to_string()];
    assert_eq!(keys_after_disconnect(&keys, "p1"), vec!["r/p2/b".to_string()]);
    assert_eq!(keys_after_rehello(&keys), vec!["r/p2/b".to_string(), "r/p1/c".to_string()]);
}

#[test]
fn board_sync_steps() {
    assert!(matches!(step_after_generate("b", None), BoardSyncStep::Finished));
    match step_after_generate("b", Some(vec![4])) {
        BoardSyncStep::Send(SyncRequest::BoardSync { board_id, sync_message }) => {
            assert_eq!(board_id, "b");
            assert_eq!(sync_message, vec![4]);
        }
        _ => panic!("expected a send"),
    }
    assert!(matches!(step_after_response(Some(SyncResponse::BoardSync { board_id: "b".into(), sync_message: None })), BoardSyncStep::Finished));
    assert!(matches!(step_after_response(Some(SyncResponse::BoardSync { board_id: "b".into(), sync_message: Some(vec![1]) })), BoardSyncStep::Apply(_)));
    assert!(matches!(step_after_response(Some(SyncResponse::Rejected { reason: "x".into() })), BoardSyncStep::Stop));
    assert!(matches!(step_after_response(None), BoardSyncStep::Stop));
    assert!(step_after_apply(Ok(())).is_none());
    assert!(matches!(step_after_apply(Err("e".into())), Some(BoardSyncStep::Failed(ref e)) if e == "e"));
}

#[test]
fn saved_peers() {
    assert_eq!(saved_peers_file_name(), "saved_peers_iroh.txt");
    assert_eq!(parse_saved_peers("  a \r\n\n b\n   \n"), vec!["a".to_string(), "b".to_string()]);
    assert_eq!(parse_saved_peers(""), Vec::<String>::new());
    let merged = merge_bootstrap_peers(vec!["a".into()], &vec!["b".into(), "a".into(), "b".into()]);
    assert_eq!(merged, vec!["a".to_string(), "b".to_string()]);
    assert_eq!(saved_peer_line("x"), "x\n");
    assert_eq!(boards_to_sync(&vec!["1".into(), "2".into()], &vec!["2".into(), "3".into()]), vec!["1".to_string(), "2".to_string(), "3".to_string()]);
}

#[test]
fn event_loop_decisions() {
    let mut s = SwarmState { bootstrap: vec![NODE_A.to_string(), "bad".to_string()], connected: vec![], spaces: vec![] };
    let a = swarm_step(&mut s, SwarmInput::TriggerSync("b1".into()));
    assert_eq!(a.len(), 1);
    assert!(matches!(&a[0], SwarmAction::Dial(x) if x == NODE_A));
    let a = swarm_step(&mut s, SwarmInput::Connected(NODE_B.into()));
    assert!(matches!(&a[0], SwarmAction::Emit(NetEvent::PeerConnected { peer_id }) if peer_id == NODE_B));
    assert!(matches!(&a[1], SwarmAction::ServeStreams(_)));
    assert_eq!(a.len(), 2);
    let a = swarm_step(&mut s, SwarmInput::AnnounceSpaces(vec!["sp".into()]));
    assert!(matches!(&a[0], SwarmAction::ResetInitiatorStates));
    assert!(matches!(&a[1], SwarmAction::Hello(p, sp) if p == NODE_B && sp == &vec!["sp".to_string()]));
    let a = swarm_step(&mut s, SwarmInput::TriggerSync("b1".into()));
    assert_eq!(a.len(), 1);
    assert!(matches!(&a[0], SwarmAction::SyncBoard(p, b) if p == NODE_B && b == "b1"));
    assert!(swarm_step(&mut s, SwarmInput::ReconnectTick).is_empty());
    let a = swarm_step(&mut s, SwarmInput::AddPeer("junk".into()));
    assert!(matches!(&a[0], SwarmAction::SavePeer(x) if x == "junk"));
    assert!(matches!(&a[1], SwarmAction::WarnInvalidPeer(_)));
    let a = swarm_step(&mut s, SwarmInput::AddPeer("junk".into()));
    assert_eq!(a.len(), 1);
    assert_eq!(s.bootstrap.len(), 3);
    let a = swarm_step(&mut s, SwarmInput::GetPeerPubkeys);
    assert!(matches!(&a[0], SwarmAction::ReplyPubkeys(v) if v == &vec![(NODE_B.to_string(), NODE_B.to_string())]));
    let a = swarm_step(&mut s, SwarmInput::AddPeer(format!("{NODE_B}@1.2.3.4:5")));
    assert_eq!(a.len(), 1);
    assert!(matches!(&a[0], SwarmAction::SavePeer(_)));
    let a = swarm_step(&mut s, SwarmInput::AddPeer(NODE_A.to_string()));
    assert!(matches!(a.last(), Some(SwarmAction::Dial(x)) if x == NODE_A));
    assert!(swarm_step(&mut s, SwarmInput::Discovered(NODE_B.into(), "1.2.3.4:5".into())).is_empty());
    let a = swarm_step(&mut s, SwarmInput::Discovered(NODE_A.into(), "1.2.3.4:5".into()));
    assert!(matches!(&a[0], SwarmAction::DialDirect(n, _) if n == NODE_A));
    let a = swarm_step(&mut s, SwarmInput::Disconnected(NODE_B.into()));
    assert!(matches!(&a[1], SwarmAction::Emit(NetEvent::PeerDisconnected { .. })));
    assert!(s.connected.is_empty());
    let a = swarm_step(&mut s, SwarmInput::ReconnectTick);
    assert_eq!(a.len(), 2);
    let a = swarm_step(&mut s, SwarmInput::GetPeers);
    assert!(matches!(&a[0], SwarmAction::ReplyPeers(v) if v.is_empty()));
    assert!(matches!(swarm_step(&mut s, SwarmInput::PresenceTick)[0], SwarmAction::SendPresence));
    assert!(matches!(swarm_step(&mut s, SwarmInput::GetListenAddrs)[0], SwarmAction::ReplyListenAddrs));
    assert!(matches!(swarm_step(&mut s, SwarmInput::ForceRediscovery)[0], SwarmAction::ResetInitiatorStates));
    assert!(matches!(swarm_step(&mut s, SwarmInput::Stop)[0], SwarmAction::Shutdown));
}

#[test]
fn serving_a_connection() {
    let (p, a) = serve_step(ServePhase::AwaitingHello, "peer", ServeEvent::Hello(2));
    assert_eq!(p, ServePhase::Closed);
    assert_eq!(a.len(), 3);
    assert!(matches!(&a[0], ServeAction::Reply(r) if r.their_major == 2 && r.our_major == 1 && !r.reason.is_empty()));
    assert!(matches!(&a[1], ServeAction::ReportDisconnected(x) if x == "peer"));
    assert!(matches!(&a[2], ServeAction::Stop));
    let (p2, a2) = serve_step(p, "peer", ServeEvent::Request);
    assert_eq!(p2, ServePhase::Closed);
    assert!(a2.is_empty());
    let (p, a) = serve_step(ServePhase::AwaitingHello, "peer", ServeEvent::Hello(1));
    assert_eq!(p, ServePhase::Serving);
    assert!(matches!(&a[..], [ServeAction::Reply(r)] if r.reason.is_empty()));
    let (p, a) = serve_step(p, "peer", ServeEvent::Request);
    assert_eq!(p, ServePhase::Serving);
    assert!(matches!(&a[..], [ServeAction::Answer]));
    let (p, a) = serve_step(p, "peer", ServeEvent::Ended);
    assert_eq!(p, ServePhase::Closed);
    assert_eq!(a.len(), 2);
    let (p, a) = serve_step(ServePhase::AwaitingHello, "peer", ServeEvent::Ended);
    assert_eq!(p, ServePhase::Closed);
    assert_eq!(a.len(), 2);
}

#[test]
fn syncing_one_board() {
    let (p, a) = board_sync_step(BoardSyncPhase::Start, "P", "b", BoardSyncEvent::Begin);
    assert_eq!(p, BoardSyncPhase::Generating);
    assert!(matches!(&a[..], [BoardSyncAction::ResetState(k), BoardSyncAction::Generate] if k == "i/P/b"));
    let (p, a) = board_sync_step(p, "P", "b", BoardSyncEvent::Generated(Some(vec![1, 2])));
    assert_eq!(p, BoardSyncPhase::AwaitingAnswer);
    assert!(matches!(&a[..], [BoardSyncAction::Send(SyncRequest::BoardSync { board_id, sync_message })] if board_id == "b" && sync_message == &vec![1u8, 2]));
    let (p, a) = board_sync_step(p, "P", "b", BoardSyncEvent::Answered(Some(SyncResponse::BoardSync { board_id: "b".into(), sync_message: Some(vec![3]) })));
    assert_eq!(p, BoardSyncPhase::Applying);
    assert!(matches!(&a[..], [BoardSyncAction::Apply(x)] if x == &vec![3u8]));
    let (p, a) = board_sync_step(p, "P", "b", BoardSyncEvent::Applied(Ok(())));
    assert_eq!(p, BoardSyncPhase::Generating);
    assert!(matches!(&a[..], [BoardSyncAction::Generate]));
    let (p, a) = board_sync_step(p, "P", "b", BoardSyncEvent::Generated(None));
    assert_eq!(p, BoardSyncPhase::Done);
    assert!(matches!(&a[..], [BoardSyncAction::Report(NetEvent::BoardSynced { board_id, peer_id }), BoardSyncAction::Stop] if board_id == "b" && peer_id == "P"));
    let (p, a) = board_sync_step(p, "P", "b", BoardSyncEvent::Generated(None));
    assert_eq!(p, BoardSyncPhase::Done);
    assert!(a.is_empty());
    let (p, a) = board_sync_step(BoardSyncPhase::Applying, "P", "b", BoardSyncEvent::Applied(Err("bad".into())));
    assert_eq!(p, BoardSyncPhase::Done);
    assert!(matches!(&a[0], BoardSyncAction::Report(NetEvent::SyncError { error, .. }) if error == "bad"));
    let (p, a) = board_sync_step(BoardSyncPhase::AwaitingAnswer, "P", "b", BoardSyncEvent::Answered(None));
    assert_eq!(p, BoardSyncPhase::Done);
    assert!(matches!(&a[..], [BoardSyncAction::Stop]));
}

use rtorrent::bitfield::Bitfield;
use rtorrent::peer_client::{
    interested, request, unchoked, ClientState, GeneralMsg, HandshakeMsg, PeerAction, PeerClient, KEEP_ALIVE,
};

#[test]
fn bitfield_message_sets_pieces() {
    let mut c = PeerClient::new(16384, 4, 65536);
    let (go, acts) = c.process_msg(GeneralMsg { action: 5, payload: vec![0xF0] });
    assert!(go);
    for i in 0..4 {
        assert!(c.bitfield.get(i));
    }
    assert!(!c.bitfield.get(4));
    assert_eq!(acts.len(), 2);
    assert!(matches!(&acts[0], PeerAction::Send(m) if m.action == 2 && m.payload.is_empty()));
    assert!(matches!(&acts[1], PeerAction::Send(m) if m.action == 1 && m.payload.is_empty()));
}

#[test]
fn handshake_bytes() {
    let h = HandshakeMsg { pstr: "BitTorrent protocol".to_string(), info_hash: vec![7u8; 20], peer_id: vec![9u8; 20] };
    let b = h.serialize();
    assert_eq!(b.len(), 68);
    assert_eq!(b[0], 19);
    assert_eq!(&b[1..20], b"BitTorrent protocol");
    assert_eq!(&b[20..28], &[0u8; 8]);
    assert_eq!(&b[28..48], &[7u8; 20]);
    assert_eq!(&b[48..68], &[9u8; 20]);
    let back = HandshakeMsg::from_bytes(&b).unwrap();
    assert_eq!(back.pstr, "BitTorrent protocol");
    assert!(back.matches(&[7u8; 20]));
    assert!(!back.matches(&[8u8; 20]));
    assert!(HandshakeMsg::from_bytes(&b[0..67]).is_none());
}

#[test]
fn general_message_frames() {
    let m = GeneralMsg { action: 4, payload: vec![0, 0, 0, 3] };
    assert_eq!(m.serialize(), vec![0, 0, 0, 5, 4, 0, 0, 0, 3]);
    let k = GeneralMsg::from_frame(0, &[]);
    assert_eq!(k.action, KEEP_ALIVE);
    let g = GeneralMsg::from_frame(3, &[7, 1, 2]);
    assert_eq!(g.action, 7);
    assert_eq!(g.payload, vec![1, 2]);
    assert_eq!(interested().action, 2);
    assert_eq!(unchoked().action, 1);
}

#[test]
fn request_is_cut_at_piece_end() {
    let r = request(3, 16384, 16384, 20000);
    assert_eq!(r.action, 6);
    assert_eq!(r.payload, vec![0, 0, 0, 3, 0, 0, 0x40, 0, 0, 0, 0x0E, 0x20]);
    let r = request(1, 0, 16384, 20000);
    assert_eq!(&r.payload[8..12], &16384u32.to_be_bytes());
}

#[test]
fn fetch_a_piece() {
    let mut c = PeerClient::new(4, 2, 8);
    let (go, _) = c.process_msg(GeneralMsg { action: 1, payload: vec![] });
    assert!(go && !c.am_choked);
    let acts = c.update_state();
    assert_eq!(acts.len(), 1);
    match &acts[0] {
        PeerAction::Signal(ClientState::Need(b)) => assert!(!b.get(0)),
        _ => panic!("expected a need"),
    }
    let (go, up) = c.sync_ctrl(Some(ClientState::Want(1)));
    assert!(go && up.is_empty());
    let acts = c.update_state();
    assert!(matches!(&acts[0], PeerAction::Send(m) if m.action == 6 && m.payload == vec![0, 0, 0, 1, 0, 0, 0, 0, 0, 0, 0, 4]));
    assert!(c.waiting_piece);
    let (go, _) = c.process_msg(GeneralMsg { action: 7, payload: vec![0, 0, 0, 1, 0, 0, 0, 0, 9, 8, 7, 6] });
    assert!(go);
    assert_eq!(c.acquire_step, 4);
    assert!(!c.waiting_piece);
    let acts = c.update_state();
    match &acts[0] {
        PeerAction::Signal(ClientState::Commit(p, d)) => {
            assert_eq!(*p, 1);
            assert_eq!(d, &vec![9, 8, 7, 6]);
        },
        _ => panic!("expected a commit"),
    }
    assert!(!c.am_acquiring);
}

#[test]
fn piece_for_other_index_ignored() {
    let mut c = PeerClient::new(4, 2, 8);
    c.sync_ctrl(Some(ClientState::Want(0)));
    c.process_msg(GeneralMsg { action: 7, payload: vec![0, 0, 0, 1, 0, 0, 0, 0, 9, 8, 7, 6] });
    assert_eq!(c.acquire_step, 0);
    assert_eq!(c.acquire_buffer, vec![0, 0, 0, 0]);
}

#[test]
fn have_and_choke() {
    let mut c = PeerClient::new(4, 16, 64);
    c.process_msg(GeneralMsg { action: 4, payload: vec![0, 0, 0, 9] });
    assert!(c.bitfield.get(9));
    c.process_msg(GeneralMsg { action: 4, payload: vec![0, 0, 1, 0] });
    assert!(!c.bitfield.get(256));
    c.waiting_piece = true;
    c.process_msg(GeneralMsg { action: 0, payload: vec![] });
    assert!(c.am_choked && !c.waiting_piece);
    c.process_msg(GeneralMsg { action: 2, payload: vec![] });
    assert!(c.am_interested);
    c.process_msg(GeneralMsg { action: 3, payload: vec![] });
    assert!(!c.am_interested);
}

#[test]
fn unknown_action_closes() {
    let mut c = PeerClient::new(4, 2, 8);
    let (go, acts) = c.process_msg(GeneralMsg { action: 20, payload: vec![] });
    assert!(!go);
    assert!(matches!(&acts[0], PeerAction::Signal(ClientState::Close(s)) if s == "Unhandled action 20"));
    let (go, acts) = c.process_msg(GeneralMsg { action: 6, payload: vec![] });
    assert!(go && acts.is_empty());
}

#[test]
fn control_messages() {
    let mut c = PeerClient::new(4, 2, 8);
    let (go, up) = c.sync_ctrl(None);
    assert!(go && up.is_empty());
    let (go, up) = c.sync_ctrl(Some(ClientState::Close("bye".to_string())));
    assert!(!go);
    assert!(matches!(&up[0], ClientState::Close(s) if s == "bye"));
    let (go, up) = c.sync_ctrl(Some(ClientState::Need(Bitfield::new(vec![]))));
    assert!(!go);
    assert!(matches!(&up[0], ClientState::Close(s) if s == "ctrl error"));
}

#[test]
fn last_piece_is_shorter() {
    assert_eq!(rtorrent::peer_client::piece_size_of(10, 4, 0), 4);
    assert_eq!(rtorrent::peer_client::piece_size_of(10, 4, 2), 2);
    assert_eq!(rtorrent::peer_client::piece_size_of(10, 4, 3), 0);
    let mut c = PeerClient::new(4, 2, 6);
    c.process_msg(GeneralMsg { action: 1, payload: vec![] });
    c.update_state();
    c.sync_ctrl(Some(ClientState::Want(1)));
    assert_eq!(c.acquiring_len, 2);
    let acts = c.update_state();
    assert!(matches!(&acts[0], PeerAction::Send(m) if m.payload == vec![0, 0, 0, 1, 0, 0, 0, 0, 0, 0, 0, 2]));
    c.process_msg(GeneralMsg { action: 7, payload: vec![0, 0, 0, 1, 0, 0, 0, 0, 5, 6] });
    let acts = c.update_state();
    assert!(matches!(&acts[0], PeerAction::Signal(ClientState::Commit(1, d)) if d == &vec![5, 6]));
}

use rtorrent::decoder::decode;
use rtorrent::torrent::Info;
use rtorrent::tracker::{
    gen_tracker_request, http_announce_step, parse_ipv4, http_tracker_extract_peers, http_tracker_step, tracker_kind,
    udp_announce_step, udp_connect_step, AnnounceCmd, AnnounceResp, ConnectCmd, ConnectResp, PeerAddress,
    TrackerError, TrackerKind, TrackerState,
};
use rtorrent::urlencode::urlencode;

fn announce_reply(action: u32, tid: u32, tail: &[u8]) -> Vec<u8> {
    let mut d = Vec::new();
    d.extend_from_slice(&action.to_be_bytes());
    d.extend_from_slice(&tid.to_be_bytes());
    d.extend_from_slice(&1800u32.to_be_bytes());
    d.extend_from_slice(&2u32.to_be_bytes());
    d.extend_from_slice(&5u32.to_be_bytes());
    d.extend_from_slice(tail);
    d
}

#[test]
fn udp_announce_one_peer() {
    let d = announce_reply(1, 23131, &[10, 0, 0, 1, 0x1A, 0xE1]);
    let r = AnnounceResp::deserialize(23131, &d).ok().unwrap();
    assert_eq!(r.interval, 1800);
    assert_eq!(r.leechers, 2);
    assert_eq!(r.seeders, 5);
    assert_eq!(r.peers, vec![PeerAddress { ip: 0x0A000001, port: 6881 }]);
}

#[test]
fn udp_announce_ignores_partial_peer() {
    let d = announce_reply(1, 7, &[10, 0, 0, 1, 0x1A, 0xE1, 1, 2, 3]);
    let r = AnnounceResp::deserialize(7, &d).ok().unwrap();
    assert_eq!(r.peers.len(), 1);
}

#[test]
fn udp_announce_rejections() {
    let d = announce_reply(2, 23131, &[]);
    assert_eq!(AnnounceResp::deserialize(23131, &d).err(), Some(TrackerError::BadAction));
    let d = announce_reply(1, 23130, &[]);
    assert_eq!(AnnounceResp::deserialize(23131, &d).err(), Some(TrackerError::BadTransaction));
    assert_eq!(AnnounceResp::deserialize(23131, &[0, 0, 0, 1]).err(), Some(TrackerError::Truncated));
    assert_eq!(AnnounceResp::deserialize(23131, &d[0..12]).err(), Some(TrackerError::BadTransaction));
    let d = announce_reply(1, 23131, &[]);
    assert_eq!(AnnounceResp::deserialize(23131, &d[0..12]).err(), Some(TrackerError::Truncated));
}

#[test]
fn connect_request_bytes() {
    let c = ConnectCmd { action: 0, transaction_id: 23131 };
    let b = c.serialize();
    assert_eq!(b.len(), 16);
    assert_eq!(&b[0..8], &0x41727101980u64.to_be_bytes());
    assert_eq!(&b[8..12], &[0, 0, 0, 0]);
    assert_eq!(&b[12..16], &23131u32.to_be_bytes());
}

#[test]
fn connect_reply() {
    let mut d = Vec::new();
    d.extend_from_slice(&0u32.to_be_bytes());
    d.extend_from_slice(&99u32.to_be_bytes());
    d.extend_from_slice(&0x0102030405060708u64.to_be_bytes());
    assert_eq!(ConnectResp::deserialize(99, &d), Ok(ConnectResp { connection_id: 0x0102030405060708 }));
    assert_eq!(ConnectResp::deserialize(98, &d), Err(TrackerError::BadTransaction));
    assert_eq!(ConnectResp::deserialize(99, &d[0..12]), Err(TrackerError::Truncated));
    let mut bad = d.clone();
    bad[3] = 1;
    assert_eq!(ConnectResp::deserialize(99, &bad), Err(TrackerError::BadAction));
}

#[test]
fn announce_request_bytes() {
    let c = AnnounceCmd {
        connection_id: 0x1122334455667788,
        transaction_id: 5,
        info_hash: vec![1u8; 20],
        peer_id: vec![2u8; 20],
        downloaded: 3,
        left: 4,
        uploaded: 6,
        event: 0,
        ip: 0,
        key: 0,
        num_want: 50,
        port: 6898,
    };
    let b = c.serialize();
    assert_eq!(b.len(), 98);
    assert_eq!(&b[0..8], &0x1122334455667788u64.to_be_bytes());
    assert_eq!(&b[8..12], &1u32.to_be_bytes());
    assert_eq!(&b[12..16], &5u32.to_be_bytes());
    assert_eq!(&b[16..36], &[1u8; 20]);
    assert_eq!(&b[36..56], &[2u8; 20]);
    assert_eq!(&b[56..64], &3u64.to_be_bytes());
    assert_eq!(&b[64..72], &4u64.to_be_bytes());
    assert_eq!(&b[72..80], &6u64.to_be_bytes());
    assert_eq!(&b[92..96], &50u32.to_be_bytes());
    assert_eq!(&b[96..98], &6898u16.to_be_bytes());
}

#[test]
fn udp_steps() {
    let mut d = Vec::new();
    d.extend_from_slice(&0u32.to_be_bytes());
    d.extend_from_slice(&1u32.to_be_bytes());
    d.extend_from_slice(&42u64.to_be_bytes());
    let (step, conn) = udp_connect_step(1, &d);
    assert_eq!(conn, Some(42));
    assert!(matches!(step.events[0], TrackerState::Connected(42)));
    let (step, conn) = udp_connect_step(2, &d);
    assert_eq!(conn, None);
    assert!(matches!(&step.events[0], TrackerState::Close(s) if s == "Bad transaction ID"));
    let a = announce_reply(1, 3, &[10, 0, 0, 1, 0x1A, 0xE1]);
    let step = udp_announce_step(3, &a);
    assert_eq!(step.sleep_secs, Some(1800));
    assert!(matches!(&step.events[0], TrackerState::Announced(p) if p.len() == 1));
    let step = udp_announce_step(4, &a);
    assert_eq!(step.sleep_secs, None);
}

#[test]
fn percent_encoding() {
    assert_eq!(urlencode(&[0x12, b'a', b' ', b'~', b'*', 0xff]), "%12a%20~*%ff");
    assert_eq!(urlencode(b"AZaz09-._!'()"), "AZaz09-._!'()");
    assert_eq!(urlencode(&[]), "");
}

#[test]
fn http_request_url() {
    let info = Info {
        name: "n".to_string(),
        announce: "http://t.example/announce".to_string(),
        piece_length: 16,
        pieces: vec![],
        files: vec![],
        info_hash: vec![0x12, b'a'],
        peer_id: vec![b'r', b'T', 0xff],
    };
    assert_eq!(
        gen_tracker_request(&info, 6898),
        "http://t.example/announce?info_hash=%12a&peer_id=rT%ff&port=6898&uploaded=0&downloaded=0&left=0&event=started&compact=1"
    );
}

#[test]
fn tracker_schemes() {
    assert_eq!(tracker_kind("udp://t:80"), TrackerKind::Udp);
    assert_eq!(tracker_kind("http://t/a"), TrackerKind::Http);
    assert_eq!(tracker_kind("https://t/a"), TrackerKind::Http);
    assert_eq!(tracker_kind("ftp://t/a"), TrackerKind::Unknown);
}

#[test]
fn http_reply_steps() {
    let mut input: &[u8] = b"d8:intervali900e5:peers6:\x0a\x00\x00\x01\x1a\xe1e";
    let resp = decode(&mut input).unwrap();
    let peers = http_tracker_extract_peers(resp.field("peers").unwrap());
    assert_eq!(peers, vec![PeerAddress { ip: 0x0A000001, port: 6881 }]);
    let step = http_announce_step(&resp);
    assert_eq!(step.sleep_secs, Some(900));
    assert_eq!(step.events.len(), 1);
    let step = http_tracker_step(b"d5:peers0:e");
    assert_eq!(step.sleep_secs, None);
    assert!(matches!(&step.events[1], TrackerState::Close(s) if s == "No interval error"));
    let step = http_tracker_step(b"x");
    assert!(matches!(&step.events[0], TrackerState::Close(s) if s == "Bencoder decode error"));
}

#[test]
fn ipv4_text() {
    assert_eq!(parse_ipv4(b"10.0.0.1"), Some(0x0A000001));
    assert_eq!(parse_ipv4(b"255.255.255.255"), Some(0xFFFFFFFF));
    assert_eq!(parse_ipv4(b"256.0.0.1"), None);
    assert_eq!(parse_ipv4(b"1.2.3"), None);
    assert_eq!(parse_ipv4(b"1.2.3.4.5"), None);
    assert_eq!(parse_ipv4(b"1..3.4"), None);
    assert_eq!(parse_ipv4(b"::1"), None);
    assert_eq!(parse_ipv4(b"1.2.3.0004"), None);
}

#[test]
fn dictionary_peer_model() {
    let mut input: &[u8] =
        b"d5:peersld2:ip8:10.0.0.14:porti6881eed2:ip3:::14:porti1eed2:ip7:1.2.3.44:porti70000eed2:ip7:1.2.3.44:porti80eeee";
    let resp = decode(&mut input).unwrap();
    let peers = http_tracker_extract_peers(resp.field("peers").unwrap());
    assert_eq!(peers, vec![PeerAddress { ip: 0x0A000001, port: 6881 }, PeerAddress { ip: 0x01020304, port: 80 }]);
}

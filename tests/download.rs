use rtorrent::bitfield::Bitfield;
use rtorrent::download::{remaining, Dispatch, Download, Peer, MAX_PEERS};
use rtorrent::peer_client::ClientState;
use rtorrent::torrent::FileInfo;
use rtorrent::torrent_data::{file_segments, zeros, FileSegment, TorrentData};
use rtorrent::tracker::{PeerAddress, TrackerState};

fn digest_abcd() -> Vec<u8> {
    vec![129, 254, 139, 254, 135, 87, 108, 62, 203, 34, 66, 111, 142, 87, 132, 115, 130, 145, 122, 207]
}

fn digest_efgh() -> Vec<u8> {
    vec![42, 237, 138, 169, 248, 38, 194, 30, 240, 125, 94, 225, 91, 72, 238, 160, 110, 156, 138, 98]
}

fn store(n: usize) -> TorrentData {
    let mut pieces = vec![digest_abcd(), digest_efgh()];
    while pieces.len() < n {
        pieces.push(vec![0u8; 20]);
    }
    TorrentData::allocate("out".to_string(), pieces, 4)
}

fn peers(n: u32) -> Vec<PeerAddress> {
    (0..n).map(|i| PeerAddress { ip: i + 1, port: 6881 }).collect()
}

#[test]
fn peer_cap_and_distinct_addresses() {
    let mut d = Download::new(store(2));
    let (stop, added) = d.sync_tracker(&TrackerState::Announced(peers(3)));
    assert!(!stop);
    assert_eq!(added.len(), 3);
    let (_, added) = d.sync_tracker(&TrackerState::Announced(peers(60)));
    assert_eq!(added.len(), MAX_PEERS - 3);
    assert_eq!(d.active_clients.len(), MAX_PEERS);
    for i in 0..d.active_clients.len() {
        for j in i + 1..d.active_clients.len() {
            assert_ne!(d.active_clients[i].id.ip, d.active_clients[j].id.ip);
        }
    }
    let (stop, added) = d.sync_tracker(&TrackerState::Close("gone".to_string()));
    assert!(stop && added.is_empty());
}

#[test]
fn same_address_once() {
    let mut d = Download::new(store(2));
    let twice = vec![PeerAddress { ip: 5, port: 1 }, PeerAddress { ip: 5, port: 2 }];
    let (_, added) = d.sync_tracker(&TrackerState::Announced(twice));
    assert_eq!(added, vec![PeerAddress { ip: 5, port: 1 }]);
}

#[test]
fn pieces_are_locked_outside_endgame() {
    let mut d = Download::new(store(60));
    d.sync_tracker(&TrackerState::Announced(peers(2)));
    let field = Bitfield::new(vec![0xC0; 8]);
    let mut flags = Vec::new();
    let a = d.process_client_msg(0, ClientState::Need(field.copy()), &mut flags);
    assert!(matches!(a[0], Dispatch::SendTo(0, ClientState::Want(0))));
    let b = d.process_client_msg(1, ClientState::Need(field.copy()), &mut flags);
    assert!(matches!(b[0], Dispatch::SendTo(1, ClientState::Want(1))));
    assert_eq!(d.active_clients[0].locked, Some(0));
    assert_eq!(d.active_clients[1].locked, Some(1));
    let c = d.process_client_msg(1, ClientState::Need(Bitfield::new(vec![0x80])), &mut flags);
    assert!(matches!(&c[0], Dispatch::SendTo(1, ClientState::Close(s)) if s == "Nothing of interest"));
    let again = d.process_client_msg(0, ClientState::Need(Bitfield::new(vec![0x80])), &mut flags);
    assert!(matches!(again[0], Dispatch::SendTo(0, ClientState::Want(0))));
    assert_eq!(d.find_needed_piece(1, &Bitfield::new(vec![0xC0])), Some(1));
    assert_eq!(d.find_needed_piece(1, &Bitfield::new(vec![0xA0])), Some(2));
}

#[test]
fn endgame_allows_shared_pieces() {
    let mut d = Download::new(store(2));
    d.sync_tracker(&TrackerState::Announced(peers(2)));
    let mut flags = Vec::new();
    let field = Bitfield::new(vec![0x80]);
    d.process_client_msg(0, ClientState::Need(field.copy()), &mut flags);
    let b = d.process_client_msg(1, ClientState::Need(field.copy()), &mut flags);
    assert!(matches!(b[0], Dispatch::SendTo(1, ClientState::Want(0))));
}

#[test]
fn commit_checks_digest_and_writes_once() {
    let mut d = Download::new(store(2));
    d.sync_tracker(&TrackerState::Announced(peers(1)));
    let mut flags = Vec::new();
    let bad = d.process_client_msg(0, ClientState::Commit(0, b"abce".to_vec()), &mut flags);
    assert!(bad.is_empty());
    assert_eq!(remaining(&d.data), 2);
    let good = d.process_client_msg(0, ClientState::Commit(0, b"abcd".to_vec()), &mut flags);
    assert!(matches!(&good[0], Dispatch::Write(0, v) if v == b"abcd"));
    assert!(d.data.have.get(0));
    assert_eq!(d.data.remaining(), 1);
    let again = d.process_client_msg(0, ClientState::Commit(0, b"abcd".to_vec()), &mut flags);
    assert!(again.is_empty());
    let out_of_range = d.process_client_msg(0, ClientState::Commit(9, b"abcd".to_vec()), &mut flags);
    assert!(out_of_range.is_empty());
    assert_eq!(d.update_data_state(), (0, 0));
}

#[test]
fn close_flags_and_removal() {
    let mut d = Download::new(store(2));
    d.sync_tracker(&TrackerState::Announced(peers(4)));
    let mut flags = Vec::new();
    d.process_client_msg(1, ClientState::Close("x".to_string()), &mut flags);
    d.process_client_msg(1, ClientState::Close("x".to_string()), &mut flags);
    d.process_client_msg(3, ClientState::Close("x".to_string()), &mut flags);
    assert_eq!(flags, vec![1, 3]);
    let w = d.process_client_msg(0, ClientState::Want(1), &mut flags);
    assert!(matches!(&w[0], Dispatch::SendTo(0, ClientState::Close(s)) if s == "Bad message"));
    d.remove_flagged(&flags);
    let left: Vec<u32> = d.active_clients.iter().map(|p: &Peer| p.id.ip).collect();
    assert_eq!(left, vec![1, 3]);
}

#[test]
fn store_offsets_and_zeros() {
    let s = store(3);
    assert_eq!(s.offset(2), 8);
    assert_eq!(s.have.len(), 1);
    assert_eq!(zeros(3), vec![0, 0, 0]);
}

#[test]
fn progress_in_mebibytes() {
    let pieces = vec![digest_abcd(), digest_efgh()];
    let data = TorrentData::allocate("big".to_string(), pieces, 1 << 20);
    let d = Download::new(data);
    assert_eq!(d.update_data_state(), (0, 2));
}

#[test]
fn accept_by_digest() {
    let mut s = store(2);
    assert!(!s.accept_digest(0, &digest_efgh()));
    assert!(s.accept_digest(1, &digest_efgh()));
    assert!(!s.accept_digest(1, &digest_efgh()));
    assert!(!s.accept_digest(2, &digest_efgh()));
    assert!(s.have.get(1) && !s.have.get(0));
    assert!(s.write(0, b"abcd"));
    assert_eq!(s.remaining(), 0);
}

#[test]
fn pieces_spread_over_files() {
    let files = vec![
        FileInfo { path: "a".to_string(), length: 3 },
        FileInfo { path: "b".to_string(), length: 0 },
        FileInfo { path: "c".to_string(), length: 5 },
    ];
    assert_eq!(
        file_segments(&files, 2, 4),
        vec![
            FileSegment { file: 0, file_offset: 2, start: 0, end: 1 },
            FileSegment { file: 2, file_offset: 0, start: 1, end: 4 },
        ]
    );
    assert_eq!(file_segments(&files, 4, 4), vec![FileSegment { file: 2, file_offset: 1, start: 0, end: 4 }]);
    assert_eq!(file_segments(&files, 8, 4), vec![]);
}

use rtorrent::bencode::{DecodeError, MetaError};
use rtorrent::peer_id::{gen_peer_id, peer_id_from};
use rtorrent::torrent::{from_string, prepare, prepare_with};

const SINGLE: &[u8] =
    b"d8:announce18:udp://t.example:804:infod6:lengthi20e4:name3:abc12:piece lengthi16e6:pieces20:aaaaaaaaaaaaaaaaaaaaee";

fn hex(b: &[u8]) -> String {
    b.iter().map(|x| format!("{:02x}", x)).collect()
}

#[test]
fn single_file_torrent() {
    let mut input = SINGLE;
    let t = from_string(&mut input).ok().unwrap();
    assert!(input.is_empty());
    let info = prepare_with(&t, vec![1u8; 20]).ok().unwrap();
    assert_eq!(info.name, "abc");
    assert_eq!(info.announce, "udp://t.example:80");
    assert_eq!(info.piece_length, 16);
    assert_eq!(info.pieces, vec![vec![b'a'; 20]]);
    assert_eq!(info.files.len(), 1);
    assert_eq!(info.files[0].path, "abc");
    assert_eq!(info.files[0].length, 20);
    assert_eq!(hex(&info.info_hash), "7bdeb6634dc2608f51fbddde477ad34fb0e29493");
    assert_eq!(info.peer_id, vec![1u8; 20]);
    assert_eq!(info.total_length(), Some(20));
}

#[test]
fn info_hash_matches_sha1_of_info_bytes() {
    let mut input = SINGLE;
    let t = from_string(&mut input).ok().unwrap();
    let info_entry = t.field("info").unwrap();
    let expect = sha1::Sha1::from(&info_entry.src[..]).digest().bytes().to_vec();
    let info = prepare_with(&t, vec![0u8; 20]).ok().unwrap();
    assert_eq!(info.info_hash, expect);
}

#[test]
fn multi_file_torrent() {
    let text: &[u8] = b"d8:announce8:http://x4:infod5:filesld6:lengthi3e4:pathl1:a1:beed6:lengthi4e4:pathl1:ceee4:name1:d12:piece lengthi8e6:pieces0:ee";
    let mut input = text;
    let t = from_string(&mut input).ok().unwrap();
    let info = prepare_with(&t, vec![0u8; 20]).ok().unwrap();
    assert_eq!(info.files.len(), 2);
    assert_eq!(info.files[0].path, "a/b");
    assert_eq!(info.files[1].path, "c");
    assert_eq!(info.files[0].length, 3);
    assert_eq!(info.files[1].length, 4);
    assert!(info.pieces.is_empty());
    assert_eq!(info.total_length(), Some(7));
}

#[test]
fn metainfo_errors() {
    let mut input: &[u8] = b"d4:infodee";
    let t = from_string(&mut input).ok().unwrap();
    assert_eq!(prepare_with(&t, vec![]).err(), Some(MetaError::Missing));
    let mut input: &[u8] = b"i1e";
    let t = from_string(&mut input).ok().unwrap();
    assert_eq!(prepare_with(&t, vec![]).err(), Some(MetaError::NotDictionary));
    let bad_pieces: &[u8] = b"d8:announce1:a4:infod6:lengthi1e4:name1:n12:piece lengthi1e6:pieces3:abcee";
    let mut input = bad_pieces;
    let t = from_string(&mut input).ok().unwrap();
    assert_eq!(prepare_with(&t, vec![]).err(), Some(MetaError::BadPieces));
    let zero_len: &[u8] = b"d8:announce1:a4:infod6:lengthi1e4:name1:n12:piece lengthi0e6:pieces0:ee";
    let mut input = zero_len;
    let t = from_string(&mut input).ok().unwrap();
    assert_eq!(prepare_with(&t, vec![]).err(), Some(MetaError::BadType));
    let mut input: &[u8] = b"i1ex";
    assert_eq!(from_string(&mut input).err(), Some(DecodeError::Trailing));
    assert_eq!(input, b"i1ex");
}

#[test]
fn peer_ids() {
    let id = peer_id_from(&[7u8; 18]);
    assert_eq!(&id[0..2], b"rT");
    assert_eq!(&id[2..20], &[7u8; 18]);
    let g = gen_peer_id();
    assert_eq!(g.len(), 20);
    assert_eq!(&g[0..2], b"rT");
    let mut input = SINGLE;
    let t = from_string(&mut input).ok().unwrap();
    let info = prepare(&t).ok().unwrap();
    assert_eq!(&info.peer_id[0..2], b"rT");
}

#[test]
fn metainfo_type_errors() {
    let files_not_list: &[u8] = b"d8:announce1:a4:infod5:filesi1e4:name1:n12:piece lengthi1e6:pieces0:ee";
    let mut input = files_not_list;
    let t = from_string(&mut input).ok().unwrap();
    assert_eq!(prepare_with(&t, vec![]).err(), Some(MetaError::BadType));
    let int_name: &[u8] = b"d8:announce1:a4:infod6:lengthi1e4:namei5e12:piece lengthi1e6:pieces0:ee";
    let mut input = int_name;
    let t = from_string(&mut input).ok().unwrap();
    assert_eq!(prepare_with(&t, vec![]).err(), Some(MetaError::BadType));
    let list_announce: &[u8] = b"d8:announcele4:infod6:lengthi1e4:name1:n12:piece lengthi1e6:pieces0:ee";
    let mut input = list_announce;
    let t = from_string(&mut input).ok().unwrap();
    assert_eq!(prepare_with(&t, vec![]).err(), Some(MetaError::BadType));
}

#[test]
fn output_layout() {
    let mut input = SINGLE;
    let t = from_string(&mut input).ok().unwrap();
    let info = prepare_with(&t, vec![0u8; 20]).ok().unwrap();
    assert_eq!(info.output_paths(), vec!["abc".to_string()]);
    assert_eq!(info.info_hash.len(), 20);
    let text: &[u8] = b"d8:announce8:http://x4:infod5:filesld6:lengthi3e4:pathl1:a1:beed6:lengthi4e4:pathl1:ceee4:name1:d12:piece lengthi8e6:pieces0:ee";
    let mut input = text;
    let t = from_string(&mut input).ok().unwrap();
    let info = prepare_with(&t, vec![0u8; 20]).ok().unwrap();
    assert_eq!(info.output_paths(), vec!["d/a/b".to_string(), "d/c".to_string()]);
}

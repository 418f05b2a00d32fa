pub mod bitfield;
pub mod bencode;
pub mod decoder;
pub mod encoder;
pub mod text;
pub mod peer_id;
pub mod torrent;
pub mod urlencode;
pub mod wire;
pub mod tracker;
pub mod torrent_data;
pub mod peer_client;
pub mod download;

//! BitTorrent metadata and tracker discovery: a bencode codec, the torrent
//! metadata model with its info hash, the fixed-width field decoders and the
//! pure parts of a tracker announce.
pub mod bencode;
pub mod chunks;
pub mod decimal;
pub mod display;
pub mod text;
pub mod torrent;
pub mod tracker;

pub use bencode::{decode, encode, DecodeError, Value, MAX_DEPTH};
pub use chunks::{decode_chunks, ChunkError, Hashes, Peer, Peers};
pub use display::{decode_bencoded_value, DisplayError, DisplayValue, ShowError};
pub use torrent::{Field, Info, Torrent, TorrentError};
pub use tracker::{assemble_query, urlencode, Client, TrackerError, TrackerResponse};

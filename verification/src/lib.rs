pub mod bencode;
pub mod bitfield;
pub mod error;
pub mod metainfo;
pub mod muxer;
pub mod peermsg;

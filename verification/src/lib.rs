//! Verified core of a desktop music player: the stream cipher and the
//! AES/CBC/base64 pipeline that unlock cached tracks, the playback state
//! machine, and the small text parsers used by its commands.

pub mod keystream;
pub mod aes;
pub mod cbc;
pub mod b64;
pub mod decode;
pub mod text;
pub mod song;
pub mod player;
pub mod json;
pub mod service;
pub mod login;
pub mod media;

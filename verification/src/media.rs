//! Local audio files and base64 audio: the song a file's tags describe, and
//! the bytes of base64-encoded audio.

use vstd::prelude::*;
use base64::engine::general_purpose::STANDARD;
use base64::Engine;
use crate::song::Song;
use crate::text::append_str;

verus! {

/// The standard tag keys that a song is built from; every other key, or a
/// tag without a standard key, is `Other`.
#[derive(Debug, Clone, Copy, PartialEq, Eq, Structural)]
pub enum TagKey {
    Artist,
    Album,
    TrackTitle,
    Other,
}

/// The value of the last tag with key `key`, or empty.
pub open spec fn last_tag(tags: Seq<(TagKey, String)>, key: TagKey) -> Seq<char>
    decreases tags.len(),
{
    if tags.len() == 0 {
        Seq::empty()
    } else if tags.last().0 == key {
        tags.last().1@
    } else {
        last_tag(tags.drop_last(), key)
    }
}

/// The song that a local file's tags describe: title, artist and album from
/// the last tag of each kind, the file's path, and fixed id, image and
/// duration.
pub fn song_from_tags(tags: &Vec<(TagKey, String)>, filename: String) -> (s: Song)
    ensures
        s.title@ == last_tag(tags@, TagKey::TrackTitle),
        s.artist@ == last_tag(tags@, TagKey::Artist),
        s.album@ == last_tag(tags@, TagKey::Album),
        s.filename@ == filename@,
        s.id@ == "0"@,
        s.img@ == "abc"@,
        s.duration@ == "0"@,
{
    let mut title = String::new();
    let mut artist = String::new();
    let mut album = String::new();
    let mut k: usize = 0;
    while k < tags.len()
        invariant
            k <= tags@.len(),
            title@ == last_tag(tags@.take(k as int), TagKey::TrackTitle),
            artist@ == last_tag(tags@.take(k as int), TagKey::Artist),
            album@ == last_tag(tags@.take(k as int), TagKey::Album),
        decreases tags@.len() - k,
    {
        proof {
            assert(tags@.take(k + 1).drop_last() =~= tags@.take(k as int));
            assert(tags@.take(k + 1).last() == tags@[k as int]);
        }
        match tags[k].0 {
            TagKey::Artist => {
                artist = tags[k].1.clone();
            },
            TagKey::Album => {
                album = tags[k].1.clone();
            },
            TagKey::TrackTitle => {
                title = tags[k].1.clone();
            },
            TagKey::Other => {},
        }
        k = k + 1;
    }
    proof {
        assert(tags@.take(tags@.len() as int) =~= tags@);
    }
    let mut id = String::new();
    append_str(&mut id, "0");
    let mut img = String::new();
    append_str(&mut img, "abc");
    let mut duration = String::new();
    append_str(&mut duration, "0");
    Song { id, title, artist, album, filename, img, duration }
}

/// Why base64 text could not be decoded, as `base64::DecodeError` reports it.
#[derive(Debug, Clone, Copy, PartialEq, Eq, Structural)]
pub enum Base64Error {
    InvalidByte(usize, u8),
    InvalidLength,
    InvalidLastSymbol(usize, u8),
    InvalidPadding,
}

/// A decoding result with the bytes taken as a sequence.
pub open spec fn bytes_result(r: Result<Vec<u8>, Base64Error>) -> Result<Seq<u8>, Base64Error> {
    match r {
        Ok(v) => Ok(v@),
        Err(e) => Err(e),
    }
}

/// What `STANDARD.decode` of the `base64` crate makes of a text.
pub uninterp spec fn standard_decoded(s: Seq<char>) -> Result<Seq<u8>, Base64Error>;

/// Decodes base64 text with the standard alphabet and padding, with
/// `base64::engine::general_purpose::STANDARD.decode`; the result is named
/// `standard_decoded` and nothing more is claimed of it.
#[verifier::external_body]
fn standard_decode(s: &str) -> (res: Result<Vec<u8>, Base64Error>)
    ensures
        standard_decoded(s@) == bytes_result(res),
{
    match STANDARD.decode(s) {
        Ok(v) => Ok(v),
        Err(base64::DecodeError::InvalidByte(i, b)) => Err(Base64Error::InvalidByte(i, b)),
        Err(base64::DecodeError::InvalidLength) => Err(Base64Error::InvalidLength),
        Err(base64::DecodeError::InvalidLastSymbol(i, b)) => Err(Base64Error::InvalidLastSymbol(i, b)),
        Err(base64::DecodeError::InvalidPadding) => Err(Base64Error::InvalidPadding),
    }
}

/// The audio bytes of base64 text, or why it is not valid base64.
pub fn decode_base64_audio(base64_str: &str) -> (res: Result<Vec<u8>, Base64Error>)
    ensures
        standard_decoded(base64_str@) == bytes_result(res),
{
    standard_decode(base64_str)
}

/// What the audio decoder does with the next packet of a file.
#[derive(Debug, Clone, Copy, PartialEq, Eq, Structural)]
pub enum PacketAction {
    /// Leave the packet out and go on with the next one.
    Skip,
    /// Decode the packet.
    Decode,
    /// Play the decoded samples.
    Play,
    /// Stop decoding the file.
    Stop,
}

/// How decoding a packet ended.
#[derive(Debug, Clone, Copy, PartialEq, Eq, Structural)]
pub enum DecodeOutcome {
    /// The packet gave samples.
    Samples,
    /// The packet was malformed; the stream can go on.
    DecodeError,
    /// Any other failure.
    Failed,
}

/// Before decoding a packet: packets of other tracks are left out, and
/// decoding stops once the player has moved on (`still_current` is false);
/// otherwise the packet is decoded.
pub fn packet_action(packet_track: u32, track: u32, still_current: bool) -> (a: PacketAction)
    ensures
        packet_track != track ==> a == PacketAction::Skip,
        packet_track == track && !still_current ==> a == PacketAction::Stop,
        packet_track == track && still_current ==> a == PacketAction::Decode,
{
    if packet_track != track {
        PacketAction::Skip
    } else if !still_current {
        PacketAction::Stop
    } else {
        PacketAction::Decode
    }
}

/// After decoding a packet: samples are played, a malformed packet is left
/// out, and any other failure stops decoding.
pub fn decoded_action(outcome: DecodeOutcome) -> (a: PacketAction)
    ensures
        outcome == DecodeOutcome::Samples ==> a == PacketAction::Play,
        outcome == DecodeOutcome::DecodeError ==> a == PacketAction::Skip,
        outcome == DecodeOutcome::Failed ==> a == PacketAction::Stop,
{
    match outcome {
        DecodeOutcome::Samples => PacketAction::Play,
        DecodeOutcome::DecodeError => PacketAction::Skip,
        DecodeOutcome::Failed => PacketAction::Stop,
    }
}

} // verus!

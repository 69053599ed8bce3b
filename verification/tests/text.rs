use melon_player::media::{
    decode_base64_audio, decoded_action, packet_action, song_from_tags, Base64Error, DecodeOutcome, PacketAction, TagKey,
};
use melon_player::text::{
    contains_str, parse_u32, prefix_before, remove_char, replace_str, starts_with_str, str_eq,
};

#[test]
fn numbers_parse_like_std() {
    for t in ["0", "12", "+12", "4294967295", "4294967296", "", "+", "-1", "12a", " 1", "007"] {
        assert_eq!(parse_u32(t), t.parse::<u32>().ok(), "{}", t);
    }
}

#[test]
fn text_helpers() {
    assert_eq!(remove_char("a b  c", ' '), "abc");
    assert_eq!(prefix_before("ab(cd(e", '('), Some("ab".to_string()));
    assert_eq!(prefix_before("abc", '('), None);
    assert!(contains_str("hello", "ll"));
    assert!(contains_str("hello", ""));
    assert!(!contains_str("hello", "lo!"));
    assert!(starts_with_str("localhost:1", "localhost"));
    assert!(!starts_with_str("local", "localhost"));
    assert_eq!(replace_str("aaa", "aa", "b"), "ba");
    assert_eq!(replace_str("mcache://x/mcache", "mcache", "https"), "https://x/https");
    assert!(str_eq("가나", "가나"));
    assert!(!str_eq("a", "b"));
}

#[test]
fn song_from_file_tags() {
    let tags = vec![
        (TagKey::TrackTitle, "Old".to_string()),
        (TagKey::Artist, "Artist".to_string()),
        (TagKey::Other, "ignored".to_string()),
        (TagKey::TrackTitle, "New".to_string()),
    ];
    let s = song_from_tags(&tags, "./assets/a.mp3".to_string());
    assert_eq!(s.title, "New");
    assert_eq!(s.artist, "Artist");
    assert_eq!(s.album, "");
    assert_eq!(s.filename, "./assets/a.mp3");
    assert_eq!(s.id, "0");
    assert_eq!(s.img, "abc");
    assert_eq!(s.duration, "0");
}

#[test]
fn base64_audio() {
    assert_eq!(decode_base64_audio("aGVsbG8="), Ok(b"hello".to_vec()));
    assert_eq!(decode_base64_audio("!!!!"), Err(Base64Error::InvalidByte(0, b'!')));
    assert_eq!(decode_base64_audio("aGVsbG8"), Err(Base64Error::InvalidPadding));
    assert_eq!(decode_base64_audio("a"), Err(Base64Error::InvalidLength));
    assert_eq!(decode_base64_audio("aGVsbG9="), Err(Base64Error::InvalidLastSymbol(6, b'9')));
}

#[test]
fn packet_decisions() {
    assert_eq!(packet_action(2, 1, true), PacketAction::Skip);
    assert_eq!(packet_action(2, 1, false), PacketAction::Skip);
    assert_eq!(packet_action(1, 1, false), PacketAction::Stop);
    assert_eq!(packet_action(1, 1, true), PacketAction::Decode);
    assert_eq!(decoded_action(DecodeOutcome::Samples), PacketAction::Play);
    assert_eq!(decoded_action(DecodeOutcome::DecodeError), PacketAction::Skip);
    assert_eq!(decoded_action(DecodeOutcome::Failed), PacketAction::Stop);
}

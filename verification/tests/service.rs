use melon_player::json::{text_of, to_compact_string, Json};
use melon_player::player::Play;
use melon_player::service::{
    chart_songs, clean_echo_output, decrypt_stream, is_chart, is_play_reply, plan_play, plan_reply,
    simple_command_with_result, split_chunks, title_matches, PlayPlan, RequestBody, ResponseBody, CHUNK_SIZE,
};

fn s(t: &str) -> Json {
    Json::Str(t.to_string())
}

fn n(t: &str) -> Json {
    Json::Number(t.to_string())
}

fn obj(entries: Vec<(&str, Json)>) -> Json {
    Json::Object(entries.into_iter().map(|(k, v)| (k.to_string(), v)).collect())
}

fn entry(id: &str, title: &str, artists: Vec<&str>) -> Json {
    obj(vec![
        ("albumImgUrl", s("http://img/1.jpg")),
        ("albumName", s("Album")),
        ("artistList", Json::Array(artists.into_iter().map(|a| obj(vec![("artistName", s(a))])).collect())),
        ("playTime", n("215")),
        ("songId", n(id)),
        ("songName", s(title)),
    ])
}

fn chart(entries: Vec<Json>) -> Json {
    obj(vec![("response", obj(vec![("chartList", Json::Array(entries))]))])
}

#[test]
fn compact_text_of_values() {
    let v = Json::Array(vec![
        n("1"),
        s("a\"b"),
        Json::Null,
        Json::Bool(true),
        obj(vec![("k", Json::Array(vec![])), ("z", Json::Bool(false))]),
    ]);
    assert_eq!(to_compact_string(&v), "[1,\"a\\\"b\",null,true,{\"k\":[],\"z\":false}]");
    assert_eq!(text_of(&v), "[1,a\\b,null,true,{k:[],z:false}]");
    assert_eq!(text_of(&s("plain")), "plain");
    assert_eq!(text_of(&n("42")), "42");
    assert_eq!(
        to_compact_string(&s("t\\\n\r\t\u{8}\u{c}\u{1}\u{1f}é/")),
        "\"t\\\\\\n\\r\\t\\b\\f\\u0001\\u001fé/\""
    );
}

#[test]
fn member_lookup() {
    let v = obj(vec![("a", n("1")), ("b", s("x"))]);
    assert!(matches!(v.get("b"), Some(Json::Str(t)) if t == "x"));
    assert!(v.get("c").is_none());
    assert!(n("1").get("a").is_none());
    assert!(v.as_array().is_none());
}

#[test]
fn chart_reply_to_songs() {
    let reply = chart(vec![entry("100", "First", vec!["A", "B"]), entry("200", "Second", vec![])]);
    assert!(is_chart(&reply));
    let songs = chart_songs(&reply);
    assert_eq!(songs.len(), 2);
    assert_eq!(songs[0].id, "100");
    assert_eq!(songs[0].title, "First");
    assert_eq!(songs[0].artist, "A, B");
    assert_eq!(songs[0].album, "Album");
    assert_eq!(songs[0].filename, "");
    assert_eq!(songs[0].img, "http://img/1.jpg");
    assert_eq!(songs[0].duration, "215");
    assert_eq!(songs[1].artist, "");
}

#[test]
fn artist_names_join_after_an_empty_name() {
    let reply = chart(vec![entry("1", "t", vec!["", "B", "C"])]);
    assert_eq!(chart_songs(&reply)[0].artist, "B, C");
}

#[test]
fn malformed_charts_are_detected() {
    assert!(!is_chart(&obj(vec![])));
    assert!(!is_chart(&obj(vec![("response", obj(vec![("chartList", n("1"))]))])));
    let mut bad = entry("1", "t", vec!["A"]);
    if let Json::Object(ref mut e) = bad {
        e.retain(|(k, _)| k != "playTime");
    }
    assert!(!is_chart(&chart(vec![bad])));
    assert!(is_chart(&chart(vec![])));
}

#[test]
fn queueing_a_chart_shuffles_its_songs() {
    let reply = chart((0..20).map(|i| entry(&i.to_string(), "t", vec!["A"])).collect());
    let mut p = Play::new();
    p.index = 5;
    let v = simple_command_with_result(&mut p, Some(reply));
    let mut ids: Vec<u32> = v.iter().map(|s| s.id.parse().unwrap()).collect();
    let queued: Vec<String> = p.list.iter().map(|s| s.id.clone()).collect();
    assert_eq!(queued, v.iter().map(|s| s.id.clone()).collect::<Vec<_>>());
    assert_eq!(p.index, 0);
    ids.sort();
    assert_eq!(ids, (0..20).collect::<Vec<u32>>());
    let empty = simple_command_with_result(&mut p, None);
    assert!(empty.is_empty());
    assert!(p.list.is_empty());
}

fn stream_reply(info: Option<Json>) -> Json {
    let mut resp = vec![];
    if let Some(i) = info {
        resp.push(("stInfo", i));
    }
    obj(vec![("response", obj(resp))])
}

#[test]
fn stream_plans() {
    let none = stream_reply(None);
    assert!(is_play_reply(&none));
    assert!(matches!(plan_play(&none), PlayPlan::NoStream));

    let hls = stream_reply(Some(obj(vec![("path", s("https://x/list.m3u8"))])));
    assert!(matches!(plan_play(&hls), PlayPlan::Hls(p) if p == "https://x/list.m3u8"));

    let cached = stream_reply(Some(obj(vec![
        ("c", s("KEYTEXT")),
        ("fileSize", s("1024")),
        ("path", s("mcache://cdn/a/mcache.mp3")),
    ])));
    assert!(is_play_reply(&cached));
    match plan_play(&cached) {
        PlayPlan::Mcache { url, key, size } => {
            assert_eq!(url, "https://cdn/a/https.mp3");
            assert_eq!(key, "KEYTEXT");
            assert_eq!(size, 1024);
        }
        _ => panic!("expected a cached file"),
    }

    let other = stream_reply(Some(obj(vec![("path", s("https://x/a.mp3"))])));
    assert!(matches!(plan_play(&other), PlayPlan::Announce));

    let bad_size = stream_reply(Some(obj(vec![("c", s("K")), ("fileSize", s("big")), ("path", s("mcache://a"))])));
    assert!(!is_play_reply(&bad_size));
    let no_path = stream_reply(Some(obj(vec![])));
    assert!(!is_play_reply(&no_path));
    assert!(!is_play_reply(&obj(vec![])));
}

#[test]
fn stream_replies_read_or_refused() {
    assert!(plan_reply(&obj(vec![])).is_none());
    let bad_size = stream_reply(Some(obj(vec![("c", s("K")), ("fileSize", s("-1")), ("path", s("x/mcache"))])));
    assert!(plan_reply(&bad_size).is_none());
    let hls = stream_reply(Some(obj(vec![("path", s("https://x/list.m3u8"))])));
    assert!(matches!(plan_reply(&hls), Some(PlayPlan::Hls(p)) if p == "https://x/list.m3u8"));
    assert!(matches!(plan_reply(&stream_reply(None)), Some(PlayPlan::NoStream)));
}

#[test]
fn chunks_cover_the_data() {
    let data: Vec<u8> = (0..10u8).collect();
    let parts = split_chunks(&data, 4);
    assert_eq!(parts, vec![vec![0, 1, 2, 3], vec![4, 5, 6, 7], vec![8, 9]]);
    assert_eq!(split_chunks(&data, 5), vec![vec![0, 1, 2, 3, 4], vec![5, 6, 7, 8, 9]]);
    assert!(split_chunks(&[], 3).is_empty());
    assert_eq!(CHUNK_SIZE, 1024 * 1024);
}

#[test]
fn decrypted_stream_without_a_key() {
    assert!(decrypt_stream("", b"data").is_none());
}

#[test]
fn spoken_titles() {
    let answer = vec![
        "hello world (feat. x)".to_string(),
        "helloworld(feat.x)".to_string(),
        "hello world ".to_string(),
        "helloworld".to_string(),
    ];
    assert!(title_matches("Hello World", &answer));
    assert!(title_matches("HELLOWORLD\n", &answer));
    assert!(title_matches("hello world (remix)", &answer));
    assert!(!title_matches("goodbye", &answer));
    assert!(!title_matches("", &vec![]));
}

#[test]
fn echo_output_cleanup() {
    assert_eq!(clean_echo_output(b"hi there\r\n".to_vec()), "hi there");
    assert_eq!(clean_echo_output(vec![0xff, 0xfe]), "");
    assert_eq!(clean_echo_output("노래\n".as_bytes().to_vec()), "노래");
}

#[test]
fn request_and_response_bodies() {
    let r = ResponseBody {
        code: "0".to_string(),
        message: "ok".to_string(),
        response: "{}".to_string(),
        status: "200".to_string(),
    };
    assert_eq!(r.status, "200");
    let q = RequestBody { id: 3, name: "n".to_string() };
    assert_eq!(q.id, 3);
    assert_eq!(q.name, "n");
}

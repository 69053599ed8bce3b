//! The logic of the player's commands: reading the chart and stream
//! replies of the music service, queueing a shuffled chart, splitting
//! decrypted audio into chunks, and checking a spoken title.

use vstd::prelude::*;
use vstd::string::StringSliceAdditionalSpecFns;
use rand::seq::SliceRandom;
use vstd::slice::slice_subrange;
use vstd::slice::slice_to_vec;
use crate::decode::{decrypt_mcache, partial_key_plain, track_state};
use crate::keystream::{keystream, xor_seq};
use crate::json::{Json, json_get, text_of, value_text};
use crate::player::Play;
use crate::song::Song;
use crate::text::{
    append_str, before_first, contains_str, has_substring, lowercased, parse_u32, parse_u32_spec, prefix_before,
    push_char, remove_char, replace_all, replace_str, to_lowercase, without,
};

verus! {

/// A reply of the service.
pub struct ResponseBody {
    pub code: String,
    pub message: String,
    pub response: String,
    pub status: String,
}

/// A request to the service.
pub struct RequestBody {
    pub id: i32,
    pub name: String,
}

/// An artist entry of a chart song holds a name.
pub open spec fn artist_ok(a: Json) -> bool {
    json_get(a, "artistName"@) is Some
}

/// A chart entry holds a list of artists and the song's fields.
pub open spec fn chart_entry_ok(e: Json) -> bool {
    &&& json_get(e, "artistList"@) matches Some(al) && al is Array && forall|k: int|
        0 <= k < al->Array_0@.len() ==> #[trigger] artist_ok(al->Array_0@[k])
    &&& json_get(e, "songId"@) is Some
    &&& json_get(e, "songName"@) is Some
    &&& json_get(e, "albumName"@) is Some
    &&& json_get(e, "albumImgUrl"@) is Some
    &&& json_get(e, "playTime"@) is Some
}

/// The entries of a chart reply: `response.chartList`.
pub open spec fn chart_entries(res: Json) -> Seq<Json> {
    json_get(json_get(res, "response"@).unwrap(), "chartList"@).unwrap()->Array_0@
}

/// A chart reply holds `response.chartList`, an array of well-formed entries.
pub open spec fn chart_ok(res: Json) -> bool {
    &&& json_get(res, "response"@) matches Some(a) && json_get(a, "chartList"@) matches Some(b) && b is Array
    &&& forall|k: int| 0 <= k < chart_entries(res).len() ==> #[trigger] chart_entry_ok(chart_entries(res)[k])
}

/// Artist names joined by `", "`, where a name is appended without the
/// separator while the text so far is empty.
pub open spec fn join_names(names: Seq<Seq<char>>) -> Seq<char>
    decreases names.len(),
{
    if names.len() == 0 {
        Seq::empty()
    } else {
        let acc = join_names(names.drop_last());
        if acc.len() == 0 {
            names.last()
        } else {
            acc + seq![',', ' '] + names.last()
        }
    }
}

/// The names of the artists of a chart entry.
pub open spec fn artist_names(artists: Seq<Json>) -> Seq<Seq<char>> {
    artists.map_values(|a: Json| value_text(json_get(a, "artistName"@).unwrap()))
}

/// The song that a chart entry describes.
pub open spec fn is_chart_song(s: Song, e: Json) -> bool {
    &&& s.id@ == value_text(json_get(e, "songId"@).unwrap())
    &&& s.title@ == value_text(json_get(e, "songName"@).unwrap())
    &&& s.artist@ == join_names(artist_names(json_get(e, "artistList"@).unwrap()->Array_0@))
    &&& s.album@ == value_text(json_get(e, "albumName"@).unwrap())
    &&& s.filename@ == Seq::<char>::empty()
    &&& s.img@ == value_text(json_get(e, "albumImgUrl"@).unwrap())
    &&& s.duration@ == value_text(json_get(e, "playTime"@).unwrap())
}

fn is_artist(a: &Json) -> (res: bool)
    ensures
        res == artist_ok(*a),
{
    a.get("artistName").is_some()
}

fn is_chart_entry(e: &Json) -> (res: bool)
    ensures
        res == chart_entry_ok(*e),
{
    let al = match e.get("artistList") {
        Some(v) => v,
        None => {
            return false;
        },
    };
    let artists = match al.as_array() {
        Some(v) => v,
        None => {
            return false;
        },
    };
    let mut k: usize = 0;
    while k < artists.len()
        invariant
            *al == Json::Array(*artists),
            json_get(*e, "artistList"@) == Some(*al),
            k <= artists@.len(),
            forall|m: int| 0 <= m < k ==> #[trigger] artist_ok(artists@[m]),
        decreases artists@.len() - k,
    {
        if !is_artist(&artists[k]) {
            proof {
                assert(al->Array_0@[k as int] == artists@[k as int]);
                assert(!artist_ok(al->Array_0@[k as int]));
            }
            return false;
        }
        k = k + 1;
    }
    e.get("songId").is_some() && e.get("songName").is_some() && e.get("albumName").is_some()
        && e.get("albumImgUrl").is_some() && e.get("playTime").is_some()
}

/// Whether a reply is a chart that `chart_songs` can read.
pub fn is_chart(res: &Json) -> (ok: bool)
    ensures
        ok == chart_ok(*res),
{
    let a = match res.get("response") {
        Some(v) => v,
        None => {
            return false;
        },
    };
    let b = match a.get("chartList") {
        Some(v) => v,
        None => {
            return false;
        },
    };
    let entries = match b.as_array() {
        Some(v) => v,
        None => {
            return false;
        },
    };
    let mut k: usize = 0;
    while k < entries.len()
        invariant
            json_get(*res, "response"@) == Some(*a),
            json_get(*a, "chartList"@) == Some(*b),
            *b == Json::Array(*entries),
            chart_entries(*res) == entries@,
            k <= entries@.len(),
            forall|m: int| 0 <= m < k ==> #[trigger] chart_entry_ok(entries@[m]),
        decreases entries@.len() - k,
    {
        if !is_chart_entry(&entries[k]) {
            return false;
        }
        k = k + 1;
    }
    true
}

fn chart_song(e: &Json) -> (s: Song)
    requires
        chart_entry_ok(*e),
    ensures
        is_chart_song(s, *e),
{
    let artists = e.get("artistList").unwrap().as_array().unwrap();
    let ghost names = artist_names(artists@);
    proof {
        let al = json_get(*e, "artistList"@).unwrap();
        assert(al->Array_0 == *artists);
        assert forall|m: int| 0 <= m < artists@.len() implies #[trigger] artist_ok(artists@[m]) by {
            assert(artist_ok(al->Array_0@[m]));
        }
    }
    let mut artist_name = String::new();
    let mut k: usize = 0;
    while k < artists.len()
        invariant
            json_get(*e, "artistList"@) == Some(Json::Array(*artists)),
            forall|m: int| 0 <= m < artists@.len() ==> #[trigger] artist_ok(artists@[m]),
            names == artist_names(artists@),
            k <= artists@.len(),
            artist_name@ == join_names(names.take(k as int)),
        decreases artists@.len() - k,
    {
        proof {
            assert(artist_ok(artists@[k as int]));
            assert(names.take(k + 1).drop_last() =~= names.take(k as int));
        }
        let name = text_of(artists[k].get("artistName").unwrap());
        if artist_name.as_str().is_empty() {
            append_str(&mut artist_name, name.as_str());
        } else {
            push_char(&mut artist_name, ',');
            push_char(&mut artist_name, ' ');
            append_str(&mut artist_name, name.as_str());
        }
        proof {
            assert(artist_name@ =~= join_names(names.take(k + 1)));
        }
        k = k + 1;
    }
    proof {
        assert(names.take(artists@.len() as int) =~= names);
    }
    Song {
        id: text_of(e.get("songId").unwrap()),
        title: text_of(e.get("songName").unwrap()),
        artist: artist_name,
        album: text_of(e.get("albumName").unwrap()),
        filename: String::new(),
        img: text_of(e.get("albumImgUrl").unwrap()),
        duration: text_of(e.get("playTime").unwrap()),
    }
}

/// The songs of a chart reply, in chart order.
pub fn chart_songs(res: &Json) -> (v: Vec<Song>)
    requires
        chart_ok(*res),
    ensures
        v@.len() == chart_entries(*res).len(),
        forall|k: int| 0 <= k < v@.len() ==> #[trigger] is_chart_song(v@[k], chart_entries(*res)[k]),
{
    let entries = res.get("response").unwrap().get("chartList").unwrap().as_array().unwrap();
    let mut v: Vec<Song> = Vec::new();
    let mut k: usize = 0;
    proof {
        assert(chart_entries(*res) == entries@);
        assert forall|m: int| 0 <= m < entries@.len() implies #[trigger] chart_entry_ok(entries@[m]) by {
            assert(chart_entry_ok(chart_entries(*res)[m]));
        }
    }
    while k < entries.len()
        invariant
            chart_entries(*res) == entries@,
            forall|m: int| 0 <= m < entries@.len() ==> #[trigger] chart_entry_ok(entries@[m]),
            k <= entries@.len(),
            v@.len() == k,
            forall|m: int| 0 <= m < k ==> #[trigger] is_chart_song(v@[m], entries@[m]),
        decreases entries@.len() - k,
    {
        proof {
            assert(chart_entry_ok(entries@[k as int]));
        }
        v.push(chart_song(&entries[k]));
        k = k + 1;
    }
    v
}

/// `s` holds the songs of the chart reply `r`, in chart order.
pub open spec fn are_chart_songs(s: Seq<Song>, r: Json) -> bool {
    &&& s.len() == chart_entries(r).len()
    &&& forall|k: int| 0 <= k < s.len() ==> #[trigger] is_chart_song(s[k], chart_entries(r)[k])
}

/// Shuffles the songs in place with `SliceRandom::shuffle` and the thread's
/// random number generator. The order that comes out depends on chance, so
/// all that is claimed is that the same songs come out.
#[verifier::external_body]
fn shuffle_songs(v: &mut Vec<Song>)
    ensures
        final(v)@.to_multiset() == old(v)@.to_multiset(),
{
    v.shuffle(&mut rand::thread_rng());
}

/// A field-by-field copy of a list of songs.
fn copy_songs(v: &Vec<Song>) -> (c: Vec<Song>)
    ensures
        c@ == v@,
{
    let mut c: Vec<Song> = Vec::new();
    let mut k: usize = 0;
    while k < v.len()
        invariant
            k <= v@.len(),
            c@ == v@.take(k as int),
        decreases v@.len() - k,
    {
        c.push(v[k].duplicate());
        proof {
            assert(c@ =~= v@.take(k + 1));
        }
        k = k + 1;
    }
    proof {
        assert(v@.take(v@.len() as int) =~= v@);
    }
    c
}

/// Queues a chart: reads its songs (none when the chart could not be
/// fetched), shuffles them, makes the shuffled list the queue from its first
/// song and returns it. The caller then starts the first song.
pub fn simple_command_with_result(play: &mut Play, result: Option<Json>) -> (v: Vec<Song>)
    requires
        result matches Some(r) ==> chart_ok(r),
    ensures
        result is None ==> v@.len() == 0,
        result matches Some(r) ==> exists|s: Seq<Song>|
            #[trigger] are_chart_songs(s, r) && v@.to_multiset() == s.to_multiset(),
        final(play).list@ == v@,
        final(play).index == 0,
        final(play).count == old(play).count,
        final(play).state == old(play).state,
        final(play).same_session(old(play)),
{
    let mut v = match &result {
        Some(r) => chart_songs(r),
        None => Vec::new(),
    };
    let ghost before = v@;
    shuffle_songs(&mut v);
    proof {
        vstd::seq_lib::to_multiset_len(before);
        vstd::seq_lib::to_multiset_len(v@);
        if result is Some {
            assert(are_chart_songs(before, result->0));
        }
    }
    let vv = copy_songs(&v);
    play.set_list(vv);
    v
}

/// What starting the current song takes, read from the service's stream
/// reply.
pub enum PlayPlan {
    /// The reply holds no stream; nothing is announced.
    NoStream,
    /// An HLS playlist, handed to the front end.
    Hls(String),
    /// An encrypted cached file: where to fetch it, its encrypted partial
    /// key and its announced size.
    Mcache { url: String, key: String, size: u32 },
    /// Any other stream: the song is only announced.
    Announce,
}

/// The stream information of a reply: `response.stInfo`.
pub open spec fn stream_info(r: Json) -> Option<Json> {
    json_get(json_get(r, "response"@).unwrap(), "stInfo"@)
}

/// The stream path of the stream information, as the player reads it.
pub open spec fn stream_path(b: Json) -> Seq<char> {
    value_text(json_get(b, "path"@).unwrap())
}

/// A stream path names a cached file when it names no HLS playlist and
/// holds `mcache`.
pub open spec fn is_mcache_path(c: Seq<char>) -> bool {
    !has_substring(c, "m3u8"@) && has_substring(c, "mcache"@)
}

/// A stream reply that `plan_play` can read: it holds `response`; its stream
/// information, when there is some, holds a path; and the stream
/// information of a cached file holds its key and a size that parses as a
/// `u32`.
pub open spec fn play_reply_ok(r: Json) -> bool {
    &&& json_get(r, "response"@) is Some
    &&& stream_info(r) matches Some(b) ==> {
        &&& json_get(b, "path"@) is Some
        &&& is_mcache_path(stream_path(b)) ==> {
            &&& json_get(b, "c"@) is Some
            &&& json_get(b, "fileSize"@) matches Some(f) && parse_u32_spec(value_text(f)) is Some
        }
    }
}

/// Whether `plan_play` can read a stream reply.
pub fn is_play_reply(r: &Json) -> (ok: bool)
    ensures
        ok == play_reply_ok(*r),
{
    let a = match r.get("response") {
        Some(a) => a,
        None => {
            return false;
        },
    };
    let b = match a.get("stInfo") {
        Some(b) => b,
        None => {
            return true;
        },
    };
    let p = match b.get("path") {
        Some(p) => p,
        None => {
            return false;
        },
    };
    let c = text_of(p);
    if !contains_str(c.as_str(), "m3u8") && contains_str(c.as_str(), "mcache") {
        if b.get("c").is_none() {
            return false;
        }
        match b.get("fileSize") {
            Some(f) => parse_u32(text_of(f).as_str()).is_some(),
            None => false,
        }
    } else {
        true
    }
}

/// The plan for a stream reply: nothing without stream information; the
/// playlist when the path names an HLS playlist; the `https` address, key
/// and size of a cached file when it holds `mcache`; otherwise only the
/// announcement.
pub open spec fn planned(r: Json, plan: PlayPlan) -> bool {
    &&& stream_info(r) is None ==> plan is NoStream
    &&& stream_info(r) matches Some(b) ==> {
        let c = stream_path(b);
        &&& has_substring(c, "m3u8"@) ==> (plan matches PlayPlan::Hls(h) && h@ == c)
        &&& is_mcache_path(c) ==> (plan matches PlayPlan::Mcache { url, key, size } && url@ == replace_all(
            c,
            "mcache"@,
            "https"@,
        ) && key@ == value_text(json_get(b, "c"@).unwrap()) && size == parse_u32_spec(
            value_text(json_get(b, "fileSize"@).unwrap()),
        ).unwrap())
        &&& !has_substring(c, "m3u8"@) && !has_substring(c, "mcache"@) ==> plan is Announce
    }
}

/// Decides how to start the current song from the service's stream reply:
/// nothing without stream information; the playlist when the path names an
/// HLS playlist; the `https` address, key and size of a cached file when it
/// holds `mcache`; otherwise only the announcement.
pub fn plan_play(r: &Json) -> (plan: PlayPlan)
    requires
        play_reply_ok(*r),
    ensures
        planned(*r, plan),
{
    let a = r.get("response").unwrap();
    let b = match a.get("stInfo") {
        Some(b) => b,
        None => {
            return PlayPlan::NoStream;
        },
    };
    let c = text_of(b.get("path").unwrap());
    if contains_str(c.as_str(), "m3u8") {
        PlayPlan::Hls(c)
    } else if contains_str(c.as_str(), "mcache") {
        let key = text_of(b.get("c").unwrap());
        let size_text = text_of(b.get("fileSize").unwrap());
        let size = parse_u32(size_text.as_str()).unwrap();
        proof {
            reveal_strlit("mcache");
        }
        let url = replace_str(c.as_str(), "mcache", "https");
        PlayPlan::Mcache { url, key, size }
    } else {
        PlayPlan::Announce
    }
}

/// Reads a stream reply: its plan, or nothing when `plan_play` cannot read
/// it (a missing `response`, stream information without a path, or a cached
/// file without its key or with a size that is not a `u32`).
pub fn plan_reply(r: &Json) -> (plan: Option<PlayPlan>)
    ensures
        plan is Some <==> play_reply_ok(*r),
        plan matches Some(p) ==> planned(*r, p),
{
    if is_play_reply(r) {
        Some(plan_play(r))
    } else {
        None
    }
}

/// The size of the pieces in which decrypted audio is sent to the front end.
pub const CHUNK_SIZE: usize = 1048576;

/// `data` cut into pieces of `size` bytes, the last one possibly shorter,
/// as `slice::chunks` cuts it.
pub open spec fn chunks_of(data: Seq<u8>, size: nat) -> Seq<Seq<u8>>
    decreases data.len(),
{
    if size == 0 || data.len() == 0 {
        Seq::empty()
    } else if data.len() <= size {
        seq![data]
    } else {
        seq![data.take(size as int)] + chunks_of(data.skip(size as int), size)
    }
}

/// The concatenation of a sequence of pieces.
pub open spec fn concat_all(parts: Seq<Seq<u8>>) -> Seq<u8>
    decreases parts.len(),
{
    if parts.len() == 0 {
        Seq::empty()
    } else {
        parts[0] + concat_all(parts.drop_first())
    }
}

/// Cutting into pieces loses and adds nothing, and every piece is at most
/// `size` bytes long and not empty.
pub proof fn lemma_chunks_concat(data: Seq<u8>, size: nat)
    requires
        size > 0,
    ensures
        concat_all(chunks_of(data, size)) == data,
        forall|k: int| 0 <= k < chunks_of(data, size).len() ==> 0 < #[trigger] chunks_of(data, size)[k].len() <= size,
    decreases data.len(),
{
    if data.len() == 0 {
    } else if data.len() <= size {
        let c = chunks_of(data, size);
        assert(c.drop_first() =~= Seq::<Seq<u8>>::empty());
        assert(concat_all(Seq::<Seq<u8>>::empty()) == Seq::<u8>::empty());
        assert(concat_all(c) == c[0] + concat_all(c.drop_first()));
        assert(data + Seq::<u8>::empty() =~= data);
    } else {
        lemma_chunks_concat(data.skip(size as int), size);
        let c = chunks_of(data, size);
        assert(c.drop_first() =~= chunks_of(data.skip(size as int), size));
        assert(c[0] == data.take(size as int));
        assert(concat_all(c) == c[0] + concat_all(c.drop_first()));
        assert(data.take(size as int) + data.skip(size as int) =~= data);
        assert forall|k: int| 0 <= k < c.len() implies 0 < #[trigger] c[k].len() <= size by {
            if k > 0 {
                assert(c[k] == chunks_of(data.skip(size as int), size)[k - 1]);
            }
        }
    }
}

/// Cuts `data` into pieces of `chunk_size` bytes, the last possibly shorter.
pub fn split_chunks(data: &[u8], chunk_size: usize) -> (parts: Vec<Vec<u8>>)
    requires
        chunk_size > 0,
    ensures
        parts@.map_values(|p: Vec<u8>| p@) == chunks_of(data@, chunk_size as nat),
{
    let len = data.len();
    let mut parts: Vec<Vec<u8>> = Vec::new();
    let mut pos: usize = 0;
    assert(data@.skip(0) =~= data@);
    while pos < len
        invariant
            len == data@.len(),
            chunk_size > 0,
            pos <= len,
            parts@.map_values(|p: Vec<u8>| p@) + chunks_of(data@.skip(pos as int), chunk_size as nat)
                == chunks_of(data@, chunk_size as nat),
        decreases len - pos,
    {
        let ghost rest = data@.skip(pos as int);
        let end = if len - pos <= chunk_size { len } else { pos + chunk_size };
        let piece = slice_to_vec(slice_subrange(data, pos, end));
        let ghost before = parts@.map_values(|p: Vec<u8>| p@);
        parts.push(piece);
        proof {
            assert(parts@.map_values(|p: Vec<u8>| p@) =~= before.push(piece@));
            if len - pos <= chunk_size {
                assert(piece@ =~= rest);
                assert(data@.skip(end as int) =~= Seq::<u8>::empty());
            } else {
                assert(piece@ =~= rest.take(chunk_size as int));
                assert(rest.skip(chunk_size as int) =~= data@.skip(end as int));
            }
            assert(before.push(piece@) + chunks_of(data@.skip(end as int), chunk_size as nat)
                =~= before + chunks_of(rest, chunk_size as nat));
        }
        pos = end;
    }
    proof {
        assert(data@.skip(pos as int) =~= Seq::<u8>::empty());
        assert(parts@.map_values(|p: Vec<u8>| p@) + Seq::<Seq<u8>>::empty() =~= parts@.map_values(|p: Vec<u8>| p@));
    }
    parts
}

/// The ways an echoed answer may be written: lowercased and without line
/// breaks, that without spaces, and, when the lowercased answer holds a
/// `(`, the part before it with and without spaces.
pub open spec fn echo_variants(lower: Seq<char>) -> Seq<Seq<char>> {
    let flat = without(lower, '\n');
    seq![flat, without(flat, ' ')] + match before_first(lower, '(') {
        Some(k) => seq![k, without(k, ' ')],
        None => Seq::empty(),
    }
}

/// Whether some way of writing the title is some way of writing the echoed
/// answer.
pub open spec fn answer_matches(answer: Seq<Seq<char>>, stdout: Seq<char>) -> bool {
    exists|i: int, j: int|
        0 <= i < answer.len() && 0 <= j < echo_variants(lowercased(stdout)).len() && #[trigger] answer[i]
            == #[trigger] echo_variants(lowercased(stdout))[j]
}

/// A spoken answer matches only a title spelling it equals exactly: a match
/// means some spelling of the title and some spelling of the answer have the
/// same length and the same character at every position, and such a pair
/// is a match. In particular a shorter or longer answer, such as part of a
/// title, does not match.
pub proof fn lemma_match_is_exact(answer: Seq<Seq<char>>, stdout: Seq<char>)
    ensures
        answer_matches(answer, stdout) <==> exists|i: int, j: int|
            0 <= i < answer.len() && 0 <= j < echo_variants(lowercased(stdout)).len() && (#[trigger] answer[i]).len()
                == (#[trigger] echo_variants(lowercased(stdout))[j]).len() && forall|k: int|
                0 <= k < answer[i].len() ==> answer[i][k] == echo_variants(lowercased(stdout))[j][k],
{
    let v = echo_variants(lowercased(stdout));
    if answer_matches(answer, stdout) {
        let (i, j) = choose|i: int, j: int|
            0 <= i < answer.len() && 0 <= j < v.len() && #[trigger] answer[i] == #[trigger] v[j];
        assert(answer[i].len() == v[j].len());
    }
    if exists|i: int, j: int|
        0 <= i < answer.len() && 0 <= j < v.len() && (#[trigger] answer[i]).len() == (#[trigger] v[j]).len()
            && forall|k: int| 0 <= k < answer[i].len() ==> answer[i][k] == v[j][k] {
        let (i, j) = choose|i: int, j: int|
            0 <= i < answer.len() && 0 <= j < v.len() && (#[trigger] answer[i]).len() == (#[trigger] v[j]).len()
                && forall|k: int| 0 <= k < answer[i].len() ==> answer[i][k] == v[j][k];
        assert(answer[i] =~= v[j]);
    }
}

/// An answer that matches none of the title spellings in length never
/// matches; in particular an empty answer never matches a list of non-empty
/// titles.
pub proof fn lemma_match_needs_equal_length(answer: Seq<Seq<char>>, stdout: Seq<char>)
    requires
        forall|i: int, j: int|
            0 <= i < answer.len() && 0 <= j < echo_variants(lowercased(stdout)).len() ==> (#[trigger] answer[i]).len()
                != (#[trigger] echo_variants(lowercased(stdout))[j]).len(),
    ensures
        !answer_matches(answer, stdout),
{
    lemma_match_is_exact(answer, stdout);
}

/// Checks a spoken answer against the ways the current title may be
/// written; a match is announced to the front end.
pub fn title_matches(stdout: &str, answer: &Vec<String>) -> (res: bool)
    ensures
        res == answer_matches(answer@.map_values(|s: String| s@), stdout@),
{
    let lower = to_lowercase(stdout);
    let flat = remove_char(lower.as_str(), '\n');
    let flat_no_space = remove_char(flat.as_str(), ' ');
    let mut possible: Vec<String> = Vec::new();
    possible.push(flat);
    possible.push(flat_no_space);
    match prefix_before(lower.as_str(), '(') {
        Some(key) => {
            let key_no_space = remove_char(key.as_str(), ' ');
            possible.push(key);
            possible.push(key_no_space);
        },
        None => {},
    }
    let ghost variants = echo_variants(lowercased(stdout@));
    let ghost ans = answer@.map_values(|s: String| s@);
    proof {
        assert(possible@.map_values(|s: String| s@) =~= variants);
    }
    let mut i: usize = 0;
    while i < answer.len()
        invariant
            possible@.map_values(|s: String| s@) == variants,
            ans == answer@.map_values(|s: String| s@),
            variants == echo_variants(lowercased(stdout@)),
            i <= answer@.len(),
            forall|a: int, b: int| 0 <= a < i && 0 <= b < variants.len() ==> ans[a] != variants[b],
        decreases answer@.len() - i,
    {
        let mut j: usize = 0;
        while j < possible.len()
            invariant
                possible@.map_values(|s: String| s@) == variants,
                ans == answer@.map_values(|s: String| s@),
                variants == echo_variants(lowercased(stdout@)),
                i < answer@.len(),
                j <= possible@.len(),
                forall|a: int, b: int| 0 <= a < i && 0 <= b < variants.len() ==> ans[a] != variants[b],
                forall|b: int| 0 <= b < j ==> ans[i as int] != variants[b],
            decreases possible@.len() - j,
        {
            if answer[i] == possible[j] {
                proof {
                    assert(ans[i as int] == variants[j as int]);
                }
                return true;
            }
            j = j + 1;
        }
        i = i + 1;
    }
    false
}

/// What `String::from_utf8` makes of valid UTF-8.
#[verifier::external_body]
fn utf8_string(v: Vec<u8>) -> (res: Option<String>)
    ensures
        res is Some <==> vstd::utf8::valid_utf8(v@),
        res matches Some(s) ==> s@ == vstd::utf8::decode_utf8(v@),
{
    String::from_utf8(v).ok()
}

/// The echoed answer: the command's output as UTF-8 with carriage returns
/// and line feeds removed, or empty when it is not UTF-8.
pub fn clean_echo_output(stdout: Vec<u8>) -> (res: String)
    ensures
        vstd::utf8::valid_utf8(stdout@) ==> res@ == without(without(vstd::utf8::decode_utf8(stdout@), '\r'), '\n'),
        !vstd::utf8::valid_utf8(stdout@) ==> res@ == Seq::<char>::empty(),
{
    match utf8_string(stdout) {
        Some(s) => {
            let a = remove_char(s.as_str(), '\r');
            remove_char(a.as_str(), '\n')
        },
        None => String::new(),
    }
}

/// Decrypts a cached track with its encrypted partial key (the key text's
/// UTF-8 bytes) and cuts the audio into the pieces sent to the front end;
/// nothing when the key cannot be recovered.
pub fn decrypt_stream(key: &str, data: &[u8]) -> (parts: Option<Vec<Vec<u8>>>)
    ensures
        partial_key_plain(key.spec_bytes()) is None <==> parts is None,
        parts matches Some(p) ==> p@.map_values(|c: Vec<u8>| c@) == chunks_of(
            xor_seq(data@, keystream(track_state(partial_key_plain(key.spec_bytes()).unwrap(), 0), data@.len())),
            CHUNK_SIZE as nat,
        ),
{
    match decrypt_mcache(key.as_bytes(), data) {
        Some(plain) => Some(split_chunks(plain.as_slice(), CHUNK_SIZE)),
        None => None,
    }
}

} // verus!

//! The playback state machine: the queue, the current position, the
//! playing state and the session values shared by the commands.

use vstd::prelude::*;
use crate::song::Song;
use crate::text::{before_first, lowercased, prefix_before, remove_char, to_lowercase, without};

verus! {

/// Whether the player is playing, paused or stopped.
#[derive(Debug, Clone, Copy, PartialEq, Eq, Structural)]
pub enum State {
    Play,
    Pause,
    Stop,
}

/// What the audio output is to do after a state change.
#[derive(Debug, Clone, Copy, PartialEq, Eq, Structural)]
pub enum PlayerCommand {
    Play,
    Pause,
    Stop,
}

/// The number of distinct values the playback counter cycles through.
pub const MAX: u32 = 3;

/// The player: the counter that tells a running decoder whether it is still
/// current, the playing state, the queue and the position in it, the local
/// login port, the session token and id, and whether streams are fetched as
/// HLS playlists.
pub struct Play {
    pub count: u32,
    pub state: State,
    pub list: Vec<Song>,
    pub index: i32,
    pub port: u16,
    pub token: String,
    pub session_id: String,
    pub hls: bool,
}

/// Rust's remainder, which takes the sign of the dividend.
pub open spec fn trunc_rem(a: int, n: int) -> int {
    if a >= 0 {
        a % n
    } else {
        -((-a) % n)
    }
}

/// The position after `next` in a queue of `len` songs.
pub open spec fn next_index(index: i32, len: nat) -> i32 {
    trunc_rem(index + 1, len as int) as i32
}

/// The position after `prev` in a queue of `len` songs: one back, or the
/// last song from the first.
pub open spec fn prev_index(index: i32, len: nat) -> i32 {
    if index - 1 >= 0 {
        (index - 1) as i32
    } else {
        (len - 1) as i32
    }
}

/// The state that `play_or_pause` moves to.
pub open spec fn toggled_state(s: State) -> State {
    match s {
        State::Play => State::Pause,
        State::Pause => State::Play,
        State::Stop => State::Play,
    }
}

/// The song at position `index`, when there is one.
pub open spec fn song_at(list: Seq<Song>, index: i32) -> Option<Song> {
    if 0 <= index < list.len() {
        Some(list[index as int])
    } else {
        None
    }
}

/// The ways a title may be written: as given, without spaces, and, when it
/// holds a `(`, the part before it with and without spaces.
pub open spec fn title_variants(t: Seq<char>) -> Seq<Seq<char>> {
    seq![t, without(t, ' ')] + match before_first(t, '(') {
        Some(k) => seq![k, without(k, ' ')],
        None => Seq::empty(),
    }
}

/// `next` and `prev` undo each other on a position in the queue, and both
/// keep such a position in the queue.
pub proof fn lemma_next_prev_inverse(index: i32, len: nat)
    requires
        0 <= index < len,
        len <= i32::MAX,
    ensures
        0 <= next_index(index, len) < len,
        0 <= prev_index(index, len) < len,
        prev_index(next_index(index, len), len) == index,
        next_index(prev_index(index, len), len) == index,
{
    if index + 1 < len {
        vstd::arithmetic::div_mod::lemma_small_mod((index + 1) as nat, len);
        assert(next_index(index, len) == index + 1);
    } else {
        vstd::arithmetic::div_mod::lemma_mod_self_0(len as int);
        assert(next_index(index, len) == 0);
    }
    if index > 0 {
        assert(prev_index(index, len) == index - 1);
        vstd::arithmetic::div_mod::lemma_small_mod(index as nat, len);
    } else {
        assert(prev_index(index, len) == len - 1);
        vstd::arithmetic::div_mod::lemma_mod_self_0(len as int);
    }
}

/// `play_or_pause` twice from a playing or paused player gives back the
/// state it started in; from a stopped one it ends paused.
pub proof fn lemma_play_or_pause_twice(s: State)
    ensures
        s != State::Stop ==> toggled_state(toggled_state(s)) == s,
        s == State::Stop ==> toggled_state(toggled_state(s)) == State::Pause,
        toggled_state(s) != State::Stop,
{
}

/// The counter that `increase` moves.
pub open spec fn increased(count: int) -> int {
    (count + 1) % (MAX as int)
}

/// `increase` keeps the counter below `MAX`, and `MAX` increases bring it
/// back to where it was.
pub proof fn lemma_increase_cycles(count: int)
    requires
        0 <= count,
    ensures
        0 <= increased(count) < MAX,
        count < MAX ==> increased(increased(increased(count))) == count,
{
}

/// What the service is asked for to start the current song: the song, the
/// stream kind, and the session.
pub struct PlayRequest {
    pub song: Song,
    pub hls: bool,
    pub token: String,
    pub session_id: String,
}

impl Play {
    /// The session values, unchanged by the playback controls.
    pub open spec fn same_session(&self, other: &Play) -> bool {
        &&& self.port == other.port
        &&& self.token@ == other.token@
        &&& self.session_id@ == other.session_id@
        &&& self.hls == other.hls
    }

    /// A stopped player with an empty queue, no session and HLS streaming on.
    pub fn new() -> (p: Play)
        ensures
            p.count == 0,
            p.state == State::Stop,
            p.list@.len() == 0,
            p.index == 0,
            p.port == 0,
            p.token@ == Seq::<char>::empty(),
            p.session_id@ == Seq::<char>::empty(),
            p.hls,
    {
        Play {
            count: 0,
            state: State::Stop,
            list: Vec::new(),
            index: 0,
            port: 0,
            token: String::new(),
            session_id: String::new(),
            hls: true,
        }
    }

    /// Moves the counter one step round its cycle of `MAX` values.
    pub fn increase(&mut self)
        requires
            old(self).count < u32::MAX,
        ensures
            final(self).count == (old(self).count + 1) % (MAX as int),
            final(self).state == old(self).state,
            final(self).list@ == old(self).list@,
            final(self).index == old(self).index,
            final(self).same_session(old(self)),
    {
        let c = self.count + 1;
        self.count = c % MAX;
    }

    pub fn get_count(&self) -> (c: u32)
        ensures
            c == self.count,
    {
        self.count
    }

    /// Whether the counter still has the value a decoder started with.
    pub fn is_same_count(&self, count: u32) -> (b: bool)
        ensures
            b == (self.count == count),
    {
        self.count == count
    }

    pub fn set_port(&mut self, port: u16)
        ensures
            final(self).port == port,
            final(self).count == old(self).count,
            final(self).state == old(self).state,
            final(self).list@ == old(self).list@,
            final(self).index == old(self).index,
            final(self).token@ == old(self).token@,
            final(self).session_id@ == old(self).session_id@,
            final(self).hls == old(self).hls,
    {
        self.port = port;
    }

    pub fn get_port(&self) -> (p: u16)
        ensures
            p == self.port,
    {
        self.port
    }

    pub fn set_token(&mut self, t: String)
        ensures
            final(self).token@ == t@,
            final(self).count == old(self).count,
            final(self).state == old(self).state,
            final(self).list@ == old(self).list@,
            final(self).index == old(self).index,
            final(self).port == old(self).port,
            final(self).session_id@ == old(self).session_id@,
            final(self).hls == old(self).hls,
    {
        self.token = t;
    }

    pub fn set_session_id(&mut self, s: String)
        ensures
            final(self).session_id@ == s@,
            final(self).count == old(self).count,
            final(self).state == old(self).state,
            final(self).list@ == old(self).list@,
            final(self).index == old(self).index,
            final(self).port == old(self).port,
            final(self).token@ == old(self).token@,
            final(self).hls == old(self).hls,
    {
        self.session_id = s;
    }

    pub fn get_token(&self) -> (t: String)
        ensures
            t@ == self.token@,
    {
        self.token.clone()
    }

    pub fn get_session_id(&self) -> (s: String)
        ensures
            s@ == self.session_id@,
    {
        self.session_id.clone()
    }

    /// Switches between HLS playlists and cached files.
    pub fn toggle_hls(&mut self)
        ensures
            final(self).hls == !old(self).hls,
            final(self).count == old(self).count,
            final(self).state == old(self).state,
            final(self).list@ == old(self).list@,
            final(self).index == old(self).index,
            final(self).port == old(self).port,
            final(self).token@ == old(self).token@,
            final(self).session_id@ == old(self).session_id@,
    {
        let hls = self.hls;
        self.hls = !hls;
    }

    pub fn get_hls(&self) -> (b: bool)
        ensures
            b == self.hls,
    {
        self.hls
    }

    /// Marks the player as playing; the audio output is to resume.
    pub fn state_play(&mut self) -> (cmd: PlayerCommand)
        ensures
            final(self).state == State::Play,
            cmd == PlayerCommand::Play,
            final(self).count == old(self).count,
            final(self).list@ == old(self).list@,
            final(self).index == old(self).index,
            final(self).same_session(old(self)),
    {
        self.state = State::Play;
        PlayerCommand::Play
    }

    /// Marks the player as stopped; the audio output is to stop.
    pub fn state_stop(&mut self) -> (cmd: PlayerCommand)
        ensures
            final(self).state == State::Stop,
            cmd == PlayerCommand::Stop,
            final(self).count == old(self).count,
            final(self).list@ == old(self).list@,
            final(self).index == old(self).index,
            final(self).same_session(old(self)),
    {
        self.state = State::Stop;
        PlayerCommand::Stop
    }

    /// Marks the player as paused; the audio output is to pause.
    pub fn state_pause(&mut self) -> (cmd: PlayerCommand)
        ensures
            final(self).state == State::Pause,
            cmd == PlayerCommand::Pause,
            final(self).count == old(self).count,
            final(self).list@ == old(self).list@,
            final(self).index == old(self).index,
            final(self).same_session(old(self)),
    {
        self.state = State::Pause;
        PlayerCommand::Pause
    }

    /// Pauses a playing player and plays a paused or stopped one.
    pub fn play_or_pause(&mut self) -> (cmd: PlayerCommand)
        ensures
            final(self).state == toggled_state(old(self).state),
            cmd == (match final(self).state {
                State::Play => PlayerCommand::Play,
                State::Pause => PlayerCommand::Pause,
                State::Stop => PlayerCommand::Stop,
            }),
            final(self).count == old(self).count,
            final(self).list@ == old(self).list@,
            final(self).index == old(self).index,
            final(self).same_session(old(self)),
    {
        match self.state {
            State::Play => self.state_pause(),
            State::Pause => self.state_play(),
            State::Stop => self.state_play(),
        }
    }

    /// The song at the current position, if the position is in the queue.
    pub fn current_song(&self) -> (s: Option<Song>)
        ensures
            s == song_at(self.list@, self.index),
    {
        if self.index >= 0 && (self.index as usize) < self.list.len() {
            Some(self.list[self.index as usize].duplicate())
        } else {
            None
        }
    }

    /// Starting the current song: the request for its stream, or nothing
    /// when the position is outside the queue.
    pub fn play(&self) -> (req: Option<PlayRequest>)
        ensures
            song_at(self.list@, self.index) is None ==> req is None,
            song_at(self.list@, self.index) matches Some(s) ==> (req matches Some(r) && r.song == s
                && r.hls == self.hls && r.token@ == self.token@ && r.session_id@ == self.session_id@),
    {
        match self.current_song() {
            Some(song) => Some(
                PlayRequest {
                    song,
                    hls: self.get_hls(),
                    token: self.get_token(),
                    session_id: self.get_session_id(),
                },
            ),
            None => None,
        }
    }

    /// The ways the current song's title may be written, lowercased: the
    /// title, the title without spaces and, when it holds a `(`, the part
    /// before it with and without spaces. Without a current song the title
    /// is empty.
    pub fn get_title(&self) -> (answer: Vec<String>)
        ensures
            answer@.map_values(|s: String| s@) == title_variants(
                match song_at(self.list@, self.index) {
                    Some(s) => lowercased(s.title@),
                    None => Seq::empty(),
                },
            ),
    {
        let title = if self.index >= 0 && (self.index as usize) < self.list.len() {
            to_lowercase(self.list[self.index as usize].title.as_str())
        } else {
            String::new()
        };
        let mut answer: Vec<String> = Vec::new();
        let no_space = remove_char(title.as_str(), ' ');
        answer.push(title.clone());
        answer.push(no_space);
        match prefix_before(title.as_str(), '(') {
            Some(key) => {
                let key_no_space = remove_char(key.as_str(), ' ');
                answer.push(key);
                answer.push(key_no_space);
            },
            None => {},
        }
        proof {
            assert(answer@.map_values(|s: String| s@) =~= title_variants(title@));
        }
        answer
    }

    /// Moves to the next song, from the last back to the first; the caller
    /// then starts it.
    pub fn next(&mut self)
        requires
            old(self).list@.len() > 0,
            old(self).list@.len() <= i32::MAX,
            old(self).index < i32::MAX,
        ensures
            final(self).index == next_index(old(self).index, old(self).list@.len()),
            final(self).count == old(self).count,
            final(self).state == old(self).state,
            final(self).list@ == old(self).list@,
            final(self).same_session(old(self)),
    {
        let mut i = self.index;
        i = (i + 1) % (self.list.len() as i32);
        self.index = i;
    }

    /// Moves to the previous song, from the first to the last; the caller
    /// then starts it.
    pub fn prev(&mut self)
        requires
            old(self).list@.len() <= i32::MAX,
            old(self).index > i32::MIN,
        ensures
            final(self).index == prev_index(old(self).index, old(self).list@.len()),
            final(self).count == old(self).count,
            final(self).state == old(self).state,
            final(self).list@ == old(self).list@,
            final(self).same_session(old(self)),
    {
        let i = self.index - 1;
        self.index = if i >= 0 {
            i
        } else {
            self.list.len() as i32 - 1
        };
    }

    /// Replaces the queue and moves to its first song.
    pub fn set_list(&mut self, v: Vec<Song>)
        ensures
            final(self).list@ == v@,
            final(self).index == 0,
            final(self).count == old(self).count,
            final(self).state == old(self).state,
            final(self).same_session(old(self)),
    {
        self.list = v;
        self.index = 0;
    }
}

/// A controller: a playback counter and a playing state.
pub struct Controller {
    pub count: u32,
    pub state: State,
}

impl Controller {
    /// A stopped controller with its counter at zero.
    pub fn new() -> (c: Controller)
        ensures
            c.count == 0,
            c.state == State::Stop,
    {
        Controller { count: 0, state: State::Stop }
    }
}

} // verus!

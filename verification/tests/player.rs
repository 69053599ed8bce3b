use melon_player::player::{Controller, Play, PlayerCommand, State, MAX};
use melon_player::song::Song;

fn song(id: &str, title: &str) -> Song {
    let mut s = Song::new();
    s.id = id.to_string();
    s.title = title.to_string();
    s
}

#[test]
fn new_player_defaults() {
    let p = Play::new();
    assert_eq!(p.get_count(), 0);
    assert_eq!(p.state, State::Stop);
    assert!(p.list.is_empty());
    assert_eq!(p.index, 0);
    assert_eq!(p.get_port(), 0);
    assert_eq!(p.get_token(), "");
    assert_eq!(p.get_session_id(), "");
    assert!(p.get_hls());
    let c = Controller::new();
    assert_eq!(c.count, 0);
    assert_eq!(c.state, State::Stop);
}

#[test]
fn counter_cycles_through_max_values() {
    let mut p = Play::new();
    let mut seen = Vec::new();
    for _ in 0..(2 * MAX) {
        p.increase();
        seen.push(p.get_count());
    }
    assert_eq!(seen, vec![1, 2, 0, 1, 2, 0]);
    assert!(p.is_same_count(0));
    assert!(!p.is_same_count(1));
}

#[test]
fn session_values() {
    let mut p = Play::new();
    p.set_port(12345);
    p.set_token("tok".to_string());
    p.set_session_id("sess".to_string());
    p.toggle_hls();
    assert_eq!(p.get_port(), 12345);
    assert_eq!(p.get_token(), "tok");
    assert_eq!(p.get_session_id(), "sess");
    assert!(!p.get_hls());
    p.toggle_hls();
    assert!(p.get_hls());
}

#[test]
fn play_pause_transitions() {
    let mut p = Play::new();
    assert_eq!(p.play_or_pause(), PlayerCommand::Play);
    assert_eq!(p.state, State::Play);
    assert_eq!(p.play_or_pause(), PlayerCommand::Pause);
    assert_eq!(p.state, State::Pause);
    assert_eq!(p.play_or_pause(), PlayerCommand::Play);
    assert_eq!(p.state_stop(), PlayerCommand::Stop);
    assert_eq!(p.state, State::Stop);
    assert_eq!(p.state_pause(), PlayerCommand::Pause);
    assert_eq!(p.state_play(), PlayerCommand::Play);
}

#[test]
fn next_and_prev_wrap_around() {
    let mut p = Play::new();
    p.set_list(vec![song("1", "a"), song("2", "b"), song("3", "c")]);
    assert_eq!(p.index, 0);
    p.prev();
    assert_eq!(p.index, 2);
    p.next();
    assert_eq!(p.index, 0);
    p.next();
    p.next();
    assert_eq!(p.index, 2);
    p.next();
    assert_eq!(p.index, 0);
    p.index = 1;
    p.prev();
    assert_eq!(p.index, 0);
}

#[test]
fn prev_on_empty_queue_leaves_no_song() {
    let mut p = Play::new();
    p.prev();
    assert_eq!(p.index, -1);
    assert!(p.current_song().is_none());
    assert!(p.play().is_none());
    assert_eq!(p.get_title(), vec!["".to_string(), "".to_string()]);
}

#[test]
fn play_request_for_current_song() {
    let mut p = Play::new();
    p.set_list(vec![song("10", "a"), song("20", "b")]);
    p.set_token("t".to_string());
    p.set_session_id("s".to_string());
    p.next();
    let req = p.play().unwrap();
    assert_eq!(req.song.id, "20");
    assert!(req.hls);
    assert_eq!(req.token, "t");
    assert_eq!(req.session_id, "s");
}

#[test]
fn title_variants() {
    let mut p = Play::new();
    p.set_list(vec![song("1", "Hello World (Feat. X)")]);
    assert_eq!(
        p.get_title(),
        vec![
            "hello world (feat. x)".to_string(),
            "helloworld(feat.x)".to_string(),
            "hello world ".to_string(),
            "helloworld".to_string(),
        ]
    );
    p.set_list(vec![song("1", "Ditto")]);
    assert_eq!(p.get_title(), vec!["ditto".to_string(), "ditto".to_string()]);
}

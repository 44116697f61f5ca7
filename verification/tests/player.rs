use rust_rocket::bytes::same_bytes;
use rust_rocket::interpolation::Interpolation;
use rust_rocket::player::Player;
use rust_rocket::track::{Key, Track};

fn track(name: &str, rows: &[u32]) -> Track {
    let mut track = Track::new(name);
    for row in rows {
        track.set_key(Key::new(*row, 0, Interpolation::Linear));
    }
    track
}

#[test]
fn player_finds_tracks_by_name() {
    let player = Player::new(vec![track("a", &[1]), track("b", &[2, 3]), track("c", &[])]);
    assert_eq!(player.get_track("a").map(|t| t.get_keys().len()), Some(1));
    assert_eq!(player.get_track("b").map(|t| t.get_keys().len()), Some(2));
    assert_eq!(player.get_track("c").map(|t| t.get_keys().len()), Some(0));
    assert!(player.get_track("d").is_none());
}

#[test]
fn player_without_tracks_finds_nothing() {
    let player = Player::new(Vec::new());
    assert!(player.get_track("a").is_none());
    assert!(player.get_track("").is_none());
}

#[test]
fn last_track_of_a_name_stands_for_it() {
    let player = Player::new(vec![track("a", &[1]), track("b", &[]), track("a", &[4, 5, 6])]);
    assert_eq!(player.get_track("a").map(|t| t.get_keys().len()), Some(3));
}

#[test]
fn same_bytes_compares_length_and_content() {
    assert!(same_bytes(b"", b""));
    assert!(same_bytes(b"abc", b"abc"));
    assert!(!same_bytes(b"abc", b"abd"));
    assert!(!same_bytes(b"abc", b"ab"));
    assert!(!same_bytes(b"", b"a"));
}

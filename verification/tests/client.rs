use rust_rocket::client::{
    client_greeting, server_greeting, Client, Error, Event, ReceiveResult,
};
use rust_rocket::interpolation::Interpolation;
use rust_rocket::track::Key;

fn set_key_message(track: u32, row: u32, value: f32, curve: u8) -> Vec<u8> {
    let mut message = vec![0u8];
    message.extend_from_slice(&track.to_be_bytes());
    message.extend_from_slice(&row.to_be_bytes());
    message.extend_from_slice(&value.to_bits().to_be_bytes());
    message.push(curve);
    message
}

fn delete_key_message(track: u32, row: u32) -> Vec<u8> {
    let mut message = vec![1u8];
    message.extend_from_slice(&track.to_be_bytes());
    message.extend_from_slice(&row.to_be_bytes());
    message
}

fn keys_of(client: &Client, index: usize) -> Vec<Key> {
    client.get_tracks()[index].get_keys().to_vec()
}

#[test]
fn new_client_waits_for_an_opcode() {
    let client = Client::new();
    assert_eq!(client.wanted(), 1);
    assert!(client.get_tracks().is_empty());
    assert!(client.get_track("a").is_none());
    assert_eq!(client.find_track("a"), None);
}

#[test]
fn save_tracks_needs_no_payload() {
    let mut client = Client::new();
    assert_eq!(client.poll_events(&[5]), (1, Ok(Some(Event::SaveTracks))));
    assert_eq!(client.wanted(), 1);
}

#[test]
fn set_row_and_pause_events() {
    let mut client = Client::new();
    assert_eq!(client.poll_events(&[3, 0, 0, 1, 0]), (5, Ok(Some(Event::SetRow(256)))));
    assert_eq!(client.poll_events(&[4, 1]), (2, Ok(Some(Event::Pause(true)))));
    assert_eq!(client.poll_events(&[4, 0]), (2, Ok(Some(Event::Pause(false)))));
}

#[test]
fn poll_stops_at_the_first_event() {
    let mut client = Client::new();
    let input = [4u8, 1, 5, 3, 0, 0, 0, 9];
    assert_eq!(client.poll_events(&input), (2, Ok(Some(Event::Pause(true)))));
    assert_eq!(client.poll_events(&input[2..]), (1, Ok(Some(Event::SaveTracks))));
    assert_eq!(client.poll_events(&input[3..]), (5, Ok(Some(Event::SetRow(9)))));
    assert_eq!(client.poll_events(&input[8..]), (0, Ok(None)));
}

#[test]
fn no_bytes_change_nothing() {
    let mut client = Client::new();
    assert_eq!(client.poll_events(&[]), (0, Ok(None)));
    assert_eq!(client.poll_event(&[]), (0, Ok(ReceiveResult::Idle)));
    assert_eq!(client.wanted(), 1);
    assert_eq!(client.poll_events(&[3, 0]), (2, Ok(None)));
    assert_eq!(client.wanted(), 3);
    assert_eq!(client.poll_events(&[]), (0, Ok(None)));
    assert_eq!(client.poll_event(&[]), (0, Ok(ReceiveResult::Idle)));
    assert_eq!(client.wanted(), 3);
    assert_eq!(client.poll_events(&[0, 0, 7]), (3, Ok(Some(Event::SetRow(7)))));
}

#[test]
fn single_steps_of_the_decoder() {
    let mut client = Client::new();
    let input = [3u8, 0, 0, 0, 42, 5];
    assert_eq!(client.poll_event(&input), (1, Ok(ReceiveResult::Incomplete)));
    assert_eq!(client.wanted(), 4);
    assert_eq!(client.poll_event(&input[1..3]), (2, Ok(ReceiveResult::Incomplete)));
    assert_eq!(client.wanted(), 2);
    assert_eq!(client.poll_event(&input[3..]), (2, Ok(ReceiveResult::Incomplete)));
    assert_eq!(client.wanted(), 0);
    assert_eq!(client.poll_event(&input[5..]), (0, Ok(ReceiveResult::Event(Event::SetRow(42)))));
    assert_eq!(client.wanted(), 1);
    assert_eq!(client.poll_event(&input[5..]), (1, Ok(ReceiveResult::Incomplete)));
    assert_eq!(client.wanted(), 0);
    assert_eq!(client.poll_event(&[]), (0, Ok(ReceiveResult::Event(Event::SaveTracks))));
}

#[test]
fn set_key_one_byte_at_a_time_equals_all_at_once() {
    let message = set_key_message(0, 16, 2.5, 2);
    assert_eq!(message.len(), 14);

    let mut whole = Client::new();
    whole.get_track_mut("a");
    assert_eq!(whole.poll_events(&message), (14, Ok(None)));

    let mut pieces = Client::new();
    pieces.get_track_mut("a");
    for (i, byte) in message.iter().enumerate() {
        assert_eq!(pieces.wanted(), if i == 0 { 1 } else { 14 - i });
        assert_eq!(pieces.poll_events(&[*byte]), (1, Ok(None)));
    }

    let expected = vec![Key::new(16, 2.5f32.to_bits(), Interpolation::Smooth)];
    assert_eq!(keys_of(&whole, 0), expected);
    assert_eq!(keys_of(&pieces, 0), expected);
    assert_eq!(whole.wanted(), 1);
    assert_eq!(pieces.wanted(), 1);
}

#[test]
fn any_split_of_a_stream_decodes_alike() {
    let mut stream = set_key_message(0, 3, 1.0, 1);
    stream.extend(set_key_message(0, 1, 4.0, 0));
    stream.extend(delete_key_message(0, 3));
    stream.extend([9u8]);
    stream.extend(set_key_message(0, 2, 8.0, 3));
    let expected = vec![
        Key::new(1, 4.0f32.to_bits(), Interpolation::Step),
        Key::new(2, 8.0f32.to_bits(), Interpolation::Ramp),
    ];
    for cut in 0..=stream.len() {
        let mut client = Client::new();
        client.get_track_mut("a");
        assert_eq!(client.poll_events(&stream[..cut]), (cut, Ok(None)));
        assert_eq!(client.poll_events(&stream[cut..]), (stream.len() - cut, Ok(None)));
        assert_eq!(keys_of(&client, 0), expected);
        assert_eq!(client.wanted(), 1);
    }
}

#[test]
fn edits_are_carried_out_on_the_way_to_an_event() {
    let mut client = Client::new();
    client.get_track_mut("a");
    client.get_track_mut("b");
    let mut stream = set_key_message(1, 5, 1.0, 1);
    stream.extend(set_key_message(0, 6, 2.0, 1));
    stream.extend([4u8, 1]);
    stream.extend(delete_key_message(1, 5));
    assert_eq!(client.poll_events(&stream), (30, Ok(Some(Event::Pause(true)))));
    assert_eq!(keys_of(&client, 0), vec![Key::new(6, 2.0f32.to_bits(), Interpolation::Linear)]);
    assert_eq!(keys_of(&client, 1), vec![Key::new(5, 1.0f32.to_bits(), Interpolation::Linear)]);
    assert_eq!(client.poll_events(&stream[30..]), (9, Ok(None)));
    assert!(keys_of(&client, 1).is_empty());
}

#[test]
fn unknown_opcode_is_skipped() {
    let mut client = Client::new();
    assert_eq!(client.poll_events(&[42]), (1, Ok(None)));
    assert_eq!(client.wanted(), 1);
    assert_eq!(client.poll_events(&[2, 99, 5]), (3, Ok(Some(Event::SaveTracks))));
    assert_eq!(client.poll_events(&[255, 3, 0, 0, 0, 1]), (6, Ok(Some(Event::SetRow(1)))));
}

#[test]
fn edit_of_a_track_that_was_never_requested_is_an_error() {
    let mut client = Client::new();
    client.get_track_mut("a");
    let mut stream = set_key_message(1, 5, 1.0, 1);
    stream.push(5);
    assert_eq!(client.poll_events(&stream), (14, Err(Error::UnknownTrack(1))));
    assert!(keys_of(&client, 0).is_empty());
    assert_eq!(client.wanted(), 1);
    assert_eq!(
        client.poll_events(&delete_key_message(u32::MAX, 0)),
        (9, Err(Error::UnknownTrack(u32::MAX)))
    );
    assert_eq!(client.poll_events(&[5]), (1, Ok(Some(Event::SaveTracks))));
}

#[test]
fn requesting_a_name_twice_makes_one_track() {
    let mut client = Client::new();
    let (first, request) = client.get_track_mut("cam:x");
    assert_eq!(first, 0);
    assert_eq!(request, Some(vec![2, 0, 0, 0, 5, b'c', b'a', b'm', b':', b'x']));
    let (other, request) = client.get_track_mut("cam:y");
    assert_eq!(other, 1);
    assert_eq!(request, Some(vec![2, 0, 0, 0, 5, b'c', b'a', b'm', b':', b'y']));
    let (again, request) = client.get_track_mut("cam:x");
    assert_eq!(again, 0);
    assert_eq!(request, None);
    assert_eq!(client.get_tracks().len(), 2);
    assert_eq!(client.find_track("cam:y"), Some(1));
    assert_eq!(client.get_track("cam:y").map(|t| t.get_name()), Some("cam:y"));
    assert!(client.get_track("cam:z").is_none());
}

#[test]
fn requests_do_not_disturb_a_message_in_flight() {
    let mut client = Client::new();
    assert_eq!(client.poll_events(&[3, 0, 0]), (3, Ok(None)));
    client.get_track_mut("a");
    assert_eq!(client.wanted(), 2);
    assert_eq!(client.poll_events(&[1, 2]), (2, Ok(Some(Event::SetRow(258)))));
}

#[test]
fn set_row_request() {
    let client = Client::new();
    assert_eq!(client.set_row(0x0a0b_0c0d), vec![3, 0x0a, 0x0b, 0x0c, 0x0d]);
}

#[test]
fn greetings() {
    assert_eq!(client_greeting(), "hello, synctracker!");
    assert_eq!(server_greeting(), "hello, demo!");
    assert!(Client::handshake(b"hello, demo!"));
    assert!(!Client::handshake(b"hello, demo?"));
    assert!(!Client::handshake(b"hello, demo"));
    assert!(!Client::handshake(b"hello, demo!!"));
    assert!(!Client::handshake(b""));
}

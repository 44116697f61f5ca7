use rust_rocket::interpolation::Interpolation;
use rust_rocket::track::{Key, Segment, Track};

fn key(row: u32, value: f32, interpolation: Interpolation) -> Key {
    Key::new(row, value.to_bits(), interpolation)
}

fn rows(track: &Track) -> Vec<u32> {
    track.get_keys().iter().map(|k| k.row).collect()
}

/// The arithmetic that a caller does on a segment.
fn value_at(track: &Track, row: f32) -> f32 {
    let floor = row.floor() as u32;
    let past = !(row <= floor as f32);
    match track.get_segment(floor, past) {
        Segment::Empty => 0.0,
        Segment::Constant(bits) => f32::from_bits(bits),
        Segment::Between(lower, higher) => {
            let t = (row - lower.row as f32) / (higher.row as f32 - lower.row as f32);
            let eased = match lower.interpolation {
                Interpolation::Step => 0.0,
                Interpolation::Linear => t,
                Interpolation::Smooth => t * t * (3.0 - 2.0 * t),
                Interpolation::Ramp => t * t,
            };
            let from = f32::from_bits(lower.value);
            let to = f32::from_bits(higher.value);
            from + (to - from) * eased
        }
    }
}

#[test]
fn new_track_has_name_and_no_keys() {
    let track = Track::new("camera:x");
    assert_eq!(track.get_name(), "camera:x");
    assert!(track.get_keys().is_empty());
    assert!(track.has_name("camera:x"));
    assert!(!track.has_name("camera:y"));
    assert!(!track.has_name("camera:"));
}

#[test]
fn has_name_compares_beyond_ascii() {
    let track = Track::new("größe");
    assert!(track.has_name("größe"));
    assert!(!track.has_name("grosse"));
}

#[test]
fn key_new_keeps_its_parts() {
    let k = Key::new(7, 0x3f80_0000, Interpolation::Ramp);
    assert_eq!(k.row, 7);
    assert_eq!(k.value, 0x3f80_0000);
    assert_eq!(k.interpolation, Interpolation::Ramp);
}

#[test]
fn set_key_in_any_order_keeps_rows_ascending() {
    let mut track = Track::new("t");
    for row in [30u32, 10, 50, 20, 40, 0, u32::MAX] {
        track.set_key(key(row, row as f32, Interpolation::Linear));
    }
    assert_eq!(rows(&track), vec![0, 10, 20, 30, 40, 50, u32::MAX]);
}

#[test]
fn set_key_at_front_middle_and_end() {
    let mut track = Track::new("t");
    track.set_key(key(10, 1.0, Interpolation::Step));
    assert_eq!(track.get_insert_position(5), Some(0));
    assert_eq!(track.get_insert_position(10), Some(0));
    assert_eq!(track.get_insert_position(11), None);
    track.set_key(key(5, 2.0, Interpolation::Step));
    track.set_key(key(20, 3.0, Interpolation::Step));
    track.set_key(key(15, 4.0, Interpolation::Step));
    assert_eq!(rows(&track), vec![5, 10, 15, 20]);
    assert_eq!(track.get_insert_position(12), Some(2));
    assert_eq!(track.get_exact_position(15), Some(2));
    assert_eq!(track.get_exact_position(12), None);
}

#[test]
fn set_key_at_existing_row_replaces_in_its_slot() {
    let mut track = Track::new("t");
    track.set_key(key(1, 1.0, Interpolation::Linear));
    track.set_key(key(2, 2.0, Interpolation::Linear));
    track.set_key(key(3, 3.0, Interpolation::Linear));
    track.set_key(key(2, 9.5, Interpolation::Smooth));
    assert_eq!(
        track.get_keys(),
        &[
            key(1, 1.0, Interpolation::Linear),
            key(2, 9.5, Interpolation::Smooth),
            key(3, 3.0, Interpolation::Linear),
        ]
    );
}

#[test]
fn delete_key_removes_only_the_row() {
    let mut track = Track::new("t");
    for row in [1u32, 2, 3] {
        track.set_key(key(row, row as f32, Interpolation::Linear));
    }
    track.delete_key(2);
    assert_eq!(rows(&track), vec![1, 3]);
    track.delete_key(2);
    assert_eq!(rows(&track), vec![1, 3]);
    track.delete_key(7);
    assert_eq!(rows(&track), vec![1, 3]);
    track.delete_key(1);
    track.delete_key(3);
    assert!(track.get_keys().is_empty());
    track.delete_key(3);
    assert!(track.get_keys().is_empty());
}

#[test]
fn segment_of_empty_track_is_empty() {
    let track = Track::new("t");
    assert_eq!(track.get_segment(0, false), Segment::Empty);
    assert_eq!(track.get_segment(17, true), Segment::Empty);
    assert_eq!(value_at(&track, 0.0), 0.0);
    assert_eq!(value_at(&track, 123.25), 0.0);
}

#[test]
fn segment_clamps_at_both_ends() {
    let mut track = Track::new("t");
    track.set_key(key(10, 1.5, Interpolation::Linear));
    track.set_key(key(20, 2.5, Interpolation::Linear));
    assert_eq!(track.get_segment(0, false), Segment::Constant(1.5f32.to_bits()));
    assert_eq!(track.get_segment(9, true), Segment::Constant(1.5f32.to_bits()));
    assert_eq!(track.get_segment(10, false), Segment::Constant(1.5f32.to_bits()));
    assert_eq!(track.get_segment(20, false), Segment::Constant(2.5f32.to_bits()));
    assert_eq!(track.get_segment(20, true), Segment::Constant(2.5f32.to_bits()));
    assert_eq!(track.get_segment(u32::MAX, true), Segment::Constant(2.5f32.to_bits()));
    assert_eq!(value_at(&track, 3.0), 1.5);
    assert_eq!(value_at(&track, 10.0), 1.5);
    assert_eq!(value_at(&track, 20.0), 2.5);
    assert_eq!(value_at(&track, 99.75), 2.5);
}

#[test]
fn segment_of_single_key_is_constant() {
    let mut track = Track::new("t");
    track.set_key(key(4, 8.0, Interpolation::Ramp));
    for (row, past) in [(0, false), (3, true), (4, false), (4, true), (5, false)] {
        assert_eq!(track.get_segment(row, past), Segment::Constant(8.0f32.to_bits()));
    }
}

#[test]
fn segment_between_keys_names_the_neighbours() {
    let mut track = Track::new("t");
    let a = key(0, 0.0, Interpolation::Step);
    let b = key(10, 1.0, Interpolation::Linear);
    let c = key(20, 2.0, Interpolation::Smooth);
    track.set_key(c);
    track.set_key(a);
    track.set_key(b);
    assert_eq!(track.get_segment(0, true), Segment::Between(a, b));
    assert_eq!(track.get_segment(9, true), Segment::Between(a, b));
    assert_eq!(track.get_segment(10, false), Segment::Between(b, c));
    assert_eq!(track.get_segment(10, true), Segment::Between(b, c));
    assert_eq!(track.get_segment(19, true), Segment::Between(b, c));
}

#[test]
fn linear_midpoint_of_two_keys() {
    let mut track = Track::new("t");
    track.set_key(key(0, 0.0, Interpolation::Linear));
    track.set_key(key(10, 10.0, Interpolation::Linear));
    assert_eq!(value_at(&track, 5.0), 5.0);
    assert_eq!(value_at(&track, 2.5), 2.5);
}

#[test]
fn lower_key_shapes_the_segment() {
    let mut track = Track::new("t");
    track.set_key(key(0, 0.0, Interpolation::Step));
    track.set_key(key(10, 10.0, Interpolation::Linear));
    track.set_key(key(20, 30.0, Interpolation::Ramp));
    track.set_key(key(30, 0.0, Interpolation::Smooth));
    assert_eq!(value_at(&track, 5.0), 0.0);
    assert_eq!(value_at(&track, 15.0), 20.0);
    assert_eq!(value_at(&track, 25.0), 30.0 + (0.0 - 30.0) * 0.25);
}

#[test]
fn interpolation_from_wire_byte() {
    assert_eq!(Interpolation::from(0u8), Interpolation::Step);
    assert_eq!(Interpolation::from(1u8), Interpolation::Linear);
    assert_eq!(Interpolation::from(2u8), Interpolation::Smooth);
    assert_eq!(Interpolation::from(3u8), Interpolation::Ramp);
    assert_eq!(Interpolation::from(4u8), Interpolation::Linear);
    assert_eq!(Interpolation::from(255u8), Interpolation::Linear);
}

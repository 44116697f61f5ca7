//! The wire format: a one-byte opcode, then a payload whose length the opcode
//! fixes, with every multi-byte field in big-endian order.

use vstd::prelude::*;
use vstd::slice::slice_subrange;
use vstd::string::StringSliceAdditionalSpecFns;
use byteorder::{BigEndian, ReadBytesExt, WriteBytesExt};
use crate::client::Error;
use crate::interpolation::{interpolation_of, Interpolation};
use crate::track::Key;

verus! {

/// Opcode of a message that sets a key.
pub const SET_KEY: u8 = 0;

/// Opcode of a message that deletes a key.
pub const DELETE_KEY: u8 = 1;

/// Opcode of the outbound request for a track.
pub const GET_TRACK: u8 = 2;

/// Opcode of a message that changes the row.
pub const SET_ROW: u8 = 3;

/// Opcode of a message that pauses or resumes.
pub const PAUSE: u8 = 4;

/// Opcode of a message that asks for the tracks to be saved.
pub const SAVE_TRACKS: u8 = 5;

/// The number that four bytes spell in big-endian order.
pub open spec fn be_u32(bytes: Seq<u8>) -> u32
    recommends
        bytes.len() == 4,
{
    (bytes[0] as int * 0x100_0000 + bytes[1] as int * 0x1_0000 + bytes[2] as int * 0x100
        + bytes[3] as int) as u32
}

/// The four bytes that spell a number in big-endian order.
pub open spec fn be_bytes(value: u32) -> Seq<u8> {
    seq![
        (value / 0x100_0000) as u8,
        (value / 0x1_0000 % 0x100) as u8,
        (value / 0x100 % 0x100) as u8,
        (value % 0x100) as u8,
    ]
}

/// Reading back the bytes of a number gives the number.
pub proof fn lemma_be_round_trip(value: u32)
    ensures
        be_bytes(value).len() == 4,
        be_u32(be_bytes(value)) == value,
{
    let v = value as int;
    assert(v / 0x100_0000 * 0x100_0000 + v / 0x1_0000 % 0x100 * 0x1_0000 + v / 0x100 % 0x100
        * 0x100 + v % 0x100 == v) by (nonlinear_arith)
        requires
            0 <= v < 0x1_0000_0000,
    ;
    assert(v / 0x100_0000 < 0x100) by (nonlinear_arith)
        requires
            0 <= v < 0x1_0000_0000,
    ;
}

/// Calls `byteorder::ReadBytesExt::read_u32` in big-endian order on a slice
/// as the reader. Of at least four bytes it returns the number that the first
/// four spell. Of fewer the read fails, so they are left out.
#[verifier::external_body]
fn read_u32_be(bytes: &[u8]) -> (value: u32)
    requires
        bytes@.len() >= 4,
    ensures
        value == be_u32(bytes@.subrange(0, 4)),
{
    let mut reader = bytes;
    reader.read_u32::<BigEndian>().unwrap()
}

/// Calls `byteorder::WriteBytesExt::write_u32` in big-endian order on a
/// vector as the writer, which appends the four bytes of the number.
#[verifier::external_body]
fn write_u32_be(buffer: &mut Vec<u8>, value: u32)
    ensures
        final(buffer)@ == old(buffer)@ + be_bytes(value),
{
    let _ = buffer.write_u32::<BigEndian>(value);
}

/// An inbound message.
#[derive(Debug, Clone, Copy, PartialEq, Eq, Structural)]
pub enum Command {
    /// Set a key on the track of the given index.
    SetKey { track: u32, key: Key },
    /// Delete the key at a row of the track of the given index.
    DeleteKey { track: u32, row: u32 },
    /// The row changed.
    SetRow(u32),
    /// Playback paused (`true`) or resumed.
    Pause(bool),
    /// The tracks should be saved.
    SaveTracks,
    /// An opcode that names no inbound message. It carries no payload.
    Unknown(u8),
}

/// The length of the payload that follows an opcode.
pub open spec fn payload_len(opcode: u8) -> nat {
    if opcode == SET_KEY {
        13
    } else if opcode == DELETE_KEY {
        8
    } else if opcode == SET_ROW {
        4
    } else if opcode == PAUSE {
        1
    } else {
        0
    }
}

/// Whether the bytes are one whole message: an opcode and the payload of
/// the length that it fixes.
pub open spec fn is_message(message: Seq<u8>) -> bool {
    message.len() >= 1 && message.len() == 1 + payload_len(message[0])
}

/// The four-byte field that starts at `at`.
pub open spec fn field(message: Seq<u8>, at: int) -> u32 {
    be_u32(message.subrange(at, at + 4))
}

/// The command that a whole message spells.
pub open spec fn command_of(message: Seq<u8>) -> Command
    recommends
        is_message(message),
{
    let opcode = message[0];
    if opcode == SET_KEY {
        Command::SetKey {
            track: field(message, 1),
            key: Key {
                row: field(message, 5),
                value: field(message, 9),
                interpolation: interpolation_of(message[13]),
            },
        }
    } else if opcode == DELETE_KEY {
        Command::DeleteKey { track: field(message, 1), row: field(message, 5) }
    } else if opcode == SET_ROW {
        Command::SetRow(field(message, 1))
    } else if opcode == PAUSE {
        Command::Pause(message[1] == 1)
    } else if opcode == SAVE_TRACKS {
        Command::SaveTracks
    } else {
        Command::Unknown(opcode)
    }
}

/// The length of the payload that follows an opcode.
pub fn payload_length(opcode: u8) -> (length: usize)
    ensures
        length == payload_len(opcode),
{
    match opcode {
        SET_KEY => 4 + 4 + 4 + 1,
        DELETE_KEY => 4 + 4,
        SET_ROW => 4,
        PAUSE => 1,
        _ => 0,
    }
}

/// Reads the four-byte field that starts at `at`.
fn read_field(message: &[u8], at: usize) -> (value: u32)
    requires
        at + 4 <= message@.len(),
    ensures
        value == field(message@, at as int),
{
    let length = message.len();
    assert(at + 4 <= length);
    let bytes = slice_subrange(message, at, at + 4);
    assert(bytes@.subrange(0, 4) =~= bytes@);
    read_u32_be(bytes)
}

/// Parses one whole message. Bytes that are no whole message, too few or too
/// many for their opcode or none at all, are refused as malformed.
pub fn parse_command(message: &[u8]) -> (parsed: Result<Command, Error>)
    ensures
        is_message(message@) ==> parsed == Ok::<Command, Error>(command_of(message@)),
        !is_message(message@) ==> parsed == Err::<Command, Error>(Error::Malformed),
{
    if message.len() == 0 {
        return Err(Error::Malformed);
    }
    let opcode = message[0];
    if message.len() - 1 != payload_length(opcode) {
        return Err(Error::Malformed);
    }
    let command = match opcode {
        SET_KEY => {
            let track = read_field(message, 1);
            let row = read_field(message, 5);
            let value = read_field(message, 9);
            let interpolation = Interpolation::from(message[13]);
            Command::SetKey { track: track, key: Key::new(row, value, interpolation) }
        },
        DELETE_KEY => {
            let track = read_field(message, 1);
            let row = read_field(message, 5);
            Command::DeleteKey { track: track, row: row }
        },
        SET_ROW => Command::SetRow(read_field(message, 1)),
        PAUSE => Command::Pause(message[1] == 1),
        SAVE_TRACKS => Command::SaveTracks,
        _ => Command::Unknown(opcode),
    };
    Ok(command)
}

/// The request that changes the row on the other side.
pub open spec fn set_row_message(row: u32) -> Seq<u8> {
    seq![SET_ROW] + be_bytes(row)
}

/// The request for a track: the opcode, the length of the name in bytes as
/// a 32-bit number (its low 32 bits, for a longer name), and the name.
pub open spec fn get_track_message(name: Seq<u8>) -> Seq<u8> {
    seq![GET_TRACK] + be_bytes(name.len() as u32) + name
}

/// Encodes the request that changes the row on the other side.
pub fn encode_set_row(row: u32) -> (message: Vec<u8>)
    ensures
        message@ == set_row_message(row),
{
    let mut message: Vec<u8> = Vec::new();
    message.push(SET_ROW);
    write_u32_be(&mut message, row);
    message
}

/// Encodes the request for the track of a name.
pub fn encode_get_track(name: &str) -> (message: Vec<u8>)
    ensures
        message@ == get_track_message(name.spec_bytes()),
{
    let bytes = name.as_bytes();
    let mut message: Vec<u8> = Vec::new();
    message.push(GET_TRACK);
    write_u32_be(&mut message, #[verifier::truncate] (bytes.len() as u32));
    let ghost head = message@;
    message.extend_from_slice(bytes);
    assert(message@ =~= head + bytes@);
    message
}

/// A row survives the wire: the request that carries it is a whole message,
/// and parses as a change to that row.
pub proof fn lemma_set_row_round_trip(row: u32)
    ensures
        is_message(set_row_message(row)),
        command_of(set_row_message(row)) == Command::SetRow(row),
{
    lemma_be_round_trip(row);
    let message = set_row_message(row);
    assert(message.subrange(1, 5) =~= be_bytes(row));
}

} // verus!

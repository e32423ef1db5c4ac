//! Concrete wire-format scenarios: exact bytes for the variable-length
//! integers, strings, frames and maps, plus the error paths.

use fishandchippy::display_bytes_as_hex_array;
use fishandchippy::events::client::EventToClient;
use fishandchippy::events::server::{deser_from_vec, EventToServer};
use fishandchippy::events::EventReadError;
use fishandchippy::game_types::player::Player;
use fishandchippy::game_types::pot::Pot;
use fishandchippy::integer::{Integer, IntegerDeserialiser, IntegerReadError, SignedState};
use fishandchippy::ser_glue::map::UuidMap;
use fishandchippy::ser_glue::uuid::Uuid;
use fishandchippy::ser_glue::{Deserable, DeserMachine, DesiredInput, FsmResult, Serable};

fn uuid_from(seed: u8) -> Uuid {
    let mut bytes = Vec::new();
    for i in 0..16u8 {
        bytes.push(seed.wrapping_mul(17).wrapping_add(i));
    }
    Uuid::from_bytes(bytes)
}

/// Drives one integer machine over a byte string, one byte at a time.
fn drive_integer(sign: SignedState, bytes: &[u8]) -> Integer {
    let mut machine = IntegerDeserialiser::new();
    let mut pos = 0usize;
    loop {
        match machine.wants_read() {
            DesiredInput::Extra => machine.give_starting_input(sign),
            DesiredInput::Byte | DesiredInput::Bytes(_) => {
                machine.finish_bytes_for_writing(&bytes[pos..pos + 1]);
                pos += 1;
            }
            DesiredInput::ProcessMe => {
                machine = match machine.process().unwrap() {
                    FsmResult::Continue(m) => m,
                    FsmResult::Done(v) => return v,
                };
            }
        }
    }
}

#[test]
fn unsigned_vli_small() {
    let (sign, bytes) = Integer::from_u32(7).ser();
    assert_eq!(sign, SignedState::Unsigned);
    assert_eq!(bytes, vec![0x07]);
    let back = drive_integer(SignedState::Unsigned, &bytes);
    assert_eq!(back.try_to_u32().unwrap(), 7);
    assert_eq!(back, Integer::from_u32(7));
}

#[test]
fn unsigned_vli_boundary() {
    assert_eq!(Integer::from_u32(239).ser().1, vec![0xEF]);
    assert_eq!(Integer::from_u32(240).ser().1, vec![0xF0, 0xF0]);
    let back = drive_integer(SignedState::Unsigned, &[0xF0, 0xF0]);
    assert_eq!(back.try_to_u32().unwrap(), 240);
}

#[test]
fn unsigned_vli_wide() {
    let bytes = Integer::from_u32(0x01_02_03_04).ser().1;
    assert_eq!(bytes, vec![0xF3, 0x04, 0x03, 0x02, 0x01]);
    let back = drive_integer(SignedState::Unsigned, &bytes);
    assert_eq!(back.try_to_u32().unwrap(), 0x01_02_03_04);
}

#[test]
fn signed_vli() {
    // Minus one stores the single significant byte 0xFF; since a bare wire
    // byte may be at most 239, it travels as the header 0xF0 plus 0xFF.
    let (sign, bytes) = Integer::from_i32(-1).ser();
    assert_eq!(sign, SignedState::SignedNegative);
    assert_eq!(bytes, vec![0xF0, 0xFF]);
    let back = drive_integer(SignedState::SignedNegative, &bytes);
    assert_eq!(back.try_to_i128().unwrap(), -1);
    assert_eq!(back, Integer::from_i32(-1));

    // Zero under a signed type is the single byte zero.
    let (sign, bytes) = Integer::from_i32(0).ser();
    assert_eq!(sign, SignedState::SignedPositive);
    assert_eq!(bytes, vec![0x00]);

    let back = drive_integer(SignedState::SignedNegative, &[0xF0, 0xFE]);
    assert_eq!(back.try_to_i128().unwrap(), -2);
}

#[test]
fn string_wire_form() {
    assert_eq!("hi".ser().1, vec![0x02, 0x68, 0x69]);
    assert_eq!("".ser().1, vec![0x00]);
    assert_eq!("hi".to_string().ser().1, vec![0x02, 0x68, 0x69]);
}

#[test]
fn frame_send_message_byte_at_a_time() {
    let wire = [0x01u8, 0x02, 0x68, 0x69];
    let mut machine = <EventToServer as Deserable>::deser();
    let mut pos = 0usize;
    let decoded = loop {
        match machine.wants_read() {
            DesiredInput::Byte | DesiredInput::Bytes(_) => {
                machine.finish_bytes_for_writing(&wire[pos..pos + 1]);
                pos += 1;
            }
            DesiredInput::ProcessMe => {
                machine = match machine.process().unwrap() {
                    FsmResult::Continue(m) => m,
                    FsmResult::Done(evt) => break evt,
                };
            }
            DesiredInput::Extra => unreachable!(),
        }
    };
    assert_eq!(decoded, EventToServer::SendMessage { content: "hi".to_string() });
    assert_eq!(pos, 4);
}

#[test]
fn map_of_two_regardless_of_order() {
    let a = uuid_from(1);
    let b = uuid_from(2);

    let mut first = UuidMap::new();
    first.insert(a.clone(), 300u32);
    first.insert(b.clone(), 7u32);

    let mut second = UuidMap::new();
    second.insert(b, 7u32);
    second.insert(a, 300u32);

    let wire = EventToClient::Pot(Pot { current_value: 5, ready_to_put_in: first }).ser().1;
    // tag, current value, count, then two 16-byte keys with their amounts
    assert_eq!(wire[0], 0x0B);
    assert_eq!(wire[1], 0x05);
    assert_eq!(wire[2], 0x02);
    assert_eq!(wire.len(), 3 + 16 + 3 + 16 + 1);

    let decoded = fishandchippy::events::client::deser_from_vec(&wire).unwrap();
    // the mapping comes back whatever order its entries were inserted in
    assert_eq!(decoded[0], EventToClient::Pot(Pot { current_value: 5, ready_to_put_in: second }));
}

#[test]
fn malformed_tag() {
    match deser_from_vec(&[0xAA]) {
        Err(EventReadError::InvalidKind(0xAA)) => {}
        other => panic!("expected the invalid-tag error, got {other:?}"),
    }
    match fishandchippy::events::client::deser_from_vec(&[0xAA]) {
        Err(EventReadError::InvalidKind(0xAA)) => {}
        other => panic!("expected the invalid-tag error, got {other:?}"),
    }
}

#[test]
fn invalid_utf8_fails_decode() {
    match deser_from_vec(&[0x01, 0x02, 0xFF, 0xFE]) {
        Err(EventReadError::StringRead(_)) => {}
        other => panic!("expected the UTF-8 error, got {other:?}"),
    }
}

#[test]
fn too_big_to_fit() {
    // a pledge amount announced as five little-endian bytes cannot be a u32
    match deser_from_vec(&[0x0A, 0xF4, 0x01, 0x02, 0x03, 0x04, 0x05]) {
        Err(EventReadError::Integer(IntegerReadError::TooBigToFit)) => {}
        other => panic!("expected the width error, got {other:?}"),
    }
}

#[test]
fn sign_error() {
    match Integer::from_i32(-5).try_to_u32() {
        Err(IntegerReadError::SignError) => {}
        other => panic!("expected the sign error, got {other:?}"),
    }
}

#[test]
fn truncated_input() {
    match deser_from_vec(&[0x01, 0x05, 0x68]) {
        Err(EventReadError::Integer(IntegerReadError::NotEnoughBytes)) => {}
        other => panic!("expected the truncation error, got {other:?}"),
    }
}

#[test]
fn empty_collections_encode_as_zero() {
    let wire = EventToClient::AllPlayers(UuidMap::new()).ser().1;
    assert_eq!(wire, vec![0x14, 0x00]);

    let wire = EventToClient::Pot(Pot { current_value: 0, ready_to_put_in: UuidMap::new() })
        .ser()
        .1;
    assert_eq!(wire, vec![0x0B, 0x00, 0x00]);

    let wire = EventToServer::GetStartInformation.ser().1;
    assert_eq!(wire, vec![0x14]);
}

#[test]
fn integer_equality_is_numeric() {
    assert_eq!(Integer::from_u32(0), Integer::from_i32(0));
    assert_eq!(Integer::from_u64(5), Integer::from_i64(5));
    assert_eq!(Integer::from_i64(-77), Integer::from_i8(-77));
    assert_ne!(Integer::from_u32(5), Integer::from_u32(6));
    assert_ne!(Integer::from_i32(-1), Integer::from_u32(255));
}

#[test]
fn signed_state_tags() {
    assert_eq!(SignedState::Unsigned.as_byte(), 0);
    assert_eq!(SignedState::SignedPositive.as_byte(), 1);
    assert_eq!(SignedState::SignedNegative.as_byte(), 2);
    assert_eq!(SignedState::try_from_byte(2).unwrap(), SignedState::SignedNegative);
    match SignedState::try_from_byte(9) {
        Err(IntegerReadError::InvalidSignedStateDiscriminant(9)) => {}
        other => panic!("expected the tag error, got {other:?}"),
    }
}

#[test]
fn integer_conversions() {
    assert_eq!(Integer::from_u64(300).try_to_u32().unwrap(), 300);
    assert_eq!(Integer::from_u128(1 << 40).try_to_u64().unwrap(), 1 << 40);
    assert_eq!(Integer::from_u128(u128::MAX).try_to_u128().unwrap(), u128::MAX);
    assert_eq!(Integer::from_usize(4096).try_to_usize().unwrap(), 4096);
    assert_eq!(Integer::from_i128(i128::MIN).try_to_i128().unwrap(), i128::MIN);
    match Integer::from_u64(1 << 40).try_to_u32() {
        Err(IntegerReadError::TooBigToFit) => {}
        other => panic!("expected the width error, got {other:?}"),
    }
}

#[test]
fn hex_rendering() {
    assert_eq!(display_bytes_as_hex_array(&[]), "[]");
    assert_eq!(display_bytes_as_hex_array(&[0x0A]), "[0xA]");
    assert_eq!(display_bytes_as_hex_array(&[0x01, 0xFF, 0x10]), "[0x1, 0xFF, 0x10]");
}

#[test]
fn specific_player_round_trip() {
    let evt = EventToClient::SpecificPlayer(
        uuid_from(9),
        Player { name: "dealer".to_string(), balance: 41 },
    );
    let wire = evt.ser().1;
    assert_eq!(wire[0], 0x15);
    let decoded = fishandchippy::events::client::deser_from_vec(&wire).unwrap();
    assert_eq!(decoded.len(), 1);
    assert_eq!(decoded[0], evt);
}

#[test]
fn pot_error_propagates() {
    // a pot whose current value is announced as five bytes cannot fit a u32
    match fishandchippy::events::client::deser_from_vec(&[
        0x0B, 0xF4, 0x01, 0x02, 0x03, 0x04, 0x05,
    ]) {
        Err(EventReadError::Pot(_)) => {}
        other => panic!("expected the pot error, got {other:?}"),
    }
}

#[test]
fn player_table_error_propagates() {
    // one table entry whose player balance is announced five bytes wide
    let mut wire = vec![0x14, 0x01];
    wire.extend_from_slice(&[0u8; 16]);
    wire.push(0x00); // an empty name
    wire.extend_from_slice(&[0xF4, 0x01, 0x02, 0x03, 0x04, 0x05]);
    match fishandchippy::events::client::deser_from_vec(&wire) {
        Err(EventReadError::ListOfPlayers(_)) => {}
        other => panic!("expected the table error, got {other:?}"),
    }
}

#[test]
fn specific_player_error_propagates() {
    // a specific player whose name bytes are not UTF-8
    let mut wire = vec![0x15];
    wire.extend_from_slice(&[1u8; 16]);
    wire.extend_from_slice(&[0x02, 0xFF, 0xFE]);
    match fishandchippy::events::client::deser_from_vec(&wire) {
        Err(EventReadError::Player(_)) => {}
        other => panic!("expected the player error, got {other:?}"),
    }
}

#[test]
fn duplicate_keys_keep_the_later_value() {
    // a pot whose two pledges carry one identifier: the later amount wins
    let key = uuid_from(8);
    let mut wire = vec![0x0B, 0x01, 0x02];
    wire.extend_from_slice(key.as_bytes());
    wire.push(0x05);
    wire.extend_from_slice(key.as_bytes());
    wire.push(0x09);
    let decoded = fishandchippy::events::client::deser_from_vec(&wire).unwrap();
    let mut expected = UuidMap::new();
    expected.insert(key.clone(), 9u32);
    assert_eq!(decoded[0], EventToClient::Pot(Pot { current_value: 1, ready_to_put_in: expected }));

    // the same for a player table: two entries under one identifier
    let mut wire = vec![0x14, 0x02];
    wire.extend_from_slice(key.as_bytes());
    wire.extend_from_slice(&[0x00, 0x01]); // an empty name, balance one
    wire.extend_from_slice(key.as_bytes());
    wire.extend_from_slice(&[0x00, 0x02]); // an empty name, balance two
    let decoded = fishandchippy::events::client::deser_from_vec(&wire).unwrap();
    let mut expected = UuidMap::new();
    expected.insert(key, Player { name: "".to_string(), balance: 2 });
    assert_eq!(decoded[0], EventToClient::AllPlayers(expected));
}

#[test]
fn narrow_conversions() {
    assert_eq!(Integer::from_u8(200).try_to_u8().unwrap(), 200);
    assert_eq!(Integer::from_u16(65_000).try_to_u16().unwrap(), 65_000);
    assert_eq!(Integer::from_i8(-5).try_to_i8().unwrap(), -5);
    assert_eq!(Integer::from_i16(-300).try_to_i16().unwrap(), -300);
    assert_eq!(Integer::from_i32(-70_000).try_to_i32().unwrap(), -70_000);
    assert_eq!(Integer::from_i64(-5_000_000_000).try_to_i64().unwrap(), -5_000_000_000);
    assert_eq!(Integer::from_isize(-12_345).try_to_isize().unwrap(), -12_345);
    // the stored bytes are reinterpreted at the narrower width, as a
    // two's-complement read of the same bytes
    assert_eq!(Integer::from_u32(200).try_to_i8().unwrap(), -56);
    assert_eq!(Integer::from_u32(65_535).try_to_i16().unwrap(), -1);
    match Integer::from_u32(65_536).try_to_u16() {
        Err(IntegerReadError::TooBigToFit) => {}
        other => panic!("expected the width error, got {other:?}"),
    }
    match Integer::from_u16(300).try_to_u8() {
        Err(IntegerReadError::TooBigToFit) => {}
        other => panic!("expected the width error, got {other:?}"),
    }
}

#[test]
fn uuid_round_trip() {
    let u = uuid_from(3);
    let wire = u.ser().1;
    assert_eq!(wire.len(), 16);
    assert_eq!(u.as_bytes(), &wire);
    let again = Uuid::from_bytes(wire);
    assert_eq!(u, again);
}

//! Round trips of the client-to-server messages through the codec.

use fishandchippy::events::server::{deser_from_vec, EventToServer};
use fishandchippy::ser_glue::uuid::Uuid;
use fishandchippy::ser_glue::Serable;

fn uuid_from(seed: u8) -> Uuid {
    let mut bytes = Vec::new();
    for i in 0..16u8 {
        bytes.push(seed.wrapping_add(i));
    }
    Uuid::from_bytes(bytes)
}

fn example_data() -> [EventToServer; 5] {
    [
        EventToServer::SendMessage { content: "sup? \u{1f923}\u{1f923}\u{1f923}".to_string() },
        EventToServer::Introduction { name: "範例名稱".to_string() },
        EventToServer::GetStartInformation,
        EventToServer::GetSpecificPlayer(uuid_from(7)),
        EventToServer::AddToPot(u32::MAX),
    ]
}

#[test]
fn server_ser_events_individually() {
    for example in example_data() {
        println!("testing: {example:#?}");
        let serialised = example.ser().1;
        let deserialised = deser_from_vec(&serialised).unwrap();
        assert_eq!(example, deserialised[0]);
    }
}

#[test]
fn server_ser_events_mass() {
    let example_data = example_data().to_vec();
    let mut output = vec![];
    example_data.iter().for_each(|e| {
        e.ser_into(&mut output);
    });
    let deserialised = deser_from_vec(&output).unwrap();
    assert_eq!(example_data, deserialised);
}

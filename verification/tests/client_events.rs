//! Round trips of the server-to-client messages through the codec.

use fishandchippy::events::client::{deser_from_vec, EventToClient};
use fishandchippy::game_types::player::Player;
use fishandchippy::game_types::pot::Pot;
use fishandchippy::ser_glue::map::UuidMap;
use fishandchippy::ser_glue::uuid::Uuid;
use fishandchippy::ser_glue::Serable;

fn uuid_from(seed: u8) -> Uuid {
    let mut bytes = Vec::new();
    for i in 0..16u8 {
        bytes.push(seed.wrapping_mul(31).wrapping_add(i));
    }
    Uuid::from_bytes(bytes)
}

fn example_data() -> [EventToClient; 6] {
    let mut ready = UuidMap::new();
    ready.insert(uuid_from(1), 123);
    ready.insert(uuid_from(2), 456);
    ready.insert(uuid_from(3), 789);

    let mut players = UuidMap::new();
    players.insert(uuid_from(4), Player { name: "Alice".to_string(), balance: 1 });
    players.insert(uuid_from(5), Player { name: "Fran√ßois".to_string(), balance: u32::MAX });
    players.insert(uuid_from(6), Player { name: "ÁØÑ‰æãÂêçÁ®±".to_string(), balance: u32::MAX - 1 });

    [
        EventToClient::TxtSent(uuid_from(10), "argghhhhhhhhh √©√†ü§ßü§ßü§ß".to_string()),
        EventToClient::AdminMsg("get den'd ;)".to_string()),
        EventToClient::Introduced(uuid_from(11)),
        EventToClient::Pot(Pot { current_value: 123_456_789, ready_to_put_in: ready }),
        EventToClient::AllPlayers(players),
        EventToClient::SpecificPlayer(uuid_from(12), Player { name: "".to_string(), balance: 0 }),
    ]
}

#[test]
fn client_ser_events_individually() {
    for example in example_data() {
        println!("testing: {example:#?}");
        let serialised = example.ser().1;
        let deserialised = deser_from_vec(&serialised).unwrap();
        assert_eq!(example, deserialised[0]);
    }
}

#[test]
fn client_ser_events_mass() {
    let example_data = example_data().to_vec();
    let mut output = vec![];
    example_data.iter().for_each(|e| {
        e.ser_into(&mut output);
    });
    let deserialised = deser_from_vec(&output).unwrap();
    assert_eq!(example_data, deserialised);
}

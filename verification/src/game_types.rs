//! The game's shared value types: players, the pot, and the table that
//! gathers them.

use vstd::prelude::*;

pub mod player;
pub mod pot;

use crate::game_types::player::Player;
use crate::game_types::pot::Pot;
use crate::ser_glue::map::UuidMap;

verus! {

/// Everything the server knows about one table: the pot and the players.
#[derive(Debug)]
pub struct Table {
    pub pot: Pot,
    pub players: UuidMap<Player>,
}

impl Table {
    /// A fresh table: an empty pot and no players.
    pub fn new() -> (r: Table)
        ensures
            r.pot@.current_value == 0,
            r.pot@.ready.len() == 0,
            r.players@.len() == 0,
    {
        Table {
            pot: Pot { current_value: 0, ready_to_put_in: UuidMap::new() },
            players: UuidMap::new(),
        }
    }
}

impl Clone for Table {
    /// A clone keeps the pot and the players.
    fn clone(&self) -> (r: Self)
        ensures
            r.pot@ == self.pot@,
            r.players@ == self.players@,
    {
        Table { pot: self.pot.clone(), players: self.players.clone() }
    }
}

impl Default for Table {
    /// The default table is the fresh one.
    fn default() -> (r: Table)
        ensures
            r.pot@.current_value == 0,
            r.pot@.ready.len() == 0,
            r.players@.len() == 0,
    {
        Table::new()
    }
}

} // verus!

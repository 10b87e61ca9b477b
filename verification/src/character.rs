//! Character records.

use vstd::prelude::*;

verus! {

/// A character sheet attached to a player.
pub struct Character {
    pub id: i32,
    pub name: String,
    pub class: String,
    pub level: i32,
    pub experience: i32,
}

} // verus!

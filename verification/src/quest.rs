//! Quest records and quest completion.

use vstd::prelude::*;

verus! {

/// A quest a player can complete.
pub struct Quest {
    pub id: i32,
    pub title: String,
    pub description: String,
    pub completed: bool,
}

impl Quest {
    /// Mark the quest completed; every other field is unchanged.
    pub fn complete(&mut self)
        ensures
            final(self).completed,
            final(self).id == old(self).id,
            final(self).title == old(self).title,
            final(self).description == old(self).description,
    {
        self.completed = true;
    }
}

} // verus!

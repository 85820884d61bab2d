//! What happens when a mover steps onto a cell: the rules of who eats whom,
//! and the scoreboard that counts it.

use vstd::prelude::*;
use crate::cell::{Kind, Occupancy};

verus! {

/// Whether a mover of kind `mover` eats an occupant of kind `victim`.
/// Everyone but a berry eats berries; the mongoose and snakes eat rats.
/// Nothing defeats a snake or the mongoose under the present rules: the
/// mongoose cannot defeat a snake, nor a snake the mongoose.
pub open spec fn edible(mover: Kind, victim: Kind) -> bool {
    match (mover, victim) {
        (Kind::Mongoose, Kind::Berry) => true,
        (Kind::Mongoose, Kind::Rat) => true,
        (Kind::Rat, Kind::Berry) => true,
        (Kind::Snake, Kind::Berry) => true,
        (Kind::Snake, Kind::Rat) => true,
        _ => false,
    }
}

/// What a step onto a cell comes to.
#[derive(Clone, Copy, Debug, PartialEq, Eq, Structural)]
pub enum Interaction {
    /// The cell is free: the mover takes it.
    Proceed,
    /// The occupant is eaten: it leaves the cell, the mover scores and takes
    /// the cell.
    Consume(Occupancy),
    /// The occupant stays: the move is given up.
    Block(Occupancy),
}

/// The rule for a mover of kind `mover` and a destination that holds
/// `occupant`.
pub open spec fn interaction_of(mover: Kind, occupant: Option<Occupancy>) -> Interaction {
    match occupant {
        None => Interaction::Proceed,
        Some(o) => if edible(mover, o.spec_kind()) {
            Interaction::Consume(o)
        } else {
            Interaction::Block(o)
        },
    }
}

/// Whether a mover of kind `mover` eats an occupant of kind `victim`.
pub fn can_eat(mover: Kind, victim: Kind) -> (eats: bool)
    ensures
        eats == edible(mover, victim),
{
    match mover {
        Kind::Berry => false,
        Kind::Mongoose => match victim {
            Kind::Berry => true,
            Kind::Rat => true,
            Kind::Snake => false,
            Kind::Mongoose => false,
        },
        Kind::Rat => match victim {
            Kind::Berry => true,
            _ => false,
        },
        Kind::Snake => match victim {
            Kind::Berry => true,
            Kind::Rat => true,
            Kind::Mongoose => false,
            Kind::Snake => false,
        },
    }
}

/// What comes of a mover of kind `mover` stepping onto a cell that holds
/// `occupant`.
pub fn resolve(mover: Kind, occupant: Option<Occupancy>) -> (outcome: Interaction)
    ensures
        outcome == interaction_of(mover, occupant),
{
    match occupant {
        None => Interaction::Proceed,
        Some(o) => {
            if can_eat(mover, o.kind()) {
                Interaction::Consume(o)
            } else {
                Interaction::Block(o)
            }
        },
    }
}

/// The counts of what was eaten by whom.
#[derive(Clone, Copy, Debug, PartialEq, Eq, Structural)]
pub struct Scoreboard {
    pub berries_eaten_by_mongoose: usize,
    pub berries_eaten_by_rats: usize,
    pub berries_eaten_by_snakes: usize,
    pub rats_eaten_by_mongoose: usize,
    pub rats_eaten_by_snakes: usize,
    pub rats_escaped: usize,
    pub snakes_killed: usize,
}

impl Default for Scoreboard {
    /// A scoreboard with every count at zero.
    fn default() -> (board: Scoreboard)
        ensures
            board == (Scoreboard {
                berries_eaten_by_mongoose: 0,
                berries_eaten_by_rats: 0,
                berries_eaten_by_snakes: 0,
                rats_eaten_by_mongoose: 0,
                rats_eaten_by_snakes: 0,
                rats_escaped: 0,
                snakes_killed: 0,
            }),
    {
        Scoreboard::new()
    }
}

impl Scoreboard {
    /// The scoreboard after a mover of kind `mover` has eaten an occupant of
    /// kind `victim`: the count for that pair is one higher. A pair that the
    /// rules do not allow changes nothing.
    pub open spec fn recorded(self, mover: Kind, victim: Kind) -> Scoreboard {
        match (mover, victim) {
            (Kind::Mongoose, Kind::Berry) => Scoreboard {
                berries_eaten_by_mongoose: (self.berries_eaten_by_mongoose + 1) as usize,
                ..self
            },
            (Kind::Mongoose, Kind::Rat) => Scoreboard {
                rats_eaten_by_mongoose: (self.rats_eaten_by_mongoose + 1) as usize,
                ..self
            },
            (Kind::Rat, Kind::Berry) => Scoreboard {
                berries_eaten_by_rats: (self.berries_eaten_by_rats + 1) as usize,
                ..self
            },
            (Kind::Snake, Kind::Berry) => Scoreboard {
                berries_eaten_by_snakes: (self.berries_eaten_by_snakes + 1) as usize,
                ..self
            },
            (Kind::Snake, Kind::Rat) => Scoreboard {
                rats_eaten_by_snakes: (self.rats_eaten_by_snakes + 1) as usize,
                ..self
            },
            _ => self,
        }
    }

    /// Every count can still go up by one.
    pub open spec fn spec_has_room(&self) -> bool {
        &&& self.berries_eaten_by_mongoose < usize::MAX
        &&& self.berries_eaten_by_rats < usize::MAX
        &&& self.berries_eaten_by_snakes < usize::MAX
        &&& self.rats_eaten_by_mongoose < usize::MAX
        &&& self.rats_eaten_by_snakes < usize::MAX
    }

    /// The score shown to the player: what the mongoose ate and killed.
    pub open spec fn spec_score(self) -> int {
        self.berries_eaten_by_mongoose + self.rats_eaten_by_mongoose + self.snakes_killed
    }

    /// A scoreboard with every count at zero.
    pub fn new() -> (board: Scoreboard)
        ensures
            board == (Scoreboard {
                berries_eaten_by_mongoose: 0,
                berries_eaten_by_rats: 0,
                berries_eaten_by_snakes: 0,
                rats_eaten_by_mongoose: 0,
                rats_eaten_by_snakes: 0,
                rats_escaped: 0,
                snakes_killed: 0,
            }),
    {
        Scoreboard {
            berries_eaten_by_mongoose: 0,
            berries_eaten_by_rats: 0,
            berries_eaten_by_snakes: 0,
            rats_eaten_by_mongoose: 0,
            rats_eaten_by_snakes: 0,
            rats_escaped: 0,
            snakes_killed: 0,
        }
    }

    /// Whether every count can still go up by one.
    #[verifier::when_used_as_spec(spec_has_room)]
    pub fn has_room(&self) -> (ok: bool)
        ensures
            ok == self.spec_has_room(),
    {
        self.berries_eaten_by_mongoose < usize::MAX && self.berries_eaten_by_rats < usize::MAX
            && self.berries_eaten_by_snakes < usize::MAX && self.rats_eaten_by_mongoose
            < usize::MAX && self.rats_eaten_by_snakes < usize::MAX
    }

    /// Counts one occupant of kind `victim` eaten by a mover of kind `mover`.
    pub fn record(&mut self, mover: Kind, victim: Kind)
        requires
            old(self).has_room(),
        ensures
            *final(self) == old(self).recorded(mover, victim),
    {
        match mover {
            Kind::Mongoose => match victim {
                Kind::Berry => {
                    self.berries_eaten_by_mongoose = self.berries_eaten_by_mongoose + 1;
                },
                Kind::Rat => {
                    self.rats_eaten_by_mongoose = self.rats_eaten_by_mongoose + 1;
                },
                _ => {},
            },
            Kind::Rat => match victim {
                Kind::Berry => {
                    self.berries_eaten_by_rats = self.berries_eaten_by_rats + 1;
                },
                _ => {},
            },
            Kind::Snake => match victim {
                Kind::Berry => {
                    self.berries_eaten_by_snakes = self.berries_eaten_by_snakes + 1;
                },
                Kind::Rat => {
                    self.rats_eaten_by_snakes = self.rats_eaten_by_snakes + 1;
                },
                _ => {},
            },
            Kind::Berry => {},
        }
    }

    /// The score shown to the player, where it fits the counter's type.
    pub fn score(&self) -> (total: Option<usize>)
        ensures
            total == (if self.spec_score() <= usize::MAX {
                Some(self.spec_score() as usize)
            } else {
                None
            }),
    {
        match self.berries_eaten_by_mongoose.checked_add(self.rats_eaten_by_mongoose) {
            None => None,
            Some(part) => part.checked_add(self.snakes_killed),
        }
    }
}

} // verus!

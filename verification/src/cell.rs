//! Cells of the arena and the tags that say who holds one.

use vstd::prelude::*;

verus! {

/// One grid coordinate. Coordinates outside the arena are legal values: they
/// name the void around it, which is never occupied and has no edges.
#[derive(Clone, Copy, Debug, PartialEq, Eq, Structural, Hash)]
pub struct Position {
    pub x: i32,
    pub y: i32,
}

/// What kind of entity holds a cell.
#[derive(Clone, Copy, Debug, PartialEq, Eq, Structural, Hash)]
pub enum Kind {
    Berry,
    Mongoose,
    Rat,
    Snake,
}

/// The occupant tag of a cell: the kind of the holder and the identifier of
/// the entity that owns the cell.
#[derive(Clone, Copy, Debug, PartialEq, Eq, Structural, Hash)]
pub enum Occupancy {
    Berry(u64),
    Mongoose(u64),
    Rat(u64),
    Snake(u64),
}

/// Two cells are grid-adjacent when they differ by one step along one axis.
pub open spec fn adjacent(a: Position, b: Position) -> bool {
    ||| (a.y == b.y && (a.x - b.x == 1 || b.x - a.x == 1))
    ||| (a.x == b.x && (a.y - b.y == 1 || b.y - a.y == 1))
}

impl Position {
    pub fn new(x: i32, y: i32) -> (p: Position)
        ensures
            p == (Position { x, y }),
    {
        Position { x, y }
    }

    /// Whether `other` is one step away along one axis.
    pub fn is_adjacent(&self, other: &Position) -> (b: bool)
        ensures
            b == adjacent(*self, *other),
    {
        let dx: i64 = self.x as i64 - other.x as i64;
        let dy: i64 = self.y as i64 - other.y as i64;
        (dy == 0 && (dx == 1 || dx == -1)) || (dx == 0 && (dy == 1 || dy == -1))
    }
}

impl Default for Position {
    fn default() -> (p: Position)
        ensures
            p == (Position { x: 0, y: 0 }),
    {
        Position { x: 0, y: 0 }
    }
}

impl Occupancy {
    pub open spec fn spec_kind(self) -> Kind {
        match self {
            Occupancy::Berry(_) => Kind::Berry,
            Occupancy::Mongoose(_) => Kind::Mongoose,
            Occupancy::Rat(_) => Kind::Rat,
            Occupancy::Snake(_) => Kind::Snake,
        }
    }

    pub open spec fn spec_entity(self) -> u64 {
        match self {
            Occupancy::Berry(e) => e,
            Occupancy::Mongoose(e) => e,
            Occupancy::Rat(e) => e,
            Occupancy::Snake(e) => e,
        }
    }

    /// The tag for an entity of the given kind.
    pub open spec fn spec_of(kind: Kind, entity: u64) -> Occupancy {
        match kind {
            Kind::Berry => Occupancy::Berry(entity),
            Kind::Mongoose => Occupancy::Mongoose(entity),
            Kind::Rat => Occupancy::Rat(entity),
            Kind::Snake => Occupancy::Snake(entity),
        }
    }

    #[verifier::when_used_as_spec(spec_kind)]
    pub fn kind(self) -> (k: Kind)
        ensures
            k == self.spec_kind(),
    {
        match self {
            Occupancy::Berry(_) => Kind::Berry,
            Occupancy::Mongoose(_) => Kind::Mongoose,
            Occupancy::Rat(_) => Kind::Rat,
            Occupancy::Snake(_) => Kind::Snake,
        }
    }

    #[verifier::when_used_as_spec(spec_entity)]
    pub fn entity(self) -> (e: u64)
        ensures
            e == self.spec_entity(),
    {
        match self {
            Occupancy::Berry(e) => e,
            Occupancy::Mongoose(e) => e,
            Occupancy::Rat(e) => e,
            Occupancy::Snake(e) => e,
        }
    }

    #[verifier::when_used_as_spec(spec_of)]
    pub fn of(kind: Kind, entity: u64) -> (o: Occupancy)
        ensures
            o == Occupancy::spec_of(kind, entity),
            o.spec_kind() == kind,
            o.spec_entity() == entity,
    {
        match kind {
            Kind::Berry => Occupancy::Berry(entity),
            Kind::Mongoose => Occupancy::Mongoose(entity),
            Kind::Rat => Occupancy::Rat(entity),
            Kind::Snake => Occupancy::Snake(entity),
        }
    }
}

} // verus!

//! Core game types: teams, shapes, unit identifiers.
use vstd::prelude::*;

verus! {

/// The two sides of a battle.
#[derive(Debug, Clone, Copy, PartialEq, Eq, Hash, Structural)]
pub enum Team {
    Player,
    Enemy,
}

/// The side facing `t`.
pub open spec fn opponent_of(t: Team) -> Team {
    match t {
        Team::Player => Team::Enemy,
        Team::Enemy => Team::Player,
    }
}

impl Team {
    /// The other side.
    pub fn opponent(self) -> (t: Team)
        ensures
            t == opponent_of(self),
    {
        match self {
            Team::Player => Team::Enemy,
            Team::Enemy => Team::Player,
        }
    }
}

/// Taking the opponent twice gives the team back, and no team is its own
/// opponent.
pub proof fn lemma_opponent_involution(t: Team)
    ensures
        opponent_of(opponent_of(t)) == t,
        opponent_of(t) != t,
{
}

/// Outline drawn for a unit.
#[derive(Debug, Clone, Copy, PartialEq, Eq, Structural)]
pub enum Shape {
    Rect,
    Circle,
    Triangle,
}

/// Identifier of a unit, unique within a battle.
#[derive(Debug, Clone, Copy, PartialEq, Eq, Hash, PartialOrd, Ord, Structural)]
pub struct UnitId(pub u32);

/// Hands out unit identifiers in increasing order.
#[derive(Debug)]
pub struct UnitIdGen {
    next: u32,
}

impl UnitIdGen {
    /// The identifier the next call hands out.
    pub closed spec fn upcoming(&self) -> nat {
        self.next as nat
    }

    /// A generator starting at 0.
    pub fn new() -> (g: Self)
        ensures
            g.upcoming() == 0,
    {
        Self { next: 0 }
    }

    /// Another identifier can be handed out (the counter is not at its end).
    pub fn has_next(&self) -> (r: bool)
        ensures
            r == (self.upcoming() < u32::MAX),
    {
        self.next < u32::MAX
    }

    /// The next identifier; each call gives the one after the previous.
    pub fn next_id(&mut self) -> (id: UnitId)
        requires
            old(self).upcoming() < u32::MAX,
        ensures
            id.0 == old(self).upcoming(),
            final(self).upcoming() == old(self).upcoming() + 1,
    {
        let id = UnitId(self.next);
        self.next = self.next + 1;
        id
    }
}

/// Kind of projectile in flight.
#[derive(Debug, Clone, Copy, PartialEq, Eq, Structural)]
pub enum ProjectileKind {
    Basic,
    Archer,
    Explosive,
}

} // verus!

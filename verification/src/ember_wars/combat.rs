//! What a unit can aim at.
use vstd::prelude::*;

use super::components::{Team, UnitId};

verus! {

/// A unit's target: another unit, or a team's tower.
#[derive(Debug, Clone, Copy, PartialEq, Eq, Structural)]
pub enum Target {
    Unit(UnitId),
    Tower(Team),
}

} // verus!

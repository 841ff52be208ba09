//! Spawn limits: how many units of a kind a team has alive.
use vstd::prelude::*;

use super::components::Team;

verus! {

/// What the spawn rules read of a unit: its kind, its team, whether it lives.
#[derive(Debug, Clone)]
pub struct UnitSlot {
    pub kind: String,
    pub team: Team,
    pub alive: bool,
}

/// The unit counts: of `kind`, on `team`, alive.
pub open spec fn counts(u: UnitSlot, kind: Seq<char>, team: Team) -> bool {
    u.kind@ == kind && u.team == team && u.alive
}

/// Number of the first `n` units of `units` that count.
pub open spec fn alive_upto(units: Seq<UnitSlot>, kind: Seq<char>, team: Team, n: int) -> nat
    decreases n,
{
    if n <= 0 {
        0
    } else {
        alive_upto(units, kind, team, n - 1) + if counts(units[n - 1], kind, team) {
            1nat
        } else {
            0nat
        }
    }
}

/// Number of living units of `kind` on `team`, as a `u32` (wrapping past its range).
pub fn alive_count(kind: &String, team: Team, units: &[UnitSlot]) -> (n: u32)
    ensures
        n == (alive_upto(units@, kind@, team, units@.len() as int) % 0x1_0000_0000) as u32,
{
    let mut c: usize = 0;
    let mut i: usize = 0;
    while i < units.len()
        invariant
            i <= units@.len(),
            c == alive_upto(units@, kind@, team, i as int),
            c <= i,
        decreases units@.len() - i,
    {
        if units[i].kind == *kind && units[i].team == team && units[i].alive {
            c = c + 1;
        }
        i = i + 1;
    }
    let c64 = c as u64;
    let n = #[verifier::truncate] (c as u32);
    assert(n == (c64 % 0x1_0000_0000) as u32) by (bit_vector)
        requires
            n == #[verifier::truncate] (c as u32),
            c64 == c as u64,
    ;
    n
}

/// A unit of `kind` may be spawned for `team`: always without a limit,
/// otherwise while fewer than `max_alive` of them live.
pub fn can_spawn(max_alive: Option<u32>, kind: &String, team: Team, units: &[UnitSlot]) -> (r: bool)
    ensures
        r == match max_alive {
            Some(max) => ((alive_upto(units@, kind@, team, units@.len() as int) % 0x1_0000_0000) as u32)
                < max,
            None => true,
        },
{
    match max_alive {
        Some(max) => alive_count(kind, team, units) < max,
        None => true,
    }
}

} // verus!

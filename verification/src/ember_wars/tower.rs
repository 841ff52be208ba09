//! The turret's kinds of shot.
use vstd::prelude::*;

use super::components::ProjectileKind;

verus! {

/// Kind of shot the turret fires.
#[derive(Debug, Clone, Copy, PartialEq, Eq, Structural)]
pub enum ShotKind {
    Basic,
    Piercing,
    Explosive,
}

/// The kind after `k` in the cycle Basic, Piercing, Explosive.
pub open spec fn next_kind(k: ShotKind) -> ShotKind {
    match k {
        ShotKind::Basic => ShotKind::Piercing,
        ShotKind::Piercing => ShotKind::Explosive,
        ShotKind::Explosive => ShotKind::Basic,
    }
}

impl ShotKind {
    /// Display name of the kind.
    pub fn label(self) -> (s: &'static str)
        ensures
            s@ == (match self {
                ShotKind::Basic => "Basic"@,
                ShotKind::Piercing => "Piercing"@,
                ShotKind::Explosive => "Explosive"@,
            }),
    {
        match self {
            ShotKind::Basic => "Basic",
            ShotKind::Piercing => "Piercing",
            ShotKind::Explosive => "Explosive",
        }
    }

    /// The next kind in the cycle Basic, Piercing, Explosive, Basic.
    pub fn cycled(self) -> (k: ShotKind)
        ensures
            k == next_kind(self),
    {
        match self {
            ShotKind::Basic => ShotKind::Piercing,
            ShotKind::Piercing => ShotKind::Explosive,
            ShotKind::Explosive => ShotKind::Basic,
        }
    }

    /// The projectile a shot of this kind fires: explosive for explosive
    /// shots, basic otherwise.
    pub fn projectile_kind(self) -> (p: ProjectileKind)
        ensures
            p == (if self == ShotKind::Explosive {
                ProjectileKind::Explosive
            } else {
                ProjectileKind::Basic
            }),
    {
        match self {
            ShotKind::Explosive => ProjectileKind::Explosive,
            _ => ProjectileKind::Basic,
        }
    }

    /// How many units a shot of this kind passes through: three for a
    /// piercing shot, none otherwise.
    pub fn pierce(self) -> (n: u8)
        ensures
            n == (if self == ShotKind::Piercing {
                3u8
            } else {
                0u8
            }),
    {
        match self {
            ShotKind::Piercing => 3,
            _ => 0,
        }
    }
}

/// Cycling three times comes back to the same kind.
pub proof fn lemma_cycle_three(k: ShotKind)
    ensures
        next_kind(next_kind(next_kind(k))) == k,
{
}

} // verus!

//! The enemy's spawn order: which kinds it tries, and in what order.
use vstd::prelude::*;

verus! {

/// The kinds the enemy falls back on when outnumbered, best first.
pub open spec fn defensive_kinds() -> Seq<Seq<char>> {
    seq!["archer"@, "grunt"@, "brute"@]
}

/// The enemy plays safe when the player has more than two units alive
/// beyond its own.
pub open spec fn outnumbered(ai_alive: int, player_alive: int) -> bool {
    ai_alive + 2 < player_alive
}

/// The ids of a list of kinds.
pub open spec fn kind_ids(kinds: Seq<String>) -> Seq<Seq<char>> {
    kinds.map_values(|k: String| k@)
}

/// The kinds the enemy falls back on when outnumbered, best first.
pub fn defensive_order() -> (v: Vec<String>)
    ensures
        kind_ids(v@) == defensive_kinds(),
{
    let v = vec![String::from_str("archer"), String::from_str("grunt"), String::from_str("brute")];
    assert(kind_ids(v@) =~= defensive_kinds());
    v
}

/// The kinds of `preferred` that `listed` names too, in the order of
/// `preferred`.
pub fn keep_listed(preferred: &Vec<String>, listed: &Vec<String>) -> (v: Vec<String>)
    ensures
        kind_ids(v@) == kind_ids(preferred@).filter(|k: Seq<char>| kind_ids(listed@).contains(k)),
{
    let ghost pre = kind_ids(preferred@);
    let ghost keep = |k: Seq<char>| kind_ids(listed@).contains(k);
    let mut v: Vec<String> = Vec::new();
    let mut i: usize = 0;
    while i < preferred.len()
        invariant
            i <= preferred@.len(),
            pre == kind_ids(preferred@),
            keep == (|k: Seq<char>| kind_ids(listed@).contains(k)),
            kind_ids(v@) == pre.take(i as int).filter(keep),
        decreases preferred@.len() - i,
    {
        let ghost before = v@;
        proof {
            assert(pre.take(i + 1).drop_last() =~= pre.take(i as int));
            reveal(Seq::filter);
        }
        let mut found = false;
        let mut j: usize = 0;
        while j < listed.len()
            invariant
                j <= listed@.len(),
                i < preferred@.len(),
                found == exists|k: int| 0 <= k < j && listed@[k]@ == preferred@[i as int]@,
            decreases listed@.len() - j,
        {
            if listed[j] == preferred[i] {
                found = true;
            }
            j = j + 1;
        }
        proof {
            let ids = kind_ids(listed@);
            if found {
                let k = choose|k: int| 0 <= k < listed@.len() && listed@[k]@ == preferred@[i as int]@;
                assert(ids[k] == preferred@[i as int]@);
            }
            if ids.contains(preferred@[i as int]@) {
                let k = choose|k: int| 0 <= k < ids.len() && ids[k] == preferred@[i as int]@;
                assert(listed@[k]@ == preferred@[i as int]@);
            }
        }
        if found {
            v.push(preferred[i].clone());
            proof {
                assert(kind_ids(v@) =~= kind_ids(before).push(preferred@[i as int]@));
            }
        }
        i = i + 1;
    }
    proof {
        assert(pre.take(pre.len() as int) =~= pre);
    }
    v
}

/// The kinds the enemy tries, in order, during a wave that lists
/// `priority`, with `ai_alive` of its units and `player_alive` of the
/// player's alive: the wave's list, or, when outnumbered, the fallback
/// kinds the wave lists.
pub open spec fn spawn_kinds(priority: Seq<Seq<char>>, ai_alive: int, player_alive: int) -> Seq<Seq<char>> {
    if outnumbered(ai_alive, player_alive) {
        defensive_kinds().filter(|k: Seq<char>| priority.contains(k))
    } else {
        priority
    }
}

/// The enemy only ever tries kinds its current wave lists.
pub proof fn lemma_spawn_kinds_listed(priority: Seq<Seq<char>>, ai_alive: int, player_alive: int)
    ensures
        forall|i: int|
            0 <= i < spawn_kinds(priority, ai_alive, player_alive).len() ==> priority.contains(
                #[trigger] spawn_kinds(priority, ai_alive, player_alive)[i],
            ),
{
    let pred = |k: Seq<char>| priority.contains(k);
    assert forall|i: int| 0 <= i < spawn_kinds(priority, ai_alive, player_alive).len() implies priority.contains(
        #[trigger] spawn_kinds(priority, ai_alive, player_alive)[i],
    ) by {
        if outnumbered(ai_alive, player_alive) {
            defensive_kinds().lemma_filter_pred(pred, i);
        } else {
            assert(priority[i] == spawn_kinds(priority, ai_alive, player_alive)[i]);
        }
    }
}

/// Unless the player has more than two units alive beyond the enemy's,
/// the enemy tries the wave's whole priority list, in its order.
pub proof fn lemma_spawn_kinds_full_wave(priority: Seq<Seq<char>>, ai_alive: int, player_alive: int)
    requires
        player_alive <= ai_alive + 2,
    ensures
        spawn_kinds(priority, ai_alive, player_alive).len() == priority.len(),
        forall|i: int|
            0 <= i < priority.len() ==> #[trigger] spawn_kinds(priority, ai_alive, player_alive)[i] == priority[i],
{
}

/// The kinds the enemy tries, in order, during a wave that lists
/// `priority`.
pub fn spawn_order(priority: &Vec<String>, ai_alive: usize, player_alive: usize) -> (v: Vec<String>)
    ensures
        kind_ids(v@) == spawn_kinds(kind_ids(priority@), ai_alive as int, player_alive as int),
{
    if ai_alive < player_alive && player_alive - ai_alive > 2 {
        let order = defensive_order();
        keep_listed(&order, priority)
    } else {
        let mut v: Vec<String> = Vec::new();
        let mut i: usize = 0;
        while i < priority.len()
            invariant
                i <= priority@.len(),
                kind_ids(v@) == kind_ids(priority@).take(i as int),
            decreases priority@.len() - i,
        {
            let ghost before = v@;
            v.push(priority[i].clone());
            proof {
                assert(kind_ids(v@) =~= kind_ids(before).push(priority@[i as int]@));
                assert(kind_ids(priority@).take(i + 1) =~= kind_ids(priority@).take(i as int).push(
                    priority@[i as int]@,
                ));
            }
            i = i + 1;
        }
        proof {
            assert(kind_ids(priority@).take(priority@.len() as int) =~= kind_ids(priority@));
        }
        v
    }
}

} // verus!

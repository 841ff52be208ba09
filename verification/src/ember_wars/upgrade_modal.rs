//! The upgrade tree screen's rules: moving the focus between nodes with
//! the keyboard, and the text a node's box shows.
use vstd::prelude::*;

use crate::ember_wars::upgrades::{IdSet, UpgradeNode, UpgradeTreeDefs};

verus! {

/// The offset `(ddx, ddy)` goes the way `(dx, dy)` asks, along one of
/// its nonzero components.
pub open spec fn in_direction(ddx: int, ddy: int, dx: int, dy: int) -> bool {
    (dx > 0 && ddx > 0) || (dx < 0 && ddx < 0) || (dy > 0 && ddy > 0) || (dy < 0 && ddy < 0)
}

/// Absolute value.
pub open spec fn abs(x: int) -> int {
    if x < 0 {
        -x
    } else {
        x
    }
}

/// How far node `to` lies from node `from` for a move whose horizontal
/// step is `dx`: the grid distance, plus twice the drift across the move.
pub open spec fn neighbor_score(from: UpgradeNode, to: UpgradeNode, dx: int) -> int {
    let ddx = to.col - from.col;
    let ddy = to.row - from.row;
    abs(ddx) + abs(ddy) + 2 * (if dx != 0 {
        abs(ddy)
    } else {
        abs(ddx)
    })
}

/// Node `i` is another node than `from`, lying the way `(dx, dy)` asks.
pub open spec fn is_candidate(ns: Seq<UpgradeNode>, from: int, i: int, dx: int, dy: int) -> bool {
    0 <= i < ns.len() && i != from && in_direction(ns[i].col - ns[from].col, ns[i].row - ns[from].row, dx, dy)
}

/// Node `i` is where a move along `(dx, dy)` from node `from` lands: a
/// candidate with the lowest score, the first of them on a tie.
pub open spec fn is_neighbor(ns: Seq<UpgradeNode>, from: int, i: int, dx: int, dy: int) -> bool {
    &&& is_candidate(ns, from, i, dx, dy)
    &&& forall|j: int|
        #[trigger] is_candidate(ns, from, j, dx, dy) ==> neighbor_score(ns[from], ns[i], dx) <= neighbor_score(
            ns[from],
            ns[j],
            dx,
        )
    &&& forall|j: int|
        0 <= j < i && #[trigger] is_candidate(ns, from, j, dx, dy) ==> neighbor_score(ns[from], ns[i], dx)
            < neighbor_score(ns[from], ns[j], dx)
}

/// The node the focus moves to from node `from_idx` on a move along
/// `(dx, dy)`; `None` when `from_idx` is no node or no node lies that way.
pub fn find_neighbor(defs: &UpgradeTreeDefs, from_idx: usize, dx: i32, dy: i32) -> (r: Option<usize>)
    ensures
        match r {
            Some(i) => from_idx < defs.nodes@.len() && is_neighbor(
                defs.nodes@,
                from_idx as int,
                i as int,
                dx as int,
                dy as int,
            ),
            None => from_idx >= defs.nodes@.len() || forall|i: int|
                !#[trigger] is_candidate(defs.nodes@, from_idx as int, i, dx as int, dy as int),
        },
{
    if from_idx >= defs.nodes.len() {
        return None;
    }
    let ghost ns = defs.nodes@;
    let ghost f = from_idx as int;
    let fc = defs.nodes[from_idx].col as i64;
    let fr = defs.nodes[from_idx].row as i64;
    let mut best: Option<(i64, usize)> = None;
    let mut i: usize = 0;
    while i < defs.nodes.len()
        invariant
            ns == defs.nodes@,
            f == from_idx,
            from_idx < ns.len(),
            fc == ns[f].col,
            fr == ns[f].row,
            i <= ns.len(),
            match best {
                Some((s, b)) => {
                    &&& b < i
                    &&& is_candidate(ns, f, b as int, dx as int, dy as int)
                    &&& s == neighbor_score(ns[f], ns[b as int], dx as int)
                    &&& forall|j: int|
                        0 <= j < i && #[trigger] is_candidate(ns, f, j, dx as int, dy as int) ==> s
                            <= neighbor_score(ns[f], ns[j], dx as int)
                    &&& forall|j: int|
                        0 <= j < b && #[trigger] is_candidate(ns, f, j, dx as int, dy as int) ==> s
                            < neighbor_score(ns[f], ns[j], dx as int)
                },
                None => forall|j: int| 0 <= j < i ==> !#[trigger] is_candidate(ns, f, j, dx as int, dy as int),
            },
        decreases ns.len() - i,
    {
        if i != from_idx {
            let ddx = defs.nodes[i].col as i64 - fc;
            let ddy = defs.nodes[i].row as i64 - fr;
            let in_dir = (dx > 0 && ddx > 0) || (dx < 0 && ddx < 0) || (dy > 0 && ddy > 0) || (dy < 0 && ddy
                < 0);
            if in_dir {
                let adx = if ddx < 0 {
                    -ddx
                } else {
                    ddx
                };
                let ady = if ddy < 0 {
                    -ddy
                } else {
                    ddy
                };
                let secondary = if dx != 0 {
                    ady
                } else {
                    adx
                };
                let score = adx + ady + 2 * secondary;
                assert(score == neighbor_score(ns[f], ns[i as int], dx as int));
                match best {
                    Some((s, _)) => {
                        if score < s {
                            best = Some((score, i));
                        }
                    },
                    None => {
                        best = Some((score, i));
                    },
                }
            }
        }
        i = i + 1;
    }
    match best {
        Some((_, b)) => Some(b),
        None => None,
    }
}

/// `s` cut to fit `max` characters: unchanged when it fits, otherwise its
/// first `max - 1` characters and an ellipsis (the ellipsis alone when
/// `max` is 0).
pub open spec fn truncated(s: Seq<char>, max: int) -> Seq<char> {
    if s.len() <= max {
        s
    } else {
        s.take(if max <= 0 {
            0
        } else {
            max - 1
        }) + seq!['\u{2026}']
    }
}

/// A cut text fits: it has at most `max` characters (for `max` of at
/// least one) and starts like the text, up to the ellipsis.
pub proof fn lemma_truncated_fits(s: Seq<char>, max: int)
    requires
        max >= 1,
    ensures
        truncated(s, max).len() <= max,
        s.len() > max ==> truncated(s, max).len() == max && truncated(s, max).take(max - 1) == s.take(max - 1),
{
    if s.len() > max {
        assert(truncated(s, max).take(max - 1) =~= s.take(max - 1));
    }
}

/// `s` cut to fit `max` characters, with an ellipsis when it is cut.
pub fn truncate(s: &str, max: usize) -> (r: String)
    ensures
        r@ == truncated(s@, max as int),
{
    let n = s.unicode_len();
    if n <= max {
        String::from_str(s)
    } else {
        let keep: usize = if max == 0 {
            0
        } else {
            max - 1
        };
        let head = s.substring_char(0, keep);
        let mut r = String::from_str(head);
        r.append("\u{2026}");
        proof {
            reveal_strlit("\u{2026}");
            assert(s@.subrange(0, keep as int) =~= s@.take(keep as int));
        }
        r
    }
}

/// The ids of what `node` requires that are not bought yet, in the order
/// the node lists them.
pub fn missing_requires(node: &UpgradeNode, bought: &IdSet) -> (r: Vec<String>)
    ensures
        r@.map_values(|x: String| x@) == node.requires@.map_values(|x: String| x@).filter(
            |x: Seq<char>| !bought@.contains(x),
        ),
{
    let ghost reqs = node.requires@.map_values(|x: String| x@);
    let ghost keep = |x: Seq<char>| !bought@.contains(x);
    let mut r: Vec<String> = Vec::new();
    let mut k: usize = 0;
    while k < node.requires.len()
        invariant
            k <= node.requires@.len(),
            reqs == node.requires@.map_values(|x: String| x@),
            keep == (|x: Seq<char>| !bought@.contains(x)),
            r@.map_values(|x: String| x@) == reqs.take(k as int).filter(keep),
        decreases node.requires@.len() - k,
    {
        let ghost before = r@;
        proof {
            assert(reqs.take(k + 1).drop_last() =~= reqs.take(k as int));
            reveal(Seq::filter);
        }
        if !bought.contains(&node.requires[k]) {
            r.push(node.requires[k].clone());
            proof {
                assert(r@.map_values(|x: String| x@) =~= before.map_values(|x: String| x@).push(
                    node.requires@[k as int]@,
                ));
            }
        }
        k = k + 1;
    }
    proof {
        assert(reqs.take(reqs.len() as int) =~= reqs);
    }
    r
}

} // verus!

//! Upgrade tree definitions: which nodes exist and which they require,
//! and the validation that the tree is sound.
use vstd::prelude::*;
use vstd::set_lib::{lemma_int_range, lemma_len_subset, lemma_map_size, lemma_map_size_bound, lemma_subset_equality, set_int_range};

verus! {

/// What an upgrade grants, as far as the tree's rules read it. Effects
/// that scale or add to a quantity are `Scaling` here; the quantities
/// themselves are the host's.
#[derive(Debug, Clone)]
pub enum NodeEffect {
    NoEffect,
    Fortress,
    UnlockUnit(String),
    MultiShot(u32),
    Scaling,
}

/// An upgrade node as the tree's rules read it: its id, the ids of the
/// nodes it requires, what it grants, and its place on the tree's grid
/// (`col` across, `row` down).
#[derive(Debug, Clone)]
pub struct UpgradeNode {
    pub id: String,
    pub requires: Vec<String>,
    pub effect: NodeEffect,
    pub col: i32,
    pub row: i32,
}

/// The nodes of the upgrade tree.
#[derive(Debug, Clone)]
pub struct UpgradeTreeDefs {
    pub nodes: Vec<UpgradeNode>,
}

/// Why a tree is rejected.
#[derive(Debug, Clone)]
pub enum TreeError {
    /// Two nodes share this id.
    DuplicateId(String),
    /// A node requires an id no node has.
    UnknownRequire { node: String, require: String },
    /// The tree does not have exactly one node without requirements.
    RootCount(usize),
    /// Requirements loop: only `visited` of the `total` nodes can ever be unlocked.
    Cycle { visited: usize, total: usize },
}

// ============================================================================
// Model
// ============================================================================

/// Id of node `p`.
pub open spec fn id_at(ns: Seq<UpgradeNode>, p: int) -> Seq<char> {
    ns[p].id@
}

/// The `r`-th requirement of node `m`.
pub open spec fn req_at(ns: Seq<UpgradeNode>, m: int, r: int) -> Seq<char> {
    ns[m].requires@[r]@
}

/// Number of requirements of node `m`.
pub open spec fn req_len(ns: Seq<UpgradeNode>, m: int) -> int {
    ns[m].requires@.len() as int
}

/// Node `m` requires the id `s`.
pub open spec fn requires_id(ns: Seq<UpgradeNode>, m: int, s: Seq<char>) -> bool {
    exists|r: int| 0 <= r < req_len(ns, m) && #[trigger] req_at(ns, m, r) == s
}

/// Some node before position `i` has id `s`.
pub open spec fn has_id_before(ns: Seq<UpgradeNode>, i: int, s: Seq<char>) -> bool {
    exists|j: int| 0 <= j < i && #[trigger] id_at(ns, j) == s
}

/// Node `i` repeats the id of an earlier node.
pub open spec fn dup_at(ns: Seq<UpgradeNode>, i: int) -> bool {
    0 <= i < ns.len() && has_id_before(ns, i, id_at(ns, i))
}

/// The first node that repeats an earlier id.
pub open spec fn first_dup(ns: Seq<UpgradeNode>) -> int {
    choose|i: int| dup_at(ns, i) && forall|j: int| 0 <= j < i ==> !dup_at(ns, j)
}

/// Requirement `k` of node `i` names no node.
pub open spec fn unknown_at(ns: Seq<UpgradeNode>, i: int, k: int) -> bool {
    &&& 0 <= i < ns.len()
    &&& 0 <= k < req_len(ns, i)
    &&& !has_id_before(ns, ns.len() as int, req_at(ns, i, k))
}

/// `(i2, k2)` comes before `(i, k)`: an earlier node, or an earlier
/// requirement of the same node.
pub open spec fn pair_before(i2: int, k2: int, i: int, k: int) -> bool {
    i2 < i || (i2 == i && k2 < k)
}

/// The first requirement, node by node, that names no node.
pub open spec fn first_unknown(ns: Seq<UpgradeNode>) -> (int, int) {
    choose|i: int, k: int|
        unknown_at(ns, i, k) && forall|i2: int, k2: int| pair_before(i2, k2, i, k) ==> !unknown_at(ns, i2, k2)
}

/// Number of nodes among the first `i` that require nothing.
pub open spec fn roots_upto(ns: Seq<UpgradeNode>, i: int) -> nat
    decreases i,
{
    if i <= 0 {
        0
    } else {
        roots_upto(ns, i - 1) + if req_len(ns, i - 1) == 0 { 1nat } else { 0nat }
    }
}

/// No two requirements of node `m` are the same id.
pub open spec fn requires_distinct(ns: Seq<UpgradeNode>, m: int) -> bool {
    forall|r1: int, r2: int|
        0 <= r1 < req_len(ns, m) && 0 <= r2 < req_len(ns, m) && r1 != r2 ==> req_at(ns, m, r1)
            != req_at(ns, m, r2)
}

/// Node `m` can be unlocked once the nodes `q` are: its requirements are
/// distinct and each is the id of one of them.
pub open spec fn ready(ns: Seq<UpgradeNode>, m: int, q: Seq<int>) -> bool {
    &&& requires_distinct(ns, m)
    &&& forall|r: int|
        0 <= r < req_len(ns, m) ==> #[trigger] met_by(ns, q, req_at(ns, m, r))
}

/// Some node of `q` has the id `s`.
pub open spec fn met_by(ns: Seq<UpgradeNode>, q: Seq<int>, s: Seq<char>) -> bool {
    exists|j: int| 0 <= j < q.len() && #[trigger] id_at(ns, q[j]) == s
}

/// `q` unlocks nodes one by one: distinct nodes, each ready once the
/// ones before it are unlocked.
pub open spec fn unlock_order(ns: Seq<UpgradeNode>, q: Seq<int>) -> bool {
    &&& q.no_duplicates()
    &&& forall|k: int| 0 <= k < q.len() ==> 0 <= #[trigger] q[k] < ns.len()
    &&& forall|k: int| 0 <= k < q.len() ==> ready(ns, #[trigger] q[k], q.take(k))
}

/// The nodes some unlock order reaches.
pub open spec fn unlockable(ns: Seq<UpgradeNode>) -> Set<int> {
    Set::new(|i: int| 0 <= i < ns.len() && exists|q: Seq<int>| #[trigger] unlock_order(ns, q) && q.contains(i))
}

/// The outcome of validation: the first repeated id; else the first
/// requirement naming no node; else a root count other than one; else
/// requirements that keep some node locked forever; else the tree is sound.
pub open spec fn validation(ns: Seq<UpgradeNode>) -> Result<(), TreeError> {
    if exists|i: int| dup_at(ns, i) {
        Err(TreeError::DuplicateId(ns[first_dup(ns)].id))
    } else if exists|i: int, k: int| unknown_at(ns, i, k) {
        let (i, k) = first_unknown(ns);
        Err(TreeError::UnknownRequire { node: ns[i].id, require: ns[i].requires@[k] })
    } else if roots_upto(ns, ns.len() as int) != 1 {
        Err(TreeError::RootCount(roots_upto(ns, ns.len() as int) as usize))
    } else if unlockable(ns).len() != ns.len() {
        Err(TreeError::Cycle { visited: unlockable(ns).len() as usize, total: ns.len() as usize })
    } else {
        Ok(())
    }
}

// ============================================================================
// Checks
// ============================================================================

/// Position of the first node repeating an earlier node's id, if any.
fn find_duplicate(nodes: &Vec<UpgradeNode>) -> (r: Option<usize>)
    ensures
        match r {
            Some(i) => (exists|i: int| dup_at(nodes@, i)) && i == first_dup(nodes@) && dup_at(nodes@, i as int),
            None => forall|i: int| !dup_at(nodes@, i),
        },
{
    let ghost ns = nodes@;
    let n = nodes.len();
    let mut i: usize = 0;
    while i < n
        invariant
            n == ns.len(),
            ns == nodes@,
            i <= n,
            forall|i2: int| 0 <= i2 < i ==> !dup_at(ns, i2),
        decreases n - i,
    {
        let mut j: usize = 0;
        while j < i
            invariant
                n == ns.len(),
                ns == nodes@,
                j <= i < n,
                forall|i2: int| 0 <= i2 < i ==> !dup_at(ns, i2),
                forall|j2: int| 0 <= j2 < j ==> id_at(ns, j2) != id_at(ns, i as int),
            decreases i - j,
        {
            if nodes[j].id == nodes[i].id {
                proof {
                    assert(id_at(ns, j as int) == id_at(ns, i as int));
                    assert(dup_at(ns, i as int));
                    assert(dup_at(ns, i as int) && forall|j: int| 0 <= j < i ==> !dup_at(ns, j));
                    let c = first_dup(ns);
                    assert(dup_at(ns, c) && forall|j: int| 0 <= j < c ==> !dup_at(ns, j));
                    if c < i {
                        assert(!dup_at(ns, c));
                    }
                    if c > i {
                        assert(!dup_at(ns, i as int));
                    }
                }
                return Some(i);
            }
            j = j + 1;
        }
        proof {
            assert(!dup_at(ns, i as int));
        }
        i = i + 1;
    }
    None
}

/// Some node has the id `id`.
fn has_id(nodes: &Vec<UpgradeNode>, id: &String) -> (r: bool)
    ensures
        r == has_id_before(nodes@, nodes@.len() as int, id@),
{
    let mut j: usize = 0;
    while j < nodes.len()
        invariant
            j <= nodes@.len(),
            forall|j2: int| 0 <= j2 < j ==> id_at(nodes@, j2) != id@,
        decreases nodes@.len() - j,
    {
        if nodes[j].id == *id {
            assert(id_at(nodes@, j as int) == id@);
            return true;
        }
        j = j + 1;
    }
    false
}

/// Node and requirement position of the first requirement naming no
/// node, if any.
fn find_unknown(nodes: &Vec<UpgradeNode>) -> (r: Option<(usize, usize)>)
    ensures
        match r {
            Some((i, k)) => (exists|i: int, k: int| unknown_at(nodes@, i, k)) && (i as int, k as int)
                == first_unknown(nodes@) && unknown_at(nodes@, i as int, k as int),
            None => forall|i: int, k: int| !unknown_at(nodes@, i, k),
        },
{
    let ghost ns = nodes@;
    let n = nodes.len();
    let mut i: usize = 0;
    while i < n
        invariant
            n == ns.len(),
            ns == nodes@,
            i <= n,
            forall|i2: int, k2: int| 0 <= i2 < i ==> !unknown_at(ns, i2, k2),
        decreases n - i,
    {
        let reqs = &nodes[i].requires;
        let mut k: usize = 0;
        while k < reqs.len()
            invariant
                n == ns.len(),
                ns == nodes@,
                i < n,
                reqs@ == ns[i as int].requires@,
                k <= reqs@.len(),
                forall|i2: int, k2: int| 0 <= i2 < i ==> !unknown_at(ns, i2, k2),
                forall|k2: int| 0 <= k2 < k ==> !unknown_at(ns, i as int, k2),
            decreases reqs@.len() - k,
        {
            if !has_id(nodes, &reqs[k]) {
                proof {
                    assert(unknown_at(ns, i as int, k as int));
                    let (ci, ck) = first_unknown(ns);
                    assert(unknown_at(ns, ci, ck));
                    if pair_before(ci, ck, i as int, k as int) {
                        assert(false);
                    }
                    assert(!pair_before(i as int, k as int, ci, ck));
                }
                return Some((i, k));
            }
            k = k + 1;
        }
        proof {
            assert forall|k2: int| !unknown_at(ns, i as int, k2) by {}
        }
        i = i + 1;
    }
    None
}

/// Number of nodes that require nothing.
fn count_roots(nodes: &Vec<UpgradeNode>) -> (c: usize)
    ensures
        c == roots_upto(nodes@, nodes@.len() as int),
{
    let mut c: usize = 0;
    let mut i: usize = 0;
    while i < nodes.len()
        invariant
            i <= nodes@.len(),
            c == roots_upto(nodes@, i as int),
            c <= i,
        decreases nodes@.len() - i,
    {
        if nodes[i].requires.len() == 0 {
            c = c + 1;
        }
        i = i + 1;
    }
    c
}

// ============================================================================
// Counting requirements
// ============================================================================

/// No two nodes share an id.
pub open spec fn ids_distinct(ns: Seq<UpgradeNode>) -> bool {
    forall|i: int, j: int|
        0 <= i < ns.len() && 0 <= j < ns.len() && i != j ==> id_at(ns, i) != id_at(ns, j)
}

/// The set of ids node `m` requires.
pub open spec fn req_ids(ns: Seq<UpgradeNode>, m: int) -> Set<Seq<char>> {
    set_int_range(0, req_len(ns, m)).map(|r: int| req_at(ns, m, r))
}

/// The nodes of `s` whose id node `m` requires.
pub open spec fn required_in(ns: Seq<UpgradeNode>, m: int, s: Set<int>) -> Set<int> {
    s.filter(|p: int| requires_id(ns, m, id_at(ns, p)))
}

/// Some node of `s` has the id `x`.
pub open spec fn met_in(ns: Seq<UpgradeNode>, s: Set<int>, x: Seq<char>) -> bool {
    exists|p: int| s.contains(p) && #[trigger] id_at(ns, p) == x
}

/// Positions `0..n`.
pub open spec fn positions(n: int) -> Set<int> {
    set_int_range(0, n)
}

proof fn lemma_no_dup_distinct(ns: Seq<UpgradeNode>)
    requires
        forall|i: int| !dup_at(ns, i),
    ensures
        ids_distinct(ns),
{
    assert forall|i: int, j: int|
        0 <= i < ns.len() && 0 <= j < ns.len() && i != j implies id_at(ns, i) != id_at(ns, j) by {
        if i < j {
            assert(!dup_at(ns, j));
            if id_at(ns, i) == id_at(ns, j) {
                assert(has_id_before(ns, j, id_at(ns, j)));
            }
        } else {
            assert(!dup_at(ns, i));
            if id_at(ns, i) == id_at(ns, j) {
                assert(has_id_before(ns, i, id_at(ns, i)));
            }
        }
    }
}

/// A node requires at most as many distinct ids as it lists, exactly as
/// many when no id is listed twice.
proof fn lemma_req_ids_size(ns: Seq<UpgradeNode>, m: int)
    ensures
        req_ids(ns, m).finite(),
        req_ids(ns, m).len() <= req_len(ns, m),
        requires_distinct(ns, m) <==> req_ids(ns, m).len() == req_len(ns, m),
        forall|s: Seq<char>| #[trigger] req_ids(ns, m).contains(s) <==> requires_id(ns, m, s),
{
    let l = req_len(ns, m);
    let range = set_int_range(0, l);
    let f = |r: int| req_at(ns, m, r);
    lemma_int_range(0, l);
    lemma_map_size_bound(range, req_ids(ns, m), f);
    assert forall|s: Seq<char>| #[trigger] req_ids(ns, m).contains(s) <==> requires_id(ns, m, s) by {
        if requires_id(ns, m, s) {
            let r = choose|r: int| 0 <= r < req_len(ns, m) && #[trigger] req_at(ns, m, r) == s;
            assert(range.contains(r));
        }
    }
    if requires_distinct(ns, m) {
        assert(vstd::relations::injective_on(f, range));
        lemma_map_size(range, req_ids(ns, m), f);
    } else {
        let (r1, r2) = choose|r1: int, r2: int|
            0 <= r1 < l && 0 <= r2 < l && r1 != r2 && req_at(ns, m, r1) == req_at(ns, m, r2);
        let smaller = range.remove(r2);
        assert(smaller.map(f) =~= req_ids(ns, m)) by {
            assert forall|s: Seq<char>| req_ids(ns, m).contains(s) implies smaller.map(f).contains(s) by {
                let r = choose|r: int| range.contains(r) && f(r) == s;
                if r == r2 {
                    assert(smaller.contains(r1));
                } else {
                    assert(smaller.contains(r));
                }
            }
        }
        lemma_map_size_bound(smaller, req_ids(ns, m), f);
    }
}

/// The nodes of `s` that `m` requires, counted by their ids: as many as
/// their ids, all among the ids `m` requires.
proof fn lemma_required_in_ids(ns: Seq<UpgradeNode>, m: int, s: Set<int>)
    requires
        ids_distinct(ns),
        s.subset_of(positions(ns.len() as int)),
    ensures
        required_in(ns, m, s).finite(),
        required_in(ns, m, s).map(|p: int| id_at(ns, p)).subset_of(req_ids(ns, m)),
        required_in(ns, m, s).map(|p: int| id_at(ns, p)).finite(),
        required_in(ns, m, s).map(|p: int| id_at(ns, p)).len() == required_in(ns, m, s).len(),
        required_in(ns, m, s).len() <= req_len(ns, m),
{
    let d = required_in(ns, m, s);
    let f = |p: int| id_at(ns, p);
    lemma_int_range(0, ns.len() as int);
    lemma_len_subset(s, positions(ns.len() as int));
    assert(d.subset_of(s));
    lemma_len_subset(d, s);
    lemma_req_ids_size(ns, m);
    assert(vstd::relations::injective_on(f, d));
    lemma_map_size(d, d.map(f), f);
    assert(d.map(f).subset_of(req_ids(ns, m))) by {
        assert forall|x: Seq<char>| d.map(f).contains(x) implies req_ids(ns, m).contains(x) by {
            let p = choose|p: int| d.contains(p) && f(p) == x;
            assert(requires_id(ns, m, id_at(ns, p)));
        }
    }
    lemma_len_subset(d.map(f), req_ids(ns, m));
}

/// When every requirement of `m` is distinct and met by a node of `s`,
/// `s` holds as many nodes required by `m` as `m` has requirements.
proof fn lemma_required_in_full(ns: Seq<UpgradeNode>, m: int, s: Set<int>)
    requires
        ids_distinct(ns),
        s.subset_of(positions(ns.len() as int)),
        requires_distinct(ns, m),
        forall|r: int| 0 <= r < req_len(ns, m) ==> #[trigger] met_in(ns, s, req_at(ns, m, r)),
    ensures
        required_in(ns, m, s).len() == req_len(ns, m),
{
    let d = required_in(ns, m, s);
    let f = |p: int| id_at(ns, p);
    lemma_required_in_ids(ns, m, s);
    lemma_req_ids_size(ns, m);
    assert(req_ids(ns, m).subset_of(d.map(f))) by {
        assert forall|x: Seq<char>| req_ids(ns, m).contains(x) implies d.map(f).contains(x) by {
            let r = choose|r: int| 0 <= r < req_len(ns, m) && #[trigger] req_at(ns, m, r) == x;
            assert(met_in(ns, s, req_at(ns, m, r)));
            let p = choose|p: int| s.contains(p) && #[trigger] id_at(ns, p) == req_at(ns, m, r);
            assert(d.contains(p));
        }
    }
    lemma_len_subset(req_ids(ns, m), d.map(f));
}

/// When `s` holds as many nodes required by `m` as `m` has requirements,
/// they are distinct and every one is met by a node of `s`.
proof fn lemma_required_in_ready(ns: Seq<UpgradeNode>, m: int, s: Set<int>)
    requires
        ids_distinct(ns),
        s.subset_of(positions(ns.len() as int)),
        required_in(ns, m, s).len() == req_len(ns, m),
    ensures
        requires_distinct(ns, m),
        forall|r: int| 0 <= r < req_len(ns, m) ==> #[trigger] met_in(ns, s, req_at(ns, m, r)),
{
    let d = required_in(ns, m, s);
    let f = |p: int| id_at(ns, p);
    lemma_required_in_ids(ns, m, s);
    lemma_req_ids_size(ns, m);
    lemma_len_subset(d.map(f), req_ids(ns, m));
    lemma_subset_equality(d.map(f), req_ids(ns, m));
    assert forall|r: int| 0 <= r < req_len(ns, m) implies #[trigger] met_in(ns, s, req_at(ns, m, r)) by {
        assert(requires_id(ns, m, req_at(ns, m, r)));
        assert(req_ids(ns, m).contains(req_at(ns, m, r)));
        assert(d.map(f).contains(req_at(ns, m, r)));
        let p = choose|p: int| d.contains(p) && f(p) == req_at(ns, m, r);
        assert(s.contains(p));
    }
}

// ============================================================================
// Unlocking (Kahn's algorithm)
// ============================================================================

/// Node `m`'s requirement counter: its requirements not yet met by the
/// unlocked nodes `s`.
pub open spec fn counter_ok(ns: Seq<UpgradeNode>, deg: Seq<usize>, m: int, s: Set<int>) -> bool {
    deg[m] + required_in(ns, m, s).len() == req_len(ns, m)
}

/// The waiting nodes: distinct, on the board, not unlocked yet, and ready.
pub open spec fn queue_ok(ns: Seq<UpgradeNode>, queue: Seq<usize>, order: Seq<int>) -> bool {
    &&& queue.no_duplicates()
    &&& forall|k: int|
        0 <= k < queue.len() ==> (#[trigger] queue[k]) < ns.len() && !order.contains(queue[k] as int)
            && ready(ns, queue[k] as int, order)
}

/// A counter is zero exactly for the nodes waiting or unlocked.
pub open spec fn zero_iff_seen(ns: Seq<UpgradeNode>, deg: Seq<usize>, queue: Seq<usize>, order: Seq<int>) -> bool {
    forall|m: int|
        0 <= m < ns.len() ==> (#[trigger] deg[m] == 0 <==> (queue.contains(m as usize) || order.contains(m)))
}

proof fn lemma_met_by_in(ns: Seq<UpgradeNode>, q: Seq<int>, x: Seq<char>)
    ensures
        met_by(ns, q, x) <==> met_in(ns, q.to_set(), x),
{
    if met_by(ns, q, x) {
        let j = choose|j: int| 0 <= j < q.len() && #[trigger] id_at(ns, q[j]) == x;
        assert(q.to_set().contains(q[j]));
    }
    if met_in(ns, q.to_set(), x) {
        let p = choose|p: int| q.to_set().contains(p) && #[trigger] id_at(ns, p) == x;
        let j = choose|j: int| 0 <= j < q.len() && q[j] == p;
        assert(id_at(ns, q[j]) == x);
    }
}

/// An unlock order's nodes lie on the board and are as many as its length.
proof fn lemma_order_set(ns: Seq<UpgradeNode>, q: Seq<int>)
    requires
        unlock_order(ns, q),
    ensures
        q.to_set().subset_of(positions(ns.len() as int)),
        q.to_set().finite(),
        q.to_set().len() == q.len(),
        q.len() <= ns.len(),
{
    q.unique_seq_to_set();
    lemma_int_range(0, ns.len() as int);
    assert(q.to_set().subset_of(positions(ns.len() as int))) by {
        assert forall|p: int| q.to_set().contains(p) implies positions(ns.len() as int).contains(p) by {
            let j = choose|j: int| 0 <= j < q.len() && q[j] == p;
            assert(0 <= q[j] < ns.len());
        }
    }
    lemma_len_subset(q.to_set(), positions(ns.len() as int));
}

/// Unlocking one more ready node keeps an unlock order.
proof fn lemma_order_push(ns: Seq<UpgradeNode>, q: Seq<int>, p: int)
    requires
        unlock_order(ns, q),
        0 <= p < ns.len(),
        !q.contains(p),
        ready(ns, p, q),
    ensures
        unlock_order(ns, q.push(p)),
{
    let q2 = q.push(p);
    assert forall|k: int| 0 <= k < q2.len() implies ready(ns, #[trigger] q2[k], q2.take(k)) by {
        if k < q.len() {
            assert(q2.take(k) =~= q.take(k));
            assert(ready(ns, q[k], q.take(k)));
        } else {
            assert(q2.take(k) =~= q);
        }
    }
}

/// Readiness only grows as more nodes are unlocked.
proof fn lemma_ready_push(ns: Seq<UpgradeNode>, m: int, q: Seq<int>, p: int)
    requires
        ready(ns, m, q),
    ensures
        ready(ns, m, q.push(p)),
{
    assert forall|r: int| 0 <= r < req_len(ns, m) implies #[trigger] met_by(ns, q.push(p), req_at(ns, m, r)) by {
        assert(met_by(ns, q, req_at(ns, m, r)));
        let j = choose|j: int| 0 <= j < q.len() && #[trigger] id_at(ns, q[j]) == req_at(ns, m, r);
        assert(q.push(p)[j] == q[j]);
    }
}

/// Once no node waits, every node some unlock order reaches is unlocked.
proof fn lemma_order_covers(
    ns: Seq<UpgradeNode>,
    deg: Seq<usize>,
    order: Seq<int>,
    q: Seq<int>,
    k: int,
)
    requires
        ids_distinct(ns),
        unlock_order(ns, order),
        deg.len() == ns.len(),
        forall|m: int| 0 <= m < ns.len() ==> counter_ok(ns, deg, m, order.to_set()),
        zero_iff_seen(ns, deg, Seq::empty(), order),
        unlock_order(ns, q),
        0 <= k < q.len(),
    ensures
        order.contains(q[k]),
    decreases k,
{
    let m = q[k];
    lemma_order_set(ns, order);
    assert(ready(ns, m, q.take(k)));
    assert forall|r: int| 0 <= r < req_len(ns, m) implies #[trigger] met_in(ns, order.to_set(), req_at(ns, m, r)) by {
        assert(met_by(ns, q.take(k), req_at(ns, m, r)));
        let j = choose|j: int| 0 <= j < q.take(k).len() && #[trigger] id_at(ns, q.take(k)[j]) == req_at(ns, m, r);
        lemma_order_covers(ns, deg, order, q, j);
        assert(order.to_set().contains(q[j]));
    }
    lemma_required_in_full(ns, m, order.to_set());
    assert(counter_ok(ns, deg, m, order.to_set()));
    assert(deg[m] == 0);
}

/// Node `m` lists the id `id` among its requirements.
fn requires_contains(reqs: &Vec<String>, id: &String, Ghost(ns): Ghost<Seq<UpgradeNode>>, Ghost(m): Ghost<int>) -> (r: bool)
    requires
        0 <= m < ns.len(),
        reqs@ == ns[m].requires@,
    ensures
        r == requires_id(ns, m, id@),
{
    let mut k: usize = 0;
    while k < reqs.len()
        invariant
            0 <= m < ns.len(),
            reqs@ == ns[m].requires@,
            k <= reqs@.len(),
            forall|k2: int| 0 <= k2 < k ==> req_at(ns, m, k2) != id@,
        decreases reqs@.len() - k,
    {
        if reqs[k] == *id {
            assert(req_at(ns, m, k as int) == id@);
            return true;
        }
        k = k + 1;
    }
    false
}

/// How many nodes can ever be unlocked: Kahn's algorithm, unlocking a
/// node once every node it requires is unlocked.
fn unlock_count(nodes: &Vec<UpgradeNode>) -> (v: usize)
    requires
        ids_distinct(nodes@),
    ensures
        v == unlockable(nodes@).len(),
{
    let ghost ns = nodes@;
    let n = nodes.len();
    let mut deg: Vec<usize> = Vec::with_capacity(n);
    let mut queue: Vec<usize> = Vec::new();
    let mut m: usize = 0;
    while m < n
        invariant
            ns == nodes@,
            n == ns.len(),
            m <= n,
            deg@.len() == m,
            forall|j: int| 0 <= j < m ==> #[trigger] deg@[j] == req_len(ns, j),
            queue@.no_duplicates(),
            forall|k: int| 0 <= k < queue@.len() ==> #[trigger] queue@[k] < m && req_len(ns, queue@[k] as int) == 0,
            forall|j: int| 0 <= j < m ==> (req_len(ns, j) == 0 ==> queue@.contains(j as usize)),
        decreases n - m,
    {
        let l = nodes[m].requires.len();
        deg.push(l);
        if l == 0 {
            let ghost q0 = queue@;
            queue.push(m);
            proof {
                assert(queue@[q0.len() as int] == m);
                assert forall|j: int| 0 <= j < m + 1 implies (req_len(ns, j) == 0 ==> queue@.contains(j as usize)) by {
                    if j < m && req_len(ns, j) == 0 {
                        let k = choose|k: int| 0 <= k < q0.len() && q0[k] == j as usize;
                        assert(queue@[k] == j as usize);
                    }
                }
            }
        }
        m = m + 1;
    }
    let ghost mut order: Seq<int> = Seq::empty();
    proof {
        assert forall|j: int| 0 <= j < n implies counter_ok(ns, deg@, j, order.to_set()) by {
            assert(required_in(ns, j, order.to_set()) =~= Set::empty());
        }
        assert forall|k: int| 0 <= k < queue@.len() implies ready(ns, #[trigger] queue@[k] as int, order) by {}
        assert(unlock_order(ns, order));
        assert(zero_iff_seen(ns, deg@, queue@, order));
    }
    let mut visited: usize = 0;
    while queue.len() > 0
        invariant
            ns == nodes@,
            n == ns.len(),
            ids_distinct(ns),
            deg@.len() == n,
            forall|j: int| 0 <= j < n ==> counter_ok(ns, deg@, j, order.to_set()),
            unlock_order(ns, order),
            visited == order.len(),
            queue_ok(ns, queue@, order),
            zero_iff_seen(ns, deg@, queue@, order),
        decreases n - order.len(),
    {
        let ghost q0 = queue@;
        let p = queue.pop().unwrap();
        let ghost old_set = order.to_set();
        let ghost new_order = order.push(p as int);
        proof {
            assert(q0[q0.len() - 1] == p);
            assert(queue@ =~= q0.drop_last());
            lemma_order_push(ns, order, p as int);
            lemma_order_set(ns, new_order);
            assert(new_order.to_set() =~= old_set.insert(p as int)) by {
                assert forall|x: int| new_order.to_set().contains(x) <==> old_set.insert(p as int).contains(x) by {
                    if new_order.contains(x) {
                        let j = choose|j: int| 0 <= j < new_order.len() && new_order[j] == x;
                        if j < order.len() {
                            assert(order[j] == x);
                        }
                    }
                    if order.contains(x) {
                        let j = choose|j: int| 0 <= j < order.len() && order[j] == x;
                        assert(new_order[j] == x);
                    }
                    if x == p {
                        assert(new_order[order.len() as int] == x);
                    }
                }
            }
            assert forall|k: int| 0 <= k < queue@.len() implies (#[trigger] queue@[k]) < ns.len()
                && !new_order.contains(queue@[k] as int) && ready(ns, queue@[k] as int, new_order) by {
                assert(queue@[k] == q0[k]);
                lemma_ready_push(ns, q0[k] as int, order, p as int);
                if new_order.contains(queue@[k] as int) {
                    let j = choose|j: int| 0 <= j < new_order.len() && new_order[j] == queue@[k] as int;
                    if j < order.len() {
                        assert(order[j] == new_order[j]);
                    }
                }
            }
            assert(zero_iff_seen(ns, deg@, queue@, new_order)) by {
                assert forall|j: int| 0 <= j < ns.len() implies (#[trigger] deg@[j] == 0 <==> (queue@.contains(
                    j as usize,
                ) || new_order.contains(j))) by {
                    if q0.contains(j as usize) {
                        let k = choose|k: int| 0 <= k < q0.len() && q0[k] == j as usize;
                        if k < q0.len() - 1 {
                            assert(queue@[k] == q0[k]);
                        } else {
                            assert(new_order[order.len() as int] == j);
                        }
                    }
                    if queue@.contains(j as usize) {
                        let k = choose|k: int| 0 <= k < queue@.len() && queue@[k] == j as usize;
                        assert(q0[k] == queue@[k]);
                    }
                    if new_order.contains(j) {
                        let k = choose|k: int| 0 <= k < new_order.len() && new_order[k] == j;
                        if k < order.len() {
                            assert(order[k] == j);
                        } else {
                            assert(q0[q0.len() - 1] == j as usize);
                        }
                    }
                    if order.contains(j) {
                        let k = choose|k: int| 0 <= k < order.len() && order[k] == j;
                        assert(new_order[k] == j);
                    }
                }
            }
        }
        visited = visited + 1;
        let mut m: usize = 0;
        while m < n
            invariant
                ns == nodes@,
                n == ns.len(),
                ids_distinct(ns),
                deg@.len() == n,
                p < n,
                !old_set.contains(p as int),
                new_order == order.push(p as int),
                new_order.to_set() == old_set.insert(p as int),
                old_set == order.to_set(),
                old_set.subset_of(positions(n as int)),
                new_order.to_set().subset_of(positions(n as int)),
                m <= n,
                forall|j: int| 0 <= j < m ==> counter_ok(ns, deg@, j, new_order.to_set()),
                forall|j: int| m <= j < n ==> counter_ok(ns, deg@, j, old_set),
                unlock_order(ns, new_order),
                queue_ok(ns, queue@, new_order),
                zero_iff_seen(ns, deg@, queue@, new_order),
                forall|k: int| 0 <= k < queue@.len() ==> #[trigger] queue@[k] < m || (queue@[k] as int) < n,
            decreases n - m,
        {
            let req = requires_contains(&nodes[m].requires, &nodes[p].id, Ghost(ns), Ghost(m as int));
            proof {
                lemma_required_in_ids(ns, m as int, new_order.to_set());
                lemma_required_in_ids(ns, m as int, old_set);
                if req {
                    assert(required_in(ns, m as int, new_order.to_set()) =~= required_in(ns, m as int, old_set).insert(p as int));
                } else {
                    assert(required_in(ns, m as int, new_order.to_set()) =~= required_in(ns, m as int, old_set));
                }
                assert(counter_ok(ns, deg@, m as int, old_set));
            }
            let ghost deg0 = deg@;
            if req {
                let d = deg[m] - 1;
                deg.set(m, d);
                proof {
                    assert(deg0[m as int] != 0);
                    assert(!queue@.contains(m) && !new_order.contains(m as int));
                }
                if d == 0 {
                    let ghost qb = queue@;
                    queue.push(m);
                    proof {
                        lemma_required_in_ready(ns, m as int, new_order.to_set());
                        assert forall|r: int| 0 <= r < req_len(ns, m as int) implies #[trigger] met_by(
                            ns,
                            new_order,
                            req_at(ns, m as int, r),
                        ) by {
                            lemma_met_by_in(ns, new_order, req_at(ns, m as int, r));
                        }
                        assert(ready(ns, m as int, new_order));
                        assert(queue@[qb.len() as int] == m);
                        assert forall|k: int| 0 <= k < queue@.len() implies (#[trigger] queue@[k]) < ns.len()
                            && !new_order.contains(queue@[k] as int) && ready(ns, queue@[k] as int, new_order) by {
                            if k < qb.len() {
                                assert(queue@[k] == qb[k]);
                            }
                        }
                        assert(queue@.no_duplicates()) by {
                            assert forall|k1: int, k2: int|
                                0 <= k1 < queue@.len() && 0 <= k2 < queue@.len() && k1 != k2 implies queue@[k1]
                                != queue@[k2] by {
                                if k1 < qb.len() && k2 < qb.len() {
                                    assert(queue@[k1] == qb[k1] && queue@[k2] == qb[k2]);
                                } else if k1 < qb.len() {
                                    assert(queue@[k1] == qb[k1]);
                                    assert(qb.contains(qb[k1]));
                                } else if k2 < qb.len() {
                                    assert(queue@[k2] == qb[k2]);
                                    assert(qb.contains(qb[k2]));
                                }
                            }
                        }
                        assert forall|j: int| 0 <= j < ns.len() implies (#[trigger] deg@[j] == 0 <==> (
                        queue@.contains(j as usize) || new_order.contains(j))) by {
                            if qb.contains(j as usize) {
                                let k = choose|k: int| 0 <= k < qb.len() && qb[k] == j as usize;
                                assert(queue@[k] == qb[k]);
                            }
                            if queue@.contains(j as usize) && j != m {
                                let k = choose|k: int| 0 <= k < queue@.len() && queue@[k] == j as usize;
                                assert(k < qb.len());
                                assert(qb[k] == queue@[k]);
                            }
                        }
                    }
                } else {
                    proof {
                        assert forall|j: int| 0 <= j < ns.len() implies (#[trigger] deg@[j] == 0 <==> (
                        queue@.contains(j as usize) || new_order.contains(j))) by {
                            if j != m {
                                assert(deg@[j] == deg0[j]);
                            }
                        }
                    }
                }
            }
            proof {
                assert forall|j: int| 0 <= j < m + 1 implies counter_ok(ns, deg@, j, new_order.to_set()) by {
                    if j < m {
                        assert(deg@[j] == deg0[j]);
                        assert(counter_ok(ns, deg0, j, new_order.to_set()));
                    }
                }
                assert forall|j: int| m + 1 <= j < n implies counter_ok(ns, deg@, j, old_set) by {
                    assert(deg@[j] == deg0[j]);
                    assert(counter_ok(ns, deg0, j, old_set));
                }
            }
            m = m + 1;
        }
        proof {
            order = new_order;
        }
    }
    proof {
        lemma_order_set(ns, order);
        assert(queue@ =~= Seq::<usize>::empty());
        assert(unlockable(ns) =~= order.to_set()) by {
            assert forall|i: int| unlockable(ns).contains(i) implies order.to_set().contains(i) by {
                let q = choose|q: Seq<int>| #[trigger] unlock_order(ns, q) && q.contains(i);
                let k = choose|k: int| 0 <= k < q.len() && q[k] == i;
                lemma_order_covers(ns, deg@, order, q, k);
            }
            assert forall|i: int| order.to_set().contains(i) implies unlockable(ns).contains(i) by {
                let k = choose|k: int| 0 <= k < order.len() && order[k] == i;
                assert(0 <= order[k] < ns.len());
            }
        }
    }
    visited
}

// ============================================================================
// The tree
// ============================================================================

impl UpgradeTreeDefs {
    /// The first node with id `id`.
    pub fn node(&self, id: &String) -> (r: Option<&UpgradeNode>)
        ensures
            match r {
                Some(x) => exists|i: int|
                    0 <= i < self.nodes@.len() && *x == self.nodes@[i] && id_at(self.nodes@, i) == id@
                        && !has_id_before(self.nodes@, i, id@),
                None => !has_id_before(self.nodes@, self.nodes@.len() as int, id@),
            },
    {
        let mut i: usize = 0;
        while i < self.nodes.len()
            invariant
                i <= self.nodes@.len(),
                !has_id_before(self.nodes@, i as int, id@),
            decreases self.nodes@.len() - i,
        {
            if self.nodes[i].id == *id {
                return Some(&self.nodes[i]);
            }
            proof {
                assert forall|j: int| 0 <= j < i + 1 implies #[trigger] id_at(self.nodes@, j) != id@ by {
                    if j < i {
                        if id_at(self.nodes@, j) == id@ {
                            assert(has_id_before(self.nodes@, i as int, id@));
                        }
                    }
                }
            }
            i = i + 1;
        }
        None
    }

    /// The first node that requires nothing.
    pub fn root(&self) -> (r: Option<&UpgradeNode>)
        ensures
            match r {
                Some(x) => exists|i: int|
                    0 <= i < self.nodes@.len() && *x == self.nodes@[i] && req_len(self.nodes@, i) == 0
                        && forall|j: int| 0 <= j < i ==> req_len(self.nodes@, j) != 0,
                None => forall|j: int| 0 <= j < self.nodes@.len() ==> req_len(self.nodes@, j) != 0,
            },
    {
        let mut i: usize = 0;
        while i < self.nodes.len()
            invariant
                i <= self.nodes@.len(),
                forall|j: int| 0 <= j < i ==> req_len(self.nodes@, j) != 0,
            decreases self.nodes@.len() - i,
        {
            if self.nodes[i].requires.len() == 0 {
                return Some(&self.nodes[i]);
            }
            i = i + 1;
        }
        None
    }

    /// Check the tree: ids are unique, every requirement names a node,
    /// exactly one node requires nothing, and no requirements loop.
    pub fn validate(&self) -> (r: Result<(), TreeError>)
        ensures
            r == validation(self.nodes@),
    {
        let ghost ns = self.nodes@;
        match find_duplicate(&self.nodes) {
            Some(i) => {
                let id = self.nodes[i].id.clone();
                assert(validation(ns) == Err::<(), TreeError>(TreeError::DuplicateId(id)));
                return Err(TreeError::DuplicateId(id));
            },
            None => {},
        }
        proof {
            lemma_no_dup_distinct(ns);
        }
        match find_unknown(&self.nodes) {
            Some((i, k)) => {
                let node = self.nodes[i].id.clone();
                let require = self.nodes[i].requires[k].clone();
                assert(validation(ns) == Err::<(), TreeError>(TreeError::UnknownRequire { node, require }));
                return Err(TreeError::UnknownRequire { node, require });
            },
            None => {},
        }
        let roots = count_roots(&self.nodes);
        if roots != 1 {
            assert(validation(ns) == Err::<(), TreeError>(TreeError::RootCount(roots)));
            return Err(TreeError::RootCount(roots));
        }
        let visited = unlock_count(&self.nodes);
        let total = self.nodes.len();
        if visited != total {
            assert(validation(ns) == Err::<(), TreeError>(TreeError::Cycle { visited, total }));
            return Err(TreeError::Cycle { visited, total });
        }
        assert(validation(ns) == Ok::<(), TreeError>(()));
        Ok(())
    }
}

/// A tree passes validation exactly when its ids are distinct, every
/// requirement names a node, exactly one node requires nothing, and every
/// node can be unlocked by some order of purchases.
pub proof fn lemma_validation_ok(ns: Seq<UpgradeNode>)
    ensures
        validation(ns) is Ok <==> {
            &&& ids_distinct(ns)
            &&& forall|i: int, k: int| !unknown_at(ns, i, k)
            &&& roots_upto(ns, ns.len() as int) == 1
            &&& forall|i: int| 0 <= i < ns.len() ==> #[trigger] unlockable(ns).contains(i)
        },
{
    let n = ns.len() as int;
    lemma_int_range(0, n);
    assert(unlockable(ns).subset_of(positions(n)));
    lemma_len_subset(unlockable(ns), positions(n));
    if ids_distinct(ns) {
        assert forall|i: int| !dup_at(ns, i) by {
            if dup_at(ns, i) {
                let j = choose|j: int| 0 <= j < i && #[trigger] id_at(ns, j) == id_at(ns, i);
            }
        }
    }
    if forall|i: int| !dup_at(ns, i) {
        lemma_no_dup_distinct(ns);
    }
    if unlockable(ns).len() == n {
        lemma_subset_equality(unlockable(ns), positions(n));
        assert forall|i: int| 0 <= i < n implies #[trigger] unlockable(ns).contains(i) by {
            assert(positions(n).contains(i));
        }
    }
    if forall|i: int| 0 <= i < n ==> #[trigger] unlockable(ns).contains(i) {
        assert(positions(n).subset_of(unlockable(ns)));
        lemma_len_subset(positions(n), unlockable(ns));
    }
}

// ============================================================================
// Purchased nodes
// ============================================================================

/// A set of ids (of bought nodes, of unlocked units), each listed once.
#[derive(Debug, Clone)]
pub struct IdSet {
    entries: Vec<String>,
}

/// The ids listed in `entries`.
pub open spec fn ids_of(entries: Seq<String>) -> Set<Seq<char>> {
    Set::new(|s: Seq<char>| exists|i: int| 0 <= i < entries.len() && #[trigger] entries[i]@ == s)
}

impl View for IdSet {
    type V = Set<Seq<char>>;

    closed spec fn view(&self) -> Set<Seq<char>> {
        ids_of(self.entries@)
    }
}

impl IdSet {
    /// The ids in the order they were first added.
    pub closed spec fn listed(&self) -> Seq<Seq<char>> {
        self.entries@.map_values(|e: String| e@)
    }

    /// No id is listed twice.
    pub closed spec fn wf(&self) -> bool {
        forall|i: int, j: int|
            0 <= i < self.entries@.len() && 0 <= j < self.entries@.len() && i != j ==> self.entries@[i]@
                != self.entries@[j]@
    }

    /// The empty set.
    pub fn new() -> (p: Self)
        ensures
            p.wf(),
            p@ == Set::<Seq<char>>::empty(),
            p.listed() == Seq::<Seq<char>>::empty(),
    {
        let p = IdSet { entries: Vec::new() };
        assert(p@ =~= Set::<Seq<char>>::empty());
        assert(p.listed() =~= Seq::<Seq<char>>::empty());
        p
    }

    /// `id` is in the set.
    pub fn contains(&self, id: &String) -> (r: bool)
        ensures
            r == self@.contains(id@),
    {
        let mut i: usize = 0;
        while i < self.entries.len()
            invariant
                i <= self.entries@.len(),
                forall|j: int| 0 <= j < i ==> self.entries@[j]@ != id@,
            decreases self.entries@.len() - i,
        {
            if self.entries[i] == *id {
                assert(self.entries@[i as int]@ == id@);
                return true;
            }
            i = i + 1;
        }
        false
    }

    /// Add `id` (a no-op if it is already there).
    pub fn insert(&mut self, id: &String)
        requires
            old(self).wf(),
        ensures
            final(self).wf(),
            final(self)@ == old(self)@.insert(id@),
            final(self).listed() == (if old(self)@.contains(id@) {
                old(self).listed()
            } else {
                old(self).listed().push(id@)
            }),
    {
        if !self.contains(id) {
            let ghost e0 = self.entries@;
            self.entries.push(id.clone());
            proof {
                assert(self.entries@[e0.len() as int] == *id);
                assert(self.listed() =~= e0.map_values(|e: String| e@).push(id@));
                assert(self@ =~= ids_of(e0).insert(id@)) by {
                    assert forall|s: Seq<char>| ids_of(self.entries@).contains(s) implies ids_of(e0).insert(id@).contains(s) by {
                        let i = choose|i: int| 0 <= i < self.entries@.len() && #[trigger] self.entries@[i]@ == s;
                        if i < e0.len() {
                            assert(e0[i]@ == s);
                        }
                    }
                    assert forall|s: Seq<char>| ids_of(e0).insert(id@).contains(s) implies ids_of(self.entries@).contains(s) by {
                        if s == id@ {
                            assert(self.entries@[e0.len() as int]@ == s);
                        } else {
                            let i = choose|i: int| 0 <= i < e0.len() && #[trigger] e0[i]@ == s;
                            assert(self.entries@[i]@ == s);
                        }
                    }
                }
            }
        }
    }

    /// Number of ids.
    pub fn len(&self) -> (n: usize)
        requires
            self.wf(),
        ensures
            self@.finite(),
            n == self@.len(),
    {
        let ghost views = self.entries@.map_values(|e: String| e@);
        proof {
            assert(views.no_duplicates());
            views.unique_seq_to_set();
            assert(views.to_set() =~= self@) by {
                assert forall|s: Seq<char>| views.to_set().contains(s) <==> self@.contains(s) by {
                    if views.to_set().contains(s) {
                        let i = choose|i: int| 0 <= i < views.len() && views[i] == s;
                        assert(self.entries@[i]@ == s);
                    }
                    if self@.contains(s) {
                        let i = choose|i: int| 0 <= i < self.entries@.len() && #[trigger] self.entries@[i]@ == s;
                        assert(views[i] == s);
                    }
                }
            }
        }
        self.entries.len()
    }

    /// The ids, in the order they were first added.
    pub fn ids(&self) -> (v: &Vec<String>)
        requires
            self.wf(),
        ensures
            v@.map_values(|e: String| e@) == self.listed(),
            ids_of(v@) == self@,
            forall|i: int, j: int| 0 <= i < v@.len() && 0 <= j < v@.len() && i != j ==> v@[i]@ != v@[j]@,
    {
        &self.entries
    }
}

/// `i` is the first node with id `id`.
pub open spec fn is_first(ns: Seq<UpgradeNode>, i: int, id: Seq<char>) -> bool {
    0 <= i < ns.len() && id_at(ns, i) == id && !has_id_before(ns, i, id)
}

/// Node `i` is what a bought id names: the first node with a bought id.
pub open spec fn bought_node(ns: Seq<UpgradeNode>, bought: Set<Seq<char>>, i: int) -> bool {
    bought.contains(id_at(ns, i)) && is_first(ns, i, id_at(ns, i))
}

/// Some bought node, looked up by id, has effect `e`.
pub open spec fn bought_effect(ns: Seq<UpgradeNode>, bought: Set<Seq<char>>, e: NodeEffect) -> bool {
    exists|i: int| #[trigger] bought_node(ns, bought, i) && ns[i].effect == e
}

/// The multi-shot counts of the bought nodes.
pub open spec fn multi_shots(ns: Seq<UpgradeNode>, bought: Set<Seq<char>>) -> Set<u32> {
    Set::new(|n: u32| bought_effect(ns, bought, NodeEffect::MultiShot(n)))
}

/// The units the bought nodes unlock.
pub open spec fn unlocked_kinds(ns: Seq<UpgradeNode>, bought: Set<Seq<char>>) -> Set<Seq<char>> {
    Set::new(|k: Seq<char>| exists|i: int| #[trigger] bought_node(ns, bought, i) && grants_unit(ns[i].effect, k))
}

/// The effect unlocks the unit kind `k`.
pub open spec fn grants_unit(e: NodeEffect, k: Seq<char>) -> bool {
    match e {
        NodeEffect::UnlockUnit(s) => s@ == k,
        _ => false,
    }
}

/// The node `id` exists and every node it requires is bought.
pub open spec fn accessible(ns: Seq<UpgradeNode>, bought: Set<Seq<char>>, id: Seq<char>) -> bool {
    exists|i: int|
        is_first(ns, i, id) && forall|k: int| 0 <= k < req_len(ns, i) ==> bought.contains(#[trigger] req_at(ns, i, k))
}

/// Buying never locks a node: what is accessible stays accessible when
/// more nodes are bought.
pub proof fn lemma_accessible_monotone(
    ns: Seq<UpgradeNode>,
    bought: Set<Seq<char>>,
    more: Set<Seq<char>>,
    id: Seq<char>,
)
    requires
        bought.subset_of(more),
        accessible(ns, bought, id),
    ensures
        accessible(ns, more, id),
{
    let i = choose|i: int|
        is_first(ns, i, id) && forall|k: int| 0 <= k < req_len(ns, i) ==> bought.contains(#[trigger] req_at(ns, i, k));
    assert forall|k: int| 0 <= k < req_len(ns, i) implies more.contains(#[trigger] req_at(ns, i, k)) by {
        assert(bought.contains(req_at(ns, i, k)));
    }
}

impl UpgradeTreeDefs {
    /// Position of the first node with id `id`.
    fn find(&self, id: &String) -> (r: Option<usize>)
        ensures
            match r {
                Some(i) => is_first(self.nodes@, i as int, id@),
                None => !has_id_before(self.nodes@, self.nodes@.len() as int, id@),
            },
    {
        let mut i: usize = 0;
        while i < self.nodes.len()
            invariant
                i <= self.nodes@.len(),
                !has_id_before(self.nodes@, i as int, id@),
            decreases self.nodes@.len() - i,
        {
            if self.nodes[i].id == *id {
                return Some(i);
            }
            proof {
                assert forall|j: int| 0 <= j < i + 1 implies #[trigger] id_at(self.nodes@, j) != id@ by {
                    if j < i && id_at(self.nodes@, j) == id@ {
                        assert(has_id_before(self.nodes@, i as int, id@));
                    }
                }
            }
            i = i + 1;
        }
        None
    }

    /// The node `id` can be bought once its requirements are: it exists
    /// and every node it requires is bought.
    pub fn is_accessible(&self, bought: &IdSet, id: &String) -> (r: bool)
        ensures
            r == accessible(self.nodes@, bought@, id@),
    {
        match self.find(id) {
            None => false,
            Some(i) => {
                let reqs = &self.nodes[i].requires;
                let mut k: usize = 0;
                while k < reqs.len()
                    invariant
                        i < self.nodes@.len(),
                        reqs@ == self.nodes@[i as int].requires@,
                        is_first(self.nodes@, i as int, id@),
                        k <= reqs@.len(),
                        forall|k2: int| 0 <= k2 < k ==> bought@.contains(#[trigger] req_at(self.nodes@, i as int, k2)),
                    decreases reqs@.len() - k,
                {
                    if !bought.contains(&reqs[k]) {
                        proof {
                            assert(!bought@.contains(req_at(self.nodes@, i as int, k as int)));
                            assert forall|j: int| is_first(self.nodes@, j, id@) implies j == i by {
                                if j < i {
                                    assert(has_id_before(self.nodes@, i as int, id@));
                                }
                                if j > i {
                                    assert(has_id_before(self.nodes@, j, id@));
                                }
                            }
                        }
                        return false;
                    }
                    k = k + 1;
                }
                true
            },
        }
    }
}

/// Node `i` is the root: the first node that requires nothing.
pub open spec fn is_root_at(ns: Seq<UpgradeNode>, i: int) -> bool {
    0 <= i < ns.len() && req_len(ns, i) == 0 && forall|j: int| 0 <= j < i ==> req_len(ns, j) != 0
}

impl UpgradeTreeDefs {
    /// Make sure the root is among the bought nodes: a tree starts with
    /// its root bought, for free.
    pub fn ensure_root(&self, bought: &mut IdSet)
        requires
            old(bought).wf(),
        ensures
            final(bought).wf(),
            forall|i: int| is_root_at(self.nodes@, i) ==> final(bought)@ == old(bought)@.insert(id_at(self.nodes@, i)),
            (forall|j: int| 0 <= j < self.nodes@.len() ==> req_len(self.nodes@, j) != 0) ==> final(bought)@ == old(
                bought,
            )@,
    {
        match self.root() {
            Some(r) => {
                proof {
                    let k = choose|k: int|
                        0 <= k < self.nodes@.len() && *r == self.nodes@[k] && req_len(self.nodes@, k) == 0
                            && forall|j: int| 0 <= j < k ==> req_len(self.nodes@, j) != 0;
                    assert(is_root_at(self.nodes@, k));
                    assert forall|i: int| is_root_at(self.nodes@, i) implies i == k by {
                        if i < k {
                            assert(req_len(self.nodes@, i) != 0);
                        }
                        if k < i {
                            assert(req_len(self.nodes@, k) != 0);
                        }
                    }
                }
                bought.insert(&r.id);
            },
            None => {},
        }
    }
}

/// At most one node is the first with a given id.
proof fn lemma_first_unique(ns: Seq<UpgradeNode>, i: int, j: int, id: Seq<char>)
    requires
        is_first(ns, i, id),
        is_first(ns, j, id),
    ensures
        i == j,
{
    if i < j {
        assert(has_id_before(ns, j, id));
    }
    if j < i {
        assert(has_id_before(ns, i, id));
    }
}

/// A bought node is named by some entry of the list of bought ids.
proof fn lemma_bought_entry(ns: Seq<UpgradeNode>, entries: Seq<String>, i: int) -> (j: int)
    requires
        bought_node(ns, ids_of(entries), i),
    ensures
        0 <= j < entries.len(),
        entries[j]@ == id_at(ns, i),
{
    choose|j: int| 0 <= j < entries.len() && #[trigger] entries[j]@ == id_at(ns, i)
}

impl UpgradeTreeDefs {
    /// Some bought node grants the fortress.
    pub fn has_fortress(&self, bought: &IdSet) -> (r: bool)
        requires
            bought.wf(),
        ensures
            r == bought_effect(self.nodes@, bought@, NodeEffect::Fortress),
    {
        let ids = bought.ids();
        let ghost ns = self.nodes@;
        let mut j: usize = 0;
        while j < ids.len()
            invariant
                ns == self.nodes@,
                ids_of(ids@) == bought@,
                j <= ids@.len(),
                forall|j2: int, i: int|
                    0 <= j2 < j && #[trigger] is_first(ns, i, ids@[j2]@) ==> ns[i].effect != NodeEffect::Fortress,
            decreases ids@.len() - j,
        {
            match self.find(&ids[j]) {
                Some(i) => {
                    if let NodeEffect::Fortress = self.nodes[i].effect {
                        proof {
                            assert(ids_of(ids@).contains(ids@[j as int]@));
                            assert(bought_node(ns, bought@, i as int));
                        }
                        return true;
                    }
                    proof {
                        assert forall|j2: int, i2: int|
                            0 <= j2 < j + 1 && #[trigger] is_first(ns, i2, ids@[j2]@) implies ns[i2].effect
                            != NodeEffect::Fortress by {
                            if j2 == j {
                                lemma_first_unique(ns, i as int, i2, ids@[j2]@);
                            }
                        }
                    }
                },
                None => {},
            }
            j = j + 1;
        }
        proof {
            if bought_effect(ns, bought@, NodeEffect::Fortress) {
                let i = choose|i: int| #[trigger] bought_node(ns, bought@, i) && ns[i].effect == NodeEffect::Fortress;
                let j2 = lemma_bought_entry(ns, ids@, i);
            }
        }
        false
    }

    /// Projectiles per turret shot: the largest multi-shot count among the
    /// bought nodes, or 1 when none grants one.
    pub fn multi_shot_count(&self, bought: &IdSet) -> (r: u32)
        requires
            bought.wf(),
        ensures
            (forall|n: u32| !#[trigger] multi_shots(self.nodes@, bought@).contains(n)) ==> r == 1,
            (exists|n: u32| #[trigger] multi_shots(self.nodes@, bought@).contains(n)) ==> {
                &&& multi_shots(self.nodes@, bought@).contains(r)
                &&& forall|n: u32| #[trigger] multi_shots(self.nodes@, bought@).contains(n) ==> n <= r
            },
    {
        let ids = bought.ids();
        let ghost ns = self.nodes@;
        let mut best: Option<u32> = None;
        let mut j: usize = 0;
        while j < ids.len()
            invariant
                ns == self.nodes@,
                ids_of(ids@) == bought@,
                j <= ids@.len(),
                forall|j2: int, i: int|
                    0 <= j2 < j && #[trigger] is_first(ns, i, ids@[j2]@) && ns[i].effect is MultiShot
                        ==> best is Some && ns[i].effect->MultiShot_0 <= best->0,
                best matches Some(b) ==> multi_shots(ns, bought@).contains(b),
            decreases ids@.len() - j,
        {
            match self.find(&ids[j]) {
                Some(i) => {
                    if let NodeEffect::MultiShot(n) = self.nodes[i].effect {
                        proof {
                            assert(ids_of(ids@).contains(ids@[j as int]@));
                            assert(bought_node(ns, bought@, i as int));
                            assert(multi_shots(ns, bought@).contains(n));
                        }
                        best = match best {
                            Some(b) => if n > b { Some(n) } else { Some(b) },
                            None => Some(n),
                        };
                    }
                    proof {
                        assert forall|j2: int, i2: int|
                            0 <= j2 < j + 1 && #[trigger] is_first(ns, i2, ids@[j2]@) && ns[i2].effect
                                is MultiShot implies best is Some && ns[i2].effect->MultiShot_0 <= best->0 by {
                            if j2 == j {
                                lemma_first_unique(ns, i as int, i2, ids@[j2]@);
                            }
                        }
                    }
                },
                None => {
                    proof {
                        assert forall|j2: int, i2: int|
                            0 <= j2 < j + 1 && #[trigger] is_first(ns, i2, ids@[j2]@) && ns[i2].effect
                                is MultiShot implies best is Some && ns[i2].effect->MultiShot_0 <= best->0 by {
                            if j2 == j {
                                assert(has_id_before(ns, ns.len() as int, ids@[j2]@));
                            }
                        }
                    }
                },
            }
            j = j + 1;
        }
        proof {
            assert forall|n: u32| #[trigger] multi_shots(ns, bought@).contains(n) implies best is Some && n <= best->0 by {
                let i = choose|i: int| #[trigger] bought_node(ns, bought@, i) && ns[i].effect == NodeEffect::MultiShot(n);
                let j2 = lemma_bought_entry(ns, ids@, i);
                assert(is_first(ns, i, ids@[j2]@));
                assert(ns[i].effect is MultiShot);
            }
        }
        match best {
            Some(b) => b,
            None => 1,
        }
    }

    /// The units available: `defaults`, plus every unit a bought node unlocks.
    pub fn unlocked_units(&self, bought: &IdSet, defaults: &Vec<String>) -> (r: IdSet)
        requires
            bought.wf(),
        ensures
            r.wf(),
            r@ == ids_of(defaults@).union(unlocked_kinds(self.nodes@, bought@)),
    {
        let mut set = IdSet::new();
        let mut d: usize = 0;
        while d < defaults.len()
            invariant
                set.wf(),
                d <= defaults@.len(),
                set@ == ids_of(defaults@.take(d as int)),
            decreases defaults@.len() - d,
        {
            set.insert(&defaults[d]);
            proof {
                assert(ids_of(defaults@.take(d + 1)) =~= ids_of(defaults@.take(d as int)).insert(defaults@[d as int]@)) by {
                    let t = defaults@.take(d + 1);
                    assert forall|s: Seq<char>| ids_of(t).contains(s) implies ids_of(defaults@.take(d as int)).insert(
                        defaults@[d as int]@,
                    ).contains(s) by {
                        let i = choose|i: int| 0 <= i < t.len() && #[trigger] t[i]@ == s;
                        if i < d {
                            assert(defaults@.take(d as int)[i]@ == s);
                        }
                    }
                    assert forall|s: Seq<char>| ids_of(defaults@.take(d as int)).insert(defaults@[d as int]@).contains(
                        s,
                    ) implies ids_of(t).contains(s) by {
                        if s == defaults@[d as int]@ {
                            assert(t[d as int]@ == s);
                        } else {
                            let i = choose|i: int| 0 <= i < d && #[trigger] defaults@.take(d as int)[i]@ == s;
                            assert(t[i]@ == s);
                        }
                    }
                }
            }
            d = d + 1;
        }
        proof {
            assert(defaults@.take(defaults@.len() as int) =~= defaults@);
        }
        let ids = bought.ids();
        let ghost ns = self.nodes@;
        let ghost base = ids_of(defaults@);
        let mut j: usize = 0;
        while j < ids.len()
            invariant
                ns == self.nodes@,
                ids_of(ids@) == bought@,
                j <= ids@.len(),
                set.wf(),
                set@ == base.union(Set::new(
                    |k: Seq<char>|
                        exists|j2: int, i: int|
                            0 <= j2 < j && #[trigger] is_first(ns, i, ids@[j2]@) && grants_unit(ns[i].effect, k),
                )),
            decreases ids@.len() - j,
        {
            let ghost before = set@;
            match self.find(&ids[j]) {
                Some(i) => {
                    match &self.nodes[i].effect {
                        NodeEffect::UnlockUnit(kind) => {
                            set.insert(kind);
                        },
                        _ => {},
                    }
                    proof {
                        let next = Set::new(
                            |k: Seq<char>|
                                exists|j2: int, i2: int|
                                    0 <= j2 < j + 1 && #[trigger] is_first(ns, i2, ids@[j2]@) && grants_unit(
                                        ns[i2].effect,
                                        k,
                                    ),
                        );
                        assert forall|k: Seq<char>| next.contains(k) implies set@.contains(k) by {
                            if next.contains(k) {
                                let (j2, i2) = choose|j2: int, i2: int|
                                    0 <= j2 < j + 1 && #[trigger] is_first(ns, i2, ids@[j2]@) && grants_unit(
                                        ns[i2].effect,
                                        k,
                                    );
                                if j2 == j {
                                    lemma_first_unique(ns, i as int, i2, ids@[j2]@);
                                }
                            }
                        }
                        assert forall|k: Seq<char>| set@.contains(k) implies base.union(next).contains(k) by {
                            if set@.contains(k) && !before.contains(k) {
                                assert(grants_unit(ns[i as int].effect, k));
                                assert(is_first(ns, i as int, ids@[j as int]@));
                            }
                        }
                        assert(set@ =~= base.union(next));
                    }
                },
                None => {
                    proof {
                        let next = Set::new(
                            |k: Seq<char>|
                                exists|j2: int, i2: int|
                                    0 <= j2 < j + 1 && #[trigger] is_first(ns, i2, ids@[j2]@) && grants_unit(
                                        ns[i2].effect,
                                        k,
                                    ),
                        );
                        assert forall|k: Seq<char>| next.contains(k) implies set@.contains(k) by {
                            if next.contains(k) {
                                let (j2, i2) = choose|j2: int, i2: int|
                                    0 <= j2 < j + 1 && #[trigger] is_first(ns, i2, ids@[j2]@) && grants_unit(
                                        ns[i2].effect,
                                        k,
                                    );
                                if j2 == j {
                                    assert(has_id_before(ns, ns.len() as int, ids@[j2]@));
                                }
                            }
                        }
                        assert(set@ =~= base.union(next));
                    }
                },
            }
            j = j + 1;
        }
        proof {
            let all = Set::new(
                |k: Seq<char>|
                    exists|j2: int, i: int|
                        0 <= j2 < ids@.len() && #[trigger] is_first(ns, i, ids@[j2]@) && grants_unit(ns[i].effect, k),
            );
            assert(all =~= unlocked_kinds(ns, bought@)) by {
                assert forall|k: Seq<char>| all.contains(k) implies unlocked_kinds(ns, bought@).contains(k) by {
                    let (j2, i) = choose|j2: int, i: int|
                        0 <= j2 < ids@.len() && #[trigger] is_first(ns, i, ids@[j2]@) && grants_unit(ns[i].effect, k);
                    assert(ids_of(ids@).contains(ids@[j2]@));
                    assert(bought_node(ns, bought@, i));
                }
                assert forall|k: Seq<char>| unlocked_kinds(ns, bought@).contains(k) implies all.contains(k) by {
                    let i = choose|i: int| #[trigger] bought_node(ns, bought@, i) && grants_unit(ns[i].effect, k);
                    let j2 = lemma_bought_entry(ns, ids@, i);
                    assert(is_first(ns, i, ids@[j2]@));
                }
            }
        }
        set
    }
}

} // verus!

use vstd::prelude::*;

use crate::orbiting_obj::OrbitingObjects;
use crate::vector::{sq, within_radius, Vec3};
use crate::BodyID;

verus! {

/// The radius of a body's sphere of dominance; the primary body's sphere is
/// unbounded.
#[derive(Clone, Copy, Debug, PartialEq, Eq, Structural)]
pub enum HillRadius {
    Finite(u64),
    Infinite,
}

/// A gravitating body of the catalog.
#[derive(Clone, Debug)]
pub struct Body {
    pub id: BodyID,
    pub position: Vec3,
    pub velocity: Vec3,
    pub hill_radius: HillRadius,
    /// The objects currently orbiting this body.
    pub orbiting: OrbitingObjects,
}

/// The bodies whose sphere of dominance holds an object, and among them the
/// one that governs its motion.
#[derive(Clone, Debug, PartialEq)]
pub struct Influenced {
    pub influencers: Vec<BodyID>,
    pub main_influencer: BodyID,
}

/// Whether the sphere of dominance of `b` holds the point `p`.
pub open spec fn encloses(b: Body, p: Vec3) -> bool {
    match b.hill_radius {
        HillRadius::Finite(r) => p.dist2(b.position) <= sq(r as int),
        HillRadius::Infinite => true,
    }
}

pub open spec fn is_candidate(cat: Seq<Body>, p: Vec3, i: int) -> bool {
    0 <= i < cat.len() && encloses(cat[i], p)
}

/// The identities of the bodies of `cat` whose sphere holds `p`, in catalog order.
pub open spec fn candidate_ids(cat: Seq<Body>, p: Vec3) -> Seq<Seq<char>>
    decreases cat.len(),
{
    if cat.len() == 0 {
        Seq::empty()
    } else if encloses(cat.last(), p) {
        candidate_ids(cat.drop_last(), p).push(cat.last().id@)
    } else {
        candidate_ids(cat.drop_last(), p)
    }
}

/// The influencer list of an object at `p`: the candidates, or the primary
/// body alone where there is none.
pub open spec fn influencer_ids(cat: Seq<Body>, p: Vec3, primary: Seq<char>) -> Seq<Seq<char>> {
    if candidate_ids(cat, p).len() == 0 {
        seq![primary]
    } else {
        candidate_ids(cat, p)
    }
}

/// A candidate whose sphere holds the center of no other candidate: nothing
/// enclosing `p` is nested inside it.
pub open spec fn is_innermost(cat: Seq<Body>, p: Vec3, i: int) -> bool {
    &&& is_candidate(cat, p, i)
    &&& forall|j: int| #[trigger] is_candidate(cat, p, j) && j != i ==> !encloses(cat[i], cat[j].position)
}

/// Radius `a` is smaller than radius `b`; the unbounded radius is the largest.
pub open spec fn smaller_radius(a: HillRadius, b: HillRadius) -> bool {
    match (a, b) {
        (HillRadius::Finite(x), HillRadius::Finite(y)) => x < y,
        (HillRadius::Finite(_), HillRadius::Infinite) => true,
        (HillRadius::Infinite, _) => false,
    }
}

/// Candidate `i` is preferred to candidate `j` as main influencer: an
/// innermost one before one that is not, then the smaller radius, then the
/// earlier in catalog order.
pub open spec fn preferred(cat: Seq<Body>, p: Vec3, i: int, j: int) -> bool {
    if is_innermost(cat, p, i) != is_innermost(cat, p, j) {
        is_innermost(cat, p, i)
    } else if cat[i].hill_radius != cat[j].hill_radius {
        smaller_radius(cat[i].hill_radius, cat[j].hill_radius)
    } else {
        i < j
    }
}

/// `m` is the main influencer's index: the candidate preferred to every
/// other candidate.
pub open spec fn is_main(cat: Seq<Body>, p: Vec3, m: int) -> bool {
    &&& is_candidate(cat, p, m)
    &&& forall|j: int| #[trigger] is_candidate(cat, p, j) && j != m ==> preferred(cat, p, m, j)
}

/// Where the unbounded radius stands among the finite ones, in the key that
/// the resolver compares.
pub const INFINITE_RANK: u128 = 0x1_0000_0000_0000_0000;

/// The part of that key that puts every candidate with a nested candidate
/// behind the innermost ones.
pub const OUTER_RANK: u128 = 0x2_0000_0000_0000_0000;

spec fn radius_rank(h: HillRadius) -> int {
    match h {
        HillRadius::Finite(r) => r as int,
        HillRadius::Infinite => INFINITE_RANK as int,
    }
}

/// The key that the resolver minimises.
spec fn rank(cat: Seq<Body>, p: Vec3, i: int) -> int {
    (if is_innermost(cat, p, i) { 0 } else { OUTER_RANK as int }) + radius_rank(cat[i].hill_radius)
}

/// The key order, with catalog order on ties, is the preference.
proof fn lemma_rank_preferred(cat: Seq<Body>, p: Vec3, i: int, j: int)
    requires
        i != j,
        0 <= i < cat.len(),
        0 <= j < cat.len(),
    ensures
        preferred(cat, p, i, j) <==> (rank(cat, p, i) < rank(cat, p, j) || (rank(cat, p, i) == rank(cat, p, j)
            && i < j)),
{
    let a = cat[i].hill_radius;
    let b = cat[j].hill_radius;
    assert(0 <= radius_rank(a) <= INFINITE_RANK && 0 <= radius_rank(b) <= INFINITE_RANK);
    assert(radius_rank(a) == radius_rank(b) <==> a == b);
    assert(radius_rank(a) < radius_rank(b) <==> smaller_radius(a, b));
}

/// The identity of the body that governs the motion of an object at `p`.
pub open spec fn main_influencer_id(cat: Seq<Body>, p: Vec3, primary: Seq<char>) -> Seq<char> {
    if exists|m: int| is_main(cat, p, m) {
        cat[choose|m: int| is_main(cat, p, m)].id@
    } else {
        primary
    }
}

/// `infl` is what resolving an object at `p` against `cat` gives.
pub open spec fn resolved(infl: Influenced, cat: Seq<Body>, p: Vec3, primary: Seq<char>) -> bool {
    &&& infl.influencers@.map_values(|b: BodyID| b@) == influencer_ids(cat, p, primary)
    &&& infl.main_influencer@ == main_influencer_id(cat, p, primary)
}

/// At most one index is the main influencer's.
pub proof fn lemma_main_unique(cat: Seq<Body>, p: Vec3, m1: int, m2: int)
    requires
        is_main(cat, p, m1),
        is_main(cat, p, m2),
    ensures
        m1 == m2,
{
    if m1 != m2 {
        assert(is_candidate(cat, p, m1) && is_candidate(cat, p, m2));
        lemma_rank_preferred(cat, p, m1, m2);
        lemma_rank_preferred(cat, p, m2, m1);
    }
}

fn encloses_exec(b: &Body, p: &Vec3) -> (r: bool)
    ensures
        r == encloses(*b, *p),
{
    match b.hill_radius {
        HillRadius::Finite(r) => within_radius(p, &b.position, r),
        HillRadius::Infinite => true,
    }
}

impl Influenced {
    /// Resolves which bodies of `bodies` dominate an object at `pos`.
    pub fn new(pos: &Vec3, bodies: &Vec<Body>, primary: &BodyID) -> (r: Influenced)
        ensures
            resolved(r, bodies@, *pos, primary@),
    {
        let ghost cat = bodies@;
        let n = bodies.len();
        // The candidates: a flag per body, and their identities in order.
        let mut flags: Vec<bool> = Vec::new();
        let mut ids: Vec<BodyID> = Vec::new();
        let mut i: usize = 0;
        while i < n
            invariant
                n == cat.len(),
                cat == bodies@,
                i <= n,
                flags.len() == i,
                forall|j: int| 0 <= j < i ==> flags@[j] == is_candidate(cat, *pos, j),
                ids@.map_values(|b: BodyID| b@) =~= candidate_ids(cat.subrange(0, i as int), *pos),
            decreases n - i,
        {
            assert(cat.subrange(0, i + 1).drop_last() =~= cat.subrange(0, i as int));
            assert(cat.subrange(0, i + 1).last() == cat[i as int]);
            let c = encloses_exec(&bodies[i], pos);
            flags.push(c);
            if c {
                ids.push(bodies[i].id.clone());
            }
            i = i + 1;
        }
        assert(cat.subrange(0, n as int) =~= cat);
        // The candidate of least rank, the first of them on ties.
        let mut best: Option<usize> = None;
        let mut best_rank: u128 = 0;
        let mut i: usize = 0;
        while i < n
            invariant
                n == cat.len(),
                cat == bodies@,
                i <= n,
                flags.len() == n,
                forall|j: int| 0 <= j < n ==> flags@[j] == is_candidate(cat, *pos, j),
                match best {
                    None => forall|j: int| 0 <= j < i ==> !is_candidate(cat, *pos, j),
                    Some(m) => {
                        &&& m < i
                        &&& is_candidate(cat, *pos, m as int)
                        &&& best_rank == rank(cat, *pos, m as int)
                        &&& forall|j: int|
                            0 <= j < i && #[trigger] is_candidate(cat, *pos, j) ==> rank(cat, *pos, m as int)
                                <= rank(cat, *pos, j)
                        &&& forall|j: int|
                            0 <= j < m && #[trigger] is_candidate(cat, *pos, j) ==> rank(cat, *pos, m as int)
                                < rank(cat, *pos, j)
                    },
                },
            decreases n - i,
        {
            if flags[i] {
                let inner = innermost(bodies, &flags, pos, i);
                let radius: u128 = match bodies[i].hill_radius {
                    HillRadius::Finite(r) => r as u128,
                    HillRadius::Infinite => INFINITE_RANK,
                };
                let rk: u128 = if inner { radius } else { OUTER_RANK + radius };
                match best {
                    None => {
                        best = Some(i);
                        best_rank = rk;
                    },
                    Some(_) => {
                        if rk < best_rank {
                            best = Some(i);
                            best_rank = rk;
                        }
                    },
                }
            }
            i = i + 1;
        }
        let main = match best {
            None => {
                proof {
                    assert forall|m: int| !is_main(cat, *pos, m) by {}
                    assert(candidate_ids(cat, *pos).len() == 0) by {
                        lemma_no_candidate(cat, *pos);
                    }
                }
                primary.clone()
            },
            Some(m) => {
                proof {
                    assert forall|j: int| #[trigger] is_candidate(cat, *pos, j) && j != m implies preferred(
                        cat,
                        *pos,
                        m as int,
                        j,
                    ) by {
                        lemma_rank_preferred(cat, *pos, m as int, j);
                    }
                    assert(is_main(cat, *pos, m as int));
                    assert forall|m2: int| is_main(cat, *pos, m2) implies m2 == m by {
                        lemma_main_unique(cat, *pos, m as int, m2);
                    }
                    lemma_candidate_nonempty(cat, *pos, m as int);
                }
                bodies[m].id.clone()
            },
        };
        if ids.len() == 0 {
            let mut v: Vec<BodyID> = Vec::new();
            v.push(primary.clone());
            assert(v@.map_values(|b: BodyID| b@) =~= seq![primary@]);
            Influenced { influencers: v, main_influencer: main }
        } else {
            Influenced { influencers: ids, main_influencer: main }
        }
    }
}

/// Whether candidate `i` holds the center of no other candidate.
fn innermost(bodies: &Vec<Body>, flags: &Vec<bool>, pos: &Vec3, i: usize) -> (r: bool)
    requires
        i < bodies.len(),
        flags.len() == bodies.len(),
        forall|j: int| 0 <= j < bodies.len() ==> flags@[j] == is_candidate(bodies@, *pos, j),
        is_candidate(bodies@, *pos, i as int),
    ensures
        r == is_innermost(bodies@, *pos, i as int),
{
    let mut j: usize = 0;
    while j < bodies.len()
        invariant
            i < bodies.len(),
            j <= bodies.len(),
            flags.len() == bodies.len(),
            forall|k: int| 0 <= k < bodies.len() ==> flags@[k] == is_candidate(bodies@, *pos, k),
            forall|k: int|
                0 <= k < j && #[trigger] is_candidate(bodies@, *pos, k) && k != i ==> !encloses(
                    bodies@[i as int],
                    bodies@[k].position,
                ),
        decreases bodies.len() - j,
    {
        if j != i && flags[j] && encloses_exec(&bodies[i], &bodies[j].position) {
            assert(is_candidate(bodies@, *pos, j as int));
            return false;
        }
        j = j + 1;
    }
    true
}

proof fn lemma_no_candidate(cat: Seq<Body>, p: Vec3)
    requires
        forall|j: int| 0 <= j < cat.len() ==> !is_candidate(cat, p, j),
    ensures
        candidate_ids(cat, p).len() == 0,
    decreases cat.len(),
{
    if cat.len() > 0 {
        assert(!is_candidate(cat, p, cat.len() - 1));
        assert forall|j: int| 0 <= j < cat.drop_last().len() implies !is_candidate(cat.drop_last(), p, j) by {
            assert(!is_candidate(cat, p, j));
        }
        lemma_no_candidate(cat.drop_last(), p);
    }
}

proof fn lemma_candidate_nonempty(cat: Seq<Body>, p: Vec3, m: int)
    requires
        is_candidate(cat, p, m),
    ensures
        candidate_ids(cat, p).len() > 0,
    decreases cat.len(),
{
    if m < cat.len() - 1 {
        assert(is_candidate(cat.drop_last(), p, m));
        lemma_candidate_nonempty(cat.drop_last(), p, m);
        assert(candidate_ids(cat, p).len() >= candidate_ids(cat.drop_last(), p).len());
    }
}

} // verus!

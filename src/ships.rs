//! Craft, the Propagated / Orbiting state of each, and the registry of which
//! body hosts which craft.
use vstd::prelude::*;

use crate::influence::{influencer_ids, main_influencer_id, resolved, Body, Influenced};
use crate::orbiting_obj::{
    OrbitingObjects, lemma_occurrences_push, lemma_occurrences_without, occurrences, without, ObjKey, OrbitalObjID,
};
use crate::scheduler::{fired_events, pending_entries, AddAction, ShipSchedule, TrajectoryEvent};
use crate::vector::Vec3;
use crate::{BodyID, ShipID};

verus! {

/// How a craft is created.
#[derive(Clone, Debug, PartialEq)]
pub struct ShipInfo {
    pub id: ShipID,
    pub spawn_pos: Vec3,
    pub spawn_speed: Vec3,
}

/// The two states of a craft. A Propagated craft moves freely under the
/// summed gravity of its influencers; an Orbiting one follows the analytic
/// orbit `orbit` around `host`.
#[derive(Debug)]
pub enum ShipMotion<E> {
    Propagated { influence: Influenced },
    Orbiting { orbit: E, host: BodyID },
}

/// A craft and its state.
#[derive(Debug)]
pub struct Ship<E> {
    pub info: ShipInfo,
    pub position: Vec3,
    pub velocity: Vec3,
    pub motion: ShipMotion<E>,
    pub schedule: ShipSchedule,
}

/// Requests that change the set of craft or the state of one.
#[derive(Debug)]
pub enum ShipEvent<E> {
    Create(ShipInfo),
    Remove(ShipID),
    SwitchToOrbital { ship_id: ShipID, orbit: E },
    SwitchToEditMode(ShipID),
}

/// When set, no craft is tested for a transition to Orbiting.
#[derive(Clone, Copy, Debug, Default, PartialEq, Eq, Structural)]
pub struct DisableShipOrbitCheck(pub bool);

/// The state of a Propagated craft relative to its main influencer, for the
/// eccentricity test.
#[derive(Clone, Debug, PartialEq)]
pub struct OrbitCheck {
    pub ship_id: ShipID,
    pub host: BodyID,
    pub r_vec: Vec3,
    pub v_vec: Vec3,
}

/// The craft, each under its own identity.
#[derive(Debug)]
pub struct ShipsMapping<E>(pub Vec<Ship<E>>);

/// The bodies and craft of a scenario.
#[derive(Debug)]
pub struct World<E> {
    pub bodies: Vec<Body>,
    /// The body whose sphere of dominance is unbounded.
    pub primary: BodyID,
    pub ships: ShipsMapping<E>,
    pub orbit_check: DisableShipOrbitCheck,
}

pub open spec fn ship_key(id: Seq<char>) -> ObjKey {
    ObjKey::Ship(id)
}

/// Whether `s` is Orbiting with `b` as host.
pub open spec fn hosted_by<E>(s: Ship<E>, b: Body) -> bool {
    match s.motion {
        ShipMotion::Orbiting { host, .. } => host@ == b.id@,
        _ => false,
    }
}

pub open spec fn is_orbiting<E>(s: Ship<E>) -> bool {
    s.motion is Orbiting
}

/// The index of the last body of `cat` with identity `id`, or -1.
pub open spec fn body_index(cat: Seq<Body>, id: Seq<char>) -> int
    decreases cat.len(),
{
    if cat.len() == 0 {
        -1
    } else if cat.last().id@ == id {
        cat.len() - 1
    } else {
        body_index(cat.drop_last(), id)
    }
}

/// The index of the last craft of `ships` with identity `id`, or -1.
pub open spec fn ship_index<E>(ships: Seq<Ship<E>>, id: Seq<char>) -> int
    decreases ships.len(),
{
    if ships.len() == 0 {
        -1
    } else if ships.last().info.id@ == id {
        ships.len() - 1
    } else {
        ship_index(ships.drop_last(), id)
    }
}

pub proof fn lemma_body_index(cat: Seq<Body>, id: Seq<char>)
    ensures
        -1 <= body_index(cat, id) < cat.len(),
        body_index(cat, id) >= 0 ==> cat[body_index(cat, id)].id@ == id,
        body_index(cat, id) == -1 ==> forall|j: int| 0 <= j < cat.len() ==> cat[j].id@ != id,
    decreases cat.len(),
{
    if cat.len() > 0 {
        lemma_body_index(cat.drop_last(), id);
        if cat.last().id@ != id {
            assert forall|j: int| 0 <= j < cat.len() && body_index(cat, id) == -1 implies cat[j].id@ != id by {
                if j < cat.len() - 1 {
                    assert(cat.drop_last()[j] == cat[j]);
                }
            }
        }
    }
}

pub proof fn lemma_ship_index<E>(ships: Seq<Ship<E>>, id: Seq<char>)
    ensures
        -1 <= ship_index(ships, id) < ships.len(),
        ship_index(ships, id) >= 0 ==> ships[ship_index(ships, id)].info.id@ == id,
        ship_index(ships, id) == -1 ==> forall|j: int| 0 <= j < ships.len() ==> ships[j].info.id@ != id,
    decreases ships.len(),
{
    if ships.len() > 0 {
        lemma_ship_index(ships.drop_last(), id);
        if ships.last().info.id@ != id {
            assert forall|j: int| 0 <= j < ships.len() && ship_index(ships, id) == -1 implies ships[j].info.id@
                != id by {
                if j < ships.len() - 1 {
                    assert(ships.drop_last()[j] == ships[j]);
                }
            }
        }
    }
}

/// `s` is the craft that `info` creates among the bodies `cat`.
pub open spec fn spawned<E>(s: Ship<E>, info: ShipInfo, cat: Seq<Body>, primary: Seq<char>) -> bool {
    &&& s.info == info
    &&& s.position == info.spawn_pos
    &&& s.velocity == info.spawn_speed
    &&& s.schedule.0@.len() == 0
    &&& match s.motion {
        ShipMotion::Propagated { influence } => resolved(influence, cat, info.spawn_pos, primary),
        ShipMotion::Orbiting { .. } => false,
    }
}

/// `nb` is `b` with the craft `id` taken out of its orbiting set.
pub open spec fn detached(nb: Body, b: Body, id: Seq<char>) -> bool {
    &&& nb.id == b.id
    &&& nb.position == b.position
    &&& nb.velocity == b.velocity
    &&& nb.hill_radius == b.hill_radius
    &&& nb.orbiting@ == without(b.orbiting@, ship_key(id))
}

/// Every body of `nb` is the body of `b` at its index with the craft `id`
/// taken out of its orbiting set.
pub open spec fn all_detached(nb: Seq<Body>, b: Seq<Body>, id: Seq<char>) -> bool {
    &&& nb.len() == b.len()
    &&& forall|k: int| 0 <= k < b.len() ==> #[trigger] detached(nb[k], b[k], id)
}

/// `nb` is `b` with the craft `id` added to its orbiting set.
pub open spec fn attached(nb: Body, b: Body, id: Seq<char>) -> bool {
    &&& nb.id == b.id
    &&& nb.position == b.position
    &&& nb.velocity == b.velocity
    &&& nb.hill_radius == b.hill_radius
    &&& nb.orbiting@ == b.orbiting@.push(ship_key(id))
}

/// `ns` is `s` with only its state changed, to Orbiting the body `host`
/// along `orbit`.
pub open spec fn orbited<E>(ns: Ship<E>, s: Ship<E>, orbit: E, host: Seq<char>) -> bool {
    &&& ns.info == s.info
    &&& ns.position == s.position
    &&& ns.velocity == s.velocity
    &&& ns.schedule == s.schedule
    &&& match ns.motion {
        ShipMotion::Orbiting { orbit: o, host: h } => o == orbit && h@ == host,
        ShipMotion::Propagated { .. } => false,
    }
}

/// `ns` is `s` with only its state changed, to Propagated under the bodies
/// of `cat` whose spheres hold its position.
pub open spec fn reverted<E>(ns: Ship<E>, s: Ship<E>, cat: Seq<Body>, primary: Seq<char>) -> bool {
    &&& ns.info == s.info
    &&& ns.position == s.position
    &&& ns.velocity == s.velocity
    &&& ns.schedule == s.schedule
    &&& match ns.motion {
        ShipMotion::Propagated { influence } => resolved(influence, cat, s.position, primary),
        ShipMotion::Orbiting { .. } => false,
    }
}

/// The main influencer of the craft `s` at its current position.
pub open spec fn main_of<E>(s: Ship<E>, cat: Seq<Body>, primary: Seq<char>) -> Seq<char> {
    main_influencer_id(cat, s.position, primary)
}

/// What the orbit test reads of the craft `s`: its state relative to its
/// current main influencer, where it is Propagated and that body is known.
pub open spec fn check_of<E>(s: Ship<E>, cat: Seq<Body>, primary: Seq<char>) -> Option<OrbitCheck> {
    let b = body_index(cat, main_of(s, cat, primary));
    if s.motion is Propagated && b >= 0 {
        Some(
            OrbitCheck {
                ship_id: s.info.id,
                host: cat[b].id,
                r_vec: s.position.minus(cat[b].position),
                v_vec: s.velocity.minus(cat[b].velocity),
            },
        )
    } else {
        None
    }
}

/// The orbit tests of the craft of `ships`, in their order.
pub open spec fn orbit_checks<E>(ships: Seq<Ship<E>>, cat: Seq<Body>, primary: Seq<char>) -> Seq<OrbitCheck>
    decreases ships.len(),
{
    if ships.len() == 0 {
        Seq::empty()
    } else {
        let rest = orbit_checks(ships.drop_last(), cat, primary);
        match check_of(ships.last(), cat, primary) {
            Some(c) => rest.push(c),
            None => rest,
        }
    }
}

/// `ns` differs from `s` at most in position, velocity, schedule, and the
/// influencers of a Propagated state.
pub open spec fn same_standing<E>(ns: Ship<E>, s: Ship<E>) -> bool {
    &&& ns.info.id@ == s.info.id@
    &&& ns.motion is Propagated <==> s.motion is Propagated
    &&& s.motion is Orbiting ==> ns.motion == s.motion
    &&& ns.position.in_range()
    &&& ns.velocity.in_range()
}

/// The events that the schedules of `ships` release at tick `now`: craft by
/// craft in their order, and for each craft in schedule order.
pub open spec fn fired_all<E>(ships: Seq<Ship<E>>, now: u64) -> Seq<TrajectoryEvent>
    decreases ships.len(),
{
    if ships.len() == 0 {
        Seq::empty()
    } else {
        fired_all(ships.drop_last(), now) + fired_events(ships.last().schedule.0@, now, ships.last().info.id)
    }
}

/// A catalog a world can start from: distinct identities, components in
/// range, and no craft in any orbiting set.
pub open spec fn catalog_ok(cat: Seq<Body>) -> bool {
    &&& forall|i: int, j: int| 0 <= i < j < cat.len() ==> cat[i].id@ != cat[j].id@
    &&& forall|b: int| 0 <= b < cat.len() ==> #[trigger] cat[b].position.in_range() && cat[b].velocity.in_range()
    &&& forall|b: int, k: int| 0 <= b < cat.len() && 0 <= k < cat[b].orbiting@.len() ==> #[trigger] cat[b].orbiting@[k] is Body
}

proof fn lemma_no_ship_entries(s: Seq<ObjKey>, x: Seq<char>)
    requires
        forall|k: int| 0 <= k < s.len() ==> #[trigger] s[k] is Body,
    ensures
        occurrences(s, ship_key(x)) == 0,
    decreases s.len(),
{
    if s.len() > 0 {
        assert(s.last() is Body);
        assert forall|k: int| 0 <= k < s.drop_last().len() implies #[trigger] s.drop_last()[k] is Body by {
            assert(s[k] is Body);
        }
        lemma_no_ship_entries(s.drop_last(), x);
    }
}

fn all_bodies(objs: &OrbitingObjects) -> (r: bool)
    ensures
        r == forall|k: int| 0 <= k < objs@.len() ==> #[trigger] objs@[k] is Body,
{
    let mut i: usize = 0;
    while i < objs.0.len()
        invariant
            i <= objs@.len(),
            forall|k: int| 0 <= k < i ==> #[trigger] objs@[k] is Body,
        decreases objs.0.len() - i,
    {
        match &objs.0[i] {
            OrbitalObjID::Ship(_) => {
                assert(!(objs@[i as int] is Body));
                return false;
            },
            OrbitalObjID::Body(_) => {},
        }
        i = i + 1;
    }
    true
}

impl<E> World<E> {
    /// The influencers of every Propagated craft are those of its current
    /// position.
    pub open spec fn influences_current(self) -> bool {
        forall|i: int|
            0 <= i < self.ships.0@.len() && (#[trigger] self.ships.0@[i]).motion is Propagated ==> resolved(
                self.ships.0@[i].motion->Propagated_influence,
                self.bodies@,
                self.ships.0@[i].position,
                self.primary@,
            )
    }

    /// The craft `id` exists, is Propagated, and its main influencer is one
    /// of the bodies.
    pub open spec fn can_orbit(self, id: Seq<char>) -> bool {
        let i = ship_index(self.ships.0@, id);
        &&& i >= 0
        &&& self.ships.0@[i].motion is Propagated
        &&& body_index(self.bodies@, main_of(self.ships.0@[i], self.bodies@, self.primary@)) >= 0
    }

    pub open spec fn bodies_distinct(self) -> bool {
        forall|i: int, j: int|
            0 <= i < j < self.bodies@.len() ==> self.bodies@[i].id@ != self.bodies@[j].id@
    }

    pub open spec fn ships_distinct(self) -> bool {
        forall|i: int, j: int|
            0 <= i < j < self.ships.0@.len() ==> self.ships.0@[i].info.id@ != self.ships.0@[j].info.id@
    }

    /// Each craft appears once in its host's set and in no other set.
    pub open spec fn registry_exact(self) -> bool {
        forall|i: int, b: int|
            0 <= i < self.ships.0@.len() && 0 <= b < self.bodies@.len() ==> #[trigger] occurrences(
                self.bodies@[b].orbiting@,
                ship_key(self.ships.0@[i].info.id@),
            ) == if hosted_by(self.ships.0@[i], self.bodies@[b]) {
                1nat
            } else {
                0nat
            }
    }

    /// Every Orbiting craft has a host among the bodies.
    pub open spec fn hosts_known(self) -> bool {
        forall|i: int|
            0 <= i < self.ships.0@.len() && #[trigger] is_orbiting(self.ships.0@[i]) ==> exists|b: int|
                0 <= b < self.bodies@.len() && hosted_by(self.ships.0@[i], self.bodies@[b])
    }

    /// A set names no craft that does not exist.
    pub open spec fn no_stale_entries(self) -> bool {
        forall|b: int, x: Seq<char>|
            0 <= b < self.bodies@.len() && #[trigger] occurrences(self.bodies@[b].orbiting@, ship_key(x)) > 0
                ==> exists|i: int| 0 <= i < self.ships.0@.len() && self.ships.0@[i].info.id@ == x
    }

    pub open spec fn in_range(self) -> bool {
        &&& forall|b: int|
            0 <= b < self.bodies@.len() ==> #[trigger] self.bodies@[b].position.in_range()
                && self.bodies@[b].velocity.in_range()
        &&& forall|i: int|
            0 <= i < self.ships.0@.len() ==> #[trigger] self.ships.0@[i].position.in_range()
                && self.ships.0@[i].velocity.in_range()
    }

    /// The invariant of a world.
    pub open spec fn wf(self) -> bool {
        &&& self.bodies_distinct()
        &&& self.ships_distinct()
        &&& self.registry_exact()
        &&& self.hosts_known()
        &&& self.no_stale_entries()
        &&& self.in_range()
    }

    /// Whether a craft with identity `id` exists.
    pub open spec fn has_ship(self, id: Seq<char>) -> bool {
        exists|i: int| 0 <= i < self.ships.0@.len() && self.ships.0@[i].info.id@ == id
    }

    /// The index of the body with identity `id`, if any.
    pub fn find_body(&self, id: &BodyID) -> (r: Option<usize>)
        ensures
            match r {
                Some(i) => i == body_index(self.bodies@, id@),
                None => body_index(self.bodies@, id@) == -1,
            },
    {
        proof {
            lemma_body_index(self.bodies@, id@);
            assert(self.bodies@.subrange(0, self.bodies@.len() as int) =~= self.bodies@);
        }
        let mut i: usize = self.bodies.len();
        while i > 0
            invariant
                i <= self.bodies@.len(),
                body_index(self.bodies@, id@) == body_index(self.bodies@.subrange(0, i as int), id@),
            decreases i,
        {
            let ghost pre = self.bodies@.subrange(0, i as int);
            assert(pre.drop_last() =~= self.bodies@.subrange(0, i - 1));
            if self.bodies[i - 1].id.eq(id) {
                return Some(i - 1);
            }
            i = i - 1;
        }
        None
    }

    /// The index of the craft with identity `id`, if any.
    pub fn find_ship(&self, id: &ShipID) -> (r: Option<usize>)
        ensures
            match r {
                Some(i) => i == ship_index(self.ships.0@, id@),
                None => ship_index(self.ships.0@, id@) == -1,
            },
    {
        proof {
            lemma_ship_index(self.ships.0@, id@);
            assert(self.ships.0@.subrange(0, self.ships.0@.len() as int) =~= self.ships.0@);
        }
        let mut i: usize = self.ships.0.len();
        while i > 0
            invariant
                i <= self.ships.0@.len(),
                ship_index(self.ships.0@, id@) == ship_index(self.ships.0@.subrange(0, i as int), id@),
            decreases i,
        {
            let ghost pre = self.ships.0@.subrange(0, i as int);
            assert(pre.drop_last() =~= self.ships.0@.subrange(0, i - 1));
            if self.ships.0[i - 1].info.id.eq(id) {
                return Some(i - 1);
            }
            i = i - 1;
        }
        None
    }

    /// Creates the craft that `info` describes, Propagated under the bodies
    /// whose spheres hold its spawn position. An identity already in use
    /// leaves the world as it is.
    pub fn handle_ship_create(&mut self, info: ShipInfo)
        requires
            old(self).wf(),
            info.spawn_pos.in_range(),
            info.spawn_speed.in_range(),
        ensures
            final(self).wf(),
            final(self).bodies == old(self).bodies,
            final(self).primary == old(self).primary,
            final(self).orbit_check == old(self).orbit_check,
            old(self).has_ship(info.id@) ==> final(self).ships.0@ == old(self).ships.0@,
            !old(self).has_ship(info.id@) ==> {
                &&& final(self).ships.0@.len() == old(self).ships.0@.len() + 1
                &&& final(self).ships.0@.drop_last() == old(self).ships.0@
                &&& spawned(final(self).ships.0@.last(), info, old(self).bodies@, old(self).primary@)
            },
    {
        proof {
            lemma_ship_index(self.ships.0@, info.id@);
        }
        if self.find_ship(&info.id).is_some() {
            return;
        }
        let influence = Influenced::new(&info.spawn_pos, &self.bodies, &self.primary);
        let ship = Ship {
            position: info.spawn_pos,
            velocity: info.spawn_speed,
            info,
            motion: ShipMotion::Propagated { influence },
            schedule: ShipSchedule::new(),
        };
        let ghost old_ships = self.ships.0@;
        self.ships.0.push(ship);
        proof {
            let ships = self.ships.0@;
            let n = old_ships.len();
            assert(ships.drop_last() =~= old_ships);
            assert forall|i: int, b: int|
                0 <= i < ships.len() && 0 <= b < self.bodies@.len() implies #[trigger] occurrences(
                self.bodies@[b].orbiting@,
                ship_key(ships[i].info.id@),
            ) == if hosted_by(ships[i], self.bodies@[b]) {
                1nat
            } else {
                0nat
            } by {
                if i == n {
                    if occurrences(self.bodies@[b].orbiting@, ship_key(ships[i].info.id@)) > 0 {
                        let j = choose|j: int| 0 <= j < n && old_ships[j].info.id@ == ships[i].info.id@;
                        assert(false);
                    }
                } else {
                    assert(ships[i] == old_ships[i]);
                }
            }
            assert forall|i: int|
                0 <= i < ships.len() && #[trigger] is_orbiting(ships[i]) implies exists|b: int|
                0 <= b < self.bodies@.len() && hosted_by(ships[i], self.bodies@[b]) by {
                assert(ships[i] == old_ships[i]);
            }
            assert forall|b: int, x: Seq<char>|
                0 <= b < self.bodies@.len() && #[trigger] occurrences(self.bodies@[b].orbiting@, ship_key(x)) > 0
                implies exists|i: int| 0 <= i < ships.len() && ships[i].info.id@ == x by {
                let j = choose|j: int| 0 <= j < n && old_ships[j].info.id@ == x;
                assert(ships[j] == old_ships[j]);
            }
            assert forall|i: int| 0 <= i < ships.len() implies #[trigger] ships[i].position.in_range()
                && ships[i].velocity.in_range() by {
                if i < n {
                    assert(ships[i] == old_ships[i]);
                }
            }
        }
    }

    /// Takes the craft `id` out of every orbiting set.
    fn detach(&mut self, id: &ShipID)
        ensures
            all_detached(final(self).bodies@, old(self).bodies@, id@),
            final(self).ships == old(self).ships,
            final(self).primary == old(self).primary,
            final(self).orbit_check == old(self).orbit_check,
    {
        let key = OrbitalObjID::Ship(id.clone());
        let ghost old_bodies = self.bodies@;
        let mut b: usize = 0;
        while b < self.bodies.len()
            invariant
                self.bodies@.len() == old_bodies.len(),
                b <= self.bodies@.len(),
                key@ == ship_key(id@),
                self.ships == old(self).ships,
                self.primary == old(self).primary,
                self.orbit_check == old(self).orbit_check,
                old_bodies == old(self).bodies@,
                forall|k: int| 0 <= k < b ==> #[trigger] detached(self.bodies@[k], old_bodies[k], id@),
                forall|k: int| b <= k < self.bodies@.len() ==> self.bodies@[k] == old_bodies[k],
            decreases self.bodies.len() - b,
        {
            let ghost before = self.bodies@;
            let mut body = self.bodies.remove(b);
            body.orbiting.remove(&key);
            self.bodies.insert(b, body);
            proof {
                assert forall|k: int| 0 <= k < b + 1 implies #[trigger] detached(self.bodies@[k], old_bodies[k], id@) by {
                    if k < b {
                        assert(self.bodies@[k] == before[k]);
                    }
                }
                assert forall|k: int| b + 1 <= k < self.bodies@.len() implies self.bodies@[k] == old_bodies[k] by {
                    assert(self.bodies@[k] == before[k]);
                }
            }
            b = b + 1;
        }
    }

    /// Removes the craft `id` and its membership in its host's set. An
    /// unknown identity leaves the world as it is.
    pub fn handle_ship_remove(&mut self, id: &ShipID)
        requires
            old(self).wf(),
        ensures
            final(self).wf(),
            final(self).primary == old(self).primary,
            final(self).orbit_check == old(self).orbit_check,
            !old(self).has_ship(id@) ==> final(self).ships.0@ == old(self).ships.0@ && final(self).bodies@
                == old(self).bodies@,
            old(self).has_ship(id@) ==> {
                &&& final(self).ships.0@ == old(self).ships.0@.remove(ship_index(old(self).ships.0@, id@))
                &&& all_detached(final(self).bodies@, old(self).bodies@, id@)
            },
    {
        proof {
            lemma_ship_index(self.ships.0@, id@);
        }
        let i = match self.find_ship(id) {
            None => return,
            Some(i) => i,
        };
        let ghost old_world = *self;
        let ghost old_ships = self.ships.0@;
        assert(ship_index(old_ships, id@) == i as int);
        self.detach(id);
        self.ships.0.remove(i);
        proof {
            let ships = self.ships.0@;
            assert(old_ships[i as int].info.id@ == id@);
            assert(ships =~= old_ships.remove(i as int));
            let old_of = |k: int| if k < i { k } else { k + 1 };
            assert forall|k: int| 0 <= k < ships.len() implies 0 <= #[trigger] old_of(k) < old_ships.len()
                && ships[k].info.id@ == old_ships[old_of(k)].info.id@ && ships[k].position.in_range()
                && ships[k].velocity.in_range() by {
                assert(ships[k] == old_ships[old_of(k)]);
                assert(old_ships[old_of(k)].position.in_range());
            }
            assert forall|k: int| 0 <= k < ships.len() && ships[k].info.id@ != id@ implies same_standing(
                ships[k],
                old_ships[#[trigger] old_of(k)],
            ) by {
                assert(ships[k] == old_ships[old_of(k)]);
                assert(old_ships[old_of(k)].position.in_range());
            }
            assert forall|k: int| 0 <= k < ships.len() && (#[trigger] ships[k]).info.id@ == id@ implies ships[k].motion is Propagated by {
                let k0 = old_of(k);
                assert(ships[k] == old_ships[k0]);
                if k0 < i {
                    assert(old_ships[k0].info.id@ != old_ships[i as int].info.id@);
                } else {
                    assert(old_ships[i as int].info.id@ != old_ships[k0].info.id@);
                }
            }
            assert forall|j: int| 0 <= j < old_ships.len() && old_ships[j].info.id@ != id@ implies exists|k: int|
                0 <= k < ships.len() && #[trigger] old_of(k) == j by {
                let k = if j < i { j } else { j - 1 };
                assert(old_of(k) == j);
            }
            old_world.lemma_detached_wf(*self, id@, old_of);
        }
    }

    /// Puts the craft `id` on the analytic orbit `orbit` around its main
    /// influencer (resolved afresh from its current position), and registers
    /// it in that body's orbiting set. A craft that is unknown, already
    /// Orbiting, or whose main influencer is not among the bodies, is left as
    /// it is.
    pub fn handle_switch_to_orbital(&mut self, id: &ShipID, orbit: E)
        requires
            old(self).wf(),
        ensures
            final(self).wf(),
            final(self).primary == old(self).primary,
            final(self).orbit_check == old(self).orbit_check,
            !old(self).can_orbit(id@) ==> final(self).ships.0@ == old(self).ships.0@ && final(self).bodies@
                == old(self).bodies@,
            old(self).can_orbit(id@) ==> {
                let i = ship_index(old(self).ships.0@, id@);
                let s = old(self).ships.0@[i];
                let host = main_of(s, old(self).bodies@, old(self).primary@);
                let b = body_index(old(self).bodies@, host);
                &&& final(self).ships.0@.len() == old(self).ships.0@.len()
                &&& orbited(final(self).ships.0@[i], s, orbit, host)
                &&& forall|k: int| 0 <= k < old(self).ships.0@.len() && k != i ==> final(self).ships.0@[k]
                    == old(self).ships.0@[k]
                &&& final(self).bodies@.len() == old(self).bodies@.len()
                &&& attached(final(self).bodies@[b], old(self).bodies@[b], id@)
                &&& forall|k: int| 0 <= k < old(self).bodies@.len() && k != b ==> final(self).bodies@[k]
                    == old(self).bodies@[k]
            },
    {
        proof {
            lemma_ship_index(self.ships.0@, id@);
        }
        let i = match self.find_ship(id) {
            None => return,
            Some(i) => i,
        };
        if let ShipMotion::Orbiting { .. } = &self.ships.0[i].motion {
            return;
        }
        let host = Influenced::new(&self.ships.0[i].position, &self.bodies, &self.primary).main_influencer;
        proof {
            lemma_body_index(self.bodies@, host@);
        }
        let b = match self.find_body(&host) {
            None => return,
            Some(b) => b,
        };
        let ghost old_ships = self.ships.0@;
        let ghost old_bodies = self.bodies@;
        let ship = self.ships.0.remove(i);
        let Ship { info, position, velocity, motion: _, schedule } = ship;
        self.ships.0.insert(
            i,
            Ship { info, position, velocity, motion: ShipMotion::Orbiting { orbit, host }, schedule },
        );
        let mut body = self.bodies.remove(b);
        body.orbiting.push(OrbitalObjID::Ship(id.clone()));
        self.bodies.insert(b, body);
        proof {
            let ships = self.ships.0@;
            let bodies = self.bodies@;
            assert(old_ships[i as int].info.id@ == id@);
            assert(forall|k: int| 0 <= k < ships.len() && k != i ==> ships[k] == old_ships[k]);
            assert(forall|k: int| 0 <= k < bodies.len() && k != b ==> bodies[k] == old_bodies[k]);
            assert(hosted_by(ships[i as int], bodies[b as int]));
            assert forall|a: int, c: int| 0 <= a < c < bodies.len() implies bodies[a].id@ != bodies[c].id@ by {
                assert(old_bodies[a].id@ != old_bodies[c].id@);
            }
            assert forall|a: int, c: int| 0 <= a < c < ships.len() implies ships[a].info.id@ != ships[c].info.id@ by {
                assert(old_ships[a].info.id@ != old_ships[c].info.id@);
            }
            assert forall|s: int, k: int|
                0 <= s < ships.len() && 0 <= k < bodies.len() implies #[trigger] occurrences(
                bodies[k].orbiting@,
                ship_key(ships[s].info.id@),
            ) == if hosted_by(ships[s], bodies[k]) {
                1nat
            } else {
                0nat
            } by {
                assert(occurrences(old_bodies[k].orbiting@, ship_key(old_ships[s].info.id@)) == if hosted_by(
                    old_ships[s],
                    old_bodies[k],
                ) {
                    1nat
                } else {
                    0nat
                });
                if k == b {
                    lemma_occurrences_push(old_bodies[k].orbiting@, ship_key(id@), ship_key(ships[s].info.id@));
                    if s != i {
                        if s < i {
                            assert(old_ships[s].info.id@ != old_ships[i as int].info.id@);
                        } else {
                            assert(old_ships[i as int].info.id@ != old_ships[s].info.id@);
                        }
                    }
                } else if s == i {
                    if k < b {
                        assert(old_bodies[k].id@ != old_bodies[b as int].id@);
                    } else {
                        assert(old_bodies[b as int].id@ != old_bodies[k].id@);
                    }
                }
            }
            assert forall|s: int|
                0 <= s < ships.len() && #[trigger] is_orbiting(ships[s]) implies exists|k: int|
                0 <= k < bodies.len() && hosted_by(ships[s], bodies[k]) by {
                if s != i {
                    assert(is_orbiting(old_ships[s]));
                    let k = choose|k: int| 0 <= k < old_bodies.len() && hosted_by(old_ships[s], old_bodies[k]);
                    assert(hosted_by(ships[s], bodies[k]));
                }
            }
            assert forall|k: int, x: Seq<char>|
                0 <= k < bodies.len() && #[trigger] occurrences(bodies[k].orbiting@, ship_key(x)) > 0
                implies exists|s: int| 0 <= s < ships.len() && ships[s].info.id@ == x by {
                if k == b {
                    lemma_occurrences_push(old_bodies[k].orbiting@, ship_key(id@), ship_key(x));
                    if x == id@ {
                        assert(ships[i as int].info.id@ == x);
                    } else {
                        let s = choose|s: int| 0 <= s < old_ships.len() && old_ships[s].info.id@ == x;
                        assert(ships[s].info.id@ == x);
                    }
                } else {
                    let s = choose|s: int| 0 <= s < old_ships.len() && old_ships[s].info.id@ == x;
                    assert(ships[s].info.id@ == x);
                }
            }
            assert forall|k: int| 0 <= k < bodies.len() implies #[trigger] bodies[k].position.in_range()
                && bodies[k].velocity.in_range() by {
                assert(old_bodies[k].position.in_range());
            }
            assert forall|s: int| 0 <= s < ships.len() implies #[trigger] ships[s].position.in_range()
                && ships[s].velocity.in_range() by {
                assert(old_ships[s].position.in_range());
            }
        }
    }

    /// Returns the craft `id` to free propagation: its orbit, host and
    /// membership in its host's set go together, and its influencers are
    /// resolved afresh from its current position. An unknown identity leaves
    /// the world as it is.
    pub fn handle_switch_to_edit_mode(&mut self, id: &ShipID)
        requires
            old(self).wf(),
        ensures
            final(self).wf(),
            final(self).primary == old(self).primary,
            final(self).orbit_check == old(self).orbit_check,
            !old(self).has_ship(id@) ==> final(self).ships.0@ == old(self).ships.0@ && final(self).bodies@
                == old(self).bodies@,
            old(self).has_ship(id@) ==> {
                let i = ship_index(old(self).ships.0@, id@);
                &&& final(self).ships.0@.len() == old(self).ships.0@.len()
                &&& reverted(final(self).ships.0@[i], old(self).ships.0@[i], old(self).bodies@, old(self).primary@)
                &&& forall|k: int| 0 <= k < old(self).ships.0@.len() && k != i ==> final(self).ships.0@[k]
                    == old(self).ships.0@[k]
                &&& all_detached(final(self).bodies@, old(self).bodies@, id@)
            },
    {
        proof {
            lemma_ship_index(self.ships.0@, id@);
        }
        let i = match self.find_ship(id) {
            None => return,
            Some(i) => i,
        };
        let ghost old_world = *self;
        let ghost old_ships = self.ships.0@;
        let influence = Influenced::new(&self.ships.0[i].position, &self.bodies, &self.primary);
        self.detach(id);
        let ship = self.ships.0.remove(i);
        let Ship { info, position, velocity, motion: _, schedule } = ship;
        self.ships.0.insert(
            i,
            Ship { info, position, velocity, motion: ShipMotion::Propagated { influence }, schedule },
        );
        proof {
            let ships = self.ships.0@;
            assert(old_ships[i as int].info.id@ == id@);
            assert(forall|k: int| 0 <= k < ships.len() && k != i ==> ships[k] == old_ships[k]);
            let old_of = |k: int| k;
            assert forall|k: int| 0 <= k < ships.len() implies 0 <= #[trigger] old_of(k) < old_ships.len()
                && ships[k].info.id@ == old_ships[old_of(k)].info.id@ && ships[k].position.in_range()
                && ships[k].velocity.in_range() by {
                assert(old_ships[k].position.in_range());
            }
            assert forall|k: int| 0 <= k < ships.len() && ships[k].info.id@ != id@ implies same_standing(
                ships[k],
                old_ships[#[trigger] old_of(k)],
            ) by {
                assert(old_ships[k].position.in_range());
            }
            assert forall|j: int| 0 <= j < old_ships.len() && old_ships[j].info.id@ != id@ implies exists|k: int|
                0 <= k < ships.len() && #[trigger] old_of(k) == j by {
                assert(old_of(j) == j);
            }
            assert forall|k: int| 0 <= k < ships.len() && (#[trigger] ships[k]).info.id@ == id@ implies ships[k].motion is Propagated by {
                if k != i {
                    if k < i {
                        assert(old_ships[k].info.id@ != old_ships[i as int].info.id@);
                    } else {
                        assert(old_ships[i as int].info.id@ != old_ships[k].info.id@);
                    }
                }
            }
            old_world.lemma_detached_wf(*self, id@, old_of);
        }
    }

    /// Taking the craft `id` out of every orbiting set keeps a world well
    /// formed, where each craft of `nw` is the craft of `self` at `old_of` of
    /// its index, unchanged in standing, except that `id` (if it stays) is
    /// Propagated; no two craft share a source, and every craft but `id` is
    /// the source of one.
    pub proof fn lemma_detached_wf(self, nw: World<E>, id: Seq<char>, old_of: spec_fn(int) -> int)
        requires
            self.wf(),
            all_detached(nw.bodies@, self.bodies@, id),
            forall|k: int|
                0 <= k < nw.ships.0@.len() ==> 0 <= #[trigger] old_of(k) < self.ships.0@.len()
                    && nw.ships.0@[k].info.id@ == self.ships.0@[old_of(k)].info.id@
                    && nw.ships.0@[k].position.in_range() && nw.ships.0@[k].velocity.in_range(),
            forall|k: int|
                0 <= k < nw.ships.0@.len() && nw.ships.0@[k].info.id@ != id ==> same_standing(
                    nw.ships.0@[k],
                    self.ships.0@[#[trigger] old_of(k)],
                ),
            forall|k: int| 0 <= k < nw.ships.0@.len() && (#[trigger] nw.ships.0@[k]).info.id@ == id ==> nw.ships.0@[k].motion is Propagated,
            forall|k1: int, k2: int|
                0 <= k1 < k2 < nw.ships.0@.len() ==> #[trigger] old_of(k1) != #[trigger] old_of(k2),
            forall|j: int|
                0 <= j < self.ships.0@.len() && self.ships.0@[j].info.id@ != id ==> exists|k: int|
                    0 <= k < nw.ships.0@.len() && #[trigger] old_of(k) == j,
        ensures
            nw.wf(),
    {
        let ships = nw.ships.0@;
        let bodies = nw.bodies@;
        let old_ships = self.ships.0@;
        let old_bodies = self.bodies@;
        assert forall|a: int, c: int| 0 <= a < c < bodies.len() implies bodies[a].id@ != bodies[c].id@ by {
            assert(detached(bodies[a], old_bodies[a], id));
            assert(detached(bodies[c], old_bodies[c], id));
        }
        assert forall|a: int, c: int| 0 <= a < c < ships.len() implies ships[a].info.id@ != ships[c].info.id@ by {
            let (a0, c0) = (old_of(a), old_of(c));
            assert(a0 != c0);
            if a0 < c0 {
                assert(old_ships[a0].info.id@ != old_ships[c0].info.id@);
            } else {
                assert(old_ships[c0].info.id@ != old_ships[a0].info.id@);
            }
        }
        assert forall|s: int, b: int|
            0 <= s < ships.len() && 0 <= b < bodies.len() implies #[trigger] occurrences(
            bodies[b].orbiting@,
            ship_key(ships[s].info.id@),
        ) == if hosted_by(ships[s], bodies[b]) {
            1nat
        } else {
            0nat
        } by {
            let s0 = old_of(s);
            assert(detached(bodies[b], old_bodies[b], id));
            lemma_occurrences_without(old_bodies[b].orbiting@, ship_key(id), ship_key(ships[s].info.id@));
            if ships[s].info.id@ != id {
                assert(same_standing(ships[s], old_ships[s0]));
                assert(occurrences(old_bodies[b].orbiting@, ship_key(old_ships[s0].info.id@)) == if hosted_by(
                    old_ships[s0],
                    old_bodies[b],
                ) {
                    1nat
                } else {
                    0nat
                });
            }
        }
        assert forall|s: int|
            0 <= s < ships.len() && #[trigger] is_orbiting(ships[s]) implies exists|b: int|
            0 <= b < bodies.len() && hosted_by(ships[s], bodies[b]) by {
            let s0 = old_of(s);
            assert(ships[s].info.id@ != id);
            assert(same_standing(ships[s], old_ships[s0]));
            assert(is_orbiting(old_ships[s0]));
            let b = choose|b: int| 0 <= b < old_bodies.len() && hosted_by(old_ships[s0], old_bodies[b]);
            assert(detached(bodies[b], old_bodies[b], id));
            assert(hosted_by(ships[s], bodies[b]));
        }
        assert forall|b: int, x: Seq<char>|
            0 <= b < bodies.len() && #[trigger] occurrences(bodies[b].orbiting@, ship_key(x)) > 0 implies exists|
            s: int,
        | 0 <= s < ships.len() && ships[s].info.id@ == x by {
            assert(detached(bodies[b], old_bodies[b], id));
            lemma_occurrences_without(old_bodies[b].orbiting@, ship_key(id), ship_key(x));
            assert(ship_key(id) != ship_key(x));
            let s0 = choose|s0: int| 0 <= s0 < old_ships.len() && old_ships[s0].info.id@ == x;
            let s = choose|s: int| 0 <= s < ships.len() && #[trigger] old_of(s) == s0;
            assert(ships[s].info.id@ == x);
        }
        assert forall|b: int| 0 <= b < bodies.len() implies #[trigger] bodies[b].position.in_range()
            && bodies[b].velocity.in_range() by {
            assert(detached(bodies[b], old_bodies[b], id));
            assert(old_bodies[b].position.in_range());
        }
        assert forall|s: int| 0 <= s < ships.len() implies #[trigger] ships[s].position.in_range()
            && ships[s].velocity.in_range() by {
            assert(0 <= old_of(s) < old_ships.len());
        }
    }

    /// Changing craft only in what `same_standing` allows keeps a world well formed.
    pub proof fn lemma_same_standing(self, nw: World<E>)
        requires
            self.wf(),
            nw.bodies@ == self.bodies@,
            nw.ships.0@.len() == self.ships.0@.len(),
            forall|k: int| 0 <= k < self.ships.0@.len() ==> #[trigger] same_standing(nw.ships.0@[k], self.ships.0@[k]),
        ensures
            nw.wf(),
    {
        let ships = nw.ships.0@;
        let old_ships = self.ships.0@;
        assert forall|a: int, c: int| 0 <= a < c < ships.len() implies ships[a].info.id@ != ships[c].info.id@ by {
            assert(same_standing(ships[a], old_ships[a]));
            assert(same_standing(ships[c], old_ships[c]));
        }
        assert forall|s: int, k: int|
            0 <= s < ships.len() && 0 <= k < nw.bodies@.len() implies #[trigger] occurrences(
            nw.bodies@[k].orbiting@,
            ship_key(ships[s].info.id@),
        ) == if hosted_by(ships[s], nw.bodies@[k]) {
            1nat
        } else {
            0nat
        } by {
            assert(same_standing(ships[s], old_ships[s]));
            assert(occurrences(self.bodies@[k].orbiting@, ship_key(old_ships[s].info.id@)) == if hosted_by(
                old_ships[s],
                self.bodies@[k],
            ) {
                1nat
            } else {
                0nat
            });
        }
        assert forall|s: int|
            0 <= s < ships.len() && #[trigger] is_orbiting(ships[s]) implies exists|k: int|
            0 <= k < nw.bodies@.len() && hosted_by(ships[s], nw.bodies@[k]) by {
            assert(same_standing(ships[s], old_ships[s]));
            assert(is_orbiting(old_ships[s]));
        }
        assert forall|k: int, x: Seq<char>|
            0 <= k < nw.bodies@.len() && #[trigger] occurrences(nw.bodies@[k].orbiting@, ship_key(x)) > 0
            implies exists|s: int| 0 <= s < ships.len() && ships[s].info.id@ == x by {
            let s = choose|s: int| 0 <= s < old_ships.len() && old_ships[s].info.id@ == x;
            assert(same_standing(ships[s], old_ships[s]));
        }
        assert forall|s: int| 0 <= s < ships.len() implies #[trigger] ships[s].position.in_range()
            && ships[s].velocity.in_range() by {
            assert(same_standing(ships[s], old_ships[s]));
        }
    }

    /// For each Propagated craft, in order, its state relative to its main
    /// influencer, resolved afresh from its current position, for the
    /// eccentricity test that decides whether it settles on an orbit. Nothing
    /// when the test is disabled.
    pub fn check_ship_orbits(&self) -> (r: Vec<OrbitCheck>)
        requires
            self.wf(),
        ensures
            r@ == if self.orbit_check.0 {
                Seq::<OrbitCheck>::empty()
            } else {
                orbit_checks(self.ships.0@, self.bodies@, self.primary@)
            },
    {
        let mut r: Vec<OrbitCheck> = Vec::new();
        if self.orbit_check.0 {
            return r;
        }
        let ghost ships = self.ships.0@;
        let mut i: usize = 0;
        while i < self.ships.0.len()
            invariant
                self.wf(),
                ships == self.ships.0@,
                i <= ships.len(),
                r@ == orbit_checks(ships.subrange(0, i as int), self.bodies@, self.primary@),
            decreases ships.len() - i,
        {
            assert(ships.subrange(0, i + 1).drop_last() =~= ships.subrange(0, i as int));
            assert(ships.subrange(0, i + 1).last() == ships[i as int]);
            let ship = &self.ships.0[i];
            match &ship.motion {
                ShipMotion::Propagated { .. } => {
                    let influence = Influenced::new(&ship.position, &self.bodies, &self.primary);
                    proof {
                        lemma_body_index(self.bodies@, influence.main_influencer@);
                    }
                    match self.find_body(&influence.main_influencer) {
                        Some(b) => {
                            let body = &self.bodies[b];
                            assert(ship.position.in_range());
                            assert(body.position.in_range());
                            r.push(
                                OrbitCheck {
                                    ship_id: ship.info.id.clone(),
                                    host: body.id.clone(),
                                    r_vec: ship.position.sub(&body.position),
                                    v_vec: ship.velocity.sub(&body.velocity),
                                },
                            );
                        },
                        None => {},
                    }
                },
                ShipMotion::Orbiting { .. } => {},
            }
            i = i + 1;
        }
        assert(ships.subrange(0, i as int) =~= ships);
        r
    }

    /// The host of the craft `id`, where it is Orbiting.
    pub fn get_host_body(&self, id: &ShipID) -> (r: Option<BodyID>)
        ensures
            match r {
                Some(h) => {
                    let i = ship_index(self.ships.0@, id@);
                    &&& i >= 0
                    &&& self.ships.0@[i].motion is Orbiting
                    &&& h == self.ships.0@[i].motion->Orbiting_host
                },
                None => {
                    let i = ship_index(self.ships.0@, id@);
                    i < 0 || self.ships.0@[i].motion is Propagated
                },
            },
    {
        proof {
            lemma_ship_index(self.ships.0@, id@);
        }
        match self.find_ship(id) {
            None => None,
            Some(i) => match &self.ships.0[i].motion {
                ShipMotion::Orbiting { host, .. } => Some(host.clone()),
                ShipMotion::Propagated { .. } => None,
            },
        }
    }

    /// Resolves afresh the influencers of every Propagated craft from its
    /// current position; spheres move, so this is done every tick.
    pub fn update_influences(&mut self)
        requires
            old(self).wf(),
        ensures
            final(self).wf(),
            final(self).bodies == old(self).bodies,
            final(self).primary == old(self).primary,
            final(self).orbit_check == old(self).orbit_check,
            final(self).ships.0@.len() == old(self).ships.0@.len(),
            forall|k: int| 0 <= k < old(self).ships.0@.len() ==> {
                let s = old(self).ships.0@[k];
                let ns = #[trigger] final(self).ships.0@[k];
                if s.motion is Propagated {
                    reverted(ns, s, old(self).bodies@, old(self).primary@)
                } else {
                    ns == s
                }
            },
            final(self).influences_current(),
    {
        let ghost old_world = *self;
        let ghost old_ships = self.ships.0@;
        let mut i: usize = 0;
        while i < self.ships.0.len()
            invariant
                i <= self.ships.0@.len(),
                self.ships.0@.len() == old_ships.len(),
                old_ships == old_world.ships.0@,
                old_world.wf(),
                self.bodies == old_world.bodies,
                self.primary == old_world.primary,
                self.orbit_check == old_world.orbit_check,
                self.bodies == old(self).bodies,
                self.primary == old(self).primary,
                self.orbit_check == old(self).orbit_check,
                old_world == *old(self),
                forall|k: int| 0 <= k < i ==> {
                    let s = old_ships[k];
                    let ns = #[trigger] self.ships.0@[k];
                    if s.motion is Propagated {
                        reverted(ns, s, old_world.bodies@, old_world.primary@)
                    } else {
                        ns == s
                    }
                },
                forall|k: int| i <= k < old_ships.len() ==> #[trigger] self.ships.0@[k] == old_ships[k],
            decreases old_ships.len() - i,
        {
            let ghost before = self.ships.0@;
            if let ShipMotion::Propagated { .. } = &self.ships.0[i].motion {
                let influence = Influenced::new(&self.ships.0[i].position, &self.bodies, &self.primary);
                let ship = self.ships.0.remove(i);
                let Ship { info, position, velocity, motion: _, schedule } = ship;
                self.ships.0.insert(
                    i,
                    Ship { info, position, velocity, motion: ShipMotion::Propagated { influence }, schedule },
                );
                proof {
                    assert forall|k: int| 0 <= k < self.ships.0@.len() && k != i implies self.ships.0@[k] == before[k] by {}
                }
            }
            i = i + 1;
        }
        proof {
            assert forall|k: int| 0 <= k < old_ships.len() implies #[trigger] same_standing(self.ships.0@[k], old_ships[k]) by {
                assert(old_ships[k].position.in_range());
            }
            old_world.lemma_same_standing(*self);
        }
    }

    /// A world with the bodies `bodies` and no craft, where the catalog is
    /// acceptable (see `catalog_ok`).
    pub fn new(bodies: Vec<Body>, primary: BodyID, orbit_check: DisableShipOrbitCheck) -> (r: Option<World<E>>)
        ensures
            r is Some <==> catalog_ok(bodies@),
            r matches Some(w) ==> {
                &&& w.wf()
                &&& w.bodies@ == bodies@
                &&& w.primary == primary
                &&& w.orbit_check == orbit_check
                &&& w.ships.0@.len() == 0
            },
    {
        let n = bodies.len();
        let mut i: usize = 0;
        while i < n
            invariant
                n == bodies@.len(),
                i <= n,
                forall|a: int, c: int| 0 <= a < c < n && a < i ==> bodies@[a].id@ != bodies@[c].id@,
                forall|b: int| 0 <= b < i ==> #[trigger] bodies@[b].position.in_range() && bodies@[b].velocity.in_range(),
                forall|b: int, k: int| 0 <= b < i && 0 <= k < bodies@[b].orbiting@.len() ==> #[trigger] bodies@[b].orbiting@[k] is Body,
            decreases n - i,
        {
            if !bodies[i].position.is_in_range() || !bodies[i].velocity.is_in_range() || !all_bodies(&bodies[i].orbiting) {
                return None;
            }
            let mut j: usize = i + 1;
            while j < n
                invariant
                    n == bodies@.len(),
                    i < j <= n,
                    forall|c: int| i < c < j ==> bodies@[i as int].id@ != bodies@[c].id@,
                decreases n - j,
            {
                if bodies[i].id.eq(&bodies[j].id) {
                    return None;
                }
                j = j + 1;
            }
            i = i + 1;
        }
        let w = World { bodies, primary, ships: ShipsMapping(Vec::new()), orbit_check };
        proof {
            assert forall|b: int, x: Seq<char>|
                0 <= b < w.bodies@.len() implies #[trigger] occurrences(w.bodies@[b].orbiting@, ship_key(x)) == 0 by {
                lemma_no_ship_entries(w.bodies@[b].orbiting@, x);
            }
        }
        Some(w)
    }

    /// Sets the position and velocity of the craft `id`, as the integrator
    /// advanced them. An unknown identity leaves the world as it is.
    pub fn move_ship(&mut self, id: &ShipID, position: Vec3, velocity: Vec3)
        requires
            old(self).wf(),
            position.in_range(),
            velocity.in_range(),
        ensures
            final(self).wf(),
            final(self).bodies == old(self).bodies,
            final(self).primary == old(self).primary,
            final(self).orbit_check == old(self).orbit_check,
            final(self).ships.0@.len() == old(self).ships.0@.len(),
            forall|k: int| 0 <= k < old(self).ships.0@.len() ==> {
                let s = old(self).ships.0@[k];
                let ns = #[trigger] final(self).ships.0@[k];
                if s.info.id@ == id@ {
                    &&& ns.info == s.info
                    &&& ns.motion == s.motion
                    &&& ns.schedule == s.schedule
                    &&& ns.position == position
                    &&& ns.velocity == velocity
                } else {
                    ns == s
                }
            },
    {
        proof {
            lemma_ship_index(self.ships.0@, id@);
        }
        let ghost old_world = *self;
        let i = match self.find_ship(id) {
            None => return,
            Some(i) => i,
        };
        let ship = self.ships.0.remove(i);
        let Ship { info, position: _, velocity: _, motion, schedule } = ship;
        self.ships.0.insert(i, Ship { info, position, velocity, motion, schedule });
        proof {
            let old_ships = old_world.ships.0@;
            assert forall|k: int| 0 <= k < old_ships.len() && k != i implies old_ships[k].info.id@ != id@ by {
                if k < i {
                    assert(old_ships[k].info.id@ != old_ships[i as int].info.id@);
                } else {
                    assert(old_ships[i as int].info.id@ != old_ships[k].info.id@);
                }
            }
            assert forall|k: int| 0 <= k < old_ships.len() implies #[trigger] same_standing(self.ships.0@[k], old_ships[k]) by {
                assert(old_ships[k].position.in_range());
            }
            old_world.lemma_same_standing(*self);
        }
    }

    /// Sets the position and velocity of the body `id`. An unknown identity
    /// leaves the world as it is.
    pub fn move_body(&mut self, id: &BodyID, position: Vec3, velocity: Vec3)
        requires
            old(self).wf(),
            position.in_range(),
            velocity.in_range(),
        ensures
            final(self).wf(),
            final(self).ships == old(self).ships,
            final(self).primary == old(self).primary,
            final(self).orbit_check == old(self).orbit_check,
            final(self).bodies@.len() == old(self).bodies@.len(),
            forall|k: int| 0 <= k < old(self).bodies@.len() ==> {
                let b = old(self).bodies@[k];
                let nb = #[trigger] final(self).bodies@[k];
                if b.id@ == id@ {
                    &&& nb.id == b.id
                    &&& nb.hill_radius == b.hill_radius
                    &&& nb.orbiting == b.orbiting
                    &&& nb.position == position
                    &&& nb.velocity == velocity
                } else {
                    nb == b
                }
            },
    {
        proof {
            lemma_body_index(self.bodies@, id@);
        }
        let ghost old_world = *self;
        let b = match self.find_body(id) {
            None => return,
            Some(b) => b,
        };
        let body = self.bodies.remove(b);
        let Body { id: bid, position: _, velocity: _, hill_radius, orbiting } = body;
        self.bodies.insert(b, Body { id: bid, position, velocity, hill_radius, orbiting });
        proof {
            let ob = old_world.bodies@;
            let nb = self.bodies@;
            assert forall|k: int| 0 <= k < ob.len() && k != b implies ob[k].id@ != id@ by {
                if k < b {
                    assert(ob[k].id@ != ob[b as int].id@);
                } else {
                    assert(ob[b as int].id@ != ob[k].id@);
                }
            }
            assert(forall|k: int| 0 <= k < nb.len() && k != b ==> nb[k] == ob[k]);
            assert forall|a: int, c: int| 0 <= a < c < nb.len() implies nb[a].id@ != nb[c].id@ by {
                assert(ob[a].id@ != ob[c].id@);
            }
            let ships = self.ships.0@;
            assert forall|s: int, k: int|
                0 <= s < ships.len() && 0 <= k < nb.len() implies #[trigger] occurrences(
                nb[k].orbiting@,
                ship_key(ships[s].info.id@),
            ) == if hosted_by(ships[s], nb[k]) {
                1nat
            } else {
                0nat
            } by {
                assert(occurrences(ob[k].orbiting@, ship_key(ships[s].info.id@)) == if hosted_by(ships[s], ob[k]) {
                    1nat
                } else {
                    0nat
                });
            }
            assert forall|s: int|
                0 <= s < ships.len() && #[trigger] is_orbiting(ships[s]) implies exists|k: int|
                0 <= k < nb.len() && hosted_by(ships[s], nb[k]) by {
                let k = choose|k: int| 0 <= k < ob.len() && hosted_by(ships[s], ob[k]);
                assert(hosted_by(ships[s], nb[k]));
            }
            assert forall|k: int, x: Seq<char>|
                0 <= k < nb.len() && #[trigger] occurrences(nb[k].orbiting@, ship_key(x)) > 0
                implies exists|s: int| 0 <= s < ships.len() && ships[s].info.id@ == x by {
                assert(occurrences(ob[k].orbiting@, ship_key(x)) > 0);
            }
            assert forall|k: int| 0 <= k < nb.len() implies #[trigger] nb[k].position.in_range()
                && nb[k].velocity.in_range() by {
                assert(ob[k].position.in_range());
            }
        }
    }

    /// Appends the action of `ev` to the schedule of its craft. An unknown
    /// craft drops the request.
    pub fn handle_add_action_to_schedule(&mut self, ev: AddAction)
        requires
            old(self).wf(),
        ensures
            final(self).wf(),
            final(self).bodies == old(self).bodies,
            final(self).primary == old(self).primary,
            final(self).orbit_check == old(self).orbit_check,
            final(self).ships.0@.len() == old(self).ships.0@.len(),
            forall|k: int| 0 <= k < old(self).ships.0@.len() ==> {
                let s = old(self).ships.0@[k];
                let ns = #[trigger] final(self).ships.0@[k];
                if s.info.id@ == ev.ship_id@ {
                    &&& ns.info == s.info
                    &&& ns.motion == s.motion
                    &&& ns.position == s.position
                    &&& ns.velocity == s.velocity
                    &&& ns.schedule.0@ == s.schedule.0@.push((ev.tick, ev.action))
                } else {
                    ns == s
                }
            },
    {
        proof {
            lemma_ship_index(self.ships.0@, ev.ship_id@);
        }
        let ghost old_world = *self;
        let i = match self.find_ship(&ev.ship_id) {
            None => return,
            Some(i) => i,
        };
        let AddAction { ship_id: _, tick, action } = ev;
        let mut ship = self.ships.0.remove(i);
        ship.schedule.push(tick, action);
        self.ships.0.insert(i, ship);
        proof {
            let old_ships = old_world.ships.0@;
            assert forall|k: int| 0 <= k < old_ships.len() && k != i implies old_ships[k].info.id@ != ev.ship_id@ by {
                if k < i {
                    assert(old_ships[k].info.id@ != old_ships[i as int].info.id@);
                } else {
                    assert(old_ships[i as int].info.id@ != old_ships[k].info.id@);
                }
            }
            assert forall|k: int| 0 <= k < old_ships.len() implies #[trigger] same_standing(self.ships.0@[k], old_ships[k]) by {
                assert(old_ships[k].position.in_range());
            }
            old_world.lemma_same_standing(*self);
        }
    }

    /// Drains, craft by craft, every scheduled action due at tick `now`, and
    /// returns one event for each; each craft keeps its other actions.
    pub fn handle_schedules(&mut self, now: u64) -> (events: Vec<TrajectoryEvent>)
        requires
            old(self).wf(),
        ensures
            final(self).wf(),
            final(self).bodies == old(self).bodies,
            final(self).primary == old(self).primary,
            final(self).orbit_check == old(self).orbit_check,
            final(self).ships.0@.len() == old(self).ships.0@.len(),
            forall|k: int| 0 <= k < old(self).ships.0@.len() ==> {
                let s = old(self).ships.0@[k];
                let ns = #[trigger] final(self).ships.0@[k];
                &&& ns.info == s.info
                &&& ns.motion == s.motion
                &&& ns.position == s.position
                &&& ns.velocity == s.velocity
                &&& ns.schedule.0@ == pending_entries(s.schedule.0@, now)
            },
            events@ == fired_all(old(self).ships.0@, now),
    {
        let ghost old_world = *self;
        let ghost old_ships = self.ships.0@;
        let mut events: Vec<TrajectoryEvent> = Vec::new();
        let mut i: usize = 0;
        while i < self.ships.0.len()
            invariant
                i <= self.ships.0@.len(),
                self.ships.0@.len() == old_ships.len(),
                old_ships == old_world.ships.0@,
                old_world == *old(self),
                self.bodies == old(self).bodies,
                self.primary == old(self).primary,
                self.orbit_check == old(self).orbit_check,
                forall|k: int| 0 <= k < i ==> {
                    let s = old_ships[k];
                    let ns = #[trigger] self.ships.0@[k];
                    &&& ns.info == s.info
                    &&& ns.motion == s.motion
                    &&& ns.position == s.position
                    &&& ns.velocity == s.velocity
                    &&& ns.schedule.0@ == pending_entries(s.schedule.0@, now)
                },
                forall|k: int| i <= k < old_ships.len() ==> #[trigger] self.ships.0@[k] == old_ships[k],
                events@ == fired_all(old_ships.subrange(0, i as int), now),
            decreases old_ships.len() - i,
        {
            let ghost before = self.ships.0@;
            assert(old_ships.subrange(0, i + 1).drop_last() =~= old_ships.subrange(0, i as int));
            assert(old_ships.subrange(0, i + 1).last() == old_ships[i as int]);
            let mut ship = self.ships.0.remove(i);
            let mut fired = ship.schedule.handle_schedules(&ship.info.id, now);
            self.ships.0.insert(i, ship);
            events.append(&mut fired);
            proof {
                assert forall|k: int| 0 <= k < self.ships.0@.len() && k != i implies self.ships.0@[k] == before[k] by {}
            }
            i = i + 1;
        }
        proof {
            assert(old_ships.subrange(0, i as int) =~= old_ships);
            assert forall|k: int| 0 <= k < old_ships.len() implies #[trigger] same_standing(self.ships.0@[k], old_ships[k]) by {
                assert(old_ships[k].position.in_range());
            }
            old_world.lemma_same_standing(*self);
        }
        events
    }
}

/// The influencer list of an object is never empty: where no sphere holds
/// it, the primary body stands alone.
pub proof fn lemma_influencers_nonempty(cat: Seq<Body>, p: Vec3, primary: Seq<char>)
    ensures
        influencer_ids(cat, p, primary).len() > 0,
{
}

impl<E> World<E> {
    /// An Orbiting craft appears exactly once in its host's orbiting set and
    /// in no other set.
    pub proof fn lemma_orbiting_in_one_set(self, i: int)
        requires
            self.wf(),
            0 <= i < self.ships.0@.len(),
            self.ships.0@[i].motion is Orbiting,
        ensures
            ({
                let b = body_index(self.bodies@, self.ships.0@[i].motion->Orbiting_host@);
                &&& b >= 0
                &&& occurrences(self.bodies@[b].orbiting@, ship_key(self.ships.0@[i].info.id@)) == 1
                &&& forall|k: int|
                    0 <= k < self.bodies@.len() && k != b ==> #[trigger] occurrences(
                        self.bodies@[k].orbiting@,
                        ship_key(self.ships.0@[i].info.id@),
                    ) == 0
            }),
    {
        let s = self.ships.0@[i];
        let host = s.motion->Orbiting_host;
        lemma_body_index(self.bodies@, host@);
        assert(is_orbiting(s));
        let k0 = choose|k: int| 0 <= k < self.bodies@.len() && hosted_by(s, self.bodies@[k]);
        let b = body_index(self.bodies@, host@);
        assert(b >= 0);
        assert(hosted_by(s, self.bodies@[b]));
        assert(occurrences(self.bodies@[b].orbiting@, ship_key(s.info.id@)) == 1);
        assert forall|k: int| 0 <= k < self.bodies@.len() && k != b implies #[trigger] occurrences(
            self.bodies@[k].orbiting@,
            ship_key(s.info.id@),
        ) == 0 by {
            if k < b {
                assert(self.bodies@[k].id@ != self.bodies@[b].id@);
            } else {
                assert(self.bodies@[b].id@ != self.bodies@[k].id@);
            }
            assert(!hosted_by(s, self.bodies@[k]));
        }
    }

    /// A Propagated craft appears in no orbiting set.
    pub proof fn lemma_propagated_in_no_set(self, i: int)
        requires
            self.wf(),
            0 <= i < self.ships.0@.len(),
            self.ships.0@[i].motion is Propagated,
        ensures
            forall|k: int|
                0 <= k < self.bodies@.len() ==> #[trigger] occurrences(
                    self.bodies@[k].orbiting@,
                    ship_key(self.ships.0@[i].info.id@),
                ) == 0,
    {
        assert forall|k: int| 0 <= k < self.bodies@.len() implies #[trigger] occurrences(
            self.bodies@[k].orbiting@,
            ship_key(self.ships.0@[i].info.id@),
        ) == 0 by {
            assert(!hosted_by(self.ships.0@[i], self.bodies@[k]));
        }
    }
}

/// What the orbit test reads of a craft depends on its identity, position,
/// velocity and state kind alone, never on influencers stored earlier.
proof fn lemma_check_of_stable<E>(ns: Ship<E>, s: Ship<E>, cat: Seq<Body>, primary: Seq<char>)
    requires
        ns.info.id == s.info.id,
        ns.position == s.position,
        ns.velocity == s.velocity,
        ns.motion is Propagated <==> s.motion is Propagated,
    ensures
        check_of(ns, cat, primary) == check_of(s, cat, primary),
{
}

proof fn lemma_orbit_checks_stable<E>(nss: Seq<Ship<E>>, ss: Seq<Ship<E>>, cat: Seq<Body>, primary: Seq<char>)
    requires
        nss.len() == ss.len(),
        forall|k: int|
            0 <= k < ss.len() ==> {
                &&& (#[trigger] nss[k]).info.id == ss[k].info.id
                &&& nss[k].position == ss[k].position
                &&& nss[k].velocity == ss[k].velocity
                &&& nss[k].motion is Propagated <==> ss[k].motion is Propagated
            },
    ensures
        orbit_checks(nss, cat, primary) == orbit_checks(ss, cat, primary),
    decreases ss.len(),
{
    if ss.len() > 0 {
        let k = ss.len() - 1;
        assert(nss[k].info.id == ss[k].info.id);
        lemma_check_of_stable(nss[k], ss[k], cat, primary);
        lemma_orbit_checks_stable(nss.drop_last(), ss.drop_last(), cat, primary);
    }
}

impl<E> World<E> {
    /// A tick in which nothing moves changes nothing the orbit test reads:
    /// refreshing the influencers (as `update_influences` does) leaves each
    /// craft's relative state and host as they were.
    pub proof fn lemma_idle_tick_keeps_checks(self, nw: World<E>)
        requires
            self.wf(),
            nw.bodies == self.bodies,
            nw.primary == self.primary,
            nw.orbit_check == self.orbit_check,
            nw.ships.0@.len() == self.ships.0@.len(),
            forall|k: int| 0 <= k < self.ships.0@.len() ==> {
                let s = self.ships.0@[k];
                let ns = #[trigger] nw.ships.0@[k];
                if s.motion is Propagated {
                    reverted(ns, s, self.bodies@, self.primary@)
                } else {
                    ns == s
                }
            },
        ensures
            orbit_checks(nw.ships.0@, nw.bodies@, nw.primary@) == orbit_checks(
                self.ships.0@,
                self.bodies@,
                self.primary@,
            ),
    {
        let ss = self.ships.0@;
        let nss = nw.ships.0@;
        assert forall|k: int| 0 <= k < ss.len() implies {
            &&& (#[trigger] nss[k]).info.id == ss[k].info.id
            &&& nss[k].position == ss[k].position
            &&& nss[k].velocity == ss[k].velocity
            &&& nss[k].motion is Propagated <==> ss[k].motion is Propagated
        } by {
            let ns = nss[k];
            if ss[k].motion is Propagated {
                assert(reverted(ns, ss[k], self.bodies@, self.primary@));
            }
        }
        lemma_orbit_checks_stable(nss, ss, self.bodies@, self.primary@);
    }
}

} // verus!

use vstd::prelude::*;

use crate::{BodyID, ShipID};

verus! {

/// Identity of anything that can orbit a body.
#[derive(Clone, Debug, PartialEq)]
pub enum OrbitalObjID {
    Body(BodyID),
    Ship(ShipID),
}

/// What an `OrbitalObjID` identifies, as plain values.
pub enum ObjKey {
    Body(Seq<char>),
    Ship(Seq<char>),
}

impl View for OrbitalObjID {
    type V = ObjKey;

    open spec fn view(&self) -> ObjKey {
        match self {
            OrbitalObjID::Body(b) => ObjKey::Body(b@),
            OrbitalObjID::Ship(s) => ObjKey::Ship(s@),
        }
    }
}

/// The objects currently orbiting one host, in the order they arrived.
#[derive(Clone, Debug, PartialEq)]
pub struct OrbitingObjects(pub Vec<OrbitalObjID>);

impl View for OrbitingObjects {
    type V = Seq<ObjKey>;

    open spec fn view(&self) -> Seq<ObjKey> {
        self.0@.map_values(|o: OrbitalObjID| o@)
    }
}

/// How many times `x` appears in `s`.
pub open spec fn occurrences(s: Seq<ObjKey>, x: ObjKey) -> nat
    decreases s.len(),
{
    if s.len() == 0 {
        0
    } else {
        occurrences(s.drop_last(), x) + if s.last() == x { 1nat } else { 0nat }
    }
}

/// `s` with every occurrence of `x` taken out, the rest in order.
pub open spec fn without(s: Seq<ObjKey>, x: ObjKey) -> Seq<ObjKey>
    decreases s.len(),
{
    if s.len() == 0 {
        s
    } else if s.last() == x {
        without(s.drop_last(), x)
    } else {
        without(s.drop_last(), x).push(s.last())
    }
}

pub proof fn lemma_occurrences_push(s: Seq<ObjKey>, a: ObjKey, x: ObjKey)
    ensures
        occurrences(s.push(a), x) == occurrences(s, x) + if a == x { 1nat } else { 0nat },
{
    assert(s.push(a).drop_last() =~= s);
}

pub proof fn lemma_occurrences_without(s: Seq<ObjKey>, a: ObjKey, x: ObjKey)
    ensures
        occurrences(without(s, a), x) == if a == x { 0 } else { occurrences(s, x) },
    decreases s.len(),
{
    if s.len() > 0 {
        lemma_occurrences_without(s.drop_last(), a, x);
        if s.last() != a {
            lemma_occurrences_push(without(s.drop_last(), a), s.last(), x);
        }
    }
}

fn same_obj(a: &OrbitalObjID, b: &OrbitalObjID) -> (r: bool)
    ensures
        r == (a@ == b@),
{
    match (a, b) {
        (OrbitalObjID::Body(x), OrbitalObjID::Body(y)) => x.eq(y),
        (OrbitalObjID::Ship(x), OrbitalObjID::Ship(y)) => x.eq(y),
        _ => false,
    }
}

impl OrbitingObjects {
    /// The set of a body's catalog satellites, in catalog order.
    pub fn to_orbiting_objects(orbiting_bodies: &Vec<BodyID>) -> (r: Self)
        ensures
            r@ == orbiting_bodies@.map_values(|b: BodyID| ObjKey::Body(b@)),
    {
        let mut v: Vec<OrbitalObjID> = Vec::new();
        let mut i: usize = 0;
        while i < orbiting_bodies.len()
            invariant
                i <= orbiting_bodies.len(),
                v.len() == i,
                forall|j: int| 0 <= j < i ==> v@[j]@ == ObjKey::Body(orbiting_bodies@[j]@),
            decreases orbiting_bodies.len() - i,
        {
            v.push(OrbitalObjID::Body(orbiting_bodies[i].clone()));
            i = i + 1;
        }
        let r = OrbitingObjects(v);
        assert(r@ =~= orbiting_bodies@.map_values(|b: BodyID| ObjKey::Body(b@)));
        r
    }

    pub fn len(&self) -> (r: usize)
        ensures
            r == self@.len(),
    {
        self.0.len()
    }

    /// Whether `x` is among the objects.
    pub fn contains(&self, x: &OrbitalObjID) -> (r: bool)
        ensures
            r == self@.contains(x@),
    {
        let mut i: usize = 0;
        while i < self.0.len()
            invariant
                i <= self.0.len(),
                forall|j: int| 0 <= j < i ==> self@[j] != x@,
            decreases self.0.len() - i,
        {
            if same_obj(&self.0[i], x) {
                assert(self@[i as int] == x@);
                return true;
            }
            i = i + 1;
        }
        false
    }

    /// Appends `x`.
    pub fn push(&mut self, x: OrbitalObjID)
        ensures
            final(self)@ == old(self)@.push(x@),
    {
        self.0.push(x);
        assert(self@ =~= old(self)@.push(x@));
    }

    /// Takes out every occurrence of `x`, keeping the others in order.
    pub fn remove(&mut self, x: &OrbitalObjID)
        ensures
            final(self)@ == without(old(self)@, x@),
    {
        let ghost s = self@;
        let mut kept = OrbitingObjects(Vec::new());
        let mut i: usize = 0;
        while i < self.0.len()
            invariant
                i <= self.0.len(),
                s == self@,
                kept@ == without(s.subrange(0, i as int), x@),
            decreases self.0.len() - i,
        {
            assert(s.subrange(0, i + 1).drop_last() =~= s.subrange(0, i as int));
            if !same_obj(&self.0[i], x) {
                kept.0.push(self.0[i].clone_id());
                assert(kept@ =~= without(s.subrange(0, i as int), x@).push(s[i as int]));
            }
            i = i + 1;
        }
        assert(s.subrange(0, i as int) =~= s);
        *self = kept;
    }
}

impl OrbitalObjID {
    pub fn clone_id(&self) -> (r: OrbitalObjID)
        ensures
            r@ == self@,
    {
        match self {
            OrbitalObjID::Body(b) => OrbitalObjID::Body(b.clone()),
            OrbitalObjID::Ship(s) => OrbitalObjID::Ship(s.clone()),
        }
    }
}

} // verus!

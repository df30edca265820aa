use vstd::prelude::*;

use crate::vector::Vec3;
use crate::{BodyID, ShipID};

verus! {

/// An authored change to a craft's trajectory.
#[derive(Clone, Debug, PartialEq)]
pub struct ManeuverNode {
    pub name: String,
    pub thrust: Vec3,
    /// The body the thrust was authored relative to.
    pub origin: BodyID,
}

/// What a scheduled entry does once its tick is reached.
#[derive(Clone, Debug, PartialEq)]
pub enum ShipActionKind {
    AddNode { node: ManeuverNode },
}

/// Requests to the trajectory editor.
#[derive(Clone, Debug, PartialEq)]
pub enum TrajectoryEvent {
    AddNode { ship: ShipID, node: ManeuverNode, tick: u64 },
    AddAutoThrust { ship: ShipID, node_list: Vec<ManeuverNode>, tick_interval: u64 },
    RemoveAutoThrust { ship: ShipID, tick_interval: u64 },
}

/// A request to schedule `action` for the craft `ship_id` at `tick`.
#[derive(Clone, Debug, PartialEq)]
pub struct AddAction {
    pub ship_id: ShipID,
    pub tick: u64,
    pub action: ShipActionKind,
}

/// The pending actions of one craft, as (tick, action) pairs. Their order is
/// the order in which they were added; ticks need not be unique.
#[derive(Debug)]
pub struct ShipSchedule(pub Vec<(u64, ShipActionKind)>);

pub type ScheduleEntry = (u64, ShipActionKind);

/// The event that a due entry releases for the craft `ship`.
pub open spec fn event_of(ship: ShipID, e: ScheduleEntry) -> TrajectoryEvent {
    match e.1 {
        ShipActionKind::AddNode { node } => TrajectoryEvent::AddNode { ship, node, tick: e.0 },
    }
}

/// The entries of `s` that are due at tick `now`, in their order.
pub open spec fn due_entries(s: Seq<ScheduleEntry>, now: u64) -> Seq<ScheduleEntry>
    decreases s.len(),
{
    if s.len() == 0 {
        s
    } else if s.last().0 <= now {
        due_entries(s.drop_last(), now).push(s.last())
    } else {
        due_entries(s.drop_last(), now)
    }
}

/// The entries of `s` that are not yet due at tick `now`, in their order.
pub open spec fn pending_entries(s: Seq<ScheduleEntry>, now: u64) -> Seq<ScheduleEntry>
    decreases s.len(),
{
    if s.len() == 0 {
        s
    } else if s.last().0 <= now {
        pending_entries(s.drop_last(), now)
    } else {
        pending_entries(s.drop_last(), now).push(s.last())
    }
}

/// The events released for `ship` by the entries of `s` due at `now`, in order.
pub open spec fn fired_events(s: Seq<ScheduleEntry>, now: u64, ship: ShipID) -> Seq<TrajectoryEvent> {
    due_entries(s, now).map_values(|e: ScheduleEntry| event_of(ship, e))
}

/// Turns a due entry into the event sent to the trajectory editor.
pub fn convert_kind(tick: u64, kind: ShipActionKind, ship: &ShipID) -> (r: TrajectoryEvent)
    ensures
        r == event_of(*ship, (tick, kind)),
{
    match kind {
        ShipActionKind::AddNode { node } => TrajectoryEvent::AddNode {
            ship: ship.clone(),
            node,
            tick,
        },
    }
}

impl ShipSchedule {
    pub fn new() -> (r: ShipSchedule)
        ensures
            r.0@ == Seq::<ScheduleEntry>::empty(),
    {
        ShipSchedule(Vec::new())
    }

    /// Appends an entry; a tick in the past fires on the next scan.
    pub fn push(&mut self, tick: u64, action: ShipActionKind)
        ensures
            final(self).0@ == old(self).0@.push((tick, action)),
    {
        self.0.push((tick, action));
    }

    /// Removes every entry whose tick is at most `now` and returns one event
    /// for each, in schedule order; the other entries stay, in their order.
    pub fn handle_schedules(&mut self, ship: &ShipID, now: u64) -> (events: Vec<TrajectoryEvent>)
        ensures
            final(self).0@ == pending_entries(old(self).0@, now),
            events@ == fired_events(old(self).0@, now, *ship),
    {
        let ghost s = self.0@;
        let ghost mut k: int = 0;
        let mut events: Vec<TrajectoryEvent> = Vec::new();
        let mut i: usize = 0;
        while i < self.0.len()
            invariant
                0 <= i <= k <= s.len(),
                self.0@.len() == i + (s.len() - k),
                self.0@.subrange(0, i as int) == pending_entries(s.subrange(0, k), now),
                self.0@.subrange(i as int, self.0@.len() as int) == s.subrange(k, s.len() as int),
                events@ == fired_events(s.subrange(0, k), now, *ship),
            decreases self.0.len() - i,
        {
            proof {
                assert(self.0@[i as int] == s[k]) by {
                    assert(self.0@.subrange(i as int, self.0@.len() as int)[0] == s.subrange(k, s.len() as int)[0]);
                }
                assert(s.subrange(0, k + 1).drop_last() == s.subrange(0, k));
                assert(s.subrange(0, k + 1).last() == s[k]);
            }
            let ghost v0 = self.0@;
            if self.0[i].0 <= now {
                let (tick, kind) = self.0.remove(i);
                let ev = convert_kind(tick, kind, ship);
                events.push(ev);
                proof {
                    k = k + 1;
                    assert(self.0@.subrange(0, i as int) =~= v0.subrange(0, i as int));
                    assert(self.0@.subrange(i as int, self.0@.len() as int) =~= v0.subrange(
                        i + 1,
                        v0.len() as int,
                    ));
                    assert(v0.subrange(i + 1, v0.len() as int) =~= v0.subrange(i as int, v0.len() as int).subrange(1, v0.len() - i));
                    assert(s.subrange(k, s.len() as int) =~= s.subrange(k - 1, s.len() as int).subrange(1, s.len() - k + 1));
                    assert(events@ =~= fired_events(s.subrange(0, k), now, *ship));
                    assert(events@ == fired_events(s.subrange(0, k), now, *ship));
                }
            } else {
                i = i + 1;
                proof {
                    k = k + 1;
                    assert(self.0@.subrange(0, i as int) =~= self.0@.subrange(0, i - 1).push(s[k - 1]));
                    assert(self.0@.subrange(i as int, self.0@.len() as int) =~= v0.subrange(i - 1, v0.len() as int).subrange(1, v0.len() - i + 1));
                    assert(s.subrange(k, s.len() as int) =~= s.subrange(k - 1, s.len() as int).subrange(1, s.len() - k + 1));
                }
            }
        }
        proof {
            assert(s.subrange(0, k) =~= s);
            assert(self.0@ =~= self.0@.subrange(0, i as int));
        }
        events
    }
}

/// A scan at tick `now` splits a schedule: every entry either fires (its
/// tick is at most `now`) or stays (its tick is later), and none does both,
/// so each entry fires exactly once over the scans.
pub proof fn lemma_scan_partitions(s: Seq<ScheduleEntry>, now: u64)
    ensures
        due_entries(s, now).to_multiset().add(pending_entries(s, now).to_multiset()) =~= s.to_multiset(),
        forall|k: int| 0 <= k < due_entries(s, now).len() ==> #[trigger] due_entries(s, now)[k].0 <= now,
        forall|k: int| 0 <= k < pending_entries(s, now).len() ==> #[trigger] pending_entries(s, now)[k].0 > now,
    decreases s.len(),
{
    broadcast use vstd::seq_lib::group_to_multiset_ensures;

    if s.len() > 0 {
        let d = s.drop_last();
        lemma_scan_partitions(d, now);
        assert(s =~= d.push(s.last()));
    }
}

/// An entry removed by a scan is never released again: a second scan at
/// the same tick, or at an earlier one, fires nothing and keeps every entry.
pub proof fn lemma_rescan_fires_nothing(s: Seq<ScheduleEntry>, now: u64, later: u64)
    requires
        later <= now,
    ensures
        due_entries(pending_entries(s, now), later).len() == 0,
        pending_entries(pending_entries(s, now), later) == pending_entries(s, now),
{
    lemma_scan_partitions(s, now);
    lemma_no_due(pending_entries(s, now), later);
}

proof fn lemma_no_due(s: Seq<ScheduleEntry>, t: u64)
    requires
        forall|k: int| 0 <= k < s.len() ==> #[trigger] s[k].0 > t,
    ensures
        due_entries(s, t).len() == 0,
        pending_entries(s, t) == s,
    decreases s.len(),
{
    if s.len() > 0 {
        let d = s.drop_last();
        assert forall|k: int| 0 <= k < d.len() implies #[trigger] d[k].0 > t by {
            assert(d[k] == s[k]);
        }
        lemma_no_due(d, t);
        assert(s.last().0 > t);
        assert(s =~= d.push(s.last()));
    }
}

/// An entry added with a tick at or before the current one fires on the very
/// next scan, after the entries already due.
pub proof fn lemma_late_entry_fires_next(s: Seq<ScheduleEntry>, e: ScheduleEntry, now: u64)
    requires
        e.0 <= now,
    ensures
        due_entries(s.push(e), now) == due_entries(s, now).push(e),
        pending_entries(s.push(e), now) == pending_entries(s, now),
{
    assert(s.push(e).drop_last() =~= s);
}

/// The entries of `s` whose tick lies after `a` and at or before `b`, in
/// their order.
pub open spec fn window(s: Seq<ScheduleEntry>, a: u64, b: u64) -> Seq<ScheduleEntry>
    decreases s.len(),
{
    if s.len() == 0 {
        s
    } else if a < s.last().0 && s.last().0 <= b {
        window(s.drop_last(), a, b).push(s.last())
    } else {
        window(s.drop_last(), a, b)
    }
}

/// What stays of `s` after scans at the ticks `ns`, in that order.
pub open spec fn pending_after(s: Seq<ScheduleEntry>, ns: Seq<u64>) -> Seq<ScheduleEntry>
    decreases ns.len(),
{
    if ns.len() == 0 {
        s
    } else {
        pending_entries(pending_after(s, ns.drop_last()), ns.last())
    }
}

/// The entries that the scan at `ns[j]` releases, after the scans before it.
pub open spec fn fired_by_scan(s: Seq<ScheduleEntry>, ns: Seq<u64>, j: int) -> Seq<ScheduleEntry> {
    due_entries(pending_after(s, ns.take(j)), ns[j])
}

pub open spec fn non_decreasing(ns: Seq<u64>) -> bool {
    forall|i: int, j: int| 0 <= i <= j < ns.len() ==> ns[i] <= ns[j]
}

proof fn lemma_pending_twice(s: Seq<ScheduleEntry>, a: u64, b: u64)
    requires
        a <= b,
    ensures
        pending_entries(pending_entries(s, a), b) == pending_entries(s, b),
        due_entries(pending_entries(s, a), b) == window(s, a, b),
    decreases s.len(),
{
    if s.len() > 0 {
        let d = s.drop_last();
        let e = s.last();
        lemma_pending_twice(d, a, b);
        if e.0 > a {
            let pa = pending_entries(d, a).push(e);
            assert(pa.drop_last() =~= pending_entries(d, a));
        }
    }
}

proof fn lemma_pending_after(s: Seq<ScheduleEntry>, ns: Seq<u64>)
    requires
        ns.len() > 0,
        non_decreasing(ns),
    ensures
        pending_after(s, ns) == pending_entries(s, ns.last()),
    decreases ns.len(),
{
    let d = ns.drop_last();
    if ns.len() > 1 {
        assert(non_decreasing(d));
        assert(d.last() == ns[ns.len() - 2]);
        lemma_pending_after(s, d);
        lemma_pending_twice(s, d.last(), ns.last());
    } else {
        assert(d.len() == 0);
        assert(pending_after(s, d) == s);
    }
}

/// Scans at non-decreasing ticks `ns` release each entry of the schedule
/// once, at the first scan whose tick has reached the entry's tick: the
/// first scan releases the entries due then, each later scan exactly those
/// whose tick lies after the previous scan's tick and at or before its own,
/// and after the scans only the entries not yet due at the last tick stay.
pub proof fn lemma_scan_sequence(s: Seq<ScheduleEntry>, ns: Seq<u64>, j: int)
    requires
        non_decreasing(ns),
        0 <= j < ns.len(),
    ensures
        fired_by_scan(s, ns, j) == if j == 0 {
            due_entries(s, ns[0])
        } else {
            window(s, ns[j - 1], ns[j])
        },
        pending_after(s, ns) == pending_entries(s, ns.last()),
{
    lemma_pending_after(s, ns);
    if j == 0 {
        assert(ns.take(0).len() == 0);
    } else {
        let pre = ns.take(j);
        assert(non_decreasing(pre));
        lemma_pending_after(s, pre);
        assert(pre.last() == ns[j - 1]);
        lemma_pending_twice(s, ns[j - 1], ns[j]);
    }
}

/// An entry is in the window `(a, b]` of `s` exactly when it is in `s` and
/// its tick lies there.
pub proof fn lemma_window_contains(s: Seq<ScheduleEntry>, a: u64, b: u64, e: ScheduleEntry)
    ensures
        window(s, a, b).contains(e) <==> s.contains(e) && a < e.0 && e.0 <= b,
    decreases s.len(),
{
    if s.len() > 0 {
        let d = s.drop_last();
        lemma_window_contains(d, a, b, e);
        assert(s =~= d.push(s.last()));
        if s.contains(e) && e != s.last() {
            let i = choose|i: int| 0 <= i < s.len() && s[i] == e;
            assert(d[i] == e);
        }
        if d.contains(e) {
            let i = choose|i: int| 0 <= i < d.len() && d[i] == e;
            assert(s[i] == e);
        }
        let w = window(d, a, b);
        if a < s.last().0 && s.last().0 <= b {
            assert(w.push(s.last())[w.len() as int] == s.last());
            if w.contains(e) {
                let i = choose|i: int| 0 <= i < w.len() && w[i] == e;
                assert(w.push(s.last())[i] == e);
            }
            if w.push(s.last()).contains(e) && e != s.last() {
                let i = choose|i: int| 0 <= i < w.len() + 1 && w.push(s.last())[i] == e;
                assert(w[i] == e);
            }
        }
    }
}

} // verus!

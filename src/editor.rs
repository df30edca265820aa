//! The maneuver editor's state: the nodes authored for one craft, ordered
//! by tick, with the selection of the node list.
use vstd::prelude::*;

use crate::scheduler::{ManeuverNode, TrajectoryEvent};
use crate::ships::ShipInfo;
use crate::vector::Vec3;
use crate::{BodyID, ShipID};

verus! {

/// A step through the node list.
#[derive(Clone, Copy, Debug, PartialEq, Eq, Structural)]
pub enum Direction2 {
    Up,
    Down,
}

/// Requests to change the selected node.
#[derive(Clone, Copy, Debug, PartialEq, Eq, Structural)]
pub enum SelectNode {
    SelectAdjacent(Direction2),
    /// Select the node at the tick of this simulation tick, adding one there
    /// if there is none.
    SelectNearestOrInsert(u64),
}

pub type NodeEntry = (u64, ManeuverNode);

/// The selection after a step `d` through a list of `len` nodes from
/// `selected`: it stays within the list, and with nothing selected the first
/// node is selected.
pub open spec fn adjacent_selection(selected: Option<usize>, len: nat, d: Direction2) -> Option<usize> {
    if len == 0 {
        None
    } else {
        match selected {
            None => Some(0usize),
            Some(i) => {
                let last = (len - 1) as usize;
                let cur = if i > last { last } else { i };
                match d {
                    Direction2::Up => Some(if cur == 0 { 0usize } else { (cur - 1) as usize }),
                    Direction2::Down => Some(if cur == last { last } else { (cur + 1) as usize }),
                }
            },
        }
    }
}

/// A request that the predictions of the edited craft be computed again.
#[derive(Clone, Copy, Debug, Default, PartialEq, Eq, Structural)]
pub struct ReloadPredictions;

/// Ticks strictly increase along `s`.
pub open spec fn sorted(s: Seq<NodeEntry>) -> bool {
    forall|i: int, j: int| 0 <= i < j < s.len() ==> s[i].0 < s[j].0
}

/// The index of the last entry of `s` at tick `t`, or -1.
pub open spec fn key_index(s: Seq<NodeEntry>, t: u64) -> int
    decreases s.len(),
{
    if s.len() == 0 {
        -1
    } else if s.last().0 == t {
        s.len() - 1
    } else {
        key_index(s.drop_last(), t)
    }
}

/// How many entries of `s` come before tick `t`.
pub open spec fn count_below(s: Seq<NodeEntry>, t: u64) -> int
    decreases s.len(),
{
    if s.len() == 0 {
        0
    } else {
        count_below(s.drop_last(), t) + if s.last().0 < t { 1int } else { 0int }
    }
}

/// `s` with `v` at tick `t`: the entry there replaced, or a new entry at its
/// place in tick order.
pub open spec fn put(s: Seq<NodeEntry>, t: u64, v: ManeuverNode) -> Seq<NodeEntry> {
    if key_index(s, t) >= 0 {
        s.update(key_index(s, t), (t, v))
    } else {
        s.insert(count_below(s, t), (t, v))
    }
}

pub proof fn lemma_key_index(s: Seq<NodeEntry>, t: u64)
    ensures
        -1 <= key_index(s, t) < s.len(),
        key_index(s, t) >= 0 ==> s[key_index(s, t)].0 == t,
        key_index(s, t) == -1 ==> forall|j: int| 0 <= j < s.len() ==> s[j].0 != t,
    decreases s.len(),
{
    if s.len() > 0 {
        lemma_key_index(s.drop_last(), t);
        if s.last().0 != t {
            assert forall|j: int| 0 <= j < s.len() && key_index(s, t) == -1 implies s[j].0 != t by {
                if j < s.len() - 1 {
                    assert(s.drop_last()[j] == s[j]);
                }
            }
        }
    }
}

pub proof fn lemma_key_index_sorted(s: Seq<NodeEntry>, i: int)
    requires
        sorted(s),
        0 <= i < s.len(),
    ensures
        key_index(s, s[i].0) == i,
{
    lemma_key_index(s, s[i].0);
    let k = key_index(s, s[i].0);
    if k != i {
        assert(k >= 0);
        assert(s[k].0 == s[i].0);
    }
}

pub proof fn lemma_count_below(s: Seq<NodeEntry>, t: u64)
    requires
        sorted(s),
    ensures
        0 <= count_below(s, t) <= s.len(),
        forall|j: int| 0 <= j < count_below(s, t) ==> s[j].0 < t,
        count_below(s, t) < s.len() ==> s[count_below(s, t)].0 >= t,
    decreases s.len(),
{
    if s.len() > 0 {
        let d = s.drop_last();
        lemma_count_below(d, t);
        let c = count_below(d, t);
        if s.last().0 < t {
            if c < d.len() {
                assert(d[c].0 < s.last().0);
            }
            assert forall|j: int| 0 <= j < count_below(s, t) implies s[j].0 < t by {
                if j < d.len() {
                    assert(s[j].0 < s.last().0);
                }
            }
        } else {
            assert forall|j: int| 0 <= j < count_below(s, t) implies s[j].0 < t by {
                assert(d[j] == s[j]);
            }
        }
    }
}

pub proof fn lemma_put_sorted(s: Seq<NodeEntry>, t: u64, v: ManeuverNode)
    requires
        sorted(s),
    ensures
        sorted(put(s, t, v)),
        key_index(put(s, t, v), t) >= 0,
        put(s, t, v)[key_index(put(s, t, v), t)] == (t, v),
{
    lemma_key_index(s, t);
    if key_index(s, t) < 0 {
        let p = count_below(s, t);
        let r = s.insert(p, (t, v));
        lemma_count_below(s, t);
        assert forall|i: int, j: int| 0 <= i < j < r.len() implies r[i].0 < r[j].0 by {
            if j < p {
            } else if j == p {
            } else if i < p {
            } else if i == p {
                assert(r[j] == s[j - 1]);
                assert(s[j - 1].0 >= t);
            } else {
            }
        }
        assert(r[p].0 == t);
        lemma_key_index_sorted(r, p);
    } else {
        let r = s.update(key_index(s, t), (t, v));
        assert(sorted(r));
        lemma_key_index_sorted(r, key_index(s, t));
    }
}

/// `s` without its entry at tick `t`, if it has one.
pub open spec fn remove_key(s: Seq<NodeEntry>, t: u64) -> Seq<NodeEntry> {
    if key_index(s, t) >= 0 {
        s.remove(key_index(s, t))
    } else {
        s
    }
}

pub proof fn lemma_remove_sorted(s: Seq<NodeEntry>, i: int)
    requires
        sorted(s),
        0 <= i < s.len(),
    ensures
        sorted(s.remove(i)),
{
    let r = s.remove(i);
    assert forall|a: int, b: int| 0 <= a < b < r.len() implies r[a].0 < r[b].0 by {
        let a0 = if a < i { a } else { a + 1 };
        let b0 = if b < i { b } else { b + 1 };
        assert(r[a] == s[a0] && r[b] == s[b0]);
    }
}

/// Puts `v` at tick `t` of the tick-ordered `nodes`.
fn put_node(nodes: &mut Vec<NodeEntry>, t: u64, v: ManeuverNode)
    requires
        sorted(old(nodes)@),
    ensures
        final(nodes)@ == put(old(nodes)@, t, v),
        sorted(final(nodes)@),
{
    proof {
        lemma_count_below(nodes@, t);
        lemma_key_index(nodes@, t);
        lemma_put_sorted(nodes@, t, v);
    }
    let ghost s = nodes@;
    let mut i: usize = 0;
    while i < nodes.len() && nodes[i].0 < t
        invariant
            nodes@ == s,
            i <= s.len(),
            forall|j: int| 0 <= j < i ==> s[j].0 < t,
        decreases s.len() - i,
    {
        i = i + 1;
    }
    proof {
        let c = count_below(s, t);
        if c < i {
            assert(s[c].0 < t);
        }
        if c > i {
            assert(s[i as int].0 < t);
        }
    }
    if i < nodes.len() && nodes[i].0 == t {
        proof {
            lemma_key_index_sorted(s, i as int);
        }
        nodes.remove(i);
        nodes.insert(i, (t, v));
        assert(nodes@ =~= s.update(i as int, (t, v)));
    } else {
        proof {
            if key_index(s, t) >= 0 {
                let k = key_index(s, t);
                if k < i {
                    assert(s[k].0 < t);
                } else if k > i {
                    assert(s[i as int].0 < s[k].0);
                }
            }
        }
        nodes.insert(i, (t, v));
    }
}

/// Takes out the entry at tick `t` of the tick-ordered `nodes`, if any,
/// and returns its node.
fn take_node(nodes: &mut Vec<NodeEntry>, t: u64) -> (r: Option<ManeuverNode>)
    requires
        sorted(old(nodes)@),
    ensures
        final(nodes)@ == remove_key(old(nodes)@, t),
        sorted(final(nodes)@),
        match r {
            Some(v) => key_index(old(nodes)@, t) >= 0 && v == old(nodes)@[key_index(old(nodes)@, t)].1,
            None => key_index(old(nodes)@, t) < 0,
        },
{
    proof {
        lemma_key_index(nodes@, t);
    }
    let ghost s = nodes@;
    let mut i: usize = 0;
    while i < nodes.len()
        invariant
            nodes@ == s,
            s == old(nodes)@,
            sorted(s),
            i <= s.len(),
            forall|j: int| 0 <= j < i ==> s[j].0 != t,
        decreases s.len() - i,
    {
        if nodes[i].0 == t {
            proof {
                lemma_key_index_sorted(s, i as int);
                lemma_remove_sorted(s, i as int);
            }
            let e = nodes.remove(i);
            return Some(e.1);
        }
        i = i + 1;
    }
    proof {
        if key_index(s, t) >= 0 {
            assert(s[key_index(s, t)].0 == t);
        }
    }
    None
}

impl ManeuverNode {
    /// A copy of this node.
    pub fn duplicate(&self) -> (r: ManeuverNode)
        ensures
            r == *self,
    {
        ManeuverNode { name: self.name.clone(), thrust: self.thrust, origin: self.origin.clone() }
    }
}

/// The number of nodes that an automatic thrust plan lays down.
pub const AUTO_THRUST_NODES: u64 = 10;

/// The ticks between two nodes of an automatic thrust plan.
pub const AUTO_THRUST_INTERVAL: u64 = 25;

/// The editor's state for one craft. `H` is the handle under which the
/// surrounding storage keeps the craft and its predicted positions.
#[derive(Debug)]
pub struct EditorContext<H> {
    pub ship: H,
    pub ship_info: ShipInfo,
    pub pos: Vec3,
    pub speed: Vec3,
    pub simtick: u64,
    pub auto_thrust_enabled: bool,
    /// The index of the selected node in the list, if any.
    pub selected: Option<usize>,
    /// Each maneuver node with its tick, in tick order. A node corresponds to
    /// a prediction: there is one per tick, so the index of the prediction is
    /// the number of ticks from the start to the node.
    pub nodes: Vec<NodeEntry>,
    pub predictions: Vec<H>,
    /// Predictions that start from the node being edited; at the end of the
    /// edit they replace those after it.
    pub temp_predictions: Vec<H>,
    /// The thrust to add to the node being edited.
    pub editing_data: Option<Vec3>,
}

impl<H: Copy> EditorContext<H> {
    /// Everything but the node list, the selection and the automatic plan
    /// flag is as in `o`.
    pub open spec fn same_frame(self, o: Self) -> bool {
        &&& self.ship == o.ship
        &&& self.ship_info == o.ship_info
        &&& self.pos == o.pos
        &&& self.speed == o.speed
        &&& self.simtick == o.simtick
        &&& self.predictions == o.predictions
        &&& self.temp_predictions == o.temp_predictions
        &&& self.editing_data == o.editing_data
    }

    pub open spec fn wf(self) -> bool {
        sorted(self.nodes@)
    }

    /// The index of the selected entry, where it names one.
    pub open spec fn selected_index(self) -> Option<int> {
        match self.selected {
            Some(i) => if i < self.nodes@.len() {
                Some(i as int)
            } else {
                None
            },
            None => None,
        }
    }

    pub fn new(ship: H, ship_info: ShipInfo, pos: &Vec3, speed: &Vec3, tick: u64) -> (r: Self)
        ensures
            r.wf(),
            r.ship == ship,
            r.ship_info == ship_info,
            r.pos == *pos,
            r.speed == *speed,
            r.simtick == tick,
            !r.auto_thrust_enabled,
            r.selected is None,
            r.nodes@.len() == 0,
            r.predictions@.len() == 0,
            r.temp_predictions@.len() == 0,
            r.editing_data is None,
    {
        EditorContext {
            ship,
            ship_info,
            pos: *pos,
            speed: *speed,
            simtick: tick,
            selected: None,
            nodes: Vec::new(),
            predictions: Vec::new(),
            temp_predictions: Vec::new(),
            editing_data: None,
            auto_thrust_enabled: false,
        }
    }

    /// The selected entry: its tick and node.
    pub fn selected_entry(&self) -> (r: Option<(&u64, &ManeuverNode)>)
        ensures
            match r {
                Some((t, n)) => self.selected_index() matches Some(i) && *t == self.nodes@[i].0 && *n
                    == self.nodes@[i].1,
                None => self.selected_index() is None,
            },
    {
        match self.selected {
            Some(i) => if i < self.nodes.len() {
                let e = &self.nodes[i];
                Some((&e.0, &e.1))
            } else {
                None
            },
            None => None,
        }
    }

    /// The selected entry, with its node open to change.
    pub fn selected_entry_mut(&mut self) -> (r: Option<(&u64, &mut ManeuverNode)>)
        ensures
            match r {
                Some((t, n)) => old(self).selected_index() matches Some(i) && *t == old(self).nodes@[i].0
                    && *n == old(self).nodes@[i].1 && final(self).nodes@ == old(self).nodes@.update(
                    i,
                    (old(self).nodes@[i].0, *final(n)),
                ),
                None => old(self).selected_index() is None && final(self).nodes == old(self).nodes,
            },
            final(self).selected == old(self).selected,
            final(self).auto_thrust_enabled == old(self).auto_thrust_enabled,
            final(self).same_frame(*old(self)),
    {
        match self.selected {
            Some(i) => if i < self.nodes.len() {
                let e = &mut self.nodes[i];
                Some((&e.0, &mut e.1))
            } else {
                None
            },
            None => None,
        }
    }

    /// The selected node, open to change.
    pub fn selected_node_mut(&mut self) -> (r: Option<&mut ManeuverNode>)
        ensures
            match r {
                Some(n) => old(self).selected_index() matches Some(i) && *n == old(self).nodes@[i].1
                    && final(self).nodes@ == old(self).nodes@.update(i, (old(self).nodes@[i].0, *final(n))),
                None => old(self).selected_index() is None && final(self).nodes == old(self).nodes,
            },
            final(self).selected == old(self).selected,
            final(self).auto_thrust_enabled == old(self).auto_thrust_enabled,
            final(self).same_frame(*old(self)),
    {
        match self.selected_entry_mut() {
            Some((_, n)) => Some(n),
            None => None,
        }
    }

    /// The selected node.
    pub fn selected_node(&self) -> (r: Option<&ManeuverNode>)
        ensures
            match r {
                Some(n) => self.selected_index() matches Some(i) && *n == self.nodes@[i].1,
                None => self.selected_index() is None,
            },
    {
        match self.selected_entry() {
            Some((_, n)) => Some(n),
            None => None,
        }
    }

    /// The tick of the selected node.
    pub fn selected_tick(&self) -> (r: Option<u64>)
        ensures
            match r {
                Some(t) => self.selected_index() matches Some(i) && t == self.nodes@[i].0,
                None => self.selected_index() is None,
            },
    {
        match self.selected_entry() {
            Some((t, _)) => Some(*t),
            None => None,
        }
    }

    /// The position of the node at `tick` in the list.
    pub fn index_of_tick(&self, tick: u64) -> (r: Option<usize>)
        ensures
            match r {
                Some(i) => i == key_index(self.nodes@, tick),
                None => key_index(self.nodes@, tick) == -1,
            },
    {
        proof {
            lemma_key_index(self.nodes@, tick);
            assert(self.nodes@.subrange(0, self.nodes@.len() as int) =~= self.nodes@);
        }
        let mut i: usize = self.nodes.len();
        while i > 0
            invariant
                i <= self.nodes@.len(),
                key_index(self.nodes@, tick) == key_index(self.nodes@.subrange(0, i as int), tick),
            decreases i,
        {
            assert(self.nodes@.subrange(0, i as int).drop_last() =~= self.nodes@.subrange(0, i - 1));
            if self.nodes[i - 1].0 == tick {
                return Some(i - 1);
            }
            i = i - 1;
        }
        None
    }

    /// Selects the node at `tick`, if there is one, and returns its position.
    pub fn select_tick(&mut self, tick: u64) -> (r: Option<usize>)
        ensures
            final(self).nodes == old(self).nodes,
            match r {
                Some(i) => i == key_index(old(self).nodes@, tick) && final(self).selected == Some(i),
                None => key_index(old(self).nodes@, tick) == -1 && final(self).selected == old(self).selected,
            },
            final(self).auto_thrust_enabled == old(self).auto_thrust_enabled,
            final(self).same_frame(*old(self)),
    {
        let r = self.index_of_tick(tick);
        if let Some(i) = r {
            self.selected = Some(i);
        }
        r
    }

    /// The node at `tick`.
    pub fn get_node(&self, tick: u64) -> (r: Option<&ManeuverNode>)
        ensures
            match r {
                Some(n) => key_index(self.nodes@, tick) >= 0 && *n == self.nodes@[key_index(self.nodes@, tick)].1,
                None => key_index(self.nodes@, tick) == -1,
            },
    {
        proof {
            lemma_key_index(self.nodes@, tick);
        }
        match self.index_of_tick(tick) {
            Some(i) => Some(&self.nodes[i].1),
            None => None,
        }
    }

    /// Adds `default` at `tick` where there is no node yet, then selects the
    /// node at `tick`.
    pub fn select_or_insert(&mut self, tick: u64, default: ManeuverNode)
        requires
            old(self).wf(),
        ensures
            final(self).wf(),
            final(self).nodes@ == if key_index(old(self).nodes@, tick) >= 0 {
                old(self).nodes@
            } else {
                put(old(self).nodes@, tick, default)
            },
            final(self).selected == Some(key_index(final(self).nodes@, tick) as usize),
            key_index(final(self).nodes@, tick) >= 0,
            final(self).auto_thrust_enabled == old(self).auto_thrust_enabled,
            final(self).same_frame(*old(self)),
    {
        proof {
            lemma_key_index(self.nodes@, tick);
            lemma_put_sorted(self.nodes@, tick, default);
        }
        if self.index_of_tick(tick).is_none() {
            put_node(&mut self.nodes, tick, default);
        }
        self.select_tick(tick);
        proof {
            lemma_key_index(self.nodes@, tick);
        }
    }

    /// Moves the node at `tick` to `newtick`, replacing any node there. Where
    /// there is no node at `tick`, nothing changes.
    pub fn change_tick(&mut self, tick: u64, newtick: u64)
        requires
            old(self).wf(),
        ensures
            final(self).wf(),
            final(self).nodes@ == if key_index(old(self).nodes@, tick) >= 0 {
                put(
                    remove_key(old(self).nodes@, tick),
                    newtick,
                    old(self).nodes@[key_index(old(self).nodes@, tick)].1,
                )
            } else {
                old(self).nodes@
            },
            final(self).selected == old(self).selected,
            final(self).auto_thrust_enabled == old(self).auto_thrust_enabled,
            final(self).same_frame(*old(self)),
    {
        match take_node(&mut self.nodes, tick) {
            Some(v) => put_node(&mut self.nodes, newtick, v),
            None => {},
        }
    }

    /// The number of nodes.
    pub fn len(&self) -> (r: usize)
        ensures
            r == self.nodes@.len(),
    {
        self.nodes.len()
    }

    /// Moves the selection one step, staying within the list; with nothing
    /// selected, the first node is selected.
    pub fn select_adjacent(&mut self, d: Direction2)
        ensures
            final(self).nodes == old(self).nodes,
            final(self).auto_thrust_enabled == old(self).auto_thrust_enabled,
            final(self).same_frame(*old(self)),
            final(self).selected == adjacent_selection(old(self).selected, old(self).nodes@.len(), d),
    {
        let n = self.nodes.len();
        if n == 0 {
            self.selected = None;
            return;
        }
        let last = n - 1;
        self.selected = match self.selected {
            None => Some(0),
            Some(i) => {
                let cur = if i > last { last } else { i };
                match d {
                    Direction2::Up => Some(if cur == 0 { 0 } else { cur - 1 }),
                    Direction2::Down => Some(if cur == last { last } else { cur + 1 }),
                }
            },
        };
    }

    /// The index in the prediction list of the simulation tick `simtick`:
    /// the number of ticks from the start to it.
    pub open spec fn prediction_index(self, simtick: u64) -> usize {
        (simtick - self.simtick) as usize
    }

    /// The prediction at the simulation tick `simtick`, where there is one.
    pub open spec fn prediction_at(self, simtick: u64) -> Option<H> {
        let i = self.prediction_index(simtick);
        if i < self.predictions@.len() {
            Some(self.predictions@[i as int])
        } else {
            None
        }
    }

    /// The index in the prediction list of the simulation tick `simtick`.
    pub fn index_of_prediction_at_simtick(&self, simtick: u64) -> (r: usize)
        requires
            simtick >= self.simtick,
        ensures
            r == self.prediction_index(simtick),
    {
        (simtick - self.simtick) as usize
    }

    /// The prediction at the simulation tick `tick`, where there is one.
    pub fn prediction_at_simtick(&self, tick: u64) -> (r: Option<H>)
        requires
            tick >= self.simtick,
        ensures
            r == self.prediction_at(tick),
    {
        let i = self.index_of_prediction_at_simtick(tick);
        if i < self.predictions.len() {
            Some(self.predictions[i])
        } else {
            None
        }
    }

    /// The prediction at the selected node, where `simticks_per_tick`
    /// simulation ticks make one tick.
    pub fn selected_prediction_entity(&self, simticks_per_tick: u64) -> (r: Option<H>)
        ensures
            match self.selected_index() {
                None => r is None,
                Some(i) => {
                    let st = simticks_per_tick * self.nodes@[i].0;
                    r == if st > u64::MAX || st < self.simtick {
                        None
                    } else {
                        self.prediction_at(st as u64)
                    }
                },
            },
    {
        match self.selected_tick() {
            None => None,
            Some(t) => match simticks_per_tick.checked_mul(t) {
                None => None,
                Some(st) => if st < self.simtick {
                    None
                } else {
                    self.prediction_at_simtick(st)
                },
            },
        }
    }

    /// Toggles the automatic thrust plan. When it is on, it is switched off
    /// and its removal is requested; else it is switched on and a plan of
    /// one node for each of `thrusts` (at most `AUTO_THRUST_NODES`) is
    /// requested.
    pub fn handle_auto_thrust(&mut self, thrusts: &Vec<Vec3>) -> (r: TrajectoryEvent)
        ensures
            final(self).auto_thrust_enabled == !old(self).auto_thrust_enabled,
            final(self).nodes == old(self).nodes,
            final(self).selected == old(self).selected,
            final(self).same_frame(*old(self)),
            old(self).auto_thrust_enabled ==> (r == TrajectoryEvent::RemoveAutoThrust {
                ship: old(self).ship_info.id,
                tick_interval: AUTO_THRUST_INTERVAL,
            }),
            !old(self).auto_thrust_enabled ==> is_auto_plan(r, old(self).ship_info.id, thrusts@),
    {
        if self.auto_thrust_enabled {
            self.auto_thrust_enabled = false;
            TrajectoryEvent::RemoveAutoThrust { ship: self.ship_info.id.clone(), tick_interval: AUTO_THRUST_INTERVAL }
        } else {
            let mut node_list: Vec<ManeuverNode> = Vec::new();
            let mut i: usize = 0;
            while i < thrusts.len() && (i as u64) < AUTO_THRUST_NODES
                invariant
                    i <= thrusts@.len(),
                    i <= AUTO_THRUST_NODES,
                    node_list@.len() == i,
                    forall|k: int| 0 <= k < i ==> #[trigger] node_list@[k].thrust == thrusts@[k]
                        && node_list@[k].name@ == auto_node_name() && node_list@[k].origin@ == auto_node_origin(),
                decreases thrusts@.len() - i,
            {
                node_list.push(
                    ManeuverNode { name: auto_node_name_exec(), thrust: thrusts[i], origin: auto_node_origin_exec() },
                );
                i = i + 1;
            }
            self.auto_thrust_enabled = true;
            let r = TrajectoryEvent::AddAutoThrust {
                ship: self.ship_info.id.clone(),
                node_list,
                tick_interval: AUTO_THRUST_INTERVAL,
            };
            assert(is_auto_plan(r, old(self).ship_info.id, thrusts@));
            r
        }
    }
}

/// `r` requests the automatic plan for `ship`: one node for each of the
/// first `AUTO_THRUST_NODES` thrusts.
pub open spec fn is_auto_plan(r: TrajectoryEvent, ship: ShipID, thrusts: Seq<Vec3>) -> bool {
    match r {
        TrajectoryEvent::AddAutoThrust { ship: s, node_list, tick_interval } => {
            &&& s == ship
            &&& tick_interval == AUTO_THRUST_INTERVAL
            &&& node_list@.len() == if thrusts.len() < AUTO_THRUST_NODES {
                thrusts.len() as int
            } else {
                AUTO_THRUST_NODES as int
            }
            &&& forall|k: int|
                0 <= k < node_list@.len() ==> #[trigger] node_list@[k].thrust == thrusts[k]
                    && node_list@[k].name@ == auto_node_name() && node_list@[k].origin@ == auto_node_origin()
        },
        _ => false,
    }
}

/// Whether `s` has a node at tick `t`.
pub open spec fn has_key(s: Seq<NodeEntry>, t: int) -> bool {
    exists|i: int| 0 <= i < s.len() && s[i].0 == t
}

/// The node of `s` at tick `t`.
pub open spec fn node_at(s: Seq<NodeEntry>, t: u64) -> ManeuverNode {
    s[key_index(s, t)].1
}

/// The tick of the `i`-th node of an automatic plan with `interval`.
pub open spec fn plan_tick(i: int, interval: u64) -> int {
    i * interval
}

/// `t` is the tick of one of the first `n` nodes of a plan.
pub open spec fn is_plan_tick(t: int, interval: u64, n: nat) -> bool {
    exists|i: int| 0 <= i < n && t == #[trigger] plan_tick(i, interval)
}

/// `new` is `old` with the first `n` nodes of the plan `list` laid down:
/// every plan tick holds a node, a node already there stays, a free tick
/// takes the first plan node that falls on it, and no other tick is added.
pub open spec fn plan_laid(
    old_nodes: Seq<NodeEntry>,
    new_nodes: Seq<NodeEntry>,
    list: Seq<ManeuverNode>,
    interval: u64,
    n: nat,
) -> bool {
    &&& forall|i: int| 0 <= i < n ==> has_key(new_nodes, #[trigger] plan_tick(i, interval))
    &&& forall|t: u64| #[trigger] has_key(new_nodes, t as int) ==> has_key(old_nodes, t as int) || is_plan_tick(t as int, interval, n)
    &&& forall|t: u64| #[trigger] has_key(old_nodes, t as int) ==> has_key(new_nodes, t as int) && node_at(new_nodes, t) == node_at(old_nodes, t)
    &&& forall|i: int|
        0 <= i < n && !has_key(old_nodes, #[trigger] plan_tick(i, interval)) && (forall|j: int| 0 <= j < i ==> plan_tick(j, interval) != plan_tick(i, interval))
            ==> node_at(new_nodes, plan_tick(i, interval) as u64) == list[i]
}

/// `new` is `old` without its nodes at the first `n` plan ticks; every other
/// node stays.
pub open spec fn plan_cleared(old_nodes: Seq<NodeEntry>, new_nodes: Seq<NodeEntry>, interval: u64, n: nat) -> bool {
    &&& forall|t: u64| #[trigger] has_key(new_nodes, t as int) <==> has_key(old_nodes, t as int) && !is_plan_tick(t as int, interval, n)
    &&& forall|t: u64| #[trigger] has_key(new_nodes, t as int) ==> node_at(new_nodes, t) == node_at(old_nodes, t)
}

proof fn lemma_has_key(s: Seq<NodeEntry>, t: u64)
    requires
        sorted(s),
    ensures
        has_key(s, t as int) <==> key_index(s, t) >= 0,
        has_key(s, t as int) ==> s[key_index(s, t)].0 == t,
{
    lemma_key_index(s, t);
    if has_key(s, t as int) {
        let i = choose|i: int| 0 <= i < s.len() && s[i].0 == t;
        lemma_key_index_sorted(s, i);
    }
}

/// The keys and nodes of `put(s, t, v)`.
proof fn lemma_put_keys(s: Seq<NodeEntry>, t: u64, v: ManeuverNode, k: u64)
    requires
        sorted(s),
    ensures
        has_key(put(s, t, v), k as int) == (k == t || has_key(s, k as int)),
        has_key(put(s, t, v), k as int) ==> node_at(put(s, t, v), k) == if k == t {
            v
        } else {
            node_at(s, k)
        },
{
    lemma_put_sorted(s, t, v);
    let r = put(s, t, v);
    lemma_has_key(s, k);
    lemma_has_key(r, k);
    lemma_key_index(s, k);
    lemma_key_index(r, k);
    lemma_key_index(s, t);
    lemma_count_below(s, t);
    if k != t {
        let c = if key_index(s, t) >= 0 { key_index(s, t) } else { count_below(s, t) };
        assert(r[c].0 == t);
        if has_key(s, k as int) {
            let idx = key_index(s, k);
            let ridx = if key_index(s, t) >= 0 || idx < c { idx } else { idx + 1 };
            assert(r[ridx] == s[idx]);
            lemma_key_index_sorted(r, ridx);
        }
        if has_key(r, k as int) {
            let ridx = key_index(r, k);
            let sidx = if key_index(s, t) >= 0 || ridx < c { ridx } else { ridx - 1 };
            assert(r[ridx] == s[sidx]);
            assert(has_key(s, k as int));
        }
    }
}

/// The keys and nodes of `remove_key(s, t)`.
proof fn lemma_remove_keys(s: Seq<NodeEntry>, t: u64, k: u64)
    requires
        sorted(s),
    ensures
        sorted(remove_key(s, t)),
        has_key(remove_key(s, t), k as int) == (k != t && has_key(s, k as int)),
        has_key(remove_key(s, t), k as int) ==> node_at(remove_key(s, t), k) == node_at(s, k),
{
    lemma_key_index(s, t);
    lemma_key_index(s, k);
    lemma_has_key(s, k);
    let r = remove_key(s, t);
    if key_index(s, t) >= 0 {
        let c = key_index(s, t);
        lemma_remove_sorted(s, c);
        lemma_has_key(r, k);
        lemma_key_index(r, k);
        if k != t && has_key(s, k as int) {
            let idx = key_index(s, k);
            let ridx = if idx < c { idx } else { idx - 1 };
            assert(r[ridx] == s[idx]);
            lemma_key_index_sorted(r, ridx);
        }
        if has_key(r, k as int) {
            let ridx = key_index(r, k);
            let sidx = if ridx < c { ridx } else { ridx + 1 };
            assert(r[ridx] == s[sidx]);
            lemma_key_index_sorted(s, sidx);
        }
    } else {
        if has_key(s, t as int) {
            let i = choose|i: int| 0 <= i < s.len() && s[i].0 == t;
            assert(false);
        }
    }
}

proof fn lemma_laid_step(
    s: Seq<NodeEntry>,
    cur: Seq<NodeEntry>,
    next: Seq<NodeEntry>,
    list: Seq<ManeuverNode>,
    d: u64,
    i: nat,
    t: u64,
    v: ManeuverNode,
)
    requires
        sorted(s),
        sorted(cur),
        plan_laid(s, cur, list, d, i),
        t as int == plan_tick(i as int, d),
        i < list.len(),
        v == list[i as int],
        next == if key_index(cur, t) >= 0 {
            cur
        } else {
            put(cur, t, v)
        },
    ensures
        plan_laid(s, next, list, d, i + 1),
{
    lemma_has_key(cur, t);
    assert forall|k: u64| true implies (has_key(next, k as int) == (k == t || has_key(cur, k as int))) && (
    has_key(next, k as int) ==> node_at(next, k) == if k == t && !has_key(cur, t as int) {
        v
    } else {
        node_at(cur, k)
    }) by {
        if key_index(cur, t) < 0 {
            lemma_put_keys(cur, t, v, k);
        }
    }
    assert forall|j: int| 0 <= j < i + 1 implies has_key(next, #[trigger] plan_tick(j, d)) by {
        if j < i {
            assert(has_key(cur, plan_tick(j, d)));
            assert(0 <= plan_tick(j, d) && plan_tick(j, d) <= u64::MAX) by {
                let k = choose|x: int| 0 <= x < cur.len() && cur[x].0 == plan_tick(j, d);
            }
            let k = plan_tick(j, d) as u64;
            assert(has_key(next, k as int));
        } else {
            assert(has_key(next, t as int));
        }
    }
    assert forall|k: u64| #[trigger] has_key(next, k as int) implies has_key(s, k as int) || is_plan_tick(
        k as int,
        d,
        i + 1,
    ) by {
        if k == t {
            assert(t as int == plan_tick(i as int, d));
        } else {
            assert(has_key(cur, k as int));
            if !has_key(s, k as int) {
                assert(is_plan_tick(k as int, d, i));
                let j = choose|j: int| 0 <= j < i && k as int == #[trigger] plan_tick(j, d);
                assert(k as int == plan_tick(j, d));
            }
        }
    }
    assert forall|k: u64| #[trigger] has_key(s, k as int) implies has_key(next, k as int) && node_at(next, k)
        == node_at(s, k) by {
        assert(has_key(cur, k as int));
    }
    assert forall|j: int|
        0 <= j < i + 1 && !has_key(s, #[trigger] plan_tick(j, d)) && (forall|j2: int|
            0 <= j2 < j ==> plan_tick(j2, d) != plan_tick(j, d)) implies node_at(next, plan_tick(j, d) as u64)
        == list[j] by {
        if j < i {
            assert(has_key(cur, plan_tick(j, d)));
            let k = plan_tick(j, d) as u64;
            assert(k as int == plan_tick(j, d)) by {
                let x = choose|x: int| 0 <= x < cur.len() && cur[x].0 == plan_tick(j, d);
            }
        } else {
            if has_key(cur, t as int) {
                assert(has_key(s, t as int) || is_plan_tick(t as int, d, i));
                if is_plan_tick(t as int, d, i) {
                    let j2 = choose|j2: int| 0 <= j2 < i && t as int == #[trigger] plan_tick(j2, d);
                    assert(plan_tick(j2, d) == plan_tick(j, d));
                }
            }
        }
    }
}

proof fn lemma_cleared_step(s: Seq<NodeEntry>, cur: Seq<NodeEntry>, d: u64, i: nat, t: u64)
    requires
        sorted(s),
        sorted(cur),
        plan_cleared(s, cur, d, i),
        t as int == plan_tick(i as int, d),
    ensures
        sorted(remove_key(cur, t)),
        plan_cleared(s, remove_key(cur, t), d, i + 1),
{
    let next = remove_key(cur, t);
    lemma_remove_keys(cur, t, 0);
    assert forall|k: u64| #[trigger] has_key(next, k as int) <==> has_key(s, k as int) && !is_plan_tick(
        k as int,
        d,
        i + 1,
    ) by {
        lemma_remove_keys(cur, t, k);
        if is_plan_tick(k as int, d, i + 1) && k != t {
            let j = choose|j: int| 0 <= j < i + 1 && k as int == #[trigger] plan_tick(j, d);
            assert(is_plan_tick(k as int, d, i));
        }
        if is_plan_tick(k as int, d, i) {
            let j = choose|j: int| 0 <= j < i && k as int == #[trigger] plan_tick(j, d);
            assert(is_plan_tick(k as int, d, i + 1));
        }
        if k == t {
            assert(is_plan_tick(k as int, d, i + 1));
        }
    }
    assert forall|k: u64| #[trigger] has_key(next, k as int) implies node_at(next, k) == node_at(s, k) by {
        lemma_remove_keys(cur, t, k);
    }
}

/// The number of nodes of `list` an automatic plan lays down.
pub open spec fn plan_len(list: Seq<ManeuverNode>) -> nat {
    if list.len() < AUTO_THRUST_NODES {
        list.len()
    } else {
        AUTO_THRUST_NODES as nat
    }
}

pub open spec fn auto_node_name() -> Seq<char> {
    seq!['a', 'u', 't', 'o', '_', 'n', 'o', 'd', 'e']
}

pub open spec fn auto_node_origin() -> Seq<char> {
    seq!['t', 'e', 'r', 'r', 'e']
}

fn auto_node_name_exec() -> (r: String)
    ensures
        r@ == auto_node_name(),
{
    let s = "auto_node";
    proof {
        reveal_strlit("auto_node");
    }
    let r = String::from_str(s);
    assert(r@ =~= auto_node_name());
    r
}

pub open spec fn new_node_name() -> Seq<char> {
    seq!['N', 'o', 'd', 'e']
}

fn new_node_name_exec() -> (r: String)
    ensures
        r@ == new_node_name(),
{
    let s = "Node";
    proof {
        reveal_strlit("Node");
    }
    let r = String::from_str(s);
    assert(r@ =~= new_node_name());
    r
}

fn auto_node_origin_exec() -> (r: String)
    ensures
        r@ == auto_node_origin(),
{
    let s = "terre";
    proof {
        reveal_strlit("terre");
    }
    let r = String::from_str(s);
    assert(r@ =~= auto_node_origin());
    r
}

impl<H: Copy> EditorContext<H> {
    /// Applies the automatic plan requests of the trajectory editor to the
    /// node list: a plan's nodes are added where their ticks are free, and a
    /// removal takes out the nodes at the plan's ticks.
    pub fn handle_trajectory_event(&mut self, ev: &TrajectoryEvent) -> (r: Option<ReloadPredictions>)
        requires
            old(self).wf(),
            ev matches TrajectoryEvent::AddAutoThrust { tick_interval, .. } ==> tick_interval * (AUTO_THRUST_NODES - 1) <= u64::MAX,
            ev matches TrajectoryEvent::RemoveAutoThrust { tick_interval, .. } ==> tick_interval * (AUTO_THRUST_NODES - 1) <= u64::MAX,
        ensures
            final(self).wf(),
            match ev {
                TrajectoryEvent::AddAutoThrust { node_list, tick_interval, .. } => plan_laid(
                    old(self).nodes@,
                    final(self).nodes@,
                    node_list@,
                    *tick_interval,
                    plan_len(node_list@),
                ),
                TrajectoryEvent::RemoveAutoThrust { tick_interval, .. } => plan_cleared(
                    old(self).nodes@,
                    final(self).nodes@,
                    *tick_interval,
                    AUTO_THRUST_NODES as nat,
                ),
                TrajectoryEvent::AddNode { .. } => final(self).nodes == old(self).nodes,
            },
            final(self).selected == match ev {
                TrajectoryEvent::AddAutoThrust { node_list, tick_interval, .. } => if plan_len(node_list@) > 0 {
                    Some(
                        key_index(
                            final(self).nodes@,
                            ((plan_len(node_list@) - 1) * *tick_interval) as u64,
                        ) as usize,
                    )
                } else {
                    old(self).selected
                },
                _ => old(self).selected,
            },
            final(self).auto_thrust_enabled == old(self).auto_thrust_enabled,
            final(self).same_frame(*old(self)),
            r is Some <==> !(ev is AddNode),
    {
        match ev {
            TrajectoryEvent::AddAutoThrust { node_list, tick_interval, .. } => {
                let ghost s = self.nodes@;
                let mut i: u64 = 0;
                while (i as usize) < node_list.len() && i < AUTO_THRUST_NODES
                    invariant
                        self.wf(),
                        i <= AUTO_THRUST_NODES,
                        i <= node_list@.len(),
                        *tick_interval * (AUTO_THRUST_NODES - 1) <= u64::MAX,
                        s == old(self).nodes@,
                        sorted(s),
                        plan_laid(s, self.nodes@, node_list@, *tick_interval, i as nat),
                        self.same_frame(*old(self)),
                        self.auto_thrust_enabled == old(self).auto_thrust_enabled,
                        i == 0 ==> self.selected == old(self).selected,
                        i > 0 ==> self.selected == Some(
                            key_index(self.nodes@, ((i - 1) * *tick_interval) as u64) as usize,
                        ),
                    decreases AUTO_THRUST_NODES - i,
                {
                    assert(i * *tick_interval <= *tick_interval * (AUTO_THRUST_NODES - 1)) by (nonlinear_arith)
                        requires i < AUTO_THRUST_NODES;
                    let t = i * *tick_interval;
                    let v = node_list[i as usize].duplicate();
                    let ghost cur = self.nodes@;
                    self.select_or_insert(t, v);
                    proof {
                        lemma_laid_step(s, cur, self.nodes@, node_list@, *tick_interval, i as nat, t, v);
                    }
                    i = i + 1;
                }
                assert(i as nat == plan_len(node_list@));
                Some(ReloadPredictions)
            },
            TrajectoryEvent::RemoveAutoThrust { tick_interval, .. } => {
                let ghost s = self.nodes@;
                let mut i: u64 = 0;
                while i < AUTO_THRUST_NODES
                    invariant
                        self.wf(),
                        i <= AUTO_THRUST_NODES,
                        *tick_interval * (AUTO_THRUST_NODES - 1) <= u64::MAX,
                        s == old(self).nodes@,
                        sorted(s),
                        plan_cleared(s, self.nodes@, *tick_interval, i as nat),
                        self.same_frame(*old(self)),
                        self.auto_thrust_enabled == old(self).auto_thrust_enabled,
                        self.selected == old(self).selected,
                    decreases AUTO_THRUST_NODES - i,
                {
                    assert(i * *tick_interval <= *tick_interval * (AUTO_THRUST_NODES - 1)) by (nonlinear_arith)
                        requires i < AUTO_THRUST_NODES;
                    let t = i * *tick_interval;
                    let ghost cur = self.nodes@;
                    take_node(&mut self.nodes, t);
                    proof {
                        lemma_cleared_step(s, cur, *tick_interval, i as nat, t);
                    }
                    i = i + 1;
                }
                Some(ReloadPredictions)
            },
            TrajectoryEvent::AddNode { .. } => None,
        }
    }

    /// Applies a selection request. A node added by `SelectNearestOrInsert`
    /// is named "Node", has no thrust, and is authored relative to `origin`;
    /// its tick is the simulation tick over `simticks_per_tick`.
    pub fn handle_select_node(&mut self, ev: SelectNode, origin: BodyID, simticks_per_tick: u64)
        requires
            old(self).wf(),
            simticks_per_tick > 0,
        ensures
            final(self).wf(),
            final(self).auto_thrust_enabled == old(self).auto_thrust_enabled,
            final(self).same_frame(*old(self)),
            ev is SelectAdjacent ==> final(self).nodes == old(self).nodes,
            ev matches SelectNode::SelectAdjacent(d) ==> (final(self).selected == adjacent_selection(
                old(self).selected,
                old(self).nodes@.len(),
                d,
            )),
            ev matches SelectNode::SelectNearestOrInsert(simtick) ==> inserted_and_selected(
                old(self).nodes@,
                final(self).nodes@,
                final(self).selected,
                (simtick / simticks_per_tick) as u64,
                origin,
            ),
    {
        match ev {
            SelectNode::SelectAdjacent(d) => self.select_adjacent(d),
            SelectNode::SelectNearestOrInsert(simtick) => {
                let t = simtick / simticks_per_tick;
                let node = ManeuverNode { name: new_node_name_exec(), thrust: Vec3::zero(), origin };
                proof {
                    lemma_put_sorted(self.nodes@, t, node);
                }
                self.select_or_insert(t, node);
            },
        }
    }
}

/// `nodes` and `selected` are what selecting tick `t` of `old_nodes` gives,
/// adding the node that `is_new_node` describes where `t` is free.
pub open spec fn inserted_and_selected(
    old_nodes: Seq<NodeEntry>,
    nodes: Seq<NodeEntry>,
    selected: Option<usize>,
    t: u64,
    origin: BodyID,
) -> bool {
    let k = key_index(nodes, t);
    &&& k >= 0
    &&& selected == Some(k as usize)
    &&& nodes == if key_index(old_nodes, t) >= 0 {
        old_nodes
    } else {
        put(old_nodes, t, nodes[k].1)
    }
    &&& key_index(old_nodes, t) < 0 ==> is_new_node(nodes[k].1, origin)
}

/// `n` is the node that selecting a free tick adds.
pub open spec fn is_new_node(n: ManeuverNode, origin: BodyID) -> bool {
    &&& n.name@ == new_node_name()
    &&& n.thrust == Vec3 { x: 0, y: 0, z: 0 }
    &&& n.origin == origin
}

} // verus!

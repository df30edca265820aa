use orbit_sim::scheduler::{AddAction, ManeuverNode, ShipActionKind, ShipSchedule, TrajectoryEvent};
use orbit_sim::ships::{DisableShipOrbitCheck, ShipInfo, World};
use orbit_sim::vector::Vec3;

fn node(name: &str) -> ManeuverNode {
    ManeuverNode { name: name.to_string(), thrust: Vec3::new(0, 0, 0), origin: "terre".to_string() }
}

fn add_node(tick: u64, name: &str) -> (u64, ShipActionKind) {
    (tick, ShipActionKind::AddNode { node: node(name) })
}

fn ticks(s: &ShipSchedule) -> Vec<u64> {
    s.0.iter().map(|e| e.0).collect()
}

fn fired_ticks(events: &[TrajectoryEvent]) -> Vec<u64> {
    events
        .iter()
        .map(|e| match e {
            TrajectoryEvent::AddNode { tick, .. } => *tick,
            _ => panic!("unexpected event"),
        })
        .collect()
}

#[test]
fn test_handle_schedules() {
    let ship_id = "ship".to_string();
    let node = node("test_node");
    let mut schedule = ShipSchedule(vec![(1, ShipActionKind::AddNode { node: node.clone() })]);

    let received = schedule.handle_schedules(&ship_id, 0);
    assert_eq!(received.len(), 0);

    let received = schedule.handle_schedules(&ship_id, 8);
    assert_eq!(received.len(), 1);
    assert_eq!(received, vec![TrajectoryEvent::AddNode { ship: ship_id.clone(), node, tick: 1 }]);
}

#[test]
fn due_entry_fires_exactly_once() {
    let ship_id = "ship".to_string();
    let mut schedule = ShipSchedule(vec![add_node(1, "a")]);
    assert_eq!(schedule.handle_schedules(&ship_id, 8).len(), 1);
    assert!(schedule.0.is_empty());
    assert_eq!(schedule.handle_schedules(&ship_id, 8).len(), 0);
    assert_eq!(schedule.handle_schedules(&ship_id, 9).len(), 0);
}

#[test]
fn consecutive_due_entries_are_all_drained() {
    let ship_id = "ship".to_string();
    let mut schedule = ShipSchedule(vec![
        add_node(3, "a"),
        add_node(1, "b"),
        add_node(9, "c"),
        add_node(2, "d"),
        add_node(2, "e"),
        add_node(7, "f"),
    ]);
    let events = schedule.handle_schedules(&ship_id, 3);
    assert_eq!(fired_ticks(&events), vec![3, 1, 2, 2]);
    assert_eq!(ticks(&schedule), vec![9, 7]);
}

#[test]
fn entry_at_current_tick_fires() {
    let ship_id = "ship".to_string();
    let mut schedule = ShipSchedule(vec![add_node(5, "a")]);
    assert_eq!(schedule.handle_schedules(&ship_id, 4).len(), 0);
    assert_eq!(schedule.handle_schedules(&ship_id, 5).len(), 1);
}

#[test]
fn empty_schedule_fires_nothing() {
    let mut schedule = ShipSchedule::new();
    assert!(schedule.handle_schedules(&"ship".to_string(), u64::MAX).is_empty());
}

#[test]
fn entry_added_in_the_past_fires_on_next_scan() {
    let ship_id = "ship".to_string();
    let mut schedule = ShipSchedule(vec![add_node(2, "a"), add_node(50, "b")]);
    assert_eq!(schedule.handle_schedules(&ship_id, 10).len(), 1);
    schedule.push(4, ShipActionKind::AddNode { node: node("late") });
    let events = schedule.handle_schedules(&ship_id, 11);
    assert_eq!(events, vec![TrajectoryEvent::AddNode { ship: ship_id, node: node("late"), tick: 4 }]);
    assert_eq!(ticks(&schedule), vec![50]);
}

#[test]
fn equal_ticks_each_fire_once() {
    let ship_id = "ship".to_string();
    let mut schedule = ShipSchedule(vec![add_node(6, "a"), add_node(6, "b"), add_node(6, "c")]);
    let events = schedule.handle_schedules(&ship_id, 6);
    let names: Vec<String> = events
        .iter()
        .map(|e| match e {
            TrajectoryEvent::AddNode { node, .. } => node.name.clone(),
            _ => panic!("unexpected event"),
        })
        .collect();
    assert_eq!(names, vec!["a".to_string(), "b".to_string(), "c".to_string()]);
    assert!(schedule.0.is_empty());
}

#[test]
fn world_drains_each_ship_schedule() {
    let sun = orbit_sim::influence::Body {
        id: "soleil".to_string(),
        position: Vec3::zero(),
        velocity: Vec3::zero(),
        hill_radius: orbit_sim::influence::HillRadius::Infinite,
        orbiting: orbit_sim::orbiting_obj::OrbitingObjects(vec![]),
    };
    let mut world: World<u32> = World::new(vec![sun], "soleil".to_string(), DisableShipOrbitCheck(false)).unwrap();
    for id in ["a", "b"] {
        world.handle_ship_create(ShipInfo { id: id.to_string(), spawn_pos: Vec3::new(10, 0, 0), spawn_speed: Vec3::zero() });
    }
    world.handle_add_action_to_schedule(AddAction { ship_id: "b".to_string(), tick: 3, action: ShipActionKind::AddNode { node: node("x") } });
    world.handle_add_action_to_schedule(AddAction { ship_id: "a".to_string(), tick: 1, action: ShipActionKind::AddNode { node: node("y") } });
    world.handle_add_action_to_schedule(AddAction { ship_id: "a".to_string(), tick: 9, action: ShipActionKind::AddNode { node: node("z") } });
    // an unknown craft drops the request
    world.handle_add_action_to_schedule(AddAction { ship_id: "gone".to_string(), tick: 1, action: ShipActionKind::AddNode { node: node("w") } });

    let events = world.handle_schedules(5);
    assert_eq!(
        events,
        vec![
            TrajectoryEvent::AddNode { ship: "a".to_string(), node: node("y"), tick: 1 },
            TrajectoryEvent::AddNode { ship: "b".to_string(), node: node("x"), tick: 3 },
        ]
    );
    assert_eq!(ticks(&world.ships.0[0].schedule), vec![9]);
    assert!(world.ships.0[1].schedule.0.is_empty());
    assert!(world.handle_schedules(5).is_empty());
}

#[test]
fn scans_at_rising_ticks_release_each_entry_once() {
    let ship_id = "ship".to_string();
    let mut schedule = ShipSchedule(vec![add_node(1, "a"), add_node(5, "b"), add_node(3, "c"), add_node(8, "d"), add_node(2, "e")]);
    assert!(schedule.handle_schedules(&ship_id, 0).is_empty());
    assert_eq!(fired_ticks(&schedule.handle_schedules(&ship_id, 3)), vec![1, 3, 2]);
    assert!(schedule.handle_schedules(&ship_id, 3).is_empty());
    assert_eq!(fired_ticks(&schedule.handle_schedules(&ship_id, 8)), vec![5, 8]);
    assert!(schedule.0.is_empty());
    assert!(schedule.handle_schedules(&ship_id, 100).is_empty());
}

use orbit_sim::editor::{Direction2, EditorContext, ReloadPredictions, SelectNode, AUTO_THRUST_INTERVAL, AUTO_THRUST_NODES};
use orbit_sim::scheduler::{ManeuverNode, TrajectoryEvent};
use orbit_sim::ships::ShipInfo;
use orbit_sim::vector::Vec3;

fn node(name: &str) -> ManeuverNode {
    ManeuverNode { name: name.to_string(), thrust: Vec3::new(1, 2, 3), origin: "terre".to_string() }
}

fn context() -> EditorContext<u32> {
    let info = ShipInfo { id: "s".to_string(), spawn_pos: Vec3::zero(), spawn_speed: Vec3::zero() };
    EditorContext::new(99, info, &Vec3::new(1, 2, 3), &Vec3::new(4, 5, 6), 10)
}

fn ticks(ctx: &EditorContext<u32>) -> Vec<u64> {
    ctx.nodes.iter().map(|e| e.0).collect()
}

#[test]
fn new_context_is_empty() {
    let ctx = context();
    assert_eq!(ctx.len(), 0);
    assert_eq!(ctx.selected_entry(), None);
    assert_eq!(ctx.simtick, 10);
    assert_eq!(ctx.pos, Vec3::new(1, 2, 3));
    assert!(!ctx.auto_thrust_enabled);
}

#[test]
fn nodes_stay_in_tick_order_and_are_selected() {
    let mut ctx = context();
    ctx.select_or_insert(30, node("c"));
    ctx.select_or_insert(10, node("a"));
    ctx.select_or_insert(20, node("b"));
    assert_eq!(ticks(&ctx), vec![10, 20, 30]);
    assert_eq!(ctx.selected_tick(), Some(20));
    assert_eq!(ctx.selected_node().unwrap().name, "b");
    // an occupied tick keeps its node
    ctx.select_or_insert(30, node("other"));
    assert_eq!(ctx.get_node(30).unwrap().name, "c");
    assert_eq!(ctx.index_of_tick(30), Some(2));
    assert_eq!(ctx.selected, Some(2));
    assert_eq!(ctx.index_of_tick(31), None);
    assert_eq!(ctx.get_node(31), None);
}

#[test]
fn select_tick_only_moves_to_known_ticks() {
    let mut ctx = context();
    ctx.select_or_insert(5, node("a"));
    ctx.select_or_insert(7, node("b"));
    assert_eq!(ctx.select_tick(5), Some(0));
    assert_eq!(ctx.selected_tick(), Some(5));
    assert_eq!(ctx.select_tick(6), None);
    assert_eq!(ctx.selected_tick(), Some(5));
}

#[test]
fn change_tick_moves_and_replaces() {
    let mut ctx = context();
    ctx.select_or_insert(5, node("a"));
    ctx.select_or_insert(7, node("b"));
    ctx.select_or_insert(9, node("c"));
    ctx.change_tick(5, 8);
    assert_eq!(ticks(&ctx), vec![7, 8, 9]);
    assert_eq!(ctx.get_node(8).unwrap().name, "a");
    ctx.change_tick(8, 9);
    assert_eq!(ticks(&ctx), vec![7, 9]);
    assert_eq!(ctx.get_node(9).unwrap().name, "a");
    ctx.change_tick(100, 1);
    assert_eq!(ticks(&ctx), vec![7, 9]);
}

#[test]
fn selection_is_clamped_to_the_list() {
    let mut ctx = context();
    ctx.select_adjacent(Direction2::Down);
    assert_eq!(ctx.selected, None);
    ctx.select_or_insert(1, node("a"));
    ctx.select_or_insert(2, node("b"));
    ctx.selected = None;
    ctx.select_adjacent(Direction2::Down);
    assert_eq!(ctx.selected, Some(0));
    ctx.select_adjacent(Direction2::Down);
    ctx.select_adjacent(Direction2::Down);
    assert_eq!(ctx.selected, Some(1));
    ctx.select_adjacent(Direction2::Up);
    ctx.select_adjacent(Direction2::Up);
    assert_eq!(ctx.selected, Some(0));
    ctx.selected = Some(40);
    assert_eq!(ctx.selected_entry(), None);
    ctx.select_adjacent(Direction2::Up);
    assert_eq!(ctx.selected, Some(0));
}

#[test]
fn selected_node_can_be_edited() {
    let mut ctx = context();
    ctx.select_or_insert(4, node("a"));
    ctx.selected_node_mut().unwrap().thrust = Vec3::new(9, 9, 9);
    assert_eq!(ctx.get_node(4).unwrap().thrust, Vec3::new(9, 9, 9));
    let (t, n) = ctx.selected_entry_mut().unwrap();
    assert_eq!(*t, 4);
    n.name = "renamed".to_string();
    assert_eq!(ctx.get_node(4).unwrap().name, "renamed");
}

#[test]
fn prediction_of_the_selected_node() {
    let mut ctx = context();
    ctx.predictions = (100..200).collect();
    assert_eq!(ctx.selected_prediction_entity(2), None);
    ctx.select_or_insert(20, node("a"));
    // simulation tick 40: 30 ticks from the start of the predictions
    assert_eq!(ctx.index_of_prediction_at_simtick(40), 30);
    assert_eq!(ctx.selected_prediction_entity(2), Some(130));
    assert_eq!(ctx.prediction_at_simtick(40), Some(130));
    // the index counts the ticks from the start
    assert_eq!(ctx.index_of_prediction_at_simtick(12), 2);
    assert_eq!(ctx.index_of_prediction_at_simtick(10), 0);
    assert_eq!(ctx.prediction_at_simtick(12), Some(102));
    assert_eq!(ctx.prediction_at_simtick(1000), None);
    // before the start there is no prediction
    ctx.select_or_insert(1, node("b"));
    assert_eq!(ctx.selected_prediction_entity(2), None);
}

#[test]
fn auto_thrust_toggles() {
    let mut ctx = context();
    let thrusts: Vec<Vec3> = (0..12).map(|i| Vec3::new(200_000 + i, 300_000, 0)).collect();
    let ev = ctx.handle_auto_thrust(&thrusts);
    assert!(ctx.auto_thrust_enabled);
    match &ev {
        TrajectoryEvent::AddAutoThrust { ship, node_list, tick_interval } => {
            assert_eq!(ship, "s");
            assert_eq!(*tick_interval, AUTO_THRUST_INTERVAL);
            assert_eq!(node_list.len() as u64, AUTO_THRUST_NODES);
            assert_eq!(node_list[3].thrust, Vec3::new(200_003, 300_000, 0));
            assert_eq!(node_list[3].name, "auto_node");
            assert_eq!(node_list[3].origin, "terre");
        },
        _ => panic!("expected a plan"),
    }
    assert_eq!(ctx.handle_trajectory_event(&ev), Some(ReloadPredictions));
    assert_eq!(ticks(&ctx), (0..10).map(|i| i * 25).collect::<Vec<u64>>());
    assert_eq!(ctx.selected_tick(), Some(225));

    let ev = ctx.handle_auto_thrust(&thrusts);
    assert!(!ctx.auto_thrust_enabled);
    assert_eq!(ev, TrajectoryEvent::RemoveAutoThrust { ship: "s".to_string(), tick_interval: 25 });
    ctx.select_or_insert(30, node("kept"));
    assert_eq!(ctx.handle_trajectory_event(&ev), Some(ReloadPredictions));
    assert_eq!(ticks(&ctx), vec![30]);
    let single = TrajectoryEvent::AddNode { ship: "s".to_string(), node: node("n"), tick: 3 };
    assert_eq!(ctx.handle_trajectory_event(&single), None);
    assert_eq!(ticks(&ctx), vec![30]);
}

#[test]
fn plan_keeps_existing_nodes() {
    let mut ctx = context();
    ctx.select_or_insert(50, node("mine"));
    let plan = TrajectoryEvent::AddAutoThrust { ship: "s".to_string(), node_list: vec![node("p0"), node("p1"), node("p2")], tick_interval: 25 };
    ctx.handle_trajectory_event(&plan);
    assert_eq!(ticks(&ctx), vec![0, 25, 50]);
    assert_eq!(ctx.get_node(50).unwrap().name, "mine");
    assert_eq!(ctx.get_node(25).unwrap().name, "p1");
}

#[test]
fn select_nearest_or_insert_adds_a_blank_node() {
    let mut ctx = context();
    ctx.handle_select_node(SelectNode::SelectNearestOrInsert(41), "mars".to_string(), 4);
    assert_eq!(ticks(&ctx), vec![10]);
    let n = ctx.selected_node().unwrap();
    assert_eq!(n.name, "Node");
    assert_eq!(n.thrust, Vec3::zero());
    assert_eq!(n.origin, "mars");
    ctx.handle_select_node(SelectNode::SelectNearestOrInsert(5), "mars".to_string(), 4);
    assert_eq!(ctx.selected_tick(), Some(1));
    ctx.handle_select_node(SelectNode::SelectAdjacent(Direction2::Down), "mars".to_string(), 4);
    assert_eq!(ctx.selected_tick(), Some(10));
}

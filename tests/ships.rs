use orbit_sim::influence::{Body, HillRadius};
use orbit_sim::orbiting_obj::{OrbitalObjID, OrbitingObjects};
use orbit_sim::ships::{DisableShipOrbitCheck, ShipInfo, ShipMotion, World};
use orbit_sim::vector::Vec3;

/// The Sun and the Earth, both at the origin, positions in km.
fn sun_and_earth() -> Vec<Body> {
    let (sun_mass, earth_mass) = (1.989e30_f64, 5.97237e24_f64);
    let (earth_a, earth_e, earth_radius) = (149598023.0_f64, 0.01670_f64, 6371.00840_f64);
    let hill_radius_earth =
        (earth_a * (1. - earth_e) * (earth_mass / (3. * (sun_mass + earth_mass))).powf(1. / 3.)).max(earth_radius);
    vec![
        Body {
            id: "soleil".to_string(),
            position: Vec3::zero(),
            velocity: Vec3::zero(),
            hill_radius: HillRadius::Infinite,
            orbiting: OrbitingObjects::to_orbiting_objects(&vec!["terre".to_string()]),
        },
        Body {
            id: "terre".to_string(),
            position: Vec3::zero(),
            velocity: Vec3::zero(),
            hill_radius: HillRadius::Finite(hill_radius_earth as u64),
            orbiting: OrbitingObjects(Vec::new()),
        },
    ]
}

fn world() -> World<u32> {
    World::new(sun_and_earth(), "soleil".to_string(), DisableShipOrbitCheck(false)).unwrap()
}

fn ship(id: &str, pos: (i64, i64, i64), speed: (i64, i64, i64)) -> ShipInfo {
    ShipInfo {
        id: id.to_string(),
        spawn_pos: Vec3::new(pos.0, pos.1, pos.2),
        spawn_speed: Vec3::new(speed.0, speed.1, speed.2),
    }
}

fn ship_entries(body: &Body) -> Vec<String> {
    body.orbiting
        .0
        .iter()
        .filter_map(|o| match o {
            OrbitalObjID::Ship(s) => Some(s.clone()),
            OrbitalObjID::Body(_) => None,
        })
        .collect()
}

fn influence_of(world: &World<u32>, i: usize) -> (Vec<String>, String) {
    match &world.ships.0[i].motion {
        ShipMotion::Propagated { influence } => (influence.influencers.clone(), influence.main_influencer.clone()),
        ShipMotion::Orbiting { .. } => panic!("craft is orbiting"),
    }
}

#[test]
fn test_handle_ship_remove() {
    let mut world = world();
    let ship_id = "ship".to_string();
    world.handle_ship_create(ShipInfo { id: ship_id.clone(), spawn_pos: Vec3::zero(), spawn_speed: Vec3::zero() });
    assert!(world.find_ship(&ship_id).is_some());
    world.handle_ship_remove(&ship_id);
    assert!(world.find_ship(&ship_id).is_none());
    assert!(world.ships.0.is_empty());
}

#[test]
fn test_handle_ship_create() {
    // no body but the primary, which the catalog does not list
    let mut world: World<u32> = World::new(Vec::new(), "soleil".to_string(), DisableShipOrbitCheck(false)).unwrap();
    world.handle_ship_create(ship("s", (1_000_000, 0, 0), (0, 1_000_000, 0)));
    assert_eq!(world.ships.0.len(), 1);
    let (influencers, main) = influence_of(&world, 0);
    assert_eq!(influencers, vec!["soleil".to_string()]);
    assert_eq!(main, "soleil");
    // its main influencer is not among the bodies: it is not tested and cannot orbit
    assert!(world.check_ship_orbits().is_empty());
    world.handle_switch_to_orbital(&"s".to_string(), 1);
    assert!(matches!(world.ships.0[0].motion, ShipMotion::Propagated { .. }));
}

#[test]
fn ship_created_inside_nested_spheres() {
    let mut world = world();
    world.handle_ship_create(ship("s", (1_000_000, 0, 0), (0, 1_000_000, 0)));
    assert_eq!(world.ships.0.len(), 1);
    let s = &world.ships.0[0];
    assert_eq!(s.position, Vec3::new(1_000_000, 0, 0));
    assert_eq!(s.velocity, Vec3::new(0, 1_000_000, 0));
    // inside the Earth's sphere, which is nested in the Sun's
    let (influencers, main) = influence_of(&world, 0);
    assert_eq!(influencers, vec!["soleil".to_string(), "terre".to_string()]);
    assert_eq!(main, "terre");
}

#[test]
fn create_keeps_existing_identity() {
    let mut world = world();
    world.handle_ship_create(ship("s", (1, 0, 0), (0, 0, 0)));
    world.handle_ship_create(ship("s", (5, 5, 5), (1, 1, 1)));
    assert_eq!(world.ships.0.len(), 1);
    assert_eq!(world.ships.0[0].position, Vec3::new(1, 0, 0));
}

#[test]
fn test_check_ship_orbits_handle_switch_to_orbital() {
    let mut world = world();
    world.handle_ship_create(ship("s", (-32501208, 143561259, 0), (-2696715, -672187, 0)));

    let checks = world.check_ship_orbits();
    assert_eq!(checks.len(), 1);
    assert_eq!(checks[0].ship_id, "s");
    assert_eq!(checks[0].host, "soleil");
    assert_eq!(checks[0].r_vec, Vec3::new(-32501208, 143561259, 0));
    assert_eq!(checks[0].v_vec, Vec3::new(-2696715, -672187, 0));

    world.handle_switch_to_orbital(&"s".to_string(), 7);

    assert!(
        matches!(&world.ships.0[0].motion, ShipMotion::Orbiting { orbit: 7, .. }),
        "Ship should have a EllipticalOrbit Component"
    );
    assert_eq!(world.get_host_body(&"s".to_string()), Some("soleil".to_string()), "Ship should have a HostBody Component");
    assert_eq!(ship_entries(&world.bodies[0]), vec!["s".to_string()]);
    assert!(ship_entries(&world.bodies[1]).is_empty());
    // once orbiting it is no longer tested
    assert!(world.check_ship_orbits().is_empty());
}

#[test]
fn test_switch_to_orbital_impossible() {
    // on an escape trajectory: it is tested, but no transition is requested
    let mut world = world();
    world.handle_ship_create(ship("s2", (-2522401, 142515717, 0), (-25224010, -544246, 0)));
    world.update_influences();
    let checks = world.check_ship_orbits();
    assert_eq!(checks.len(), 1);
    assert_eq!(checks[0].host, "soleil");

    world.update_influences();
    assert!(matches!(world.ships.0[0].motion, ShipMotion::Propagated { .. }), "Ship should have no EllipticalOrbit Component");
    assert_eq!(world.get_host_body(&"s2".to_string()), None, "Ship should have no HostBody Component");
    assert!(ship_entries(&world.bodies[0]).is_empty());
    assert!(ship_entries(&world.bodies[1]).is_empty());
}

#[test]
fn test_handle_switch_to_edit_mode() {
    let mut world = world();
    world.handle_ship_create(ship("s", (-32501208, 143561259, 0), (-2696715, -672187, 0)));
    world.handle_switch_to_orbital(&"s".to_string(), 1);
    assert!(world.get_host_body(&"s".to_string()).is_some(), "Ship should have a HostBody Component");

    world.handle_switch_to_edit_mode(&"s".to_string());

    let (influencers, main) = influence_of(&world, 0);
    assert!(!influencers.is_empty(), "Ship should have an Influenced Component");
    assert_eq!(main, "soleil");
    assert_eq!(world.get_host_body(&"s".to_string()), None);
    assert!(ship_entries(&world.bodies[0]).is_empty());
    assert_eq!(world.ships.0[0].position, Vec3::new(-32501208, 143561259, 0));
}

#[test]
fn orbiting_craft_is_in_exactly_one_set() {
    let mut world = world();
    world.handle_ship_create(ship("a", (1000, 0, 0), (0, 10, 0)));
    world.handle_ship_create(ship("b", (100_000_000, 0, 0), (0, 10, 0)));
    world.handle_switch_to_orbital(&"a".to_string(), 1);
    world.handle_switch_to_orbital(&"b".to_string(), 2);
    // a second request for an orbiting craft changes nothing
    world.handle_switch_to_orbital(&"a".to_string(), 3);
    assert_eq!(ship_entries(&world.bodies[0]), vec!["b".to_string()]);
    assert_eq!(ship_entries(&world.bodies[1]), vec!["a".to_string()]);
    assert!(matches!(world.ships.0[0].motion, ShipMotion::Orbiting { orbit: 1, .. }));

    world.handle_ship_remove(&"a".to_string());
    assert!(ship_entries(&world.bodies[1]).is_empty());
    assert_eq!(ship_entries(&world.bodies[0]), vec!["b".to_string()]);
    // the catalog entries stay
    assert!(world.bodies[0].orbiting.contains(&OrbitalObjID::Body("terre".to_string())));
}

#[test]
fn unknown_identities_are_ignored() {
    let mut world = world();
    world.handle_ship_create(ship("a", (1000, 0, 0), (0, 10, 0)));
    let gone = "gone".to_string();
    world.handle_ship_remove(&gone);
    world.handle_switch_to_orbital(&gone, 1);
    world.handle_switch_to_edit_mode(&gone);
    assert_eq!(world.ships.0.len(), 1);
    assert!(ship_entries(&world.bodies[0]).is_empty());
    assert!(ship_entries(&world.bodies[1]).is_empty());
}

#[test]
fn disabled_check_reports_nothing() {
    let mut world: World<u32> =
        World::new(sun_and_earth(), "soleil".to_string(), DisableShipOrbitCheck(true)).unwrap();
    world.handle_ship_create(ship("a", (1000, 0, 0), (0, 10, 0)));
    assert!(world.check_ship_orbits().is_empty());
}

#[test]
fn influence_follows_moves() {
    let mut world = world();
    world.handle_ship_create(ship("a", (1000, 0, 0), (0, 10, 0)));
    world.move_ship(&"a".to_string(), Vec3::new(100_000_000, 0, 0), Vec3::new(0, 5, 0));
    world.update_influences();
    let (influencers, main) = influence_of(&world, 0);
    assert_eq!(influencers, vec!["soleil".to_string()]);
    assert_eq!(main, "soleil");

    world.move_body(&"terre".to_string(), Vec3::new(100_000_100, 0, 0), Vec3::new(0, 7, 0));
    world.update_influences();
    assert_eq!(influence_of(&world, 0).1, "terre");
    let checks = world.check_ship_orbits();
    assert_eq!(checks[0].r_vec, Vec3::new(-100, 0, 0));
    assert_eq!(checks[0].v_vec, Vec3::new(0, -2, 0));
}

#[test]
fn catalog_with_repeated_identity_is_refused() {
    let mut bodies = sun_and_earth();
    bodies[1].id = "soleil".to_string();
    assert!(World::<u32>::new(bodies, "soleil".to_string(), DisableShipOrbitCheck(false)).is_none());

    let mut bodies = sun_and_earth();
    bodies[1].orbiting.0.push(OrbitalObjID::Ship("x".to_string()));
    assert!(World::<u32>::new(bodies, "soleil".to_string(), DisableShipOrbitCheck(false)).is_none());

    let mut bodies = sun_and_earth();
    bodies[1].position = Vec3::new(i64::MAX, 0, 0);
    assert!(World::<u32>::new(bodies, "soleil".to_string(), DisableShipOrbitCheck(false)).is_none());
}

#[test]
fn idle_tick_keeps_orbit_checks() {
    let mut world = world();
    world.handle_ship_create(ship("a", (1000, 0, 0), (0, 10, 0)));
    world.handle_ship_create(ship("b", (-32501208, 143561259, 0), (-2696715, -672187, 0)));
    world.update_influences();
    let before = world.check_ship_orbits();
    assert_eq!(before.len(), 2);
    assert_eq!(before[0].host, "terre");
    world.update_influences();
    assert_eq!(world.check_ship_orbits(), before);
}

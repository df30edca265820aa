use orbit_sim::orbiting_obj::{OrbitalObjID, OrbitingObjects};

#[test]
fn catalog_satellites_become_body_entries() {
    let objs = OrbitingObjects::to_orbiting_objects(&vec!["terre".to_string(), "mars".to_string()]);
    assert_eq!(objs.0, vec![OrbitalObjID::Body("terre".to_string()), OrbitalObjID::Body("mars".to_string())]);
    assert_eq!(objs.len(), 2);
}

#[test]
fn remove_takes_out_every_occurrence() {
    let mut objs = OrbitingObjects::to_orbiting_objects(&vec!["terre".to_string()]);
    objs.push(OrbitalObjID::Ship("s".to_string()));
    objs.push(OrbitalObjID::Ship("t".to_string()));
    objs.push(OrbitalObjID::Ship("s".to_string()));
    objs.remove(&OrbitalObjID::Ship("s".to_string()));
    assert_eq!(objs.0, vec![OrbitalObjID::Body("terre".to_string()), OrbitalObjID::Ship("t".to_string())]);
    assert!(!objs.contains(&OrbitalObjID::Ship("s".to_string())));
    // a body and a craft of the same name are different objects
    objs.push(OrbitalObjID::Ship("terre".to_string()));
    objs.remove(&OrbitalObjID::Ship("terre".to_string()));
    assert!(objs.contains(&OrbitalObjID::Body("terre".to_string())));
}

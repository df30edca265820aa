use orbit_sim::influence::{Body, HillRadius, Influenced};
use orbit_sim::orbiting_obj::OrbitingObjects;
use orbit_sim::vector::{within_radius, Vec3};

fn body(id: &str, at: (i64, i64, i64), radius: HillRadius) -> Body {
    Body {
        id: id.to_string(),
        position: Vec3::new(at.0, at.1, at.2),
        velocity: Vec3::zero(),
        hill_radius: radius,
        orbiting: OrbitingObjects(Vec::new()),
    }
}

fn catalog() -> Vec<Body> {
    vec![
        body("sun", (0, 0, 0), HillRadius::Infinite),
        body("planet", (1000, 0, 0), HillRadius::Finite(100)),
        body("moon", (1050, 0, 0), HillRadius::Finite(10)),
        body("other", (-1000, 0, 0), HillRadius::Finite(100)),
    ]
}

#[test]
fn nested_spheres_pick_the_innermost() {
    let r = Influenced::new(&Vec3::new(1052, 3, 0), &catalog(), &"sun".to_string());
    assert_eq!(r.influencers, vec!["sun".to_string(), "planet".to_string(), "moon".to_string()]);
    assert_eq!(r.main_influencer, "moon");
}

#[test]
fn outside_every_finite_sphere_the_primary_governs() {
    let r = Influenced::new(&Vec3::new(0, 5000, 0), &catalog(), &"sun".to_string());
    assert_eq!(r.influencers, vec!["sun".to_string()]);
    assert_eq!(r.main_influencer, "sun");
}

#[test]
fn no_candidate_falls_back_to_the_primary() {
    let cat = vec![body("planet", (1000, 0, 0), HillRadius::Finite(100))];
    let r = Influenced::new(&Vec3::new(0, 0, 0), &cat, &"sun".to_string());
    assert_eq!(r.influencers, vec!["sun".to_string()]);
    assert_eq!(r.main_influencer, "sun");

    let r = Influenced::new(&Vec3::new(0, 0, 0), &Vec::new(), &"sun".to_string());
    assert_eq!(r.influencers, vec!["sun".to_string()]);
    assert_eq!(r.main_influencer, "sun");
}

#[test]
fn sphere_boundary_is_inside() {
    let r = Influenced::new(&Vec3::new(1100, 0, 0), &catalog(), &"sun".to_string());
    assert_eq!(r.main_influencer, "planet");
    let r = Influenced::new(&Vec3::new(1101, 0, 0), &catalog(), &"sun".to_string());
    assert_eq!(r.main_influencer, "sun");
}

#[test]
fn equal_radii_prefer_the_first() {
    let cat = vec![
        body("sun", (0, 0, 0), HillRadius::Infinite),
        body("a", (0, 0, 0), HillRadius::Finite(50)),
        body("b", (10, 0, 0), HillRadius::Finite(50)),
    ];
    // a and b each hold the other's center: neither is innermost, both tie on radius
    let r = Influenced::new(&Vec3::new(5, 0, 0), &cat, &"sun".to_string());
    assert_eq!(r.influencers, vec!["sun".to_string(), "a".to_string(), "b".to_string()]);
    assert_eq!(r.main_influencer, "a");
}

#[test]
fn innermost_beats_a_smaller_enclosing_sphere() {
    let cat = vec![
        body("sun", (-100_000, 0, 0), HillRadius::Infinite),
        // holds the center of "wide", so it is not innermost
        body("small", (0, 0, 0), HillRadius::Finite(10)),
        body("wide", (-9, 0, 0), HillRadius::Finite(1000)),
        // holds no other candidate's center
        body("inner", (25, 0, 0), HillRadius::Finite(16)),
    ];
    let r = Influenced::new(&Vec3::new(10, 0, 0), &cat, &"sun".to_string());
    assert_eq!(r.influencers.len(), 4);
    assert_eq!(r.main_influencer, "inner");
}

#[test]
fn containment_is_exact_at_large_scale() {
    let c = Vec3::new(0, 0, 0);
    let p = Vec3::new(3_000_000_000, 4_000_000_000, 0);
    assert!(within_radius(&p, &c, 5_000_000_000));
    assert!(!within_radius(&p, &c, 4_999_999_999));
    let far = Vec3::new(i64::MAX, i64::MAX, i64::MAX);
    let near = Vec3::new(i64::MIN, i64::MIN, i64::MIN);
    assert!(!within_radius(&far, &near, u64::MAX));
    assert!(within_radius(&far, &far, 0));
}

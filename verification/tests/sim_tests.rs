use phys2d::fixed::{isqrt, mul_scale, sat, SAT_MAX, SCALE};
use phys2d::state::{Config, Link, Particle, SimError, Simulation, Vec2};

fn v(x: i128, y: i128) -> Vec2 {
    Vec2 { x, y }
}

fn free_particle(pos: Vec2, vel: Vec2, acc: Vec2, he: Vec2) -> Particle {
    Particle { pos, vel, acc, half_extent: he, fixed: false }
}

fn anchor(pos: Vec2) -> Particle {
    Particle { pos, vel: v(0, 0), acc: v(0, 0), half_extent: v(0, 0), fixed: true }
}

fn wide_world() -> Config {
    Config { world_half: v(SAT_MAX, SAT_MAX), time_step: SCALE, drag: 0, restitution: 999 }
}

#[test]
fn momentum_three_substeps() {
    // a = (0, -1), dt = 1, v0 = (0, 0): after three steps the velocity
    // is (0, -3) and the position the constant-acceleration sum (0, -3)
    let p = free_particle(v(0, 0), v(0, 0), v(0, -1000), v(0, 0));
    let mut sim = Simulation::new(vec![p], vec![], wide_world()).unwrap();
    for _ in 0..3 {
        sim.step();
    }
    let q = sim.particle(0);
    assert_eq!(q.vel.x, 0);
    assert_eq!(q.vel.y, -3000);
    assert_eq!(q.pos.x, 0);
    assert_eq!(q.pos.y, -3000);
}

#[test]
fn momentum_two_substeps_per_step() {
    // dt = 0.5 runs two sub-steps per step
    let p = free_particle(v(0, 0), v(0, 0), v(0, -1000), v(0, 0));
    let cfg = Config { world_half: v(SAT_MAX, SAT_MAX), time_step: 500, drag: 0, restitution: 999 };
    let mut sim = Simulation::new(vec![p], vec![], cfg).unwrap();
    sim.step();
    let q = sim.particle(0);
    assert_eq!(q.vel.y, -2000);
    assert_eq!(q.pos.y, -500);
}

#[test]
fn reflection_at_boundary() {
    // moving outward at the wall with restitution 0.999: the x velocity
    // becomes -99.9 and the x position does not move this sub-step
    let p = free_particle(v(240_000, 0), v(100_000, 0), v(0, 0), v(5_000, 5_000));
    let cfg = Config {
        world_half: v(250_000, 250_000),
        time_step: SCALE,
        drag: 0,
        restitution: 999,
    };
    let mut sim = Simulation::new(vec![p], vec![], cfg).unwrap();
    sim.step();
    let q = sim.particle(0);
    assert_eq!(q.vel.x, -99_900);
    assert_eq!(q.pos.x, 240_000);
    assert_eq!(q.vel.y, 0);
    assert_eq!(q.pos.y, 0);
}

#[test]
fn boundary_containment_over_many_steps() {
    let p = free_particle(v(0, 0), v(30_000, 40_000), v(0, -1_000), v(5_000, 5_000));
    let cfg = Config {
        world_half: v(100_000, 100_000),
        time_step: SCALE,
        drag: 1,
        restitution: 999,
    };
    let mut sim = Simulation::new(vec![p], vec![], cfg).unwrap();
    for _ in 0..200 {
        sim.step();
        let q = sim.particle(0);
        assert!(q.pos.x.abs() + 5_000 <= 100_000);
        assert!(q.pos.y.abs() + 5_000 <= 100_000);
    }
}

#[test]
fn fixed_particle_bit_identical() {
    let a = Particle {
        pos: v(10_000, 20_000),
        vel: v(3_000, -2_000),
        acc: v(0, -1_000),
        half_extent: v(5_000, 5_000),
        fixed: true,
    };
    let b = free_particle(v(50_000, 20_000), v(0, 0), v(0, -1_000), v(5_000, 5_000));
    let links = vec![Link { owner: 1, other: 0, rest_length: 10_000 }];
    let cfg = Config {
        world_half: v(250_000, 250_000),
        time_step: SCALE,
        drag: 1,
        restitution: 999,
    };
    let mut sim = Simulation::new(vec![a, b], links, cfg).unwrap();
    for _ in 0..50 {
        sim.step();
    }
    assert_eq!(sim.particle(0), a);
    assert!(sim.particle(1) != b);
}

#[test]
fn relax_deterministic() {
    let mk = || {
        let a = anchor(v(0, 0));
        let b = free_particle(v(130_000, 40_000), v(1_000, -2_000), v(0, 0), v(0, 0));
        let c = free_particle(v(-70_000, 10_000), v(0, 0), v(0, 0), v(0, 0));
        let links = vec![
            Link { owner: 1, other: 0, rest_length: 100_000 },
            Link { owner: 2, other: 1, rest_length: 50_000 },
        ];
        Simulation::new(vec![a, b, c], links, wide_world()).unwrap()
    };
    let mut s1 = mk();
    let mut s2 = mk();
    s1.relax();
    s2.relax();
    for i in 0..s1.particle_count() {
        assert_eq!(s1.particle(i), s2.particle(i));
    }
    s1.relax();
    s2.relax();
    for i in 0..s1.particle_count() {
        assert_eq!(s1.particle(i), s2.particle(i));
    }
}

#[test]
fn degenerate_distance_skips_link() {
    let a = free_particle(v(5_000, 5_000), v(100, -200), v(0, 0), v(0, 0));
    let b = free_particle(v(5_000, 5_000), v(-300, 400), v(0, 0), v(0, 0));
    let links = vec![Link { owner: 0, other: 1, rest_length: 100_000 }];
    let mut sim = Simulation::new(vec![a, b], links, wide_world()).unwrap();
    sim.relax();
    assert_eq!(sim.particle(0), a);
    assert_eq!(sim.particle(1), b);
}

#[test]
fn two_particle_link_convergence() {
    // distance 150, rest length 100, one end fixed: repeated relaxation
    // passes close the gap monotonically and never overshoot past the
    // rest length
    let a = anchor(v(0, 0));
    let b = free_particle(v(150_000, 0), v(0, 0), v(0, 0), v(0, 0));
    let links = vec![Link { owner: 1, other: 0, rest_length: 100_000 }];
    let mut sim = Simulation::new(vec![a, b], links, wide_world()).unwrap();
    let mut prev = 150_000i128;
    for _ in 0..40 {
        sim.relax();
        let d = sim.particle(1).pos.x;
        assert!(d <= prev);
        assert!(d >= 100_000);
        prev = d;
    }
    assert!(prev <= 100_001);
}

#[test]
fn new_rejects_bad_config() {
    let cfg = Config { world_half: v(0, 0), time_step: 0, drag: 0, restitution: 999 };
    let r = Simulation::new(vec![], vec![], cfg);
    assert_eq!(r.err().unwrap(), SimError::InvalidConfig);
}

#[test]
fn new_rejects_out_of_band_particle() {
    let p = free_particle(v(SAT_MAX + 1, 0), v(0, 0), v(0, 0), v(0, 0));
    let r = Simulation::new(vec![p], vec![], wide_world());
    assert_eq!(r.err().unwrap(), SimError::InvalidParticle);
}

#[test]
fn new_rejects_missing_particle() {
    let p = free_particle(v(0, 0), v(0, 0), v(0, 0), v(0, 0));
    let q = free_particle(v(10_000, 0), v(0, 0), v(0, 0), v(0, 0));
    let links = vec![Link { owner: 0, other: 5, rest_length: 1_000 }];
    let r = Simulation::new(vec![p, q], links, wide_world());
    assert_eq!(r.err().unwrap(), SimError::MissingParticle);
}

#[test]
fn new_rejects_self_link() {
    let p = free_particle(v(0, 0), v(0, 0), v(0, 0), v(0, 0));
    let q = free_particle(v(10_000, 0), v(0, 0), v(0, 0), v(0, 0));
    let links = vec![Link { owner: 1, other: 1, rest_length: 1_000 }];
    let r = Simulation::new(vec![p, q], links, wide_world());
    assert_eq!(r.err().unwrap(), SimError::SelfLink);
}

#[test]
fn new_rejects_bad_rest_length() {
    let p = free_particle(v(0, 0), v(0, 0), v(0, 0), v(0, 0));
    let q = free_particle(v(10_000, 0), v(0, 0), v(0, 0), v(0, 0));
    let links = vec![Link { owner: 1, other: 0, rest_length: -1 }];
    let r = Simulation::new(vec![p, q], links, wide_world());
    assert_eq!(r.err().unwrap(), SimError::InvalidRestLength);
}

#[test]
fn new_accepts_valid_scene() {
    let p = anchor(v(0, 0));
    let q = free_particle(v(10_000, 0), v(0, 0), v(0, -1_000), v(5_000, 5_000));
    let links = vec![Link { owner: 1, other: 0, rest_length: 10_000 }];
    let sim = Simulation::new(vec![p, q], links, wide_world()).unwrap();
    assert_eq!(sim.particle_count(), 2);
    assert_eq!(sim.link_count(), 1);
}

#[test]
fn positions_reports_store_order() {
    let p = anchor(v(1_000, 2_000));
    let q = free_particle(v(-3_000, 4_000), v(0, 0), v(0, 0), v(0, 0));
    let sim = Simulation::new(vec![p, q], vec![], wide_world()).unwrap();
    let pos = sim.positions();
    assert_eq!(pos.len(), 2);
    assert_eq!(pos[0], v(1_000, 2_000));
    assert_eq!(pos[1], v(-3_000, 4_000));
}

#[test]
fn isqrt_exact_values() {
    assert_eq!(isqrt(0), 0);
    assert_eq!(isqrt(1), 1);
    assert_eq!(isqrt(8), 2);
    assert_eq!(isqrt(9), 3);
    assert_eq!(isqrt(10), 3);
    assert_eq!(isqrt(1_000_000_000_000_000_000_000_000_000_000), 1_000_000_000_000_000);
}

#[test]
fn fixed_point_helpers() {
    assert_eq!(mul_scale(100_000, 999), 99_900);
    assert_eq!(mul_scale(-100_000, 999), -99_900);
    assert_eq!(mul_scale(1, 999), 0);
    assert_eq!(sat(SAT_MAX + 1), SAT_MAX);
    assert_eq!(sat(-SAT_MAX - 1), -SAT_MAX);
    assert_eq!(sat(123), 123);
}

#[test]
fn later_links_see_earlier_corrections() {
    // sequential relaxation: the second link measures the first link's
    // correction within the same pass (a snapshot-based pass would
    // leave the second link satisfied and move nothing)
    let a = anchor(v(0, 0));
    let b = free_particle(v(100_000, 0), v(0, 0), v(0, 0), v(0, 0));
    let c = free_particle(v(200_000, 0), v(0, 0), v(0, 0), v(0, 0));
    let links = vec![
        Link { owner: 1, other: 0, rest_length: 50_000 },
        Link { owner: 2, other: 1, rest_length: 100_000 },
    ];
    let mut sim = Simulation::new(vec![a, b, c], links, wide_world()).unwrap();
    sim.relax();
    // first link moves b to 75; the second then sees a gap of 125 and
    // closes half of its error of 25 from each side
    assert_eq!(sim.particle(1).pos.x, 87_500);
    assert_eq!(sim.particle(2).pos.x, 187_500);
    assert_eq!(sim.particle(1).vel.x, -12_500);
    assert_eq!(sim.particle(2).vel.x, -12_500);
}

#[test]
fn link_pulls_both_free_endpoints() {
    // both ends free: each takes half the distance error, so one pass
    // satisfies a single link exactly
    let a = free_particle(v(0, 0), v(0, 0), v(0, 0), v(0, 0));
    let b = free_particle(v(200_000, 0), v(0, 0), v(0, 0), v(0, 0));
    let links = vec![Link { owner: 0, other: 1, rest_length: 100_000 }];
    let mut sim = Simulation::new(vec![a, b], links, wide_world()).unwrap();
    sim.relax();
    assert_eq!(sim.particle(0).pos.x, 50_000);
    assert_eq!(sim.particle(1).pos.x, 150_000);
    // velocities absorb the correction
    assert_eq!(sim.particle(0).vel.x, 50_000);
    assert_eq!(sim.particle(1).vel.x, -50_000);
}

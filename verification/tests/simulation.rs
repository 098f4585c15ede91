use particles::geom::Coord;
use particles::world::{closest_seven, min_entry, Canvas, ConfigError, Particle, World};

fn canvas(width: i64, height: i64) -> Canvas {
    Canvas::new(width, height, Coord::new(0, 0)).unwrap()
}

#[test]
fn canvas_rejects_degenerate_width() {
    let r = Canvas::new(0, 1000, Coord::new(0, 0));
    assert_eq!(r.unwrap_err(), ConfigError::InvalidWidth);
    let r = Canvas::new(-5, 1000, Coord::new(0, 0));
    assert_eq!(r.unwrap_err(), ConfigError::InvalidWidth);
    let r = Canvas::new(2_000_000_000, 1000, Coord::new(0, 0));
    assert_eq!(r.unwrap_err(), ConfigError::InvalidWidth);
}

#[test]
fn canvas_rejects_degenerate_height() {
    let r = Canvas::new(1000, 0, Coord::new(0, 0));
    assert_eq!(r.unwrap_err(), ConfigError::InvalidHeight);
    let r = Canvas::new(1000, -1, Coord::new(0, 0));
    assert_eq!(r.unwrap_err(), ConfigError::InvalidHeight);
}

#[test]
fn canvas_accepts_valid_surface() {
    let c = canvas(10_000, 20_000);
    assert_eq!(c.width, 10_000);
    assert_eq!(c.height, 20_000);
    assert_eq!(c.speaker, Coord::new(0, 0));
}

#[test]
fn squared_distance_exact() {
    let a = Coord::new(3, 0);
    let b = Coord::new(0, 4);
    assert_eq!(a.squared_distance(&b), 25);
    assert_eq!(b.squared_distance(&a), 25);
    assert_eq!(a.squared_distance(&a), 0);
}

#[test]
fn world_new_population_count_and_bounds() {
    // 1 unit by 2 units: one batch of particles per whole unit cell.
    let c = canvas(1000, 2000);
    let w = World::new(c);
    assert_eq!(w.particles.len(), 10_000 * 1 * 2);
    for p in w.particles.iter() {
        assert!(0 <= p.coord.x && p.coord.x < 1000);
        assert!(0 <= p.coord.y && p.coord.y < 2000);
    }
}

#[test]
fn world_new_fractional_dimensions_floor() {
    // 1.999 by 0.5 units: only whole unit cells spawn particles, so none here.
    let c = canvas(1999, 500);
    let w = World::new(c);
    assert_eq!(w.particles.len(), 0);
}

#[test]
fn coord_rand_within_ranges() {
    for _ in 0..100 {
        let c = Coord::rand(0..100, 50..60);
        assert!(0 <= c.x && c.x < 100);
        assert!(50 <= c.y && c.y < 60);
    }
}

#[test]
fn particle_rand_within_ranges() {
    for _ in 0..100 {
        let p = Particle::rand(10..11, 20..30);
        assert_eq!(p.coord.x, 10);
        assert!(20 <= p.coord.y && p.coord.y < 30);
    }
}

#[test]
fn isolated_particles_do_not_move() {
    let c = canvas(10_000, 10_000);
    let ps = vec![
        Particle { coord: Coord::new(1000, 1000) },
        Particle { coord: Coord::new(9000, 9000) },
    ];
    let mut w = World::from_particles(c, ps);
    w.next_iteration();
    assert_eq!(w.particles[0].coord, Coord::new(1000, 1000));
    assert_eq!(w.particles[1].coord, Coord::new(9000, 9000));
}

#[test]
fn particle_at_threshold_does_not_move() {
    // Squared distance exactly at the threshold: no movement.
    let c = canvas(10_000, 10_000);
    let ps = vec![
        Particle { coord: Coord::new(5000, 5000) },
        Particle { coord: Coord::new(5100, 5000) },
    ];
    let mut w = World::from_particles(c, ps);
    w.next_iteration();
    assert_eq!(w.particles[0].coord, Coord::new(5000, 5000));
    assert_eq!(w.particles[1].coord, Coord::new(5100, 5000));
}

#[test]
fn close_particle_moves_onto_neighbor() {
    // 0.05 units apart: squared distance 2500, under the threshold 10000.
    let c = canvas(10_000, 10_000);
    let ps = vec![
        Particle { coord: Coord::new(5000, 5000) },
        Particle { coord: Coord::new(5050, 5000) },
    ];
    let mut w = World::from_particles(c, ps);
    w.next_iteration();
    assert_eq!(w.particles[0].coord, Coord::new(5050, 5000));
    // The second particle then sits on the first and stays in place.
    assert_eq!(w.particles[1].coord, Coord::new(5050, 5000));
}

#[test]
fn movement_clamps_both_axes_to_width() {
    // A tall narrow surface: the movement rule clamps y to the width as well.
    let c = canvas(1000, 10_000);
    let ps = vec![
        Particle { coord: Coord::new(500, 5020) },
        Particle { coord: Coord::new(500, 5050) },
    ];
    let mut w = World::from_particles(c, ps);
    w.next_iteration();
    assert_eq!(w.particles[0].coord, Coord::new(500, 1000));
    assert_eq!(w.particles[1].coord, Coord::new(500, 5050));
}

#[test]
fn ticks_keep_particles_in_bounds() {
    let c = canvas(2000, 2000);
    let mut ps = Vec::new();
    for _ in 0..200 {
        ps.push(Particle::rand(0..2000, 0..2000));
    }
    let mut w = World::from_particles(c, ps);
    for _ in 0..3 {
        w.next_iteration();
        for p in w.particles.iter() {
            assert!(0 <= p.coord.x && p.coord.x <= 2000);
            assert!(0 <= p.coord.y && p.coord.y <= 2000);
        }
    }
}

#[test]
fn empty_world_tick_is_a_no_op() {
    let c = canvas(10_000, 10_000);
    let mut w = World::from_particles(c, Vec::new());
    w.next_iteration();
    assert_eq!(w.particles.len(), 0);
}

#[test]
fn working_set_never_exceeds_seven() {
    let c = canvas(10_000, 10_000);
    let mut ps = Vec::new();
    for k in 0..20 {
        ps.push(Particle { coord: Coord::new(100 * k, 100 * k) });
    }
    let w = World::from_particles(c, ps);
    let ws = closest_seven(&w.particles, 0);
    assert_eq!(ws.len(), 7);
    for e in ws.iter() {
        assert!(e.1 != 0 && e.1 < 20);
    }
}

#[test]
fn working_set_below_seven_candidates() {
    let c = canvas(10_000, 10_000);
    let ps = vec![
        Particle { coord: Coord::new(0, 0) },
        Particle { coord: Coord::new(100, 0) },
        Particle { coord: Coord::new(200, 0) },
    ];
    let w = World::from_particles(c, ps);
    let ws = closest_seven(&w.particles, 1);
    assert_eq!(ws.len(), 2);
}

#[test]
fn min_entry_picks_nearest_candidate() {
    let c = canvas(10_000, 10_000);
    let mut ps = Vec::new();
    for k in 0..10 {
        ps.push(Particle { coord: Coord::new(100 * k, 0) });
    }
    let w = World::from_particles(c, ps);
    let ws = closest_seven(&w.particles, 0);
    let e = min_entry(&ws).unwrap();
    // The nearest other particle to index 0 is index 1, 100 steps away.
    assert_eq!(e.1, 1);
    assert_eq!(e.0, 100 * 100);
}

#[test]
fn min_entry_empty_set() {
    assert_eq!(min_entry(&Vec::new()), None);
}

#[test]
fn equidistant_neighbors_lowest_index_wins() {
    // Two equally near neighbors: the one with the lowest index is chosen.
    let c = canvas(10_000, 10_000);
    let ps = vec![
        Particle { coord: Coord::new(5000, 5000) },
        Particle { coord: Coord::new(5050, 5000) },
        Particle { coord: Coord::new(4950, 5000) },
    ];
    let mut w = World::from_particles(c, ps);
    w.next_iteration();
    assert_eq!(w.particles[0].coord, Coord::new(5050, 5000));
    assert_eq!(w.particles[1].coord, Coord::new(5050, 5000));
    // The third particle is now 100 steps from the pair: squared distance
    // exactly at the threshold, so it stays.
    assert_eq!(w.particles[2].coord, Coord::new(4950, 5000));
}

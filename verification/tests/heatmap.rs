use particles::geom::Coord;
use particles::world::{Canvas, Particle, World};

fn canvas(width: i64, height: i64) -> Canvas {
    Canvas::new(width, height, Coord::new(0, 0)).unwrap()
}

fn world_at(width: i64, height: i64, coords: &[(i64, i64)]) -> World {
    let mut ps = Vec::new();
    for &(x, y) in coords {
        ps.push(Particle::new(x, y));
    }
    World::from_particles(canvas(width, height), ps)
}

#[test]
fn heatmap_single_particle_single_cell() {
    // A 10x10 surface onto a 10x10 grid: a particle at the centre lands in
    // cell (5, 5), every other cell stays empty, and the peak is 1.
    let w = world_at(10_000, 10_000, &[(5000, 5000)]);
    let mut buffer: Vec<u32> = vec![0; 100];
    let max_heat = w.add_heatmap(10, 10, &mut buffer);
    assert_eq!(max_heat, 1);
    for (idx, &v) in buffer.iter().enumerate() {
        if idx == 5 * 10 + 5 {
            assert_eq!(v, 1);
        } else {
            assert_eq!(v, 0);
        }
    }
}

#[test]
fn heatmap_same_cell_counts_all() {
    // All particles in one cell: the peak is the particle total, and the
    // counts over the whole grid sum to it.
    let w = world_at(10_000, 10_000, &[(5000, 5000); 5]);
    let mut buffer: Vec<u32> = vec![0; 100];
    let max_heat = w.add_heatmap(10, 10, &mut buffer);
    assert_eq!(max_heat, 5);
    let total: u32 = buffer.iter().sum();
    assert_eq!(total, 5);
}

#[test]
fn heatmap_counts_partition_particles() {
    let coords = [(0, 0), (9999, 0), (4000, 7000), (4001, 7001), (2500, 2500)];
    let w = world_at(10_000, 10_000, &coords);
    let mut buffer: Vec<u32> = vec![0; 100];
    let max_heat = w.add_heatmap(10, 10, &mut buffer);
    let total: u32 = buffer.iter().sum();
    assert_eq!(total, 5);
    assert_eq!(max_heat, 2);
    assert_eq!(buffer[7 * 10 + 4], 2);
    assert_eq!(buffer[0], 1);
    assert_eq!(buffer[9], 1);
    assert_eq!(buffer[2 * 10 + 2], 1);
}

#[test]
fn heatmap_boundary_index_clamps_to_last_cell() {
    // A particle exactly at the surface bound would index one past the grid;
    // it is clamped into the last row and column instead.
    let w = world_at(10_000, 10_000, &[(10_000, 10_000)]);
    let mut buffer: Vec<u32> = vec![0; 100];
    let max_heat = w.add_heatmap(10, 10, &mut buffer);
    assert_eq!(max_heat, 1);
    assert_eq!(buffer[99], 1);
}

#[test]
fn heatmap_empty_world_returns_zero() {
    let w = world_at(10_000, 10_000, &[]);
    let mut buffer: Vec<u32> = vec![0; 100];
    let max_heat = w.add_heatmap(10, 10, &mut buffer);
    assert_eq!(max_heat, 0);
    assert!(buffer.iter().all(|&v| v == 0));
}

#[test]
fn heatmap_grid_resolution_independent_of_surface() {
    // A 20x10 surface onto a 4x2 grid: each cell covers 5x5 surface units.
    let w = world_at(20_000, 10_000, &[(0, 0), (19_000, 9000), (6000, 2000)]);
    let mut buffer: Vec<u32> = vec![0; 8];
    let max_heat = w.add_heatmap(4, 2, &mut buffer);
    assert_eq!(max_heat, 1);
    assert_eq!(buffer[0], 1);
    assert_eq!(buffer[1 * 4 + 3], 1);
    assert_eq!(buffer[1], 1);
}

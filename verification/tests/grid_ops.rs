use magic_pixel::{Bearing, Grid, Particle, ParticleType, SaveState};

fn water(fill: u8) -> Particle {
    Particle { p_type: ParticleType::Water, fill_ratio: fill, bearing: Bearing::Still }
}

#[test]
fn bearing_flip() {
    assert_eq!(Bearing::Still.flip(), Bearing::Still);
    assert_eq!(Bearing::Left.flip(), Bearing::Right);
    assert_eq!(Bearing::Right.flip(), Bearing::Left);
}

#[test]
fn particle_default_is_empty() {
    let p = Particle::default();
    assert_eq!(p.p_type, ParticleType::Empty);
    assert_eq!(p.fill_ratio, 0);
    assert_eq!(p.bearing, Bearing::Still);
}

#[test]
fn new_grid_is_blank() {
    let g = Grid::<Particle>::new(3, 2);
    assert_eq!(g.width, 3);
    assert_eq!(g.height, 2);
    assert_eq!(g.cells.len(), 6);
    for y in 0..2 {
        for x in 0..3 {
            assert_eq!(g.get(x, y).p_type, ParticleType::Empty);
        }
    }
}

#[test]
fn set_get_roundtrip() {
    let mut g = Grid::<Particle>::new(4, 3);
    g.set(2, 1, water(9));
    assert_eq!(g.get(2, 1).fill_ratio, 9);
    assert_eq!(g.get(1, 2).p_type, ParticleType::Empty);
}

#[test]
fn get_mut_edits_in_place() {
    let mut g = Grid::<Particle>::new(2, 2);
    g.set(1, 1, water(5));
    g.get_mut(1, 1).fill_ratio = 6;
    assert_eq!(g.get(1, 1).fill_ratio, 6);
}

#[test]
fn swap_exchanges_cells() {
    let mut g = Grid::<Particle>::new(2, 1);
    g.set(0, 0, water(3));
    g.set(1, 0, water(8));
    g.swap(0, 0, 1, 0);
    assert_eq!(g.get(0, 0).fill_ratio, 8);
    assert_eq!(g.get(1, 0).fill_ratio, 3);
}

#[test]
fn clear_resets_one_cell() {
    let mut g = Grid::<Particle>::new(2, 1);
    g.set(0, 0, water(3));
    g.clear(0, 0);
    assert_eq!(g.get(0, 0).p_type, ParticleType::Empty);
    assert_eq!(g.get(0, 0).fill_ratio, 0);
}

#[test]
fn clear_all_resets_everything() {
    let mut g = Grid::<Particle>::new(3, 3);
    for x in 0..3 {
        g.set(x, 0, water(7));
    }
    g.clear_all();
    for y in 0..3 {
        for x in 0..3 {
            assert_eq!(g.get(x, y).p_type, ParticleType::Empty);
        }
    }
}

#[test]
fn in_bounds_edges() {
    let g = Grid::<Particle>::new(3, 2);
    assert!(g.in_bounds(0, 0));
    assert!(g.in_bounds(2, 1));
    assert!(!g.in_bounds(3, 0));
    assert!(!g.in_bounds(0, 2));
    assert!(!g.in_bounds(-1, 0));
    assert!(!g.in_bounds(0, -1));
}

#[test]
fn is_empty_treats_outside_as_wall() {
    let mut g = Grid::<Particle>::new(2, 2);
    g.set(0, 0, water(1));
    assert!(!g.is_empty(-1, 0));
    assert!(!g.is_empty(0, 2));
    assert!(!g.is_empty(0, 0));
    assert!(g.is_empty(1, 1));
}

#[test]
fn fill_ratio_at_zero_outside_and_empty() {
    let mut g = Grid::<Particle>::new(2, 2);
    g.set(0, 0, water(12));
    g.set(1, 0, Particle { p_type: ParticleType::Sand, fill_ratio: 40, bearing: Bearing::Still });
    assert_eq!(g.fill_ratio_at(0, 0), 12);
    assert_eq!(g.fill_ratio_at(1, 0), 40);
    assert_eq!(g.fill_ratio_at(0, 1), 0);
    assert_eq!(g.fill_ratio_at(-1, 0), 0);
    assert_eq!(g.fill_ratio_at(0, 5), 0);
}

#[test]
fn save_state_consistency_check() {
    let mut g = Grid::<Particle>::new(2, 2);
    g.set(0, 0, water(10));
    let good = SaveState { max_fill: 16, grid: g.clone() };
    assert!(good.is_consistent());

    // Water above the capacity is rejected.
    let bad = SaveState { max_fill: 8, grid: g.clone() };
    assert!(!bad.is_consistent());

    // An empty cell carrying fill is rejected.
    let mut broken = Grid::<Particle>::new(1, 1);
    broken.set(0, 0, Particle { p_type: ParticleType::Empty, fill_ratio: 1, bearing: Bearing::Still });
    let bad2 = SaveState { max_fill: 16, grid: broken };
    assert!(!bad2.is_consistent());

    // A cell vector of the wrong length is rejected.
    let mut short = Grid::<Particle>::new(2, 2);
    short.cells.pop();
    let bad3 = SaveState { max_fill: 16, grid: short };
    assert!(!bad3.is_consistent());
}

use cell_physics::cell_map::{CellMap, CellState};

fn grid3x3() -> CellMap {
    // 15 x 15 pixels with 5-pixel cells: 3 columns, 3 rows
    CellMap::new(15, 15, 5)
}

#[test]
fn construction_dimensions_and_empty() {
    let m = CellMap::new(1400, 700, 5);
    // columns = floor(1400 / 5), rows = floor(700 / 5)
    assert_eq!(m.count_filled(), 0);
    for y in 0..140 {
        for x in 0..280 {
            assert_eq!(m.cell_state(x, y), CellState::EMPTY);
        }
    }
    // reads just past the edge are in the out-of-range no-op regime
    assert_eq!(m.cell_state(280, 0), CellState::EMPTY);
    assert_eq!(m.cell_state(0, 140), CellState::EMPTY);
}

#[test]
fn construction_rounds_down() {
    let m = CellMap::new(14, 9, 5);
    // 2 columns, 1 row: cell (1, 0) exists, (2, 0) and (0, 1) do not
    m.cell_state(1, 0);
    assert_eq!(m.count_filled(), 0);
    let mut m = m;
    m.set_cell_state(2, 0, CellState::FILLED);
    m.set_cell_state(0, 1, CellState::FILLED);
    assert_eq!(m.count_filled(), 0);
}

#[test]
fn out_of_range_set_and_read_are_no_ops() {
    let mut m = grid3x3();
    m.set_cell_state(3, 0, CellState::FILLED);
    m.set_cell_state(0, 3, CellState::FILLED);
    m.set_cell_state(1000, 1000, CellState::FILLED);
    assert_eq!(m.count_filled(), 0);
    assert_eq!(m.cell_state(3, 0), CellState::EMPTY);
    assert_eq!(m.cell_state(1000, 1000), CellState::EMPTY);
    // in-range writes do land
    m.set_cell_state(2, 2, CellState::FILLED);
    assert_eq!(m.cell_state(2, 2), CellState::FILLED);
    assert_eq!(m.count_filled(), 1);
}

#[test]
fn add_cell_maps_pixels_to_cells() {
    let mut m = grid3x3();
    // pixel (10, 10) lies in cell (2, 2)
    m.add_cell(10, 10);
    assert_eq!(m.cell_state(2, 2), CellState::FILLED);
    assert_eq!(m.count_filled(), 1);
    // painting the same cell again changes nothing
    m.add_cell(12, 14);
    assert_eq!(m.count_filled(), 1);
    // out-of-range pixel is a no-op
    m.add_cell(100, 100);
    assert_eq!(m.count_filled(), 1);
}

#[test]
fn paint_circle_is_monotonic() {
    let mut m = CellMap::new(50, 50, 5);
    m.set_cell_state(0, 0, CellState::FILLED);
    m.set_cell_state(9, 9, CellState::FILLED);
    m.fill_circle(25, 25, 7);
    // previously filled cells stay filled
    assert_eq!(m.cell_state(0, 0), CellState::FILLED);
    assert_eq!(m.cell_state(9, 9), CellState::FILLED);
    let before = m.count_filled();
    // painting again can only grow the filled set
    m.fill_circle(25, 25, 3);
    assert!(m.count_filled() >= before);
    assert_eq!(m.cell_state(0, 0), CellState::FILLED);
}

#[test]
fn paint_circle_fills_exactly_the_touched_cells() {
    let mut m = CellMap::new(30, 30, 5);
    // disc of radius 2 around pixel (14, 14): pixels 12..=16 on the axes,
    // corners (13,13)..(15,15); touches cells (2,2), (3,2), (2,3), (3,3)
    m.fill_circle(14, 14, 2);
    assert_eq!(m.cell_state(2, 2), CellState::FILLED);
    assert_eq!(m.cell_state(3, 2), CellState::FILLED);
    assert_eq!(m.cell_state(2, 3), CellState::FILLED);
    assert_eq!(m.cell_state(3, 3), CellState::FILLED);
    assert_eq!(m.count_filled(), 4);
}

#[test]
fn paint_circle_radius_zero_fills_one_cell() {
    // scenario: radius 0 at pixel (10, 10) with 5-pixel cells fills exactly
    // the cell containing that pixel
    let mut m = CellMap::new(25, 25, 5);
    m.fill_circle(10, 10, 0);
    assert_eq!(m.cell_state(2, 2), CellState::FILLED);
    assert_eq!(m.count_filled(), 1);
}

#[test]
fn paint_circle_near_origin_clips() {
    let mut m = CellMap::new(25, 25, 5);
    // pixels with negative coordinates belong to no cell and are skipped
    m.fill_circle(0, 0, 2);
    assert_eq!(m.cell_state(0, 0), CellState::FILLED);
    assert_eq!(m.count_filled(), 1);
}

#[test]
fn single_particle_falls_straight_down() {
    // scenario: 3x3 grid, only (1, 0) filled; after one tick it is at (1, 1)
    let mut m = grid3x3();
    m.set_cell_state(1, 0, CellState::FILLED);
    m.process();
    assert_eq!(m.cell_state(1, 0), CellState::EMPTY);
    assert_eq!(m.cell_state(1, 1), CellState::FILLED);
    assert_eq!(m.count_filled(), 1);
}

#[test]
fn particle_rests_on_the_bottom_row() {
    let mut m = grid3x3();
    m.set_cell_state(1, 2, CellState::FILLED);
    for _ in 0..5 {
        m.process();
        // alone on the bottom row: both diagonals of the row below are out
        // of range, so the particle never moves
        assert_eq!(m.cell_state(1, 2), CellState::FILLED);
        assert_eq!(m.count_filled(), 1);
    }
}

#[test]
fn stacked_particles_scenario() {
    // scenario: 3x3 grid, (1, 0) and (1, 1) filled. (1, 1) must fall to
    // (1, 2) whatever the random draws; (1, 0) either stays or moves to a
    // diagonal, never anywhere else.
    let mut m = grid3x3();
    m.set_cell_state(1, 0, CellState::FILLED);
    m.set_cell_state(1, 1, CellState::FILLED);
    m.process();
    assert_eq!(m.cell_state(1, 2), CellState::FILLED);
    assert_eq!(m.cell_state(1, 1), CellState::EMPTY);
    let at_rest = m.cell_state(1, 0) == CellState::FILLED;
    let went_left = m.cell_state(0, 1) == CellState::FILLED;
    let went_right = m.cell_state(2, 1) == CellState::FILLED;
    assert!(at_rest || went_left || went_right);
    assert_eq!(
        [at_rest, went_left, went_right].iter().filter(|&&b| b).count(),
        1
    );
    // nothing anywhere else
    assert_eq!(m.count_filled(), 2);
    assert_eq!(m.cell_state(0, 0), CellState::EMPTY);
    assert_eq!(m.cell_state(2, 0), CellState::EMPTY);
    assert_eq!(m.cell_state(0, 2), CellState::EMPTY);
    assert_eq!(m.cell_state(2, 2), CellState::EMPTY);
}

#[test]
fn filled_count_is_conserved_without_shared_destinations() {
    // with two particles in a 3x3 grid no two moves can ever share a
    // destination, so the count stays 2 across many ticks (the pinned
    // policy: last write wins, which only differs on shared destinations)
    let mut m = grid3x3();
    m.set_cell_state(1, 0, CellState::FILLED);
    m.set_cell_state(1, 1, CellState::FILLED);
    for _ in 0..20 {
        m.process();
        assert_eq!(m.count_filled(), 2);
    }
}

#[test]
fn empty_grid_stays_empty() {
    let mut m = grid3x3();
    for _ in 0..10 {
        m.process();
        assert_eq!(m.count_filled(), 0);
        for y in 0..3 {
            for x in 0..3 {
                assert_eq!(m.cell_state(x, y), CellState::EMPTY);
            }
        }
    }
}

#[test]
fn everything_settles_at_the_bottom() {
    // whatever the random draws, particles only ever move downward, so after
    // enough ticks all of them sit in the lowest rows and stop moving
    let mut m = CellMap::new(25, 25, 5);
    m.fill_circle(12, 2, 2);
    let n = m.count_filled();
    assert!(n > 0);
    for _ in 0..30 {
        m.process();
    }
    assert_eq!(m.count_filled(), n);
    let mut bottom: u32 = 0;
    for x in 0..5 {
        if m.cell_state(x, 4) == CellState::FILLED {
            bottom += 1;
        }
    }
    assert!(bottom > 0);
}

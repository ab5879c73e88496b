use cell_physics::cell_map::{CellDraw, CellMap, CellState, GlowDraw};

#[test]
fn draw_records_positions_and_order() {
    let mut m = CellMap::new(15, 15, 5);
    m.set_cell_state(1, 0, CellState::FILLED);
    m.set_cell_state(2, 2, CellState::FILLED);
    let r = m.draw_cells();
    // row-major order, pixel-space top-left corners, full red near the top
    assert_eq!(
        r,
        vec![
            CellDraw { px: 5, py: 0, size: 5, red_permille: 1000 },
            CellDraw { px: 10, py: 10, size: 5, red_permille: 1000 },
        ]
    );
}

#[test]
fn draw_records_depth_shading() {
    // red = clamp(1.5 - 0.01 * row, 0, 1), in thousandths
    let mut m = CellMap::new(10, 1000, 5);
    m.set_cell_state(0, 50, CellState::FILLED);
    m.set_cell_state(0, 100, CellState::FILLED);
    m.set_cell_state(0, 149, CellState::FILLED);
    m.set_cell_state(0, 160, CellState::FILLED);
    let r = m.draw_cells();
    assert_eq!(r.len(), 4);
    assert_eq!(r[0].red_permille, 1000);
    assert_eq!(r[0].py, 250);
    assert_eq!(r[1].red_permille, 500);
    assert_eq!(r[2].red_permille, 10);
    assert_eq!(r[3].red_permille, 0);
}

#[test]
fn draw_records_empty_grid() {
    let m = CellMap::new(100, 100, 5);
    assert_eq!(m.draw_cells().len(), 0);
}

#[test]
fn glow_records_around_a_single_particle() {
    // one particle in the middle of a 3x3 grid: every other cell is an empty
    // in-range neighbor within the radius-3 box, so eight glow records, in
    // neighborhood scan order (rows of the box top to bottom)
    let mut m = CellMap::new(15, 15, 5);
    m.set_cell_state(1, 1, CellState::FILLED);
    let g = m.add_light();
    assert_eq!(g.len(), 8);
    assert_eq!(
        g[0],
        GlowDraw { px: 0, py: 0, size: 5, row: 0, dist_sq: 2 }
    );
    assert_eq!(
        g[1],
        GlowDraw { px: 5, py: 0, size: 5, row: 0, dist_sq: 1 }
    );
    assert_eq!(
        g[2],
        GlowDraw { px: 10, py: 0, size: 5, row: 0, dist_sq: 2 }
    );
    assert_eq!(
        g[3],
        GlowDraw { px: 0, py: 5, size: 5, row: 1, dist_sq: 1 }
    );
    assert_eq!(
        g[4],
        GlowDraw { px: 10, py: 5, size: 5, row: 1, dist_sq: 1 }
    );
    assert_eq!(
        g[5],
        GlowDraw { px: 0, py: 10, size: 5, row: 2, dist_sq: 2 }
    );
    assert_eq!(
        g[6],
        GlowDraw { px: 5, py: 10, size: 5, row: 2, dist_sq: 1 }
    );
    assert_eq!(
        g[7],
        GlowDraw { px: 10, py: 10, size: 5, row: 2, dist_sq: 2 }
    );
}

#[test]
fn glow_records_skip_filled_neighbors() {
    // two adjacent particles: each casts glows only on empty cells, and an
    // empty cell near both is recorded once per particle
    let mut m = CellMap::new(15, 15, 5);
    m.set_cell_state(1, 1, CellState::FILLED);
    m.set_cell_state(1, 2, CellState::FILLED);
    let g = m.add_light();
    // 9 cells, 2 filled: 7 empty neighbors each (both boxes cover the grid)
    assert_eq!(g.len(), 14);
    for rec in &g {
        let x = (rec.px / 5) as usize;
        let y = (rec.py / 5) as usize;
        assert_eq!(m.cell_state(x, y), CellState::EMPTY);
    }
    // the bottom row's particle is scanned first
    assert_eq!(g[0].row, 0);
}

#[test]
fn glow_records_empty_grid() {
    let m = CellMap::new(100, 100, 5);
    assert_eq!(m.add_light().len(), 0);
}

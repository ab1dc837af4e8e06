use hyperbolic_explorer::layout::{
    color_count, grid_cell, grid_cells, has_pillar, palette_index, GridCell, GRID_RADIUS,
    PALETTE_SIZE,
};

#[test]
fn pillars_on_every_other_ring_but_not_the_origin() {
    assert!(!has_pillar(0));
    assert!(!has_pillar(1));
    assert!(has_pillar(2));
    assert!(!has_pillar(3));
    assert!(has_pillar(4));
    assert!(!has_pillar(u32::MAX));
    assert!(has_pillar(u32::MAX - 1));
}

#[test]
fn palette_wraps_around() {
    assert_eq!(PALETTE_SIZE, 5);
    assert_eq!(palette_index(0), 0);
    assert_eq!(palette_index(4), 4);
    assert_eq!(palette_index(5), 0);
    assert_eq!(palette_index(7), 2);
}

#[test]
fn color_count_is_largest_plus_one() {
    assert_eq!(color_count(&[]), 1);
    assert_eq!(color_count(&[0]), 1);
    assert_eq!(color_count(&[0, 3, 1]), 4);
    assert_eq!(color_count(&[2, 2, 0, 1]), 3);
}

#[test]
fn grid_cell_parity_and_pillars() {
    assert_eq!(grid_cell(0, 0), GridCell { i: 0, j: 0, even: true, pillar: false });
    assert_eq!(grid_cell(1, 1), GridCell { i: 1, j: 1, even: true, pillar: true });
    assert_eq!(grid_cell(-1, 0), GridCell { i: -1, j: 0, even: false, pillar: false });
    assert_eq!(grid_cell(-3, -1), GridCell { i: -3, j: -1, even: true, pillar: true });
    assert_eq!(grid_cell(-14, 13), GridCell { i: -14, j: 13, even: false, pillar: false });
}

#[test]
fn small_grid_is_listed_row_by_row() {
    let cells = grid_cells(1);
    assert_eq!(cells.len(), 9);
    let coords: Vec<(i32, i32)> = cells.iter().map(|c| (c.i, c.j)).collect();
    assert_eq!(
        coords,
        vec![(-1, -1), (-1, 0), (-1, 1), (0, -1), (0, 0), (0, 1), (1, -1), (1, 0), (1, 1)]
    );
    let pillars: Vec<bool> = cells.iter().map(|c| c.pillar).collect();
    assert_eq!(pillars, vec![true, false, true, false, false, false, true, false, true]);
}

#[test]
fn degenerate_grids() {
    assert!(grid_cells(-1).is_empty());
    assert_eq!(grid_cells(0), vec![GridCell { i: 0, j: 0, even: true, pillar: false }]);
}

#[test]
fn comparison_grid_is_a_checkerboard() {
    let cells = grid_cells(GRID_RADIUS);
    let w = (2 * GRID_RADIUS + 1) as usize;
    assert_eq!(cells.len(), w * w);
    assert_eq!(cells.iter().filter(|c| c.even).count(), (w * w + 1) / 2);
    assert_eq!(cells.iter().filter(|c| c.pillar).count(), (w * w + 1) / 2 - 1);
    for a in 0..w {
        for b in 0..w {
            let c = cells[a * w + b];
            if b + 1 < w {
                assert_ne!(c.even, cells[a * w + b + 1].even);
            }
            if a + 1 < w {
                assert_ne!(c.even, cells[(a + 1) * w + b].even);
            }
        }
    }
    assert!(!cells[(w * w) / 2].pillar);
    assert_eq!((cells[(w * w) / 2].i, cells[(w * w) / 2].j), (0, 0));
}

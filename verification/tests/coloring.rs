use hyperbolic_explorer::coloring::{greedy_coloring, COLOR_SLOTS};

fn symmetric(edges: &[(usize, usize)], n: usize) -> Vec<Vec<Option<usize>>> {
    let mut adj: Vec<Vec<Option<usize>>> = vec![Vec::new(); n];
    for &(a, b) in edges {
        adj[a].push(Some(b));
        adj[b].push(Some(a));
    }
    adj
}

fn assert_proper(adj: &[Vec<Option<usize>>], colors: &[usize]) {
    for (i, row) in adj.iter().enumerate() {
        for j in row.iter().flatten() {
            if *j != i && adj[*j].contains(&Some(i)) {
                assert_ne!(colors[i], colors[*j]);
            }
        }
    }
}

#[test]
fn empty_graph_has_no_colors() {
    let adj: Vec<Vec<Option<usize>>> = Vec::new();
    assert_eq!(greedy_coloring(&adj), Vec::<usize>::new());
}

#[test]
fn isolated_tiles_all_get_color_zero() {
    let adj = vec![vec![None, None], vec![], vec![None]];
    assert_eq!(greedy_coloring(&adj), vec![0, 0, 0]);
}

#[test]
fn path_alternates_two_colors() {
    let adj = symmetric(&[(0, 1), (1, 2), (2, 3)], 4);
    let colors = greedy_coloring(&adj);
    assert_eq!(colors, vec![0, 1, 0, 1]);
    assert_proper(&adj, &colors);
}

#[test]
fn five_cycle_needs_three_colors() {
    let adj = symmetric(&[(0, 1), (1, 2), (2, 3), (3, 4), (4, 0)], 5);
    let colors = greedy_coloring(&adj);
    assert_eq!(colors, vec![0, 1, 0, 1, 2]);
    assert_proper(&adj, &colors);
    assert!(colors.iter().any(|&c| c >= 2));
}

#[test]
fn only_earlier_neighbours_count() {
    // tile 0 lists tile 1, but tile 1 does not list tile 0: both get color 0
    let adj = vec![vec![Some(1)], vec![None]];
    assert_eq!(greedy_coloring(&adj), vec![0, 0]);
    // a tile listing itself is not its own neighbour
    let adj = vec![vec![Some(0), Some(0)]];
    assert_eq!(greedy_coloring(&adj), vec![0]);
}

#[test]
fn lowest_free_color_is_taken() {
    // tile 3 sees colors 0 and 2 among earlier neighbours: it takes 1
    let adj = vec![
        vec![Some(1), Some(2)],
        vec![Some(0), Some(2)],
        vec![Some(0), Some(1)],
        vec![Some(0), Some(2), Some(3), None],
    ];
    let colors = greedy_coloring(&adj);
    assert_eq!(colors, vec![0, 1, 2, 1]);
}

#[test]
fn complete_graph_uses_one_color_per_tile() {
    let n = 6;
    let mut edges = Vec::new();
    for a in 0..n {
        for b in (a + 1)..n {
            edges.push((a, b));
        }
    }
    let adj = symmetric(&edges, n);
    let colors = greedy_coloring(&adj);
    assert_eq!(colors, vec![0, 1, 2, 3, 4, 5]);
    assert_proper(&adj, &colors);
    for (i, c) in colors.iter().enumerate() {
        assert!(*c <= adj[i].len());
        assert!(*c < COLOR_SLOTS);
    }
}

#[test]
fn degree_bounds_the_color() {
    // a square grid graph of 4x4 tiles: every tile has at most four edges
    let idx = |x: usize, y: usize| y * 4 + x;
    let mut adj: Vec<Vec<Option<usize>>> = vec![Vec::new(); 16];
    for y in 0..4usize {
        for x in 0..4usize {
            let nb = [
                if x + 1 < 4 { Some(idx(x + 1, y)) } else { None },
                if x > 0 { Some(idx(x - 1, y)) } else { None },
                if y + 1 < 4 { Some(idx(x, y + 1)) } else { None },
                if y > 0 { Some(idx(x, y - 1)) } else { None },
            ];
            adj[idx(x, y)] = nb.to_vec();
        }
    }
    let colors = greedy_coloring(&adj);
    assert_proper(&adj, &colors);
    for (i, c) in colors.iter().enumerate() {
        let degree = adj[i].iter().flatten().count();
        assert!(*c <= degree);
        assert!(*c <= 4);
    }
    // the grid is bipartite and row-major greedy finds the checkerboard
    for y in 0..4 {
        for x in 0..4 {
            assert_eq!(colors[idx(x, y)], (x + y) % 2);
        }
    }
}

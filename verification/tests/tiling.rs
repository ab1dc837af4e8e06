use bevy::math::{Mat4, Vec3, Vec4};
use hyperbolic_explorer::coloring::greedy_coloring;
use hyperbolic_explorer::discovery::{Discovery, EDGES, MAX_TILES};
use hyperbolic_explorer::layout::color_count;
use std::f32::consts::PI;

const P: u32 = 4;
const Q: u32 = 5;
const MAX_DIST: f32 = 5.2;

fn origin() -> Vec4 {
    Vec4::new(0.0, 0.0, 0.0, 1.0)
}

fn from_rows(r: [[f32; 4]; 4]) -> Mat4 {
    Mat4::from_cols_array_2d(&r).transpose()
}

fn boost_x(d: f32) -> Mat4 {
    let (c, s) = (d.cosh(), d.sinh());
    from_rows([
        [c, 0.0, 0.0, s],
        [0.0, 1.0, 0.0, 0.0],
        [0.0, 0.0, 1.0, 0.0],
        [s, 0.0, 0.0, c],
    ])
}

fn rot_y(a: f32) -> Mat4 {
    let (c, s) = (a.cos(), a.sin());
    from_rows([
        [c, 0.0, s, 0.0],
        [0.0, 1.0, 0.0, 0.0],
        [-s, 0.0, c, 0.0],
        [0.0, 0.0, 0.0, 1.0],
    ])
}

fn reflect_x() -> Mat4 {
    from_rows([
        [-1.0, 0.0, 0.0, 0.0],
        [0.0, 1.0, 0.0, 0.0],
        [0.0, 0.0, 1.0, 0.0],
        [0.0, 0.0, 0.0, 1.0],
    ])
}

fn edge_generators() -> Vec<Mat4> {
    let pp = PI / P as f32;
    let pq = PI / Q as f32;
    let inradius = (pq.cos() / pp.sin()).acosh();
    let reflect_edge0 = boost_x(inradius) * reflect_x() * boost_x(-inradius);
    (0..P)
        .map(|k| {
            let a = k as f32 * 2.0 * PI / P as f32;
            rot_y(a) * reflect_edge0 * rot_y(-a)
        })
        .collect()
}

fn find(centers: &[Vec3], c: Vec3) -> Option<usize> {
    centers.iter().position(|s| s.distance_squared(c) < 1e-4)
}

/// The tiles of the floor, found breadth-first and greedily colored:
/// `(transform, ring, color)` per tile.
fn generate_tiles() -> Vec<(Mat4, u32, usize)> {
    let generators = edge_generators();
    assert_eq!(generators.len(), EDGES);
    let mut mats = vec![Mat4::IDENTITY];
    let mut centers = vec![Vec3::ZERO];
    let mut discovery = Discovery::new();
    while let Some(idx) = discovery.next_parent() {
        let m = mats[idx];
        for g in &generators {
            let center = m * *g * origin();
            let within = !(center.w.acosh() > MAX_DIST);
            let c3 = center.truncate();
            let found = if within { find(&centers, c3) } else { None };
            if discovery.try_edge(within, found).is_some() {
                mats.push(m * *g);
                centers.push(c3);
            }
        }
    }
    let n = mats.len();
    assert_eq!(n, discovery.tile_count());
    let adjacency: Vec<Vec<Option<usize>>> = (0..n)
        .map(|i| {
            generators
                .iter()
                .map(|g| find(&centers, (mats[i] * *g * origin()).truncate()))
                .collect()
        })
        .collect();
    let colors = greedy_coloring(&adjacency);
    let rings = discovery.rings();
    (0..n).map(|i| (mats[i], rings[i], colors[i])).collect()
}

#[test]
fn coloring_is_proper() {
    let tiles = generate_tiles();
    let generators = edge_generators();
    let centers: Vec<(Vec3, usize)> = tiles
        .iter()
        .map(|(m, _, c)| ((*m * origin()).truncate(), *c))
        .collect();

    for (m, _, c) in &tiles {
        for g in &generators {
            let nc = (*m * *g * origin()).truncate();
            if let Some((_, ncolor)) = centers.iter().find(|(p, _)| p.distance_squared(nc) < 1e-4) {
                assert_ne!(*c, *ncolor, "edge-adjacent tiles share a color");
            }
        }
    }

    let used = tiles.iter().map(|t| t.2).max().unwrap() + 1;
    assert!((3..=4).contains(&used), "expected 3-4 colors, used {used}");
}

#[test]
fn tiling_is_discovered_breadth_first() {
    let tiles = generate_tiles();
    assert!(tiles.len() > 100);
    assert!(tiles.len() < MAX_TILES + EDGES);
    assert_eq!(tiles[0].1, 0);
    for w in tiles.windows(2) {
        assert!(w[0].1 <= w[1].1);
        assert!(w[1].1 <= w[0].1 + 1);
        assert!(w[1].1 >= 1);
    }
    // the four edge-neighbours of the origin tile come first, in ring 1
    for t in &tiles[1..5] {
        assert_eq!(t.1, 1);
    }
    let colors: Vec<usize> = tiles.iter().map(|t| t.2).collect();
    let n = color_count(&colors);
    assert!(n >= 3 && n <= 5);
    assert_eq!(colors[0], 0);
}

#[test]
fn discovery_starts_at_origin() {
    let d = Discovery::new();
    assert_eq!(d.tile_count(), 1);
    assert_eq!(d.rings(), &vec![0u32]);
}

#[test]
fn discovery_expands_in_queue_order() {
    let mut d = Discovery::new();
    assert_eq!(d.next_parent(), Some(0));
    assert_eq!(d.try_edge(true, None), Some(1));
    assert_eq!(d.try_edge(false, None), None);
    assert_eq!(d.try_edge(true, Some(0)), None);
    assert_eq!(d.try_edge(true, None), Some(2));
    assert_eq!(d.rings(), &vec![0u32, 1, 1]);
    assert_eq!(d.next_parent(), Some(1));
    assert_eq!(d.try_edge(true, None), Some(3));
    assert_eq!(d.try_edge(true, Some(0)), None);
    assert_eq!(d.try_edge(false, Some(2)), None);
    assert_eq!(d.try_edge(true, Some(3)), None);
    assert_eq!(d.next_parent(), Some(2));
    for _ in 0..EDGES {
        assert_eq!(d.try_edge(true, Some(1)), None);
    }
    assert_eq!(d.next_parent(), Some(3));
    assert_eq!(d.try_edge(true, None), Some(4));
    for _ in 1..EDGES {
        assert_eq!(d.try_edge(false, None), None);
    }
    assert_eq!(d.rings(), &vec![0u32, 1, 1, 2, 3]);
    assert_eq!(d.next_parent(), Some(4));
    for _ in 0..EDGES {
        assert_eq!(d.try_edge(true, Some(3)), None);
    }
    assert_eq!(d.next_parent(), None);
    assert_eq!(d.next_parent(), None);
    assert_eq!(d.tile_count(), 5);
}

#[test]
fn discovery_stops_at_the_cap() {
    let mut d = Discovery::new();
    let mut parents = 0usize;
    let mut left_out = 0usize;
    while let Some(_) = d.next_parent() {
        parents += 1;
        for _ in 0..EDGES {
            if d.try_edge(true, None).is_none() {
                left_out += 1;
            }
        }
    }
    let n = d.tile_count();
    assert_eq!(n, MAX_TILES);
    assert_eq!(left_out, 1);
    assert!(parents < n);
    let rings = d.rings();
    assert!(rings.windows(2).all(|w| w[0] <= w[1] && w[1] <= w[0] + 1));
}

#[test]
fn no_tile_is_added_at_the_cap() {
    let mut d = Discovery::new();
    while d.tile_count() < MAX_TILES {
        assert!(d.next_parent().is_some());
        for _ in 0..EDGES {
            d.try_edge(true, None);
        }
    }
    assert_eq!(d.tile_count(), MAX_TILES);
    // the queue still holds unexpanded tiles, but none is handed out
    assert_eq!(d.next_parent(), None);
    assert_eq!(d.tile_count(), MAX_TILES);
}

#[test]
fn tiling_is_complete_within_range() {
    let tiles = generate_tiles();
    assert!(tiles.len() < MAX_TILES);
    let generators = edge_generators();
    let centers: Vec<Vec3> = tiles.iter().map(|(m, _, _)| (*m * origin()).truncate()).collect();
    for (m, ring, _) in &tiles {
        for g in &generators {
            let c = *m * *g * origin();
            if !(c.w.acosh() > MAX_DIST) {
                let j = find(&centers, c.truncate()).expect("neighbour within range is listed");
                // a step across an edge changes the ring by at most one
                assert!(tiles[j].1 <= ring + 1 && *ring <= tiles[j].1 + 1);
            }
        }
    }
}

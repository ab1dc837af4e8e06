use hyperbolic_explorer::mesh::{flat_tile, push_quad, push_quads, MeshBuilder};

#[test]
fn polygon_is_a_triangle_fan() {
    let mut b: MeshBuilder<u8, char> = MeshBuilder::new();
    b.polygon(&[10, 11, 12, 13, 14], 'a');
    let (p, c, i) = b.into_parts();
    assert_eq!(p, vec![10, 11, 12, 13, 14]);
    assert_eq!(c, vec!['a'; 5]);
    assert_eq!(i, vec![0, 1, 2, 0, 2, 3, 0, 3, 4]);
}

#[test]
fn degenerate_polygons_add_vertices_only() {
    let mut b: MeshBuilder<u8, char> = MeshBuilder::new();
    b.polygon(&[1], 'x');
    b.polygon(&[2, 3], 'y');
    b.polygon(&[4, 5, 6], 'z');
    let (p, c, i) = b.into_parts();
    assert_eq!(p, vec![1, 2, 3, 4, 5, 6]);
    assert_eq!(c, vec!['x', 'y', 'y', 'z', 'z', 'z']);
    assert_eq!(i, vec![3, 4, 5]);
}

#[test]
fn bordered_square() {
    let mut b: MeshBuilder<&str, char> = MeshBuilder::new();
    b.polygon(&["p", "q", "r"], 'f');
    b.bordered(&["A", "B", "C", "D"], &["a", "b", "c", "d"], 'F', 'G');
    let (p, c, i) = b.into_parts();
    assert_eq!(
        p,
        vec![
            "p", "q", "r", "A", "B", "b", "a", "B", "C", "c", "b", "C", "D", "d", "c", "D", "A",
            "a", "d", "a", "b", "c", "d"
        ]
    );
    let mut colors = vec!['f'; 3];
    colors.extend(vec!['G'; 16]);
    colors.extend(vec!['F'; 4]);
    assert_eq!(c, colors);
    let mut idx = vec![0, 1, 2];
    for q in 0..4u32 {
        let b = 3 + 4 * q;
        idx.extend([b, b + 1, b + 2, b, b + 2, b + 3]);
    }
    idx.extend([19, 20, 21, 19, 21, 22]);
    assert_eq!(i, idx);
    assert!(i.iter().all(|&x| (x as usize) < p.len()));
    assert_eq!(i.len() % 3, 0);
}

#[test]
fn pillar_walls_alternate_colors() {
    let mut b: MeshBuilder<u32, char> = MeshBuilder::new();
    b.pillar(&[0, 1, 2, 3], &[10, 11, 12, 13], 's', 'd', 'c');
    let (p, c, i) = b.into_parts();
    assert_eq!(
        p,
        vec![0, 1, 11, 10, 1, 2, 12, 11, 2, 3, 13, 12, 3, 0, 10, 13, 10, 11, 12, 13]
    );
    let mut colors = Vec::new();
    for k in 0..4 {
        colors.extend(vec![if k % 2 == 0 { 's' } else { 'd' }; 4]);
    }
    colors.extend(vec!['c'; 4]);
    assert_eq!(c, colors);
    assert_eq!(i.len(), 30);
    assert_eq!(&i[24..], &[16, 17, 18, 16, 18, 19]);
}

#[test]
fn push_quad_matches_a_four_vertex_fan() {
    let (mut pos, mut nor, mut col, mut idx) = (vec![7u8], vec!['n'], vec!['c'], vec![]);
    push_quad(&mut pos, &mut nor, &mut col, &mut idx, [1, 2, 3, 4], 'y', 'g');
    assert_eq!(pos, vec![7, 1, 2, 3, 4]);
    assert_eq!(nor, vec!['n', 'y', 'y', 'y', 'y']);
    assert_eq!(col, vec!['c', 'g', 'g', 'g', 'g']);
    assert_eq!(idx, vec![1, 2, 3, 1, 3, 4]);

    let mut b: MeshBuilder<u8, char> = MeshBuilder::new();
    b.polygon(&[7], 'c');
    b.polygon(&[1, 2, 3, 4], 'g');
    let (_, _, fan) = b.into_parts();
    assert_eq!(fan, idx);
}

#[test]
fn vertex_count_follows_pushes() {
    let mut b: MeshBuilder<u8, char> = MeshBuilder::new();
    assert_eq!(b.vertex_count(), 0);
    b.polygon(&[1, 2, 3], 'a');
    assert_eq!(b.vertex_count(), 3);
    b.bordered(&[1, 2, 3], &[4, 5, 6], 'f', 'g');
    assert_eq!(b.vertex_count(), 3 + 12 + 3);
}

#[test]
fn flat_tile_is_a_bordered_square() {
    let (mut pos, mut nor, mut col, mut idx) = (vec![9u8], vec!['n'], vec!['c'], vec![]);
    flat_tile(&mut pos, &mut nor, &mut col, &mut idx, [1, 2, 3, 4], [5, 6, 7, 8], 'u', 'g', 'f');
    assert_eq!(
        pos,
        vec![9, 1, 2, 6, 5, 2, 3, 7, 6, 3, 4, 8, 7, 4, 1, 5, 8, 5, 6, 7, 8]
    );
    assert_eq!(nor.len(), 21);
    assert!(nor[1..].iter().all(|&x| x == 'u'));
    let mut colors = vec!['c'];
    colors.extend(vec!['g'; 16]);
    colors.extend(vec!['f'; 4]);
    assert_eq!(col, colors);
    let mut expected = Vec::new();
    for q in 0..5u32 {
        let b = 1 + 4 * q;
        expected.extend([b, b + 1, b + 2, b, b + 2, b + 3]);
    }
    assert_eq!(idx, expected);
}

#[test]
fn push_quads_pushes_each_quad_with_its_normal_and_color() {
    let (mut pos, mut nor, mut col, mut idx) = (Vec::new(), Vec::new(), Vec::new(), Vec::new());
    push_quads(
        &mut pos,
        &mut nor,
        &mut col,
        &mut idx,
        &[[1u8, 2, 3, 4], [5, 6, 7, 8]],
        &['x', 'y'],
        &['a', 'b'],
    );
    assert_eq!(pos, vec![1, 2, 3, 4, 5, 6, 7, 8]);
    assert_eq!(nor, vec!['x', 'x', 'x', 'x', 'y', 'y', 'y', 'y']);
    assert_eq!(col, vec!['a', 'a', 'a', 'a', 'b', 'b', 'b', 'b']);
    assert_eq!(idx, vec![0, 1, 2, 0, 2, 3, 4, 5, 6, 4, 6, 7]);
    push_quads(&mut pos, &mut nor, &mut col, &mut idx, &[], &[], &[]);
    assert_eq!(pos.len(), 8);
    assert_eq!(idx.len(), 12);
}

//! Placement rules of the two worlds: which tiles carry pillars, which floor
//! color a tile shows, and the cells of the flat comparison grid.
use vstd::prelude::*;

verus! {

/// Number of floor colors in the palette.
pub const PALETTE_SIZE: usize = 5;

/// Half-width, in cells, of the flat comparison grid.
pub const GRID_RADIUS: i32 = 14;

/// Whether a tile at breadth-first depth `ring` carries a pillar: every other
/// ring does, except the origin tile where the player spawns.
pub open spec fn spec_has_pillar(ring: u32) -> bool {
    ring != 0 && ring % 2 == 0
}

/// Decides whether the tile at depth `ring` gets a pillar.
pub fn has_pillar(ring: u32) -> (b: bool)
    ensures
        b == spec_has_pillar(ring),
        b == (ring != 0 && ring % 2 == 0),
{
    ring != 0 && ring % 2 == 0
}

/// The palette entry that shows graph color `color`.
pub fn palette_index(color: usize) -> (k: usize)
    ensures
        k == color % PALETTE_SIZE,
        k < PALETTE_SIZE,
        k == color % 5,
{
    color % PALETTE_SIZE
}

/// Number of colors a coloring uses, counted as its largest color plus one
/// (one for an empty coloring).
pub fn color_count(colors: &[usize]) -> (n: usize)
    requires
        forall|t: int| 0 <= t < colors@.len() ==> #[trigger] colors@[t] < usize::MAX,
    ensures
        1 <= n,
        forall|t: int| 0 <= t < colors@.len() ==> #[trigger] colors@[t] < n,
        colors@.len() == 0 ==> n == 1,
        colors@.len() > 0 ==> exists|t: int| 0 <= t < colors@.len() && #[trigger] colors@[t] == n - 1,
{
    let mut best: Option<usize> = None;
    let mut k: usize = 0;
    while k < colors.len()
        invariant
            k <= colors@.len(),
            forall|t: int| 0 <= t < colors@.len() ==> #[trigger] colors@[t] < usize::MAX,
            k == 0 <==> best is None,
            best matches Some(b) ==> {
                &&& forall|t: int| 0 <= t < k ==> #[trigger] colors@[t] <= b
                &&& exists|t: int| 0 <= t < k && #[trigger] colors@[t] == b
            },
        decreases colors@.len() - k,
    {
        let c = colors[k];
        best = match best {
            None => Some(c),
            Some(b) => if c > b {
                Some(c)
            } else {
                Some(b)
            },
        };
        k += 1;
    }
    match best {
        None => 1,
        Some(b) => b + 1,
    }
}

/// One cell of the flat comparison grid.
#[derive(Clone, Copy, Debug, PartialEq, Eq)]
pub struct GridCell {
    /// Column, along x.
    pub i: i32,
    /// Row, along z.
    pub j: i32,
    /// Checkerboard parity: the cell shows the first floor color.
    pub even: bool,
    /// The cell carries a pillar.
    pub pillar: bool,
}

/// Checkerboard parity of cell `(i, j)`.
pub open spec fn cell_even(i: int, j: int) -> bool {
    (i + j) % 2 == 0
}

/// The cell at `(i, j)`: pillars stand on even cells, except the origin
/// where the player spawns.
pub open spec fn cell_at(i: int, j: int) -> GridCell {
    GridCell {
        i: i as i32,
        j: j as i32,
        even: cell_even(i, j),
        pillar: cell_even(i, j) && !(i == 0 && j == 0),
    }
}

/// Decides the cell at `(i, j)`.
pub fn grid_cell(i: i32, j: i32) -> (c: GridCell)
    requires
        i32::MIN <= i + j <= i32::MAX,
    ensures
        c == cell_at(i as int, j as int),
        c.i == i,
        c.j == j,
        c.even == ((i + j) % 2 == 0),
        c.pillar == (c.even && !(i == 0 && j == 0)),
{
    let s = i + j;
    let even = s.checked_rem_euclid(2) == Some(0i32);
    GridCell { i, j, even, pillar: even && !(i == 0 && j == 0) }
}

/// The cell at position `k` of the grid of half-width `radius`, listed row
/// after row: `i = k / w - radius`, `j = k % w - radius` with `w = 2 * radius + 1`.
pub open spec fn grid_cell_at(radius: int, k: int) -> GridCell {
    cell_at(k / (2 * radius + 1) - radius, k % (2 * radius + 1) - radius)
}

/// All cells of the square grid of half-width `radius`, `i` from `-radius`
/// to `radius` in the outer loop, `j` likewise in the inner one. Empty for a
/// negative radius.
pub fn grid_cells(radius: i32) -> (cells: Vec<GridCell>)
    requires
        2 * radius <= i32::MAX,
    ensures
        radius < 0 ==> cells@.len() == 0,
        radius >= 0 ==> cells@.len() == (2 * radius + 1) * (2 * radius + 1),
        forall|k: int| 0 <= k < cells@.len() ==> #[trigger] cells@[k] == grid_cell_at(radius as int, k),
        // the same, field by field: entry `k` is column `k / w - radius`, row
        // `k % w - radius` of the grid of width `w = 2 * radius + 1`
        forall|k: int|
            0 <= k < cells@.len() ==> {
                &&& (#[trigger] cells@[k]).i == k / (2 * radius + 1) - radius
                &&& cells@[k].j == k % (2 * radius + 1) - radius
                &&& cells@[k].even == ((cells@[k].i + cells@[k].j) % 2 == 0)
                &&& cells@[k].pillar == (cells@[k].even && !(cells@[k].i == 0 && cells@[k].j == 0))
            },
{
    let mut cells: Vec<GridCell> = Vec::new();
    if radius < 0 {
        return cells;
    }
    let ghost w: int = 2 * radius + 1;
    let mut i: i32 = -radius;
    while i <= radius
        invariant
            0 <= radius,
            2 * radius <= i32::MAX,
            w == 2 * radius + 1,
            -radius <= i <= radius + 1,
            cells@.len() == (i + radius) * w,
            forall|k: int| 0 <= k < cells@.len() ==> #[trigger] cells@[k] == grid_cell_at(radius as int, k),
        decreases radius + 1 - i,
    {
        let mut j: i32 = -radius;
        while j <= radius
            invariant
                0 <= radius,
                2 * radius <= i32::MAX,
                w == 2 * radius + 1,
                -radius <= i <= radius,
                -radius <= j <= radius + 1,
                cells@.len() == (i + radius) * w + (j + radius),
                forall|k: int| 0 <= k < cells@.len() ==> #[trigger] cells@[k] == grid_cell_at(radius as int, k),
            decreases radius + 1 - j,
        {
            let c = grid_cell(i, j);
            proof {
                let k = (i + radius) * w + (j + radius);
                vstd::arithmetic::div_mod::lemma_fundamental_div_mod_converse(
                    k,
                    w,
                    i + radius,
                    j + radius,
                );
                assert(grid_cell_at(radius as int, k) == cell_at(i as int, j as int));
            }
            cells.push(c);
            j += 1;
        }
        proof {
            assert((i + radius) * w + w == (i + 1 + radius) * w) by (nonlinear_arith);
        }
        i += 1;
    }
    proof {
        assert forall|k: int| 0 <= k < cells@.len() implies {
            &&& (#[trigger] cells@[k]).i == k / (2 * radius + 1) - radius
            &&& cells@[k].j == k % (2 * radius + 1) - radius
            &&& cells@[k].even == ((cells@[k].i + cells@[k].j) % 2 == 0)
            &&& cells@[k].pillar == (cells@[k].even && !(cells@[k].i == 0 && cells@[k].j == 0))
        } by {
            assert(0 <= k / w < w) by (nonlinear_arith)
                requires
                    0 <= k < w * w,
                    0 < w,
            ;
            assert(0 <= k % w < w) by (nonlinear_arith)
                requires
                    0 < w,
            ;
        }
    }
    cells
}

/// The flat grid's floor is a proper two-coloring: cells sharing an edge
/// never have the same parity.
pub proof fn lemma_checkerboard_proper(i: int, j: int)
    ensures
        cell_even(i, j) != cell_even(i + 1, j),
        cell_even(i, j) != cell_even(i, j + 1),
{
}

/// Neither world puts a pillar where the player spawns: not on the origin
/// tile (ring 0) and not on the origin cell of the flat grid.
pub proof fn lemma_no_pillar_at_spawn()
    ensures
        !spec_has_pillar(0),
        !cell_at(0, 0).pillar,
{
}

/// The pillar rule in plain arithmetic: a tile carries a pillar exactly when
/// its ring is even and not the origin's.
pub proof fn lemma_pillar_rule(ring: u32)
    ensures
        spec_has_pillar(ring) == (ring != 0 && ring % 2 == 0),
{
}

/// Pillars stand on every other ring: beyond the origin, of two consecutive
/// rings exactly one carries pillars, and rings two apart agree.
pub proof fn lemma_pillars_every_other_ring(ring: u32)
    requires
        1 <= ring,
        ring <= u32::MAX - 2,
    ensures
        spec_has_pillar(ring) != spec_has_pillar((ring + 1) as u32),
        spec_has_pillar(ring) == spec_has_pillar((ring + 2) as u32),
        spec_has_pillar(ring) ==> ring % 2 == 0,
{
}

/// Flat-grid cells in plain arithmetic: a cell's parity is that of `i + j`,
/// and it carries a pillar exactly when even and not at the origin.
pub proof fn lemma_cell_rule(i: int, j: int)
    requires
        i32::MIN <= i <= i32::MAX,
        i32::MIN <= j <= i32::MAX,
    ensures
        cell_at(i, j).i == i,
        cell_at(i, j).j == j,
        cell_at(i, j).even == ((i + j) % 2 == 0),
        cell_at(i, j).pillar == ((i + j) % 2 == 0 && !(i == 0 && j == 0)),
{
}

} // verus!

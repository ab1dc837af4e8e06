//! Triangle-list mesh assembly.
//!
//! Vertex positions and colors are carried as opaque values of the caller's
//! choosing; what is built here is the triangle structure: which vertices are
//! pushed, in which order, and the index triples that tie them into triangles.
use vstd::prelude::*;

verus! {

/// `n` copies of `c`.
pub open spec fn repeat<C>(c: C, n: nat) -> Seq<C> {
    Seq::new(n, |_i: int| c)
}

/// Index triples of a triangle fan over the `n` vertices starting at `base`:
/// `(base, base + t + 1, base + t + 2)` for `t` in `0..n - 2`.
pub open spec fn fan(base: int, n: int) -> Seq<u32>
    decreases n,
{
    if n <= 2 {
        Seq::empty()
    } else {
        fan(base, n - 1) + seq![base as u32, (base + n - 2) as u32, (base + n - 1) as u32]
    }
}

/// The quad between two rings of vertices across edge `k`:
/// `outer[k], outer[k + 1], inner[k + 1], inner[k]`, wrapping modulo `m`.
pub open spec fn ring_quad<P>(outer: Seq<P>, inner: Seq<P>, k: int, m: int) -> Seq<P> {
    seq![outer[k], outer[(k + 1) % m], inner[(k + 1) % m], inner[k]]
}

/// The first `count` quads between two rings, concatenated.
pub open spec fn band<P>(outer: Seq<P>, inner: Seq<P>, count: int, m: int) -> Seq<P>
    decreases count,
{
    if count <= 0 {
        Seq::empty()
    } else {
        band(outer, inner, count - 1, m) + ring_quad(outer, inner, count - 1, m)
    }
}

/// Index triples of `count` quads pushed one after the other from `base`.
pub open spec fn quad_fans(base: int, count: int) -> Seq<u32>
    decreases count,
{
    if count <= 0 {
        Seq::empty()
    } else {
        quad_fans(base, count - 1) + fan(base + 4 * (count - 1), 4)
    }
}

/// Colors of `count` walls, four vertices each, alternating `a`, `b`, `a`, ...
pub open spec fn alternating<C>(a: C, b: C, count: int) -> Seq<C>
    decreases count,
{
    if count <= 0 {
        Seq::empty()
    } else {
        alternating(a, b, count - 1) + repeat(
            if (count - 1) % 2 == 0 {
                a
            } else {
                b
            },
            4,
        )
    }
}

/// Every index names one of `count` vertices, and they come in triples.
pub open spec fn indices_valid(indices: Seq<u32>, count: int) -> bool {
    &&& indices.len() % 3 == 0
    &&& forall|t: int| 0 <= t < indices.len() ==> (#[trigger] indices[t] as int) < count
}

proof fn lemma_fan(base: int, n: int)
    requires
        0 <= base,
        2 <= n,
        base + n <= u32::MAX + 1,
    ensures
        fan(base, n).len() == 3 * (n - 2),
        forall|t: int| 0 <= t < fan(base, n).len() ==> base <= #[trigger] fan(base, n)[t] < base + n,
    decreases n,
{
    if n > 2 {
        lemma_fan(base, n - 1);
        let f = fan(base, n - 1);
        let g = fan(base, n);
        assert forall|t: int| 0 <= t < g.len() implies base <= #[trigger] g[t] < base + n by {
            if t < f.len() {
                assert(g[t] == f[t]);
            }
        }
    }
}

proof fn lemma_quad_fans(base: int, count: int)
    requires
        0 <= base,
        0 <= count,
        base + 4 * count <= u32::MAX + 1,
    ensures
        quad_fans(base, count).len() == 6 * count,
        forall|t: int|
            0 <= t < quad_fans(base, count).len() ==> base <= #[trigger] quad_fans(base, count)[t]
                < base + 4 * count,
    decreases count,
{
    if count > 0 {
        lemma_quad_fans(base, count - 1);
        lemma_fan(base + 4 * (count - 1), 4);
        let f = quad_fans(base, count - 1);
        let g = quad_fans(base, count);
        let h = fan(base + 4 * (count - 1), 4);
        assert forall|t: int| 0 <= t < g.len() implies base <= #[trigger] g[t] < base + 4 * count by {
            if t < f.len() {
                assert(g[t] == f[t]);
            } else {
                assert(g[t] == h[t - f.len()]);
            }
        }
    }
}

proof fn lemma_band_len<P>(outer: Seq<P>, inner: Seq<P>, count: int, m: int)
    requires
        0 <= count,
    ensures
        band(outer, inner, count, m).len() == 4 * count,
    decreases count,
{
    if count > 0 {
        lemma_band_len(outer, inner, count - 1, m);
    }
}

proof fn lemma_alternating_len<C>(a: C, b: C, count: int)
    requires
        0 <= count,
    ensures
        alternating(a, b, count).len() == 4 * count,
    decreases count,
{
    if count > 0 {
        lemma_alternating_len(a, b, count - 1);
    }
}

/// Appending `added` vertices and index triples that stay below the new
/// vertex count keeps a mesh valid.
proof fn lemma_append_valid(indices: Seq<u32>, extra: Seq<u32>, count: int, added: int)
    requires
        indices_valid(indices, count),
        extra.len() % 3 == 0,
        0 <= added,
        forall|t: int| 0 <= t < extra.len() ==> (#[trigger] extra[t] as int) < count + added,
    ensures
        indices_valid(indices + extra, count + added),
{
    let s = indices + extra;
    assert forall|t: int| 0 <= t < s.len() implies (#[trigger] s[t] as int) < count + added by {
        if t < indices.len() {
            assert(s[t] == indices[t]);
        } else {
            assert(s[t] == extra[t - indices.len()]);
        }
    }
}

/// Pushes the vertices of `pts`, all in `color`, and the index triples of a
/// triangle fan over them onto the three lists of a mesh.
fn push_fan<P: Copy, C: Copy>(
    positions: &mut Vec<P>,
    colors: &mut Vec<C>,
    indices: &mut Vec<u32>,
    pts: &[P],
    color: C,
)
    requires
        (MeshState { positions: old(positions)@, colors: old(colors)@, indices: old(indices)@ }).wf(),
        1 <= pts@.len(),
        old(positions)@.len() + pts@.len() <= u32::MAX,
    ensures
        (MeshState { positions: final(positions)@, colors: final(colors)@, indices: final(indices)@ }).wf(),
        final(positions)@ == old(positions)@ + pts@,
        final(colors)@ == old(colors)@ + repeat(color, pts@.len()),
        final(indices)@ == old(indices)@ + fan(old(positions)@.len() as int, pts@.len() as int),
{
    let ghost pre = MeshState { positions: positions@, colors: colors@, indices: indices@ };
    let base = positions.len() as u32;
    let n = pts.len();
    let mut k: usize = 0;
    while k < n
        invariant
            n == pts@.len(),
            k <= n,
            positions@ == pre.positions + pts@.subrange(0, k as int),
            colors@ == pre.colors + repeat(color, k as nat),
            indices@ == pre.indices,
        decreases n - k,
    {
        let p = pts[k];
        positions.push(p);
        colors.push(color);
        k += 1;
        assert(positions@ =~= pre.positions + pts@.subrange(0, k as int));
        assert(colors@ =~= pre.colors + repeat(color, k as nat));
    }
    assert(pts@.subrange(0, n as int) =~= pts@);
    let last = n as u32 - 1;
    let mut i: u32 = 1;
    while i < last
        invariant
            base as int == pre.positions.len(),
            last as int == n - 1,
            base + n <= u32::MAX,
            1 <= i,
            i <= last || i == 1,
            positions@ == pre.positions + pts@,
            colors@ == pre.colors + repeat(color, n as nat),
            indices@ == pre.indices + fan(base as int, i + 1),
        decreases last - i,
    {
        indices.push(base);
        indices.push(base + i);
        indices.push(base + i + 1);
        i += 1;
        assert(indices@ =~= pre.indices + fan(base as int, i + 1));
    }
    proof {
        if n >= 2 {
            assert(i == last);
            lemma_fan(base as int, n as int);
        } else {
            assert(fan(base as int, i + 1) =~= fan(base as int, n as int));
        }
        lemma_append_valid(
            pre.indices,
            fan(base as int, n as int),
            pre.positions.len() as int,
            n as int,
        );
    }
}

/// A mesh under construction, as sequences.
pub ghost struct MeshState<P, C> {
    pub positions: Seq<P>,
    pub colors: Seq<C>,
    pub indices: Seq<u32>,
}

impl<P, C> MeshState<P, C> {
    /// One color per vertex, and every index triple names existing vertices.
    pub open spec fn wf(self) -> bool {
        &&& self.positions.len() == self.colors.len()
        &&& indices_valid(self.indices, self.positions.len() as int)
    }
}

/// Accumulates flat-colored triangles.
pub struct MeshBuilder<P, C> {
    positions: Vec<P>,
    colors: Vec<C>,
    indices: Vec<u32>,
}

impl<P, C> View for MeshBuilder<P, C> {
    type V = MeshState<P, C>;

    closed spec fn view(&self) -> MeshState<P, C> {
        MeshState { positions: self.positions@, colors: self.colors@, indices: self.indices@ }
    }
}

impl<P, C> MeshBuilder<P, C> {
    /// Every builder holds a well-formed mesh.
    #[verifier::type_invariant]
    spec fn inv(self) -> bool {
        self@.wf()
    }
}

impl<P: Copy, C: Copy> MeshBuilder<P, C> {
    /// An empty mesh.
    pub fn new() -> (b: Self)
        ensures
            b@.positions == Seq::<P>::empty(),
            b@.colors == Seq::<C>::empty(),
            b@.indices == Seq::<u32>::empty(),
            b@.wf(),
    {
        MeshBuilder { positions: Vec::new(), colors: Vec::new(), indices: Vec::new() }
    }

    /// Number of vertices pushed so far.
    pub fn vertex_count(&self) -> (n: usize)
        ensures
            n == self@.positions.len(),
    {
        self.positions.len()
    }

    /// Pushes a convex polygon as a triangle fan, every vertex in `color`.
    pub fn polygon(&mut self, pts: &[P], color: C)
        requires
            1 <= pts@.len(),
            old(self)@.positions.len() + pts@.len() <= u32::MAX,
        ensures
            final(self)@.wf(),
            final(self)@.positions == old(self)@.positions + pts@,
            final(self)@.colors == old(self)@.colors + repeat(color, pts@.len()),
            final(self)@.indices == old(self)@.indices + fan(
                old(self)@.positions.len() as int,
                pts@.len() as int,
            ),
            // the same, entry by entry: the vertices of `pts` in `color`,
            // and triangle `k` of the fan is `(base, base + k + 1, base + k + 2)`
            final(self)@.positions.len() == old(self)@.positions.len() + pts@.len(),
            final(self)@.colors.len() == old(self)@.colors.len() + pts@.len(),
            final(self)@.indices.len() == old(self)@.indices.len() + if pts@.len() >= 2 {
                3 * (pts@.len() - 2)
            } else {
                0
            },
            forall|s: int|
                0 <= s < old(self)@.positions.len() ==> #[trigger] final(self)@.positions[s] == old(
                    self,
                )@.positions[s],
            forall|s: int|
                0 <= s < old(self)@.colors.len() ==> #[trigger] final(self)@.colors[s] == old(
                    self,
                )@.colors[s],
            forall|s: int|
                0 <= s < old(self)@.indices.len() ==> #[trigger] final(self)@.indices[s] == old(
                    self,
                )@.indices[s],
            forall|t: int|
                0 <= t < pts@.len() ==> #[trigger] final(self)@.positions[old(self)@.positions.len()
                    + t] == pts@[t],
            forall|t: int|
                0 <= t < pts@.len() ==> #[trigger] final(self)@.colors[old(self)@.colors.len() + t]
                    == color,
            forall|k: int, r: int|
                0 <= k < pts@.len() - 2 && 0 <= r < 3 ==> #[trigger] final(self)@.indices[old(
                    self,
                )@.indices.len() + 3 * k + r] as int == old(self)@.positions.len() + if r == 0 {
                    0
                } else {
                    k + r
                },
    {
        proof {
            use_type_invariant(&*self);
        }
        let ghost pre = self@;
        let mut taken = MeshBuilder::new();
        std::mem::swap(self, &mut taken);
        proof {
            use_type_invariant(&taken);
        }
        let MeshBuilder { mut positions, mut colors, mut indices } = taken;
        push_fan(&mut positions, &mut colors, &mut indices, pts, color);
        *self = MeshBuilder { positions, colors, indices };
        proof {
            let post = self@;
            let n = pts@.len() as int;
            let base = pre.positions.len() as int;
            assert(post.indices =~= pre.indices + quad_fans(base, 0) + fan(base + 4 * 0, n));
            lemma_quads_then_fan(post.indices, pre.indices, base, 0, n);
            assert forall|t: int| 0 <= t < n implies #[trigger] post.colors[pre.colors.len() + t]
                == color by {
                assert(post.colors[pre.colors.len() + t] == repeat(color, n as nat)[t]);
            }
        }
    }

    /// Pushes a polygon with a border: the band between the `outer` and
    /// `inner` rings as `border`-colored quads, one per edge, then the `inner`
    /// polygon in `fill`.
    pub fn bordered(&mut self, outer: &[P], inner: &[P], fill: C, border: C)
        requires
            outer@.len() <= inner@.len(),
            1 <= inner@.len(),
            old(self)@.positions.len() + 4 * outer@.len() + inner@.len() <= u32::MAX,
        ensures
            final(self)@.wf(),
            final(self)@.positions == old(self)@.positions + band(
                outer@,
                inner@,
                outer@.len() as int,
                outer@.len() as int,
            ) + inner@,
            final(self)@.colors == old(self)@.colors + repeat(border, 4 * outer@.len()) + repeat(
                fill,
                inner@.len(),
            ),
            final(self)@.indices == old(self)@.indices + quad_fans(
                old(self)@.positions.len() as int,
                outer@.len() as int,
            ) + fan((old(self)@.positions.len() + 4 * outer@.len()) as int, inner@.len() as int),
            // the same, entry by entry: quad `k` of the border runs
            // `outer[k], outer[k + 1], inner[k + 1], inner[k]` in `border`, then
            // the inner polygon follows in `fill`
            final(self)@.positions.len() == old(self)@.positions.len() + 4 * outer@.len()
                + inner@.len(),
            final(self)@.colors.len() == final(self)@.positions.len(),
            forall|s: int|
                0 <= s < old(self)@.positions.len() ==> #[trigger] final(self)@.positions[s] == old(
                    self,
                )@.positions[s],
            forall|s: int|
                0 <= s < old(self)@.colors.len() ==> #[trigger] final(self)@.colors[s] == old(
                    self,
                )@.colors[s],
            forall|s: int|
                0 <= s < old(self)@.indices.len() ==> #[trigger] final(self)@.indices[s] == old(
                    self,
                )@.indices[s],
            forall|k: int|
                0 <= k < outer@.len() ==> {
                    let o = old(self)@.positions.len() + 4 * k;
                    let n = outer@.len() as int;
                    &&& #[trigger] final(self)@.positions[old(self)@.positions.len() + 4 * k]
                        == outer@[k]
                    &&& final(self)@.positions[o + 1] == outer@[(k + 1) % n]
                    &&& final(self)@.positions[o + 2] == inner@[(k + 1) % n]
                    &&& final(self)@.positions[o + 3] == inner@[k]
                },
            forall|t: int|
                0 <= t < inner@.len() ==> #[trigger] final(self)@.positions[old(self)@.positions.len()
                    + 4 * outer@.len() + t] == inner@[t],
            forall|s: int|
                0 <= s < 4 * outer@.len() ==> #[trigger] final(self)@.colors[old(self)@.colors.len()
                    + s] == border,
            forall|t: int|
                0 <= t < inner@.len() ==> #[trigger] final(self)@.colors[old(self)@.colors.len() + 4
                    * outer@.len() + t] == fill,
            forall|k: int, r: int|
                0 <= k < outer@.len() && 0 <= r < 6 ==> #[trigger] final(self)@.indices[old(
                    self,
                )@.indices.len() + 6 * k + r] as int == old(self)@.positions.len() + 4 * k
                    + quad_triangle_offset(r),
            forall|k: int, r: int|
                0 <= k < inner@.len() - 2 && 0 <= r < 3 ==> #[trigger] final(self)@.indices[old(
                    self,
                )@.indices.len() + 6 * outer@.len() + 3 * k + r] as int == old(self)@.positions.len()
                    + 4 * outer@.len() + if r == 0 {
                    0
                } else {
                    k + r
                },
    {
        proof {
            use_type_invariant(&*self);
        }
        let ghost pre = self@;
        let n = outer.len();
        let mut k: usize = 0;
        while k < n
            invariant
                n == outer@.len(),
                n <= inner@.len(),
                k <= n,
                pre.positions.len() + 4 * n + inner@.len() <= u32::MAX,
                self@.wf(),
                self@.positions == pre.positions + band(outer@, inner@, k as int, n as int),
                self@.colors == pre.colors + repeat(border, 4 * k as nat),
                self@.indices == pre.indices + quad_fans(pre.positions.len() as int, k as int),
            decreases n - k,
        {
            proof {
                lemma_band_len(outer@, inner@, k as int, n as int);
            }
            let m = (k + 1) % n;
            let quad = [outer[k], outer[m], inner[m], inner[k]];
            self.polygon(&quad, border);
            proof {
                assert(quad@ =~= ring_quad(outer@, inner@, k as int, n as int));
                assert(self@.positions =~= pre.positions + band(
                    outer@,
                    inner@,
                    k + 1,
                    n as int,
                ));
                assert(self@.colors =~= pre.colors + repeat(border, 4 * (k + 1) as nat));
                assert(self@.indices =~= pre.indices + quad_fans(
                    pre.positions.len() as int,
                    k + 1,
                ));
            }
            k += 1;
        }
        proof {
            lemma_band_len(outer@, inner@, n as int, n as int);
        }
        self.polygon(inner, fill);
        proof {
            assert(self@.positions =~= pre.positions + band(outer@, inner@, n as int, n as int)
                + inner@);
            assert(self@.colors =~= pre.colors + repeat(border, 4 * n as nat) + repeat(
                fill,
                inner@.len(),
            ));
            assert(self@.indices =~= pre.indices + quad_fans(pre.positions.len() as int, n as int)
                + fan((pre.positions.len() + 4 * n) as int, inner@.len() as int));
            let post = self@;
            lemma_band_then(post.positions, pre.positions, outer@, inner@, n as int, n as int, inner@);
            lemma_quads_then_fan(
                post.indices,
                pre.indices,
                pre.positions.len() as int,
                n as int,
                inner@.len() as int,
            );
            assert forall|s: int| 0 <= s < 4 * n implies #[trigger] post.colors[pre.colors.len() + s]
                == border by {
                assert(post.colors[pre.colors.len() + s] == repeat(border, 4 * n as nat)[s]);
            }
            assert forall|t: int| 0 <= t < inner@.len() implies #[trigger] post.colors[pre.colors.len()
                + 4 * n + t] == fill by {
                assert(post.colors[pre.colors.len() + 4 * n + t] == repeat(fill, inner@.len())[t]);
            }
        }
    }

    /// Pushes a square pillar: four walls between the `base` and `top`
    /// rings, colored `side` and `side_dark` in turn, then the `top` as a cap.
    pub fn pillar(&mut self, base: &[P], top: &[P], side: C, side_dark: C, cap: C)
        requires
            4 <= base@.len(),
            4 <= top@.len(),
            old(self)@.positions.len() + 16 + top@.len() <= u32::MAX,
        ensures
            final(self)@.wf(),
            final(self)@.positions == old(self)@.positions + band(base@, top@, 4, 4) + top@,
            final(self)@.colors == old(self)@.colors + alternating(side, side_dark, 4) + repeat(
                cap,
                top@.len(),
            ),
            final(self)@.indices == old(self)@.indices + quad_fans(
                old(self)@.positions.len() as int,
                4,
            ) + fan((old(self)@.positions.len() + 16) as int, top@.len() as int),
            // the same, entry by entry: wall `k` runs `base[k], base[k + 1],
            // top[k + 1], top[k]` (wrapping after four), in `side` for even `k`
            // and `side_dark` for odd `k`; then the cap in `cap`
            final(self)@.positions.len() == old(self)@.positions.len() + 16 + top@.len(),
            final(self)@.colors.len() == final(self)@.positions.len(),
            forall|s: int|
                0 <= s < old(self)@.positions.len() ==> #[trigger] final(self)@.positions[s] == old(
                    self,
                )@.positions[s],
            forall|s: int|
                0 <= s < old(self)@.colors.len() ==> #[trigger] final(self)@.colors[s] == old(
                    self,
                )@.colors[s],
            forall|s: int|
                0 <= s < old(self)@.indices.len() ==> #[trigger] final(self)@.indices[s] == old(
                    self,
                )@.indices[s],
            forall|k: int|
                0 <= k < 4 ==> {
                    let o = old(self)@.positions.len() + 4 * k;
                    &&& #[trigger] final(self)@.positions[old(self)@.positions.len() + 4 * k]
                        == base@[k]
                    &&& final(self)@.positions[o + 1] == base@[(k + 1) % 4]
                    &&& final(self)@.positions[o + 2] == top@[(k + 1) % 4]
                    &&& final(self)@.positions[o + 3] == top@[k]
                },
            forall|t: int|
                0 <= t < top@.len() ==> #[trigger] final(self)@.positions[old(self)@.positions.len()
                    + 16 + t] == top@[t],
            forall|k: int, t: int|
                0 <= k < 4 && 0 <= t < 4 ==> #[trigger] final(self)@.colors[old(self)@.colors.len()
                    + 4 * k + t] == if k % 2 == 0 {
                    side
                } else {
                    side_dark
                },
            forall|t: int|
                0 <= t < top@.len() ==> #[trigger] final(self)@.colors[old(self)@.colors.len() + 16
                    + t] == cap,
            forall|k: int, r: int|
                0 <= k < 4 && 0 <= r < 6 ==> #[trigger] final(self)@.indices[old(
                    self,
                )@.indices.len() + 6 * k + r] as int == old(self)@.positions.len() + 4 * k
                    + quad_triangle_offset(r),
            forall|k: int, r: int|
                0 <= k < top@.len() - 2 && 0 <= r < 3 ==> #[trigger] final(self)@.indices[old(
                    self,
                )@.indices.len() + 24 + 3 * k + r] as int == old(self)@.positions.len() + 16
                    + if r == 0 {
                    0
                } else {
                    k + r
                },
    {
        proof {
            use_type_invariant(&*self);
        }
        let ghost pre = self@;
        let mut k: usize = 0;
        while k < 4
            invariant
                4 <= base@.len(),
                4 <= top@.len(),
                k <= 4,
                pre.positions.len() + 16 + top@.len() <= u32::MAX,
                self@.wf(),
                self@.positions == pre.positions + band(base@, top@, k as int, 4),
                self@.colors == pre.colors + alternating(side, side_dark, k as int),
                self@.indices == pre.indices + quad_fans(pre.positions.len() as int, k as int),
            decreases 4 - k,
        {
            proof {
                lemma_band_len(base@, top@, k as int, 4);
            }
            let m = (k + 1) % 4;
            let quad = [base[k], base[m], top[m], top[k]];
            let c = if k % 2 == 0 {
                side
            } else {
                side_dark
            };
            self.polygon(&quad, c);
            proof {
                assert(quad@ =~= ring_quad(base@, top@, k as int, 4));
                assert(self@.positions =~= pre.positions + band(base@, top@, k + 1, 4));
                assert(self@.colors =~= pre.colors + alternating(side, side_dark, k + 1));
                assert(self@.indices =~= pre.indices + quad_fans(
                    pre.positions.len() as int,
                    k + 1,
                ));
            }
            k += 1;
        }
        proof {
            lemma_band_len(base@, top@, 4, 4);
        }
        self.polygon(top, cap);
        proof {
            assert(self@.positions =~= pre.positions + band(base@, top@, 4, 4) + top@);
            assert(self@.colors =~= pre.colors + alternating(side, side_dark, 4) + repeat(
                cap,
                top@.len(),
            ));
            assert(self@.indices =~= pre.indices + quad_fans(pre.positions.len() as int, 4) + fan(
                (pre.positions.len() + 16) as int,
                top@.len() as int,
            ));
            let post = self@;
            lemma_band_then(post.positions, pre.positions, base@, top@, 4, 4, top@);
            lemma_quads_then_fan(
                post.indices,
                pre.indices,
                pre.positions.len() as int,
                4,
                top@.len() as int,
            );
            lemma_alternating_entries(side, side_dark, 4);
            assert forall|k: int, t: int| 0 <= k < 4 && 0 <= t < 4 implies #[trigger] post.colors[
                pre.colors.len() + 4 * k + t] == if k % 2 == 0 {
                side
            } else {
                side_dark
            } by {
                vstd::arithmetic::div_mod::lemma_fundamental_div_mod_converse(4 * k + t, 4, k, t);
                assert(post.colors[pre.colors.len() + 4 * k + t] == alternating(side, side_dark, 4)[4
                    * k + t]);
            }
            assert forall|t: int| 0 <= t < top@.len() implies #[trigger] post.colors[pre.colors.len()
                + 16 + t] == cap by {
                assert(post.colors[pre.colors.len() + 16 + t] == repeat(cap, top@.len())[t]);
            }
        }
    }

    /// Hands out the vertex positions, vertex colors and triangle indices.
    pub fn into_parts(self) -> (parts: (Vec<P>, Vec<C>, Vec<u32>))
        ensures
            parts.0@ == self@.positions,
            parts.1@ == self@.colors,
            parts.2@ == self@.indices,
    {
        (self.positions, self.colors, self.indices)
    }
}

/// Pushes one flat-shaded quad onto separate position, normal, color and
/// index lists; the quad is split into two triangles sharing its first
/// corner, the same triangulation as a four-vertex fan.
pub fn push_quad<P: Copy, N: Copy, C: Copy>(
    pos: &mut Vec<P>,
    nor: &mut Vec<N>,
    col: &mut Vec<C>,
    idx: &mut Vec<u32>,
    c: [P; 4],
    n: N,
    color: C,
)
    requires
        old(pos)@.len() + 4 <= u32::MAX,
    ensures
        final(pos)@ == old(pos)@ + c@,
        final(nor)@ == old(nor)@ + repeat(n, 4),
        final(col)@ == old(col)@ + repeat(color, 4),
        final(idx)@ == old(idx)@ + fan(old(pos)@.len() as int, 4),
        indices_valid(old(idx)@, old(pos)@.len() as int) ==> indices_valid(
            final(idx)@,
            final(pos)@.len() as int,
        ),
        // the same, entry by entry
        final(pos)@.len() == old(pos)@.len() + 4,
        final(nor)@.len() == old(nor)@.len() + 4,
        final(col)@.len() == old(col)@.len() + 4,
        forall|s: int| 0 <= s < old(pos)@.len() ==> #[trigger] final(pos)@[s] == old(pos)@[s],
        forall|s: int| 0 <= s < old(nor)@.len() ==> #[trigger] final(nor)@[s] == old(nor)@[s],
        forall|s: int| 0 <= s < old(col)@.len() ==> #[trigger] final(col)@[s] == old(col)@[s],
        forall|t: int| 0 <= t < 4 ==> #[trigger] final(pos)@[old(pos)@.len() + t] == c@[t],
        forall|t: int| 0 <= t < 4 ==> #[trigger] final(nor)@[old(nor)@.len() + t] == n,
        forall|t: int| 0 <= t < 4 ==> #[trigger] final(col)@[old(col)@.len() + t] == color,
        ({
            let b = old(pos)@.len() as u32;
            final(idx)@ == old(idx)@ + seq![b, (b + 1) as u32, (b + 2) as u32, b, (b + 2) as u32, (b + 3) as u32]
        }),
{
    let ghost pre_pos = pos@;
    let ghost pre_nor = nor@;
    let ghost pre_col = col@;
    let ghost pre_idx = idx@;
    let base = pos.len() as u32;
    let mut k: usize = 0;
    while k < 4
        invariant
            k <= 4,
            pos@ == pre_pos + c@.subrange(0, k as int),
            nor@ == pre_nor + repeat(n, k as nat),
            col@ == pre_col + repeat(color, k as nat),
        decreases 4 - k,
    {
        pos.push(c[k]);
        nor.push(n);
        col.push(color);
        k += 1;
        assert(pos@ =~= pre_pos + c@.subrange(0, k as int));
        assert(nor@ =~= pre_nor + repeat(n, k as nat));
        assert(col@ =~= pre_col + repeat(color, k as nat));
    }
    assert(c@.subrange(0, 4) =~= c@);
    idx.push(base);
    idx.push(base + 1);
    idx.push(base + 2);
    idx.push(base);
    idx.push(base + 2);
    idx.push(base + 3);
    proof {
        assert(fan(base as int, 2) =~= Seq::<u32>::empty());
        assert(fan(base as int, 3) =~= seq![base, (base + 1) as u32, (base + 2) as u32]);
        assert(fan(base as int, 4) =~= seq![
            base,
            (base + 1) as u32,
            (base + 2) as u32,
            base,
            (base + 2) as u32,
            (base + 3) as u32,
        ]);
        assert(idx@ =~= pre_idx + fan(base as int, 4));
        lemma_fan(base as int, 4);
        if indices_valid(pre_idx, pre_pos.len() as int) {
            lemma_append_valid(pre_idx, fan(base as int, 4), pre_pos.len() as int, 4);
        }
        assert forall|t: int| 0 <= t < 4 implies #[trigger] nor@[pre_nor.len() + t] == n by {
            assert(nor@[pre_nor.len() + t] == repeat(n, 4)[t]);
        }
        assert forall|t: int| 0 <= t < 4 implies #[trigger] col@[pre_col.len() + t] == color by {
            assert(col@[pre_col.len() + t] == repeat(color, 4)[t]);
        }
    }
}

/// Corners of the first `count` quads of `quads`, concatenated.
pub open spec fn quad_corners<P>(quads: Seq<[P; 4]>, count: int) -> Seq<P>
    decreases count,
{
    if count <= 0 {
        Seq::empty()
    } else {
        quad_corners(quads, count - 1) + quads[count - 1]@
    }
}

/// Per-vertex copies of the first `count` per-quad values, four each.
pub open spec fn per_quad<T>(values: Seq<T>, count: int) -> Seq<T>
    decreases count,
{
    if count <= 0 {
        Seq::empty()
    } else {
        per_quad(values, count - 1) + repeat(values[count - 1], 4)
    }
}

proof fn lemma_quad_corners_len<P>(quads: Seq<[P; 4]>, count: int)
    requires
        0 <= count,
    ensures
        quad_corners(quads, count).len() == 4 * count,
    decreases count,
{
    if count > 0 {
        lemma_quad_corners_len(quads, count - 1);
    }
}

/// Pushes a run of flat-shaded quads, quad `k` with corners `quads[k]`,
/// normal `normals[k]` and color `colors[k]`.
pub fn push_quads<P: Copy, N: Copy, C: Copy>(
    pos: &mut Vec<P>,
    nor: &mut Vec<N>,
    col: &mut Vec<C>,
    idx: &mut Vec<u32>,
    quads: &[[P; 4]],
    normals: &[N],
    colors: &[C],
)
    requires
        quads@.len() == normals@.len(),
        quads@.len() == colors@.len(),
        old(pos)@.len() + 4 * quads@.len() <= u32::MAX,
    ensures
        final(pos)@ == old(pos)@ + quad_corners(quads@, quads@.len() as int),
        final(nor)@ == old(nor)@ + per_quad(normals@, quads@.len() as int),
        final(col)@ == old(col)@ + per_quad(colors@, quads@.len() as int),
        final(idx)@ == old(idx)@ + quad_fans(old(pos)@.len() as int, quads@.len() as int),
        indices_valid(old(idx)@, old(pos)@.len() as int) ==> indices_valid(
            final(idx)@,
            final(pos)@.len() as int,
        ),
        // the same, entry by entry: quad `k` has corners `quads[k]`, normal
        // `normals[k]` and color `colors[k]` on each of its four vertices
        final(pos)@.len() == old(pos)@.len() + 4 * quads@.len(),
        final(nor)@.len() == old(nor)@.len() + 4 * quads@.len(),
        final(col)@.len() == old(col)@.len() + 4 * quads@.len(),
        final(idx)@.len() == old(idx)@.len() + 6 * quads@.len(),
        forall|s: int| 0 <= s < old(pos)@.len() ==> #[trigger] final(pos)@[s] == old(pos)@[s],
        forall|s: int| 0 <= s < old(nor)@.len() ==> #[trigger] final(nor)@[s] == old(nor)@[s],
        forall|s: int| 0 <= s < old(col)@.len() ==> #[trigger] final(col)@[s] == old(col)@[s],
        forall|s: int| 0 <= s < old(idx)@.len() ==> #[trigger] final(idx)@[s] == old(idx)@[s],
        forall|k: int, t: int|
            0 <= k < quads@.len() && 0 <= t < 4 ==> #[trigger] final(pos)@[old(pos)@.len() + 4 * k + t]
                == quads@[k]@[t],
        forall|k: int, t: int|
            0 <= k < quads@.len() && 0 <= t < 4 ==> #[trigger] final(nor)@[old(nor)@.len() + 4 * k + t]
                == normals@[k],
        forall|k: int, t: int|
            0 <= k < quads@.len() && 0 <= t < 4 ==> #[trigger] final(col)@[old(col)@.len() + 4 * k + t]
                == colors@[k],
        forall|k: int, r: int|
            0 <= k < quads@.len() && 0 <= r < 6 ==> #[trigger] final(idx)@[old(idx)@.len() + 6 * k + r]
                as int == old(pos)@.len() + 4 * k + quad_triangle_offset(r),
{
    let ghost pre_pos = pos@;
    let ghost pre_nor = nor@;
    let ghost pre_col = col@;
    let ghost pre_idx = idx@;
    let ghost valid = indices_valid(pre_idx, pre_pos.len() as int);
    let n = quads.len();
    let mut k: usize = 0;
    while k < n
        invariant
            n == quads@.len(),
            n == normals@.len(),
            n == colors@.len(),
            k <= n,
            pre_pos.len() + 4 * n <= u32::MAX,
            pos@ == pre_pos + quad_corners(quads@, k as int),
            nor@ == pre_nor + per_quad(normals@, k as int),
            col@ == pre_col + per_quad(colors@, k as int),
            idx@ == pre_idx + quad_fans(pre_pos.len() as int, k as int),
            valid == indices_valid(pre_idx, pre_pos.len() as int),
            valid ==> indices_valid(idx@, pos@.len() as int),
        decreases n - k,
    {
        proof {
            lemma_quad_corners_len(quads@, k as int);
        }
        push_quad(pos, nor, col, idx, quads[k], normals[k], colors[k]);
        proof {
            assert(pos@ =~= pre_pos + quad_corners(quads@, k + 1));
            assert(nor@ =~= pre_nor + per_quad(normals@, k + 1));
            assert(col@ =~= pre_col + per_quad(colors@, k + 1));
            assert(idx@ =~= pre_idx + quad_fans(pre_pos.len() as int, k + 1));
        }
        k += 1;
    }
    proof {
        let n = n as int;
        lemma_quad_corners_entries(quads@, n);
        lemma_per_quad_entries(normals@, n);
        lemma_per_quad_entries(colors@, n);
        lemma_quad_fans_entries(pre_pos.len() as int, n);
        assert forall|k: int, t: int| 0 <= k < n && 0 <= t < 4 implies #[trigger] pos@[pre_pos.len()
            + 4 * k + t] == quads@[k]@[t] by {
            let s = 4 * k + t;
            vstd::arithmetic::div_mod::lemma_fundamental_div_mod_converse(s, 4, k, t);
            assert(pos@[pre_pos.len() + s] == quad_corners(quads@, n)[s]);
        }
        assert forall|k: int, t: int| 0 <= k < n && 0 <= t < 4 implies #[trigger] nor@[pre_nor.len()
            + 4 * k + t] == normals@[k] by {
            let s = 4 * k + t;
            vstd::arithmetic::div_mod::lemma_fundamental_div_mod_converse(s, 4, k, t);
            assert(nor@[pre_nor.len() + s] == per_quad(normals@, n)[s]);
        }
        assert forall|k: int, t: int| 0 <= k < n && 0 <= t < 4 implies #[trigger] col@[pre_col.len()
            + 4 * k + t] == colors@[k] by {
            let s = 4 * k + t;
            vstd::arithmetic::div_mod::lemma_fundamental_div_mod_converse(s, 4, k, t);
            assert(col@[pre_col.len() + s] == per_quad(colors@, n)[s]);
        }
        assert forall|k: int, r: int| 0 <= k < n && 0 <= r < 6 implies #[trigger] idx@[pre_idx.len()
            + 6 * k + r] as int == pre_pos.len() + 4 * k + quad_triangle_offset(r) by {
            let s = 6 * k + r;
            vstd::arithmetic::div_mod::lemma_fundamental_div_mod_converse(s, 6, k, r);
            assert(idx@[pre_idx.len() + s] == quad_fans(pre_pos.len() as int, n)[s]);
        }
    }
}

/// Pushes one flat floor tile: the border band between the `outer` and
/// `inner` squares as four `grout` quads, then the `inner` square in `color`,
/// all facing `up`.
pub fn flat_tile<P: Copy, N: Copy, C: Copy>(
    pos: &mut Vec<P>,
    nor: &mut Vec<N>,
    col: &mut Vec<C>,
    idx: &mut Vec<u32>,
    outer: [P; 4],
    inner: [P; 4],
    up: N,
    grout: C,
    color: C,
)
    requires
        old(pos)@.len() + 20 <= u32::MAX,
    ensures
        final(pos)@ == old(pos)@ + band(outer@, inner@, 4, 4) + inner@,
        final(nor)@ == old(nor)@ + repeat(up, 20),
        final(col)@ == old(col)@ + repeat(grout, 16) + repeat(color, 4),
        final(idx)@ == old(idx)@ + quad_fans(old(pos)@.len() as int, 5),
        indices_valid(old(idx)@, old(pos)@.len() as int) ==> indices_valid(
            final(idx)@,
            final(pos)@.len() as int,
        ),
        // the same, entry by entry: four border quads across the edges of
        // the square, then the inner square
        final(pos)@.len() == old(pos)@.len() + 20,
        final(nor)@.len() == old(nor)@.len() + 20,
        final(col)@.len() == old(col)@.len() + 20,
        final(idx)@.len() == old(idx)@.len() + 30,
        forall|k: int| 0 <= k < 4 ==> {
            &&& #[trigger] final(pos)@[old(pos)@.len() + 4 * k] == outer[k]
            &&& final(pos)@[old(pos)@.len() + 4 * k + 1] == outer[(k + 1) % 4]
            &&& final(pos)@[old(pos)@.len() + 4 * k + 2] == inner[(k + 1) % 4]
            &&& final(pos)@[old(pos)@.len() + 4 * k + 3] == inner[k]
        },
        forall|t: int| 0 <= t < 4 ==> #[trigger] final(pos)@[old(pos)@.len() + 16 + t] == inner[t],
        forall|s: int| 0 <= s < 20 ==> #[trigger] final(nor)@[old(nor)@.len() + s] == up,
        forall|s: int| 0 <= s < 16 ==> #[trigger] final(col)@[old(col)@.len() + s] == grout,
        forall|s: int| 16 <= s < 20 ==> #[trigger] final(col)@[old(col)@.len() + s] == color,
        forall|k: int, r: int|
            0 <= k < 5 && 0 <= r < 6 ==> #[trigger] final(idx)@[old(idx)@.len() + 6 * k + r] as int
                == old(pos)@.len() + 4 * k + quad_triangle_offset(r),
{
    let ghost pre_pos = pos@;
    let ghost pre_nor = nor@;
    let ghost pre_col = col@;
    let ghost pre_idx = idx@;
    let ghost valid = indices_valid(pre_idx, pre_pos.len() as int);
    let mut k: usize = 0;
    while k < 4
        invariant
            k <= 4,
            pre_pos.len() + 20 <= u32::MAX,
            pos@ == pre_pos + band(outer@, inner@, k as int, 4),
            nor@ == pre_nor + repeat(up, 4 * k as nat),
            col@ == pre_col + repeat(grout, 4 * k as nat),
            idx@ == pre_idx + quad_fans(pre_pos.len() as int, k as int),
            valid == indices_valid(pre_idx, pre_pos.len() as int),
            valid ==> indices_valid(idx@, pos@.len() as int),
        decreases 4 - k,
    {
        proof {
            lemma_band_len(outer@, inner@, k as int, 4);
        }
        let m = (k + 1) % 4;
        let quad = [outer[k], outer[m], inner[m], inner[k]];
        push_quad(pos, nor, col, idx, quad, up, grout);
        proof {
            assert(quad@ =~= ring_quad(outer@, inner@, k as int, 4));
            assert(pos@ =~= pre_pos + band(outer@, inner@, k + 1, 4));
            assert(nor@ =~= pre_nor + repeat(up, 4 * (k + 1) as nat));
            assert(col@ =~= pre_col + repeat(grout, 4 * (k + 1) as nat));
            assert(idx@ =~= pre_idx + quad_fans(pre_pos.len() as int, k + 1));
        }
        k += 1;
    }
    proof {
        lemma_band_len(outer@, inner@, 4, 4);
    }
    push_quad(pos, nor, col, idx, inner, up, color);
    proof {
        assert(pos@ =~= pre_pos + band(outer@, inner@, 4, 4) + inner@);
        assert(nor@ =~= pre_nor + repeat(up, 20));
        assert(col@ =~= pre_col + repeat(grout, 16) + repeat(color, 4));
        assert(idx@ =~= pre_idx + quad_fans(pre_pos.len() as int, 5));
        lemma_band_entries(outer@, inner@, 4, 4);
        lemma_quad_fans_entries(pre_pos.len() as int, 5);
        let b = band(outer@, inner@, 4, 4);
        assert forall|k: int| 0 <= k < 4 implies {
            &&& #[trigger] pos@[pre_pos.len() + 4 * k] == outer[k]
            &&& pos@[pre_pos.len() + 4 * k + 1] == outer[(k + 1) % 4]
            &&& pos@[pre_pos.len() + 4 * k + 2] == inner[(k + 1) % 4]
            &&& pos@[pre_pos.len() + 4 * k + 3] == inner[k]
        } by {
            assert(pos@[pre_pos.len() + 4 * k] == b[4 * k]);
            assert(pos@[pre_pos.len() + 4 * k + 1] == b[4 * k + 1]);
            assert(pos@[pre_pos.len() + 4 * k + 2] == b[4 * k + 2]);
            assert(pos@[pre_pos.len() + 4 * k + 3] == b[4 * k + 3]);
            vstd::arithmetic::div_mod::lemma_fundamental_div_mod_converse(4 * k, 4, k, 0);
            vstd::arithmetic::div_mod::lemma_fundamental_div_mod_converse(4 * k + 1, 4, k, 1);
            vstd::arithmetic::div_mod::lemma_fundamental_div_mod_converse(4 * k + 2, 4, k, 2);
            vstd::arithmetic::div_mod::lemma_fundamental_div_mod_converse(4 * k + 3, 4, k, 3);
            assert(b[4 * k] == outer@[k]);
            assert(b[4 * k + 1] == outer@[(k + 1) % 4]);
            assert(b[4 * k + 2] == inner@[(k + 1) % 4]);
            assert(b[4 * k + 3] == inner@[k]);
        }
        assert forall|k: int, r: int| 0 <= k < 5 && 0 <= r < 6 implies #[trigger] idx@[pre_idx.len()
            + 6 * k + r] as int == pre_pos.len() + 4 * k + quad_triangle_offset(r) by {
            let s = 6 * k + r;
            vstd::arithmetic::div_mod::lemma_fundamental_div_mod_converse(s, 6, k, r);
            assert(idx@[pre_idx.len() + s] == quad_fans(pre_pos.len() as int, 5)[s]);
        }
        assert forall|s: int| 0 <= s < 20 implies #[trigger] nor@[pre_nor.len() + s] == up by {
            assert(nor@[pre_nor.len() + s] == repeat(up, 20)[s]);
        }
        assert forall|s: int| 0 <= s < 16 implies #[trigger] col@[pre_col.len() + s] == grout by {
            assert(col@[pre_col.len() + s] == repeat(grout, 16)[s]);
        }
        assert forall|s: int| 16 <= s < 20 implies #[trigger] col@[pre_col.len() + s] == color by {
            assert(col@[pre_col.len() + s] == repeat(color, 4)[s - 16]);
        }
    }
}

/// `n` copies of `c`: every entry is `c`.
pub proof fn lemma_repeat_entries<C>(c: C, n: nat)
    ensures
        repeat(c, n).len() == n,
        forall|s: int| 0 <= s < n ==> #[trigger] repeat(c, n)[s] == c,
{
}

/// The fan over `n` vertices from `base` lists triangle `t` as
/// `(base, base + t + 1, base + t + 2)`: entry `s` is `base` when `s % 3 == 0`
/// and `base + s / 3 + s % 3` otherwise.
pub proof fn lemma_fan_entries(base: int, n: int)
    requires
        0 <= base,
        2 <= n,
        base + n <= u32::MAX + 1,
    ensures
        fan(base, n).len() == 3 * (n - 2),
        forall|s: int|
            0 <= s < 3 * (n - 2) ==> #[trigger] fan(base, n)[s] as int == if s % 3 == 0 {
                base
            } else {
                base + s / 3 + s % 3
            },
    decreases n,
{
    if n > 2 {
        lemma_fan_entries(base, n - 1);
        let f = fan(base, n - 1);
        let g = fan(base, n);
        let q = n - 3;
        assert forall|s: int| 0 <= s < 3 * (n - 2) implies #[trigger] g[s] as int == if s % 3 == 0 {
            base
        } else {
            base + s / 3 + s % 3
        } by {
            if s < 3 * q {
                assert(g[s] == f[s]);
            } else {
                let r = s - 3 * q;
                vstd::arithmetic::div_mod::lemma_fundamental_div_mod_converse(s, 3, q, r);
                assert(g[s] == seq![base as u32, (base + n - 2) as u32, (base + n - 1) as u32][r]);
            }
        }
    }
}

/// Offset, within its quad, of entry `r` of the two triangles of a quad:
/// `(0, 1, 2)` and `(0, 2, 3)`.
pub open spec fn quad_triangle_offset(r: int) -> int {
    if r == 0 || r == 3 {
        0
    } else if r == 1 {
        1
    } else if r == 2 || r == 4 {
        2
    } else {
        3
    }
}

/// Quads pushed one after the other from `base`: quad `s / 6` starts at
/// vertex `base + 4 * (s / 6)` and its two triangles are `(0, 1, 2)` and
/// `(0, 2, 3)` within it.
pub proof fn lemma_quad_fans_entries(base: int, count: int)
    requires
        0 <= base,
        0 <= count,
        base + 4 * count <= u32::MAX + 1,
    ensures
        quad_fans(base, count).len() == 6 * count,
        forall|s: int|
            0 <= s < 6 * count ==> #[trigger] quad_fans(base, count)[s] as int == base + 4 * (s / 6)
                + quad_triangle_offset(s % 6),
    decreases count,
{
    if count > 0 {
        lemma_quad_fans_entries(base, count - 1);
        let q = count - 1;
        lemma_fan_entries(base + 4 * q, 4);
        let f = quad_fans(base, q);
        let h = fan(base + 4 * q, 4);
        let g = quad_fans(base, count);
        assert forall|s: int| 0 <= s < 6 * count implies #[trigger] g[s] as int == base + 4 * (s / 6)
            + quad_triangle_offset(s % 6) by {
            if s < 6 * q {
                assert(g[s] == f[s]);
            } else {
                let r = s - 6 * q;
                vstd::arithmetic::div_mod::lemma_fundamental_div_mod_converse(s, 6, q, r);
                assert(g[s] == h[r]);
                assert(r / 3 == if r < 3 { 0int } else { 1int });
                assert(r % 3 == if r < 3 { r } else { r - 3 });
            }
        }
    }
}

/// Quad `s / 4` carries its own value on each of its four vertices.
pub proof fn lemma_per_quad_entries<T>(values: Seq<T>, count: int)
    requires
        0 <= count,
    ensures
        per_quad(values, count).len() == 4 * count,
        forall|s: int| 0 <= s < 4 * count ==> #[trigger] per_quad(values, count)[s] == values[s / 4],
    decreases count,
{
    if count > 0 {
        lemma_per_quad_entries(values, count - 1);
        let q = count - 1;
        let g = per_quad(values, count);
        assert forall|s: int| 0 <= s < 4 * count implies #[trigger] g[s] == values[s / 4] by {
            if s < 4 * q {
                assert(g[s] == per_quad(values, q)[s]);
            } else {
                vstd::arithmetic::div_mod::lemma_fundamental_div_mod_converse(s, 4, q, s - 4 * q);
                assert(g[s] == repeat(values[q], 4)[s - 4 * q]);
            }
        }
    }
}

/// Vertex `s` of a run of quads is corner `s % 4` of quad `s / 4`.
pub proof fn lemma_quad_corners_entries<P>(quads: Seq<[P; 4]>, count: int)
    requires
        0 <= count,
    ensures
        quad_corners(quads, count).len() == 4 * count,
        forall|s: int|
            0 <= s < 4 * count ==> #[trigger] quad_corners(quads, count)[s] == quads[s / 4]@[s % 4],
    decreases count,
{
    if count > 0 {
        lemma_quad_corners_entries(quads, count - 1);
        let q = count - 1;
        let g = quad_corners(quads, count);
        assert forall|s: int| 0 <= s < 4 * count implies #[trigger] g[s] == quads[s / 4]@[s % 4] by {
            if s < 4 * q {
                assert(g[s] == quad_corners(quads, q)[s]);
            } else {
                vstd::arithmetic::div_mod::lemma_fundamental_div_mod_converse(s, 4, q, s - 4 * q);
                assert(g[s] == quads[q]@[s - 4 * q]);
            }
        }
    }
}

/// Vertex `s` of a band between two rings belongs to the quad across edge
/// `k = s / 4`: `outer[k]`, `outer[k + 1]`, `inner[k + 1]`, `inner[k]`, wrapping
/// modulo `m`.
pub proof fn lemma_band_entries<P>(outer: Seq<P>, inner: Seq<P>, count: int, m: int)
    requires
        0 <= count,
    ensures
        band(outer, inner, count, m).len() == 4 * count,
        forall|s: int|
            0 <= s < 4 * count ==> #[trigger] band(outer, inner, count, m)[s] == if s % 4 == 0 {
                outer[s / 4]
            } else if s % 4 == 1 {
                outer[(s / 4 + 1) % m]
            } else if s % 4 == 2 {
                inner[(s / 4 + 1) % m]
            } else {
                inner[s / 4]
            },
    decreases count,
{
    if count > 0 {
        lemma_band_entries(outer, inner, count - 1, m);
        let q = count - 1;
        let g = band(outer, inner, count, m);
        assert forall|s: int| 0 <= s < 4 * count implies #[trigger] g[s] == if s % 4 == 0 {
            outer[s / 4]
        } else if s % 4 == 1 {
            outer[(s / 4 + 1) % m]
        } else if s % 4 == 2 {
            inner[(s / 4 + 1) % m]
        } else {
            inner[s / 4]
        } by {
            if s < 4 * q {
                assert(g[s] == band(outer, inner, q, m)[s]);
            } else {
                vstd::arithmetic::div_mod::lemma_fundamental_div_mod_converse(s, 4, q, s - 4 * q);
                assert(g[s] == ring_quad(outer, inner, q, m)[s - 4 * q]);
            }
        }
    }
}

/// The walls of a pillar alternate colors: wall `s / 4` is in `a` when even
/// and in `b` when odd.
pub proof fn lemma_alternating_entries<C>(a: C, b: C, count: int)
    requires
        0 <= count,
    ensures
        alternating(a, b, count).len() == 4 * count,
        forall|s: int|
            0 <= s < 4 * count ==> #[trigger] alternating(a, b, count)[s] == if (s / 4) % 2 == 0 {
                a
            } else {
                b
            },
    decreases count,
{
    if count > 0 {
        lemma_alternating_entries(a, b, count - 1);
        let q = count - 1;
        let g = alternating(a, b, count);
        assert forall|s: int| 0 <= s < 4 * count implies #[trigger] g[s] == if (s / 4) % 2 == 0 {
            a
        } else {
            b
        } by {
            if s < 4 * q {
                assert(g[s] == alternating(a, b, q)[s]);
            } else {
                vstd::arithmetic::div_mod::lemma_fundamental_div_mod_converse(s, 4, q, s - 4 * q);
            }
        }
    }
}

/// Entry by entry, a vertex list made of `pre`, a band of `count` quads and
/// then `rest`.
proof fn lemma_band_then<P>(
    all: Seq<P>,
    pre: Seq<P>,
    outer: Seq<P>,
    inner: Seq<P>,
    count: int,
    m: int,
    rest: Seq<P>,
)
    requires
        0 <= count,
        all == pre + band(outer, inner, count, m) + rest,
    ensures
        all.len() == pre.len() + 4 * count + rest.len(),
        forall|s: int| 0 <= s < pre.len() ==> #[trigger] all[s] == pre[s],
        forall|k: int| 0 <= k < count ==> {
            &&& #[trigger] all[pre.len() + 4 * k] == outer[k]
            &&& all[pre.len() + 4 * k + 1] == outer[(k + 1) % m]
            &&& all[pre.len() + 4 * k + 2] == inner[(k + 1) % m]
            &&& all[pre.len() + 4 * k + 3] == inner[k]
        },
        forall|t: int| 0 <= t < rest.len() ==> #[trigger] all[pre.len() + 4 * count + t] == rest[t],
{
    lemma_band_entries(outer, inner, count, m);
    let b = band(outer, inner, count, m);
    assert forall|k: int| 0 <= k < count implies {
        &&& #[trigger] all[pre.len() + 4 * k] == outer[k]
        &&& all[pre.len() + 4 * k + 1] == outer[(k + 1) % m]
        &&& all[pre.len() + 4 * k + 2] == inner[(k + 1) % m]
        &&& all[pre.len() + 4 * k + 3] == inner[k]
    } by {
        assert(all[pre.len() + 4 * k] == b[4 * k]);
        assert(all[pre.len() + 4 * k + 1] == b[4 * k + 1]);
        assert(all[pre.len() + 4 * k + 2] == b[4 * k + 2]);
        assert(all[pre.len() + 4 * k + 3] == b[4 * k + 3]);
        vstd::arithmetic::div_mod::lemma_fundamental_div_mod_converse(4 * k, 4, k, 0);
        vstd::arithmetic::div_mod::lemma_fundamental_div_mod_converse(4 * k + 1, 4, k, 1);
        vstd::arithmetic::div_mod::lemma_fundamental_div_mod_converse(4 * k + 2, 4, k, 2);
        vstd::arithmetic::div_mod::lemma_fundamental_div_mod_converse(4 * k + 3, 4, k, 3);
    }
    assert forall|t: int| 0 <= t < rest.len() implies #[trigger] all[pre.len() + 4 * count + t]
        == rest[t] by {
        assert((pre + b + rest)[pre.len() + 4 * count + t] == rest[t]);
    }
}

/// Entry by entry, an index list made of `pre`, the triangles of `count`
/// quads from vertex `base`, then a fan over `n` vertices from vertex
/// `base + 4 * count`.
proof fn lemma_quads_then_fan(all: Seq<u32>, pre: Seq<u32>, base: int, count: int, n: int)
    requires
        0 <= base,
        0 <= count,
        1 <= n,
        base + 4 * count + n <= u32::MAX + 1,
        all == pre + quad_fans(base, count) + fan(base + 4 * count, n),
    ensures
        all.len() == pre.len() + 6 * count + if n >= 2 {
            3 * (n - 2)
        } else {
            0
        },
        forall|s: int| 0 <= s < pre.len() ==> #[trigger] all[s] == pre[s],
        forall|k: int, r: int|
            0 <= k < count && 0 <= r < 6 ==> #[trigger] all[pre.len() + 6 * k + r] as int == base + 4 * k
                + quad_triangle_offset(r),
        forall|k: int, r: int|
            0 <= k < n - 2 && 0 <= r < 3 ==> #[trigger] all[pre.len() + 6 * count + 3 * k + r] as int
                == base + 4 * count + if r == 0 {
                0
            } else {
                k + r
            },
{
    lemma_quad_fans_entries(base, count);
    let q = quad_fans(base, count);
    let f = fan(base + 4 * count, n);
    if n >= 2 {
        lemma_fan_entries(base + 4 * count, n);
    } else {
        assert(f.len() == 0);
    }
    assert forall|k: int, r: int| 0 <= k < count && 0 <= r < 6 implies #[trigger] all[pre.len() + 6
        * k + r] as int == base + 4 * k + quad_triangle_offset(r) by {
        vstd::arithmetic::div_mod::lemma_fundamental_div_mod_converse(6 * k + r, 6, k, r);
        assert(all[pre.len() + 6 * k + r] == q[6 * k + r]);
    }
    assert forall|k: int, r: int| 0 <= k < n - 2 && 0 <= r < 3 implies #[trigger] all[pre.len() + 6
        * count + 3 * k + r] as int == base + 4 * count + if r == 0 {
        0
    } else {
        k + r
    } by {
        vstd::arithmetic::div_mod::lemma_fundamental_div_mod_converse(3 * k + r, 3, k, r);
        assert(all[pre.len() + 6 * count + 3 * k + r] == f[3 * k + r]);
    }
}

} // verus!

//! Greedy coloring of the tile adjacency graph.
//!
//! Tiles are colored in discovery order. Row `i` of the adjacency lists, for
//! each edge of tile `i`, the tile found across that edge (`None` when no
//! discovered tile lies there). Tile `i` receives the lowest color that no
//! already-colored neighbour uses; already colored means an index below `i`.
use vstd::prelude::*;
use vstd::set_lib::set_int_range;

verus! {

/// Number of color slots the greedy pass keeps track of.
pub const COLOR_SLOTS: usize = 8;

/// Entry `k` of `row` names a tile colored before tile `i`.
pub open spec fn earlier_neighbour(row: Seq<Option<usize>>, i: int, k: int) -> bool {
    &&& 0 <= k < row.len()
    &&& row[k] is Some
    &&& (row[k]->0 as int) < i
}

/// The tile named by entry `k` of `row`.
pub open spec fn named(row: Seq<Option<usize>>, k: int) -> int {
    row[k]->0 as int
}

/// Among the first `upto` entries of `row`, a tile colored before `i` has color `c`
/// under the coloring `prev` of the earlier tiles.
pub open spec fn color_taken_upto(
    row: Seq<Option<usize>>,
    i: int,
    prev: Seq<int>,
    c: int,
    upto: int,
) -> bool {
    exists|k: int| #[trigger] earlier_neighbour(row, i, k) && k < upto && prev[named(row, k)] == c
}

/// Some neighbour of tile `i` that was colored before it has color `c`.
pub open spec fn color_taken(row: Seq<Option<usize>>, i: int, prev: Seq<int>, c: int) -> bool {
    color_taken_upto(row, i, prev, c, row.len() as int)
}

/// The least color, from `c` on, that no earlier neighbour of tile `i` uses;
/// `COLOR_SLOTS` when every slot from `c` on is taken.
pub open spec fn least_free_from(row: Seq<Option<usize>>, i: int, prev: Seq<int>, c: int) -> int
    decreases COLOR_SLOTS - c,
{
    if c >= COLOR_SLOTS {
        COLOR_SLOTS as int
    } else if !color_taken(row, i, prev, c) {
        c
    } else {
        least_free_from(row, i, prev, c + 1)
    }
}

/// The colors that the greedy pass gives to the first `n` tiles.
pub open spec fn greedy_colors(adj: Seq<Seq<Option<usize>>>, n: nat) -> Seq<int>
    decreases n,
{
    if n == 0 {
        Seq::empty()
    } else {
        let prev = greedy_colors(adj, (n - 1) as nat);
        prev.push(least_free_from(adj[n - 1], n - 1, prev, 0))
    }
}

/// The coloring of all tiles of `adj`.
pub open spec fn coloring_of(adj: Seq<Seq<Option<usize>>>) -> Seq<int> {
    greedy_colors(adj, adj.len())
}

/// Every tile named in the adjacency is one of its tiles.
pub open spec fn neighbours_known(adj: Seq<Seq<Option<usize>>>) -> bool {
    forall|i: int, k: int|
        0 <= i < adj.len() && 0 <= k < adj[i].len() && (#[trigger] adj[i][k]) is Some
            ==> (adj[i][k]->0 as int) < adj.len()
}

/// The greedy pass never runs out of color slots on `adj`.
pub open spec fn colors_fit(adj: Seq<Seq<Option<usize>>>) -> bool {
    forall|i: int| 0 <= i < adj.len() ==> #[trigger] coloring_of(adj)[i] < COLOR_SLOTS
}

/// Tile `j` is listed across one of the edges of tile `i`.
pub open spec fn lists(adj: Seq<Seq<Option<usize>>>, i: int, j: int) -> bool {
    exists|k: int| 0 <= k < adj[i].len() && (#[trigger] adj[i][k]) is Some && named(adj[i], k) == j
}

proof fn lemma_greedy_len(adj: Seq<Seq<Option<usize>>>, n: nat)
    ensures
        greedy_colors(adj, n).len() == n,
    decreases n,
{
    if n > 0 {
        lemma_greedy_len(adj, (n - 1) as nat);
    }
}

/// The greedy colors of earlier tiles do not depend on later ones.
proof fn lemma_greedy_prefix(adj: Seq<Seq<Option<usize>>>, m: nat, n: nat)
    requires
        m <= n,
    ensures
        greedy_colors(adj, n).len() == n,
        forall|j: int| 0 <= j < m ==> #[trigger] greedy_colors(adj, n)[j] == greedy_colors(adj, m)[j],
    decreases n - m,
{
    lemma_greedy_len(adj, n);
    if m < n {
        lemma_greedy_prefix(adj, m, (n - 1) as nat);
        lemma_greedy_len(adj, (n - 1) as nat);
    }
}

/// What `least_free_from` returns: every color from `start` below it is taken,
/// and it is itself free unless it is the overflow value.
proof fn lemma_least_free(row: Seq<Option<usize>>, i: int, prev: Seq<int>, start: int)
    requires
        0 <= start,
    ensures
        start <= least_free_from(row, i, prev, start) <= COLOR_SLOTS || start > COLOR_SLOTS,
        forall|c: int|
            start <= c < least_free_from(row, i, prev, start) ==> color_taken(row, i, prev, c),
        least_free_from(row, i, prev, start) < COLOR_SLOTS ==> !color_taken(
            row,
            i,
            prev,
            least_free_from(row, i, prev, start),
        ),
    decreases COLOR_SLOTS - start,
{
    if start < COLOR_SLOTS && color_taken(row, i, prev, start) {
        lemma_least_free(row, i, prev, start + 1);
    }
}

/// A color below `COLOR_SLOTS` that is free while all colors below it from
/// `start` are taken is the least free one.
proof fn lemma_least_free_is(row: Seq<Option<usize>>, i: int, prev: Seq<int>, start: int, c: int)
    requires
        0 <= start <= c < COLOR_SLOTS,
        forall|d: int| start <= d < c ==> color_taken(row, i, prev, d),
        !color_taken(row, i, prev, c),
    ensures
        least_free_from(row, i, prev, start) == c,
    decreases c - start,
{
    if start < c {
        lemma_least_free_is(row, i, prev, start + 1, c);
    }
}

/// Looking at one more entry of `row` adds its color to the taken ones when
/// it names an earlier neighbour, and changes nothing otherwise.
proof fn lemma_taken_step(row: Seq<Option<usize>>, i: int, prev: Seq<int>, k: int)
    requires
        0 <= k < row.len(),
    ensures
        forall|c: int|
            #[trigger] color_taken_upto(row, i, prev, c, k + 1) == (color_taken_upto(
                row,
                i,
                prev,
                c,
                k,
            ) || (earlier_neighbour(row, i, k) && c == prev[named(row, k)])),
{
    assert forall|c: int|
        #[trigger] color_taken_upto(row, i, prev, c, k + 1) == (color_taken_upto(row, i, prev, c, k)
            || (earlier_neighbour(row, i, k) && c == prev[named(row, k)])) by {
        if color_taken_upto(row, i, prev, c, k + 1) {
            let k2 = choose|k2: int|
                #[trigger] earlier_neighbour(row, i, k2) && k2 < k + 1 && prev[named(row, k2)] == c;
            if k2 < k {
                assert(color_taken_upto(row, i, prev, c, k));
            }
        }
        if earlier_neighbour(row, i, k) && c == prev[named(row, k)] {
            assert(color_taken_upto(row, i, prev, c, k + 1));
        }
    }
}

/// Colors every tile of `adjacency` greedily, in index order: each tile gets
/// the lowest color that none of its already-colored neighbours uses.
pub fn greedy_coloring(adjacency: &Vec<Vec<Option<usize>>>) -> (colors: Vec<usize>)
    requires
        neighbours_known(adjacency.deep_view()),
        colors_fit(adjacency.deep_view()),
    ensures
        colors@.len() == adjacency@.len(),
        forall|i: int|
            0 <= i < adjacency@.len() ==> colors@[i] as int == coloring_of(
                adjacency.deep_view(),
            )[i],
{
    let n = adjacency.len();
    let ghost adj = adjacency.deep_view();
    let ghost all = coloring_of(adj);
    proof {
        lemma_greedy_len(adj, n as nat);
    }
    let mut colors: Vec<usize> = Vec::new();
    let mut t: usize = 0;
    while t < n
        invariant
            t <= n,
            colors@.len() == t,
            forall|j: int| 0 <= j < t ==> colors@[j] == usize::MAX,
        decreases n - t,
    {
        colors.push(usize::MAX);
        t += 1;
    }
    let mut i: usize = 0;
    while i < n
        invariant
            n == adjacency@.len(),
            adj == adjacency.deep_view(),
            all == coloring_of(adj),
            all.len() == n,
            neighbours_known(adj),
            colors_fit(adj),
            i <= n,
            colors@.len() == n,
            forall|j: int| 0 <= j < i ==> colors@[j] as int == all[j],
            forall|j: int| i <= j < n ==> colors@[j] == usize::MAX,
        decreases n - i,
    {
        let row = &adjacency[i];
        let ghost r = adj[i as int];
        let ghost prev = greedy_colors(adj, i as nat);
        proof {
            assert(r == row@);
            lemma_greedy_prefix(adj, i as nat, n as nat);
            lemma_greedy_prefix(adj, (i + 1) as nat, n as nat);
            lemma_greedy_len(adj, i as nat);
            assert(all[i as int] == least_free_from(r, i as int, prev, 0));
        }
        let mut used = [false;8];
        let mut k: usize = 0;
        while k < row.len()
            invariant
                n == adjacency@.len(),
                adj == adjacency.deep_view(),
                r == adj[i as int],
                r == row@,
                i < n,
                neighbours_known(adj),
                colors_fit(adj),
                all == coloring_of(adj),
                all.len() == n,
                prev.len() == i,
                forall|j: int| 0 <= j < i ==> all[j] == prev[j],
                colors@.len() == n,
                forall|j: int| 0 <= j < i ==> colors@[j] as int == all[j],
                forall|j: int| i <= j < n ==> colors@[j] == usize::MAX,
                k <= row@.len(),
                forall|c: int|
                    0 <= c < COLOR_SLOTS ==> (used@[c] <==> color_taken_upto(
                        r,
                        i as int,
                        prev,
                        c,
                        k as int,
                    )),
            decreases row@.len() - k,
        {
            let entry = row[k];
            proof {
                assert(adj[i as int][k as int] == entry);
                lemma_taken_step(r, i as int, prev, k as int);
            }
            if let Some(j) = entry {
                if j != i && colors[j] != usize::MAX {
                    assert(coloring_of(adj)[j as int] < COLOR_SLOTS);
                    used[colors[j]] = true;
                }
            }
            k += 1;
        }
        proof {
            lemma_least_free(r, i as int, prev, 0);
            assert(all[i as int] < COLOR_SLOTS);
        }
        let mut c: usize = 0;
        while used[c]
            invariant
                c <= all[i as int] < COLOR_SLOTS,
                all[i as int] == least_free_from(r, i as int, prev, 0),
                forall|d: int| 0 <= d < c ==> color_taken(r, i as int, prev, d),
                forall|d: int|
                    0 <= d < COLOR_SLOTS ==> (used@[d] <==> color_taken(r, i as int, prev, d)),
                !color_taken(r, i as int, prev, all[i as int]),
            decreases COLOR_SLOTS - c,
        {
            c += 1;
        }
        proof {
            lemma_least_free_is(r, i as int, prev, 0, c as int);
        }
        colors.set(i, c);
        i += 1;
    }
    colors
}

/// No two edge-adjacent tiles share a color: when each of two distinct tiles
/// is listed across an edge of the other, their greedy colors differ.
pub proof fn lemma_coloring_is_proper(adj: Seq<Seq<Option<usize>>>, i: int, j: int)
    requires
        colors_fit(adj),
        0 <= i < adj.len(),
        0 <= j < adj.len(),
        i != j,
        lists(adj, i, j),
        lists(adj, j, i),
    ensures
        coloring_of(adj)[i] != coloring_of(adj)[j],
{
    let (lo, hi) = if i < j {
        (i, j)
    } else {
        (j, i)
    };
    let n = adj.len();
    let prev = greedy_colors(adj, hi as nat);
    lemma_greedy_prefix(adj, hi as nat, n);
    lemma_greedy_prefix(adj, (hi + 1) as nat, n);
    lemma_greedy_len(adj, hi as nat);
    let r = adj[hi];
    assert(lists(adj, hi, lo));
    let k = choose|k: int|
        0 <= k < adj[hi].len() && (#[trigger] adj[hi][k]) is Some && named(adj[hi], k) == lo;
    assert(earlier_neighbour(r, hi, k));
    lemma_least_free(r, hi, prev, 0);
    assert(coloring_of(adj)[hi] == least_free_from(r, hi, prev, 0));
    assert(coloring_of(adj)[hi] < COLOR_SLOTS);
    assert(prev[named(r, k)] == coloring_of(adj)[lo]);
}

/// No tile shares its color with a neighbour it lists that was colored
/// before it. Together with `lemma_coloring_is_least` this pins every color:
/// it is the least one that no earlier listed neighbour has.
pub proof fn lemma_coloring_avoids_earlier(adj: Seq<Seq<Option<usize>>>, i: int, k: int)
    requires
        colors_fit(adj),
        0 <= i < adj.len(),
        0 <= k < adj[i].len(),
        adj[i][k] is Some,
        (adj[i][k]->0 as int) < i,
    ensures
        coloring_of(adj)[i] != coloring_of(adj)[adj[i][k]->0 as int],
{
    let n = adj.len();
    let prev = greedy_colors(adj, i as nat);
    lemma_greedy_prefix(adj, i as nat, n);
    lemma_greedy_prefix(adj, (i + 1) as nat, n);
    lemma_greedy_len(adj, i as nat);
    lemma_least_free(adj[i], i, prev, 0);
    assert(earlier_neighbour(adj[i], i, k));
    assert(coloring_of(adj)[i] < COLOR_SLOTS);
    assert(prev[named(adj[i], k)] == coloring_of(adj)[adj[i][k]->0 as int]);
}

/// The coloring is greedy: every color below that of tile `i` is used by a
/// neighbour of `i` colored before it.
pub proof fn lemma_coloring_is_least(adj: Seq<Seq<Option<usize>>>, i: int, c: int)
    requires
        0 <= i < adj.len(),
        0 <= c < coloring_of(adj)[i],
    ensures
        exists|k: int|
            #[trigger] earlier_neighbour(adj[i], i, k) && coloring_of(adj)[named(adj[i], k)] == c,
{
    let n = adj.len();
    let prev = greedy_colors(adj, i as nat);
    lemma_greedy_prefix(adj, i as nat, n);
    lemma_greedy_prefix(adj, (i + 1) as nat, n);
    lemma_greedy_len(adj, i as nat);
    lemma_least_free(adj[i], i, prev, 0);
    assert(color_taken(adj[i], i, prev, c));
    let k = choose|k: int|
        #[trigger] earlier_neighbour(adj[i], i, k) && k < adj[i].len() && prev[named(adj[i], k)]
            == c;
    assert(coloring_of(adj)[named(adj[i], k)] == c);
}

/// A tile's greedy color never exceeds its number of edges: a tile with `d`
/// edges sees at most `d` colors among its neighbours, so one of the colors
/// `0..=d` is free.
pub proof fn lemma_color_at_most_degree(adj: Seq<Seq<Option<usize>>>, i: int)
    requires
        0 <= i < adj.len(),
    ensures
        coloring_of(adj)[i] <= adj[i].len(),
{
    let n = adj.len();
    let row = adj[i];
    let prev = greedy_colors(adj, i as nat);
    lemma_greedy_prefix(adj, i as nat, n);
    lemma_greedy_prefix(adj, (i + 1) as nat, n);
    lemma_greedy_len(adj, i as nat);
    let r = least_free_from(row, i, prev, 0);
    assert(coloring_of(adj)[i] == r);
    lemma_least_free(row, i, prev, 0);
    if r > row.len() {
        let w = set_int_range(0, row.len() as int);
        let f = |k: int| prev[named(row, k)];
        let y = w.map(f);
        vstd::set_lib::lemma_int_range(0, row.len() as int);
        vstd::set_lib::lemma_map_size_bound(w, y, f);
        let s = set_int_range(0, r);
        vstd::set_lib::lemma_int_range(0, r);
        assert forall|c: int| s.contains(c) implies y.contains(c) by {
            assert(color_taken(row, i, prev, c));
            let k = choose|k: int|
                #[trigger] earlier_neighbour(row, i, k) && k < row.len() && prev[named(row, k)]
                    == c;
            assert(w.contains(k));
            assert(f(k) == c);
        }
        vstd::set_lib::lemma_len_subset(s, y);
    }
}

/// With fewer edges per tile than there are color slots, the greedy pass
/// always fits; in particular the four-edged tiles of the {4,5} tiling use
/// colors `0..=4` only.
pub proof fn lemma_small_degree_fits(adj: Seq<Seq<Option<usize>>>)
    requires
        forall|i: int| 0 <= i < adj.len() ==> #[trigger] adj[i].len() < COLOR_SLOTS,
    ensures
        colors_fit(adj),
{
    assert forall|i: int| 0 <= i < adj.len() implies #[trigger] coloring_of(adj)[i]
        < COLOR_SLOTS by {
        lemma_color_at_most_degree(adj, i);
    }
}

/// Greedy colors are never negative.
proof fn lemma_colors_nonnegative(adj: Seq<Seq<Option<usize>>>, i: int)
    requires
        0 <= i < adj.len(),
    ensures
        0 <= coloring_of(adj)[i],
{
    let prev = greedy_colors(adj, i as nat);
    lemma_greedy_prefix(adj, (i + 1) as nat, adj.len());
    lemma_greedy_len(adj, i as nat);
    lemma_least_free(adj[i], i, prev, 0);
}

/// Tiles around a vertex of the {4,5} tiling form a cycle of five, and an odd
/// cycle cannot be two-colored: when five distinct tiles are each
/// edge-adjacent to the next (the last to the first), one of them gets a color
/// of 2 or more, so the coloring uses at least three colors.
#[verifier::spinoff_prover]
pub proof fn lemma_five_cycle_needs_three_colors(adj: Seq<Seq<Option<usize>>>, cycle: Seq<int>)
    requires
        colors_fit(adj),
        cycle.len() == 5,
        forall|k: int| 0 <= k < 5 ==> 0 <= #[trigger] cycle[k] < adj.len(),
        forall|k: int, l: int| 0 <= k < l < 5 ==> #[trigger] cycle[k] != #[trigger] cycle[l],
        forall|k: int|
            0 <= k < 5 ==> lists(adj, #[trigger] cycle[k], cycle[(k + 1) % 5]) && lists(
                adj,
                cycle[(k + 1) % 5],
                cycle[k],
            ),
    ensures
        exists|k: int| 0 <= k < 5 && coloring_of(adj)[#[trigger] cycle[k]] >= 2,
{
    let c = coloring_of(adj);
    let (a0, a1, a2, a3, a4) = (cycle[0], cycle[1], cycle[2], cycle[3], cycle[4]);
    assert(lists(adj, a0, cycle[(0int + 1) % 5]) && lists(adj, cycle[(0int + 1) % 5], a0));
    assert(lists(adj, a1, cycle[(1int + 1) % 5]) && lists(adj, cycle[(1int + 1) % 5], a1));
    assert(lists(adj, a2, cycle[(2int + 1) % 5]) && lists(adj, cycle[(2int + 1) % 5], a2));
    assert(lists(adj, a3, cycle[(3int + 1) % 5]) && lists(adj, cycle[(3int + 1) % 5], a3));
    assert(lists(adj, a4, cycle[(4int + 1) % 5]) && lists(adj, cycle[(4int + 1) % 5], a4));
    assert(a0 != a1 && a1 != a2 && a2 != a3 && a3 != a4 && a0 != a4);
    lemma_coloring_is_proper(adj, a0, a1);
    lemma_coloring_is_proper(adj, a1, a2);
    lemma_coloring_is_proper(adj, a2, a3);
    lemma_coloring_is_proper(adj, a3, a4);
    lemma_coloring_is_proper(adj, a4, a0);
    lemma_colors_nonnegative(adj, a0);
    lemma_colors_nonnegative(adj, a1);
    lemma_colors_nonnegative(adj, a2);
    lemma_colors_nonnegative(adj, a3);
    lemma_colors_nonnegative(adj, a4);
    let k = lemma_odd_cycle(seq![c[a0], c[a1], c[a2], c[a3], c[a4]]);
    assert(c[cycle[k]] >= 2);
}

/// Five non-negative numbers, each different from the next and the last from
/// the first, cannot all be below 2; returns the position of one that is not.
proof fn lemma_odd_cycle(c: Seq<int>) -> (k: int)
    requires
        c.len() == 5,
        forall|t: int| 0 <= t < 5 ==> 0 <= #[trigger] c[t],
        c[0] != c[1],
        c[1] != c[2],
        c[2] != c[3],
        c[3] != c[4],
        c[4] != c[0],
    ensures
        0 <= k < 5,
        c[k] >= 2,
{
    assert(0 <= c[0] && 0 <= c[1] && 0 <= c[2] && 0 <= c[3] && 0 <= c[4]);
    if c[0] >= 2 {
        0
    } else if c[1] >= 2 {
        1
    } else if c[2] >= 2 {
        2
    } else if c[3] >= 2 {
        3
    } else {
        4
    }
}

} // verus!

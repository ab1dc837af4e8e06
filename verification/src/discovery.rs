//! Breadth-first discovery of the tiles of the floor.
//!
//! Tiles are found by reflecting already-known tiles across their edges. The
//! geometry (where a reflected tile lands, whether it is within the generation
//! radius, whether a tile is already known there) is computed by the caller;
//! this state machine keeps the breadth-first bookkeeping: the discovery
//! queue, the ring (breadth-first depth) of every tile and the safety cap on
//! the number of tiles.
use std::collections::VecDeque;
use vstd::prelude::*;
use crate::layout::spec_has_pillar;

verus! {

/// Safety cap on tile count: discovery never holds more tiles than this.
pub const MAX_TILES: usize = 4000;

/// Number of edges of a tile of the {4,5} tiling (the `P` of its Schläfli symbol).
pub const EDGES: usize = 4;

/// The state of a discovery, as numbers.
pub ghost struct DiscoveryState {
    /// Ring (breadth-first depth) of every known tile, in discovery order.
    pub rings: Seq<u32>,
    /// Tiles waiting to be expanded, front first.
    pub queue: Seq<usize>,
    /// The tile being expanded, if any.
    pub current: Option<usize>,
    /// How many edges of the current tile have been tried.
    pub tried: nat,
    /// For every known tile, what was found across each of its edges tried so
    /// far, in edge order: `None` when that neighbour lies out of range,
    /// `Some(j)` when it is the known tile `j`.
    pub outcomes: Seq<Seq<Option<int>>>,
    /// For every tile but the origin, the tile whose expansion found it.
    pub parents: Seq<int>,
    /// For every known tile and each of its edges tried so far, whether the
    /// tile across that edge lies within the generation radius.
    pub in_range: Seq<Seq<bool>>,
    /// The cap stopped the discovery somewhere: a tile was taken off the
    /// queue without being expanded, or a new tile in range was left out.
    pub capped: bool,
}

impl DiscoveryState {
    /// Number of known tiles.
    pub open spec fn count(self) -> int {
        self.rings.len() as int
    }

    /// Index of the first tile still waiting in the queue.
    pub open spec fn head(self) -> int {
        self.count() - self.queue.len()
    }

    /// One step of the discovered graph: tile `b` was found across an edge of
    /// tile `a`.
    pub open spec fn step(self, a: int, b: int) -> bool {
        &&& 0 <= a < self.count()
        &&& exists|k: int| 0 <= k < self.outcomes[a].len() && #[trigger] self.outcomes[a][k] == Some(b)
    }

    /// `w` is a walk of discovered steps from the origin tile.
    pub open spec fn is_walk(self, w: Seq<int>) -> bool {
        &&& 1 <= w.len()
        &&& w[0] == 0
        &&& forall|t: int| 0 <= t < w.len() - 1 ==> #[trigger] self.step(w[t], w[t + 1])
    }

    /// The walk from the origin along the chain of parents to tile `i`.
    pub open spec fn parent_walk(self, i: int) -> Seq<int>
        decreases i,
    {
        if i <= 0 || !(0 <= self.parents[i] < i) {
            seq![0]
        } else {
            self.parent_walk(self.parents[i]).push(i)
        }
    }

    /// Every known tile has had all its edges tried.
    pub open spec fn all_edges_tried(self) -> bool {
        forall|i: int| 0 <= i < self.count() ==> (#[trigger] self.outcomes[i]).len() == EDGES
    }

    /// What every reachable state satisfies.
    pub open spec fn wf(self) -> bool {
        &&& self.wf_layers()
        &&& self.wf_edges()
    }

    /// Bookkeeping of the edges tried: what was found, who found whom, and
    /// which tiles have been fully expanded.
    pub open spec fn wf_edges(self) -> bool {
        &&& self.outcomes.len() == self.count()
        &&& self.parents.len() == self.count()
        &&& forall|i: int| 0 <= i < self.count() ==> (#[trigger] self.outcomes[i]).len() <= EDGES
        &&& forall|i: int| self.head() <= i < self.count() ==> (#[trigger] self.outcomes[i]).len() == 0
        &&& forall|i: int, k: int|
            0 <= i < self.count() && 0 <= k < self.outcomes[i].len() && (#[trigger] self.outcomes[i][k]) is Some
                ==> {
                &&& 0 <= self.outcomes[i][k]->0 < self.count()
                &&& self.rings[self.outcomes[i][k]->0] <= self.rings[i] + 1
            }
        &&& forall|i: int| 0 < i < self.count() ==> {
            &&& 0 <= #[trigger] self.parents[i] < i
            &&& self.rings[i] == self.rings[self.parents[i]] + 1
            &&& self.step(self.parents[i], i)
        }
        &&& self.current matches Some(p) ==> self.outcomes[p as int].len() == self.tried
        &&& self.in_range.len() == self.count()
        &&& forall|i: int| 0 <= i < self.count() ==> (#[trigger] self.in_range[i]).len() == self.outcomes[i].len()
        &&& forall|i: int, k: int|
            0 <= i < self.count() && 0 <= k < self.in_range[i].len() && !(#[trigger] self.in_range[i][k])
                ==> self.outcomes[i][k] is None
        &&& !self.capped ==> forall|i: int, k: int|
            0 <= i < self.count() && 0 <= k < self.in_range[i].len() && (#[trigger] self.in_range[i][k])
                ==> self.outcomes[i][k] is Some
        &&& self.capped ==> self.count() >= MAX_TILES
        &&& !self.capped ==> forall|i: int|
            0 <= i < self.head() && !(self.current == Some(i as usize)) ==> (#[trigger] self.outcomes[i]).len() == EDGES
    }

    /// Breadth-first layering of the rings and shape of the queue.
    pub open spec fn wf_layers(self) -> bool {
        &&& 1 <= self.count() <= MAX_TILES
        &&& self.rings[0] == 0
        // the queue holds exactly the tiles not yet expanded, in discovery order
        &&& self.queue.len() <= self.count()
        &&& forall|t: int| 0 <= t < self.queue.len() ==> #[trigger] self.queue[t] == self.head() + t
        // breadth-first layering: rings never decrease and grow by at most one
        &&& forall|a: int, b: int|
            0 <= a <= b < self.count() ==> #[trigger] self.rings[a] <= #[trigger] self.rings[b]
        &&& forall|a: int| 0 <= a < self.count() - 1 ==> #[trigger] self.rings[a + 1] <= self.rings[a] + 1
        &&& forall|a: int| 0 < a < self.count() ==> 1 <= #[trigger] self.rings[a] <= a
        // the frontier spans at most two consecutive rings
        &&& self.queue.len() > 0 ==> self.rings[self.count() - 1] <= self.rings[self.head()] + 1
        &&& self.tried <= EDGES
        &&& match self.current {
            Some(p) => {
                &&& p == self.head() - 1
                &&& self.rings[self.count() - 1] <= self.rings[p as int] + 1
            },
            None => true,
        }
    }
}

/// Breadth-first bookkeeping of a tile discovery.
pub struct Discovery {
    rings: Vec<u32>,
    queue: VecDeque<usize>,
    current: Option<usize>,
    tried: usize,
    outcomes: Ghost<Seq<Seq<Option<int>>>>,
    parents: Ghost<Seq<int>>,
    in_range: Ghost<Seq<Seq<bool>>>,
    capped: Ghost<bool>,
}

impl View for Discovery {
    type V = DiscoveryState;

    closed spec fn view(&self) -> DiscoveryState {
        DiscoveryState {
            rings: self.rings@,
            queue: self.queue@,
            current: self.current,
            tried: self.tried as nat,
            outcomes: self.outcomes@,
            parents: self.parents@,
            in_range: self.in_range@,
            capped: self.capped@,
        }
    }
}

impl Discovery {
    /// Starts a discovery from the origin tile: one known tile at ring 0,
    /// waiting to be expanded.
    pub fn new() -> (d: Self)
        ensures
            d@.rings == seq![0u32],
            d@.queue == seq![0usize],
            d@.current is None,
            d@.tried == 0,
            d@.outcomes == seq![Seq::<Option<int>>::empty()],
            d@.parents == seq![0int],
            d@.in_range == seq![Seq::<bool>::empty()],
            !d@.capped,
            d@.wf(),
    {
        let mut rings = Vec::new();
        rings.push(0u32);
        let mut queue = VecDeque::new();
        queue.push_back(0usize);
        let outcomes: Ghost<Seq<Seq<Option<int>>>> = Ghost(Seq::empty().push(Seq::empty()));
        let parents: Ghost<Seq<int>> = Ghost(Seq::empty().push(0int));
        let in_range: Ghost<Seq<Seq<bool>>> = Ghost(Seq::empty().push(Seq::empty()));
        let capped: Ghost<bool> = Ghost(false);
        let d = Discovery {
            rings,
            queue,
            current: None,
            tried: 0,
            outcomes,
            parents,
            in_range,
            capped,
        };
        assert(d@.queue[0] == d@.head() + 0);
        d
    }

    /// Number of known tiles.
    pub fn tile_count(&self) -> (n: usize)
        ensures
            n == self@.count(),
    {
        self.rings.len()
    }

    /// The rings of all known tiles, in discovery order.
    pub fn rings(&self) -> (r: &Vec<u32>)
        ensures
            r@ == self@.rings,
    {
        &self.rings
    }

    /// Takes the next tile off the queue and makes it the tile being expanded.
    /// Returns `None`, and ends the expansion, when the queue is empty or when
    /// the cap on the number of tiles is reached; in the latter case the tile
    /// taken off the queue is not expanded. The tile being expanded, if any,
    /// must have had all its edges tried.
    pub fn next_parent(&mut self) -> (next: Option<usize>)
        requires
            old(self)@.wf(),
            old(self)@.current is Some ==> old(self)@.tried == EDGES,
        ensures
            final(self)@.wf(),
            final(self)@.rings == old(self)@.rings,
            final(self)@.outcomes == old(self)@.outcomes,
            final(self)@.parents == old(self)@.parents,
            final(self)@.in_range == old(self)@.in_range,
            final(self)@.capped == (old(self)@.capped || (old(self)@.queue.len() > 0
                && old(self)@.count() >= MAX_TILES)),
            old(self)@.queue.len() == 0 ==> {
                &&& next is None
                &&& final(self)@.queue == old(self)@.queue
                &&& final(self)@.current is None
                &&& final(self)@.tried == old(self)@.tried
            },
            old(self)@.queue.len() > 0 ==> {
                &&& final(self)@.queue == old(self)@.queue.drop_first()
                &&& if old(self)@.count() >= MAX_TILES {
                    &&& next is None
                    &&& final(self)@.current is None
                    &&& final(self)@.tried == old(self)@.tried
                } else {
                    &&& next == Some(old(self)@.queue[0])
                    &&& final(self)@.current == next
                    &&& final(self)@.tried == 0
                }
            },
    {
        let ghost pre = self@;
        let popped = self.queue.pop_front();
        let next = match popped {
            None => {
                self.current = None;
                None
            },
            Some(idx) => {
                if self.rings.len() >= MAX_TILES {
                    self.current = None;
                    self.capped = Ghost(true);
                    None
                } else {
                    self.current = Some(idx);
                    self.tried = 0;
                    Some(idx)
                }
            },
        };
        proof {
            let post = self@;
            if pre.queue.len() > 0 {
                assert(post.queue =~= pre.queue.drop_first());
                assert forall|t: int| 0 <= t < post.queue.len() implies #[trigger] post.queue[t]
                    == post.head() + t by {
                    assert(post.queue[t] == pre.queue[t + 1]);
                }
                if post.queue.len() > 0 {
                    assert(pre.rings[pre.head()] <= pre.rings[post.head()]);
                }
            }
            assert forall|i: int| post.head() <= i < post.count() implies (
            #[trigger] post.outcomes[i]).len() == 0 by {
                assert(pre.head() <= i);
            }
            if !post.capped {
                assert forall|i: int|
                    0 <= i < post.head() && !(post.current == Some(i as usize)) implies (
                #[trigger] post.outcomes[i]).len() == EDGES by {
                    if i < pre.head() && pre.current == Some(i as usize) {
                        assert(pre.outcomes[i].len() == pre.tried);
                    }
                }
            }
        }
        next
    }

    /// Records the outcome of trying one more edge of the tile being expanded.
    /// `within_range` says whether the tile across that edge lies within the
    /// generation radius, `found` which known tile, if any, is already there.
    /// The tile across the edge is new when it lies within range and no known
    /// tile is there; it is added, with the next index, the ring after that of
    /// the tile being expanded and a place at the back of the queue, unless
    /// the cap on the number of tiles has been reached.
    pub fn try_edge(&mut self, within_range: bool, found: Option<usize>) -> (added: Option<usize>)
        requires
            old(self)@.wf(),
            old(self)@.current is Some,
            old(self)@.tried < EDGES,
            found matches Some(j) ==> j < old(self)@.count(),
        ensures
            final(self)@.wf(),
            final(self)@.current == old(self)@.current,
            final(self)@.tried == old(self)@.tried + 1,
            ({
                let p = old(self)@.current->0 as int;
                final(self)@.in_range.subrange(0, old(self)@.count()) == old(self)@.in_range.update(
                    p,
                    old(self)@.in_range[p].push(within_range),
                )
            }),
            within_range && found is None && old(self)@.count() < MAX_TILES ==> {
                let p = old(self)@.current->0 as int;
                let n = old(self)@.count();
                &&& added == Some(n as usize)
                &&& final(self)@.rings == old(self)@.rings.push(
                    (old(self)@.rings[p] + 1) as u32,
                )
                &&& final(self)@.queue == old(self)@.queue.push(n as usize)
                &&& final(self)@.outcomes == old(self)@.outcomes.update(
                    p,
                    old(self)@.outcomes[p].push(Some(n)),
                ).push(Seq::empty())
                &&& final(self)@.parents == old(self)@.parents.push(p)
                &&& final(self)@.in_range.len() == n + 1
                &&& final(self)@.in_range[n] == Seq::<bool>::empty()
                &&& final(self)@.capped == old(self)@.capped
            },
            !(within_range && found is None && old(self)@.count() < MAX_TILES) ==> {
                let p = old(self)@.current->0 as int;
                let seen = if within_range && found is Some {
                    Some(found->0 as int)
                } else {
                    None
                };
                &&& added is None
                &&& final(self)@.rings == old(self)@.rings
                &&& final(self)@.queue == old(self)@.queue
                &&& final(self)@.outcomes == old(self)@.outcomes.update(
                    p,
                    old(self)@.outcomes[p].push(seen),
                )
                &&& final(self)@.parents == old(self)@.parents
                &&& final(self)@.in_range.len() == old(self)@.count()
                &&& final(self)@.capped == (old(self)@.capped || (within_range && found is None))
            },
    {
        let ghost pre = self@;
        let parent = match self.current {
            Some(p) => p,
            None => 0,
        };
        self.tried = self.tried + 1;
        if within_range && found.is_none() && self.rings.len() < MAX_TILES {
            let new_idx = self.rings.len();
            let ring = self.rings[parent] + 1;
            self.rings.push(ring);
            self.queue.push_back(new_idx);
            let ghost outcome = Some(new_idx as int);
            proof {
                self.outcomes@ = self.outcomes@.update(
                    parent as int,
                    self.outcomes@[parent as int].push(outcome),
                ).push(Seq::empty());
                self.in_range@ = self.in_range@.update(
                    parent as int,
                    self.in_range@[parent as int].push(within_range),
                ).push(Seq::empty());
                self.parents@ = self.parents@.push(parent as int);
            }
            proof {
                let post = self@;
                assert forall|t: int| 0 <= t < post.queue.len() implies #[trigger] post.queue[t]
                    == post.head() + t by {
                    if t < pre.queue.len() {
                        assert(post.queue[t] == pre.queue[t]);
                    }
                }
                assert forall|a: int, b: int| 0 <= a <= b < post.count() implies #[trigger] post.rings[a]
                    <= #[trigger] post.rings[b] by {
                    if b == pre.count() {
                        if a < pre.count() {
                            assert(pre.rings[a] <= pre.rings[pre.count() - 1]);
                        }
                    } else {
                        assert(pre.rings[a] <= pre.rings[b]);
                    }
                }
                assert forall|a: int| 0 <= a < post.count() - 1 implies #[trigger] post.rings[a + 1]
                    <= post.rings[a] + 1 by {
                    if a + 1 == pre.count() {
                        assert(pre.rings[parent as int] <= pre.rings[a]);
                    } else {
                        assert(post.rings[a + 1] == pre.rings[a + 1]);
                    }
                }
                assert forall|a: int| 0 < a < post.count() implies 1 <= #[trigger] post.rings[a]
                    <= a by {
                    if a == pre.count() {
                        if parent > 0 {
                            assert(pre.rings[parent as int] <= parent);
                        }
                    } else {
                        assert(post.rings[a] == pre.rings[a]);
                    }
                }
                if post.head() < pre.count() {
                    assert(pre.rings[parent as int] <= pre.rings[post.head()]);
                }
                assert(post.wf_layers());
                assert(post.rings.subrange(0, pre.count()) =~= pre.rings);
                lemma_record_outcome(pre, post, outcome, within_range);
                assert(post.in_range.subrange(0, pre.count()) =~= pre.in_range.update(
                    parent as int,
                    pre.in_range[parent as int].push(within_range),
                ));
            }
            Some(new_idx)
        } else {
            let ghost outcome = if within_range && found.is_some() {
                Some(found->0 as int)
            } else {
                None
            };
            proof {
                self.outcomes@ = self.outcomes@.update(
                    parent as int,
                    self.outcomes@[parent as int].push(outcome),
                );
                self.in_range@ = self.in_range@.update(
                    parent as int,
                    self.in_range@[parent as int].push(within_range),
                );
                if within_range && found.is_none() {
                    self.capped@ = true;
                }
                let post = self@;
                assert(post.rings == pre.rings);
                assert(post.wf_layers());
                if outcome is Some {
                    assert(pre.rings[found->0 as int] <= pre.rings[pre.count() - 1]);
                }
                assert(post.rings.subrange(0, pre.count()) =~= pre.rings);
                lemma_record_outcome(pre, post, outcome, within_range);
                assert(post.in_range.subrange(0, pre.count()) =~= post.in_range);
            }
            None
        }
    }
}

/// Recording one edge outcome for the tile being expanded keeps the edge
/// bookkeeping sound, whether it added a tile, found a known one, lay out of
/// range, or was left out at the cap.
proof fn lemma_record_outcome(
    pre: DiscoveryState,
    post: DiscoveryState,
    outcome: Option<int>,
    within: bool,
)
    requires
        pre.wf(),
        post.wf_layers(),
        pre.current is Some,
        pre.tried < EDGES,
        post.current == pre.current,
        post.tried == pre.tried + 1,
        post.head() == pre.head(),
        post.rings.subrange(0, pre.count()) == pre.rings,
        !within ==> outcome is None,
        post.capped == (pre.capped || (within && outcome is None)),
        within && outcome is None ==> pre.count() >= MAX_TILES,
        outcome matches Some(j) ==> 0 <= j < post.count() && post.rings[j] <= post.rings[
            pre.current->0 as int] + 1,
        post.count() == pre.count() ==> {
            &&& post.outcomes == pre.outcomes.update(
                pre.current->0 as int,
                pre.outcomes[pre.current->0 as int].push(outcome),
            )
            &&& post.in_range == pre.in_range.update(
                pre.current->0 as int,
                pre.in_range[pre.current->0 as int].push(within),
            )
            &&& post.parents == pre.parents
        },
        post.count() == pre.count() + 1 ==> {
            &&& outcome == Some(pre.count())
            &&& post.outcomes == pre.outcomes.update(
                pre.current->0 as int,
                pre.outcomes[pre.current->0 as int].push(outcome),
            ).push(Seq::empty())
            &&& post.in_range == pre.in_range.update(
                pre.current->0 as int,
                pre.in_range[pre.current->0 as int].push(within),
            ).push(Seq::empty())
            &&& post.parents == pre.parents.push(pre.current->0 as int)
            &&& post.rings[pre.count()] == post.rings[pre.current->0 as int] + 1
        },
        post.count() == pre.count() || post.count() == pre.count() + 1,
    ensures
        post.wf(),
{
    let p = pre.current->0 as int;
    assert(0 <= p < pre.count());
    assert forall|i: int| 0 <= i < pre.count() implies #[trigger] post.rings[i] == pre.rings[i] by {
        assert(post.rings.subrange(0, pre.count())[i] == post.rings[i]);
    }
    assert forall|i: int, k: int| 0 <= i < pre.count() && 0 <= k < pre.outcomes[i].len() implies
        #[trigger] post.outcomes[i][k] == pre.outcomes[i][k] by {
        if i == p {
            assert(post.outcomes[i] == pre.outcomes[i].push(outcome));
        }
    }
    assert forall|i: int, k: int| 0 <= i < pre.count() && 0 <= k < pre.in_range[i].len() implies
        #[trigger] post.in_range[i][k] == pre.in_range[i][k] by {
        if i == p {
            assert(post.in_range[i] == pre.in_range[i].push(within));
        }
    }
    assert(post.outcomes[p] == pre.outcomes[p].push(outcome));
    assert(post.in_range[p] == pre.in_range[p].push(within));
    assert forall|i: int| 0 <= i < post.count() implies (#[trigger] post.outcomes[i]).len()
        <= EDGES by {
        if i < pre.count() && i != p {
            assert(post.outcomes[i] == pre.outcomes[i]);
        }
    }
    assert forall|i: int| 0 <= i < post.count() implies (#[trigger] post.in_range[i]).len()
        == post.outcomes[i].len() by {
        if i < pre.count() && i != p {
            assert(post.outcomes[i] == pre.outcomes[i]);
            assert(post.in_range[i] == pre.in_range[i]);
        }
    }
    assert forall|i: int| post.head() <= i < post.count() implies (
    #[trigger] post.outcomes[i]).len() == 0 by {
        if i < pre.count() {
            assert(post.outcomes[i] == pre.outcomes[i]);
        }
    }
    assert forall|i: int, k: int|
        0 <= i < post.count() && 0 <= k < post.in_range[i].len() && !(
        #[trigger] post.in_range[i][k]) implies post.outcomes[i][k] is None by {
        if i < pre.count() && k < pre.in_range[i].len() {
            assert(pre.in_range[i][k] == post.in_range[i][k]);
        }
    }
    if !post.capped {
        assert forall|i: int, k: int|
            0 <= i < post.count() && 0 <= k < post.in_range[i].len() && (
            #[trigger] post.in_range[i][k]) implies post.outcomes[i][k] is Some by {
            if i < pre.count() && k < pre.in_range[i].len() {
                assert(pre.in_range[i][k] == post.in_range[i][k]);
            }
        }
    }
    assert forall|i: int, k: int|
        0 <= i < post.count() && 0 <= k < post.outcomes[i].len() && (
        #[trigger] post.outcomes[i][k]) is Some implies {
        &&& 0 <= post.outcomes[i][k]->0 < post.count()
        &&& post.rings[post.outcomes[i][k]->0] <= post.rings[i] + 1
    } by {
        if i < pre.count() {
            if k < pre.outcomes[i].len() {
                assert(post.outcomes[i][k] == pre.outcomes[i][k]);
                let j = pre.outcomes[i][k]->0;
                assert(pre.rings[j] <= pre.rings[i] + 1);
            } else {
                assert(i == p && k == pre.outcomes[p].len());
            }
        }
    }
    assert forall|i: int| 0 < i < post.count() implies {
        &&& 0 <= #[trigger] post.parents[i] < i
        &&& post.rings[i] == post.rings[post.parents[i]] + 1
        &&& post.step(post.parents[i], i)
    } by {
        if i < pre.count() {
            assert(post.parents[i] == pre.parents[i]);
            let a = pre.parents[i];
            assert(pre.step(a, i));
            let k = choose|k: int| 0 <= k < pre.outcomes[a].len() && #[trigger] pre.outcomes[a][k] == Some(i);
            assert(post.outcomes[a][k] == Some(i));
        } else {
            assert(post.parents[i] == p);
            assert(post.outcomes[p][pre.tried as int] == Some(i));
        }
    }
    if !post.capped {
        assert forall|i: int|
            0 <= i < post.head() && !(post.current == Some(i as usize)) implies (
        #[trigger] post.outcomes[i]).len() == EDGES by {
            assert(post.outcomes[i] == pre.outcomes[i]);
        }
    }
}

/// The safety cap bounds the tile count: a discovery never holds more than
/// `MAX_TILES` tiles.
pub proof fn lemma_tile_count_capped(d: DiscoveryState)
    requires
        d.wf(),
    ensures
        d.count() <= MAX_TILES,
        d.count() <= 4000,
{
}

/// Discovery is breadth-first: a tile found later is never in an earlier
/// ring, and the origin is the only tile in ring 0.
pub proof fn lemma_breadth_first(d: DiscoveryState, a: int, b: int)
    requires
        d.wf(),
        0 <= a <= b < d.count(),
    ensures
        d.rings[a] <= d.rings[b],
        d.rings[b] <= d.rings[a] + (b - a),
        b > 0 ==> d.rings[b] > 0,
    decreases b - a,
{
    if a < b {
        lemma_breadth_first(d, a, b - 1);
        assert(d.rings[(b - 1) + 1] <= d.rings[b - 1] + 1);
    }
}

/// The player spawns on the origin tile, which is the only tile of ring 0
/// and carries no pillar.
pub proof fn lemma_origin_tile_has_no_pillar(d: DiscoveryState)
    requires
        d.wf(),
    ensures
        !spec_has_pillar(d.rings[0]),
        forall|i: int| 0 < i < d.count() ==> #[trigger] d.rings[i] != 0,
{
}

/// Every walk of discovered steps from the origin tile to tile `w.last()`
/// takes at least as many steps as that tile's ring.
pub proof fn lemma_walk_bounds_ring(d: DiscoveryState, w: Seq<int>)
    requires
        d.wf(),
        d.is_walk(w),
    ensures
        0 <= w.last() < d.count(),
        d.rings[w.last()] <= w.len() - 1,
    decreases w.len(),
{
    if w.len() > 1 {
        let v = w.drop_last();
        assert(d.is_walk(v)) by {
            assert forall|t: int| 0 <= t < v.len() - 1 implies #[trigger] d.step(v[t], v[t + 1]) by {
                assert(d.step(w[t], w[t + 1]));
            }
        }
        lemma_walk_bounds_ring(d, v);
        let a = w[w.len() - 2];
        let b = w.last();
        assert(d.step(w[w.len() - 2], w[(w.len() - 2) + 1]));
        let k = choose|k: int| 0 <= k < d.outcomes[a].len() && #[trigger] d.outcomes[a][k] == Some(b);
        assert(d.outcomes[a][k] is Some);
    }
}

/// Following the parents from tile `i` back to the origin gives a walk of
/// discovered steps that takes exactly as many steps as the ring of `i`.
pub proof fn lemma_parent_walk(d: DiscoveryState, i: int)
    requires
        d.wf(),
        0 <= i < d.count(),
    ensures
        d.is_walk(d.parent_walk(i)),
        d.parent_walk(i).last() == i,
        d.parent_walk(i).len() == d.rings[i] + 1,
    decreases i,
{
    if i > 0 {
        let a = d.parents[i];
        lemma_parent_walk(d, a);
        let v = d.parent_walk(a);
        let w = d.parent_walk(i);
        assert(w == v.push(i));
        assert forall|t: int| 0 <= t < w.len() - 1 implies #[trigger] d.step(w[t], w[t + 1]) by {
            if t < v.len() - 1 {
                assert(w[t] == v[t] && w[t + 1] == v[t + 1]);
                assert(d.step(v[t], v[t + 1]));
            } else {
                assert(w[t] == a && w[t + 1] == i);
            }
        }
    }
}

/// The ring of a tile is its breadth-first depth: the least number of
/// discovered steps from the origin tile to it. The parent walk reaches it in
/// exactly that many steps, and no walk `w` ending at it is shorter.
pub proof fn lemma_ring_is_distance(d: DiscoveryState, i: int, w: Seq<int>)
    requires
        d.wf(),
        0 <= i < d.count(),
        d.is_walk(w),
        w.last() == i,
    ensures
        d.is_walk(d.parent_walk(i)),
        d.parent_walk(i).last() == i,
        d.parent_walk(i).len() - 1 == d.rings[i],
        d.rings[i] <= w.len() - 1,
{
    lemma_parent_walk(d, i);
    lemma_walk_bounds_ring(d, w);
}

/// Discovery is complete when it ends below the cap: once the queue has run
/// dry with no tile being expanded, every known tile has had all its edges
/// tried, and every edge whose neighbour lies within range led to a known
/// tile, while the others led nowhere.
pub proof fn lemma_discovery_complete(d: DiscoveryState)
    requires
        d.wf(),
        d.queue.len() == 0,
        d.current is None,
        d.count() < MAX_TILES,
    ensures
        d.all_edges_tried(),
        forall|i: int, k: int|
            0 <= i < d.count() && 0 <= k < EDGES && (#[trigger] d.outcomes[i][k]) is Some
                ==> 0 <= d.outcomes[i][k]->0 < d.count(),
        forall|i: int, k: int|
            0 <= i < d.count() && 0 <= k < EDGES ==> (#[trigger] d.in_range[i][k] <==> d.outcomes[i][k]
                is Some),
{
    assert forall|i: int| 0 <= i < d.count() implies (#[trigger] d.outcomes[i]).len() == EDGES by {
        assert(!(d.current == Some(i as usize)));
    }
}

} // verus!

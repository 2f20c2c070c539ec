//! The board: territories, their owners, reinforcement counts and
//! connections, and the random generation of a valid initial board.
//!
//! Generation places each territory at a random point of a square grid,
//! connects every pair closer than a proximity threshold, and then repairs
//! connectivity: every territory that lists no earlier territory is
//! connected to the nearest earlier one, so that the finished board is one
//! connected, symmetric graph.

use vstd::prelude::*;
use crate::graph::{adj, connected_from, reaches, symmetric};
use crate::graph::{lemma_reaches_monotone, lemma_reaches_self, lemma_reaches_step};
use crate::rng::{gen_range, random_seed, rng_from_seed};

verus! {

broadcast use vstd::seq_lib::lemma_seq_contains_after_push;

/// Largest reinforcement count a territory can hold.
pub const MAX_STACK: u32 = 8;

/// Side of the square in which generated territories are placed.
pub const GRID: usize = 600;

/// Squared proximity threshold: territories closer than 200 grid units are
/// connected, and only squared distances are ever compared.
pub const NEAR_SQ: usize = 40000;

/// Generation was asked for parameters that admit no valid board.
#[derive(Clone, Copy, Debug, PartialEq, Eq, Structural)]
pub enum GenerationError {
    /// Fewer than two territories leave nothing to fight over.
    TooFewTeritories,
    /// At least one player must exist to own the territories.
    TooFewPlayers,
}

/// A node of the board graph.
#[derive(Debug)]
pub struct Teritory {
    /// The player holding this territory.
    pub owner: usize,
    /// Reinforcement count: combat strength, at most [`MAX_STACK`].
    pub dice: u32,
    /// Indices of the adjacent territories.
    pub connections: Vec<usize>,
}

/// The full set of territories; indices are stable identifiers.
#[derive(Debug)]
pub struct Board {
    pub teritories: Vec<Teritory>,
}

/// Squared euclidean distance between two placed points.
pub open spec fn sq_dist(x1: int, y1: int, x2: int, y2: int) -> int {
    (x1 - x2) * (x1 - x2) + (y1 - y2) * (y1 - y2)
}

/// The proximity rule: the points placed for territories `i` and `j` are
/// closer than the threshold.
pub open spec fn near(xs: Seq<usize>, ys: Seq<usize>, i: int, j: int) -> bool {
    sq_dist(xs[i] as int, ys[i] as int, xs[j] as int, ys[j] as int) < NEAR_SQ as int
}

/// The adjacency lists alone, the shape [`crate::graph`] speaks about.
pub open spec fn graph_of(ts: Seq<Teritory>) -> Seq<Seq<usize>> {
    ts.map_values(|t: Teritory| t.connections@)
}

/// Every listed connection of territory `i` names another territory of a
/// board of `n`.
pub open spec fn row_ok(s: Seq<usize>, i: int, n: int) -> bool {
    forall|k: int| 0 <= k < s.len() ==> (#[trigger] s[k] as int) < n && s[k] as int != i
}

/// No territory is listed twice.
pub open spec fn distinct_row(s: Seq<usize>) -> bool {
    forall|k1: int, k2: int| 0 <= k1 < k2 < s.len() ==> s[k1] != s[k2]
}

/// All connection lists are valid and duplicate-free.
pub open spec fn rows_ok(ts: Seq<Teritory>, n: int) -> bool {
    forall|a: int|
        0 <= a < ts.len() ==> row_ok((#[trigger] ts[a]).connections@, a, n) && distinct_row(
            ts[a].connections@,
        )
}

impl Teritory {
    /// Structural validity of the territory at index `i` on a board of `n`
    /// territories and `players` players: the owner is a valid player, the
    /// reinforcement count is within the cap, and every connection names
    /// another existing territory, none twice.
    pub open spec fn wf_at(self, i: int, n: int, players: int) -> bool {
        &&& (self.owner as int) < players
        &&& self.dice <= MAX_STACK
        &&& row_ok(self.connections@, i, n)
        &&& distinct_row(self.connections@)
    }
}

impl Board {
    /// The adjacency lists of this board.
    pub open spec fn graph(self) -> Seq<Seq<usize>> {
        graph_of(self.teritories@)
    }

    /// Every territory is structurally valid for `players` players.
    pub open spec fn wf_for(self, players: int) -> bool {
        &&& self.teritories@.len() >= 1
        &&& forall|i: int|
            0 <= i < self.teritories@.len() ==> (#[trigger] self.teritories@[i]).wf_at(
                i,
                self.teritories@.len() as int,
                players,
            )
    }

    /// What generation guarantees beyond structural validity: every
    /// territory starts manned, the connection relation is symmetric, and
    /// the board is one connected graph.
    pub open spec fn generated_wf(self, players: int) -> bool {
        &&& self.wf_for(players)
        &&& forall|i: int|
            0 <= i < self.teritories@.len() ==> (#[trigger] self.teritories@[i]).dice >= 1
        &&& symmetric(self.graph())
        &&& connected_from(self.graph(), 0)
    }
}

/// Swapping the two points leaves their squared distance unchanged.
proof fn lemma_sq_dist_sym(x1: int, y1: int, x2: int, y2: int)
    ensures
        sq_dist(x1, y1, x2, y2) == sq_dist(x2, y2, x1, y1),
{
    assert((x1 - x2) * (x1 - x2) == (x2 - x1) * (x2 - x1)) by (nonlinear_arith);
    assert((y1 - y2) * (y1 - y2) == (y2 - y1) * (y2 - y1)) by (nonlinear_arith);
}

/// Squared distance between two placed points.
fn sqdist(x1: usize, y1: usize, x2: usize, y2: usize) -> (d: usize)
    requires
        x1 < GRID,
        y1 < GRID,
        x2 < GRID,
        y2 < GRID,
    ensures
        d == sq_dist(x1 as int, y1 as int, x2 as int, y2 as int),
{
    let dx = if x1 >= x2 {
        x1 - x2
    } else {
        x2 - x1
    };
    let dy = if y1 >= y2 {
        y1 - y2
    } else {
        y2 - y1
    };
    proof {
        assert(dx * dx < GRID * GRID && dy * dy < GRID * GRID) by (nonlinear_arith)
            requires
                dx < GRID,
                dy < GRID,
        ;
        assert(dx * dx == (x1 - x2) * (x1 - x2) && dy * dy == (y1 - y2) * (y1 - y2))
            by (nonlinear_arith)
            requires
                dx == if x1 >= x2 { x1 - x2 } else { x2 - x1 },
                dy == if y1 >= y2 { y1 - y2 } else { y2 - y1 },
        ;
    }
    dx * dx + dy * dy
}

/// Connects every pair of territories whose points lie closer than the
/// proximity threshold; the listing is exact, so it is symmetric.
fn connect_proximity(ts: &mut Vec<Teritory>, xs: &Vec<usize>, ys: &Vec<usize>)
    requires
        old(ts)@.len() == xs@.len(),
        old(ts)@.len() == ys@.len(),
        forall|k: int| 0 <= k < xs@.len() ==> #[trigger] xs@[k] < GRID,
        forall|k: int| 0 <= k < ys@.len() ==> #[trigger] ys@[k] < GRID,
        forall|a: int| 0 <= a < old(ts)@.len() ==> (#[trigger] old(ts)@[a]).connections@.len() == 0,
    ensures
        final(ts)@.len() == old(ts)@.len(),
        forall|a: int|
            0 <= a < old(ts)@.len() ==> (#[trigger] final(ts)@[a]).owner == old(ts)@[a].owner
                && final(ts)@[a].dice == old(ts)@[a].dice,
        forall|a: int, b: int|
            0 <= a < old(ts)@.len() && 0 <= b < old(ts)@.len() ==> ((#[trigger] final(ts)@[a].connections@.contains(b as usize)) <==> (a != b && near(xs@, ys@, a, b))),
        rows_ok(final(ts)@, old(ts)@.len() as int),
{
    let n = ts.len();
    let mut i: usize = 0;
    while i < n
        invariant
            i <= n,
            ts@.len() == n,
            forall|a: int|
                0 <= a < n ==> (#[trigger] ts@[a]).owner == old(ts)@[a].owner && ts@[a].dice == old(
                    ts,
                )@[a].dice,
            forall|a: int, b: int|
                0 <= a < i && 0 <= b < n ==> ((#[trigger] ts@[a].connections@.contains(b as usize))
                    <==> (a != b && near(xs@, ys@, a, b))),
            forall|a: int|
                0 <= a < i ==> row_ok((#[trigger] ts@[a]).connections@, a, n as int)
                    && distinct_row(ts@[a].connections@),
            forall|a: int| i <= a < n ==> (#[trigger] ts@[a]).connections@.len() == 0,
        decreases n - i,
    {
        let ghost snap = ts@;
        let mut j: usize = 0;
        while j < n
            invariant
                j <= n,
                i < n,
                ts@.len() == n,
                forall|a: int| 0 <= a < n && a != i ==> #[trigger] ts@[a] == snap[a],
                ts@[i as int].owner == snap[i as int].owner,
                ts@[i as int].dice == snap[i as int].dice,
                forall|b: int|
                    0 <= b < n ==> ((#[trigger] ts@[i as int].connections@.contains(b as usize))
                        <==> (b < j && b != i && near(xs@, ys@, i as int, b))),
                forall|k: int|
                    0 <= k < ts@[i as int].connections@.len() ==> (#[trigger] ts@[
                        i as int
                    ].connections@[k] as int) < j && ts@[i as int].connections@[k] as int != i,
                distinct_row(ts@[i as int].connections@),
            decreases n - j,
        {
            if j != i {
                let d = sqdist(xs[i], ys[i], xs[j], ys[j]);
                if d < NEAR_SQ {
                    let ghost row = ts@[i as int].connections@;
                    ts[i].connections.push(j);
                    proof {
                        assert forall|k1: int, k2: int|
                            0 <= k1 < k2 < ts@[i as int].connections@.len() implies ts@[
                            i as int
                        ].connections@[k1] != ts@[i as int].connections@[k2] by {
                            if k2 == row.len() {
                                assert((row[k1] as int) < j);
                            }
                        }
                    }
                }
            }
            j += 1;
        }
        i += 1;
    }
}

/// Symmetry of the proximity listing: the rule itself does not depend on
/// the order of the pair.
proof fn lemma_prox_symmetric(ts: Seq<Teritory>, xs: Seq<usize>, ys: Seq<usize>)
    requires
        forall|a: int, b: int|
            0 <= a < ts.len() && 0 <= b < ts.len() ==> ((#[trigger] ts[a].connections@.contains(
                b as usize,
            )) <==> (a != b && near(xs, ys, a, b))),
    ensures
        symmetric(graph_of(ts)),
{
    let g = graph_of(ts);
    assert forall|a: int, b: int|
        0 <= a < g.len() && 0 <= b < g.len() && #[trigger] adj(g, a, b) implies adj(g, b, a) by {
        assert(ts[a].connections@.contains(b as usize));
        lemma_sq_dist_sym(xs[a] as int, ys[a] as int, xs[b] as int, ys[b] as int);
        assert(ts[b].connections@.contains(a as usize));
    }
}

/// Finds the territory among `0..i` whose point lies nearest to that of
/// territory `i`; ties keep the lowest index.
fn nearest_earlier(xs: &Vec<usize>, ys: &Vec<usize>, i: usize) -> (best: usize)
    requires
        xs@.len() == ys@.len(),
        1 <= i < xs@.len(),
        forall|k: int| 0 <= k < xs@.len() ==> #[trigger] xs@[k] < GRID,
        forall|k: int| 0 <= k < ys@.len() ==> #[trigger] ys@[k] < GRID,
    ensures
        best < i,
{
    let mut best: usize = 0;
    let mut best_d = sqdist(xs[i], ys[i], xs[0], ys[0]);
    let mut j: usize = 1;
    while j < i
        invariant
            1 <= j <= i,
            best < i,
        decreases i - j,
    {
        let d = sqdist(xs[i], ys[i], xs[j], ys[j]);
        if d < best_d {
            best = j;
            best_d = d;
        }
        j += 1;
    }
    best
}

/// Repairs connectivity: every territory that lists no earlier one is
/// connected, both ways, to the nearest earlier territory. Ascending over
/// the indices this links every territory to territory 0.
fn repair_connectivity(ts: &mut Vec<Teritory>, xs: &Vec<usize>, ys: &Vec<usize>)
    requires
        old(ts)@.len() == xs@.len(),
        old(ts)@.len() == ys@.len(),
        old(ts)@.len() >= 1,
        forall|k: int| 0 <= k < xs@.len() ==> #[trigger] xs@[k] < GRID,
        forall|k: int| 0 <= k < ys@.len() ==> #[trigger] ys@[k] < GRID,
        rows_ok(old(ts)@, old(ts)@.len() as int),
        symmetric(graph_of(old(ts)@)),
    ensures
        final(ts)@.len() == old(ts)@.len(),
        forall|a: int|
            0 <= a < old(ts)@.len() ==> (#[trigger] final(ts)@[a]).owner == old(ts)@[a].owner
                && final(ts)@[a].dice == old(ts)@[a].dice,
        rows_ok(final(ts)@, old(ts)@.len() as int),
        symmetric(graph_of(final(ts)@)),
        connected_from(graph_of(final(ts)@), 0),
{
    let n = ts.len();
    proof {
        lemma_reaches_self(graph_of(ts@), 0);
    }
    let mut i: usize = 1;
    while i < n
        invariant
            1 <= i,
            i <= n,
            ts@.len() == n,
            forall|a: int|
                0 <= a < n ==> (#[trigger] ts@[a]).owner == old(ts)@[a].owner && ts@[a].dice == old(
                    ts,
                )@[a].dice,
            rows_ok(ts@, n as int),
            symmetric(graph_of(ts@)),
            forall|t: int| 0 <= t < i ==> reaches(graph_of(ts@), 0, t),
        decreases n - i,
    {
        // does territory i already list an earlier one?
        let row_len = ts[i].connections.len();
        let mut has_e = false;
        let mut kk: usize = 0;
        while kk < row_len
            invariant
                kk <= row_len,
                row_len == ts@[i as int].connections@.len(),
                has_e <==> exists|k: int|
                    0 <= k < kk && (#[trigger] ts@[i as int].connections@[k] as int) < i,
            decreases row_len - kk,
        {
            if ts[i].connections[kk] < i {
                has_e = true;
            }
            kk += 1;
        }
        if !has_e {
            let best = nearest_earlier(xs, ys, i);
            let ghost g1 = graph_of(ts@);
            let ghost pre = ts@;
            ts[i].connections.push(best);
            ts[best].connections.push(i);
            proof {
                let g2 = graph_of(ts@);
                let ii = i as int;
                let bb = best as int;
                assert(ts@[ii].connections@ == pre[ii].connections@.push(best));
                assert(ts@[bb].connections@ == pre[bb].connections@.push(i));
                assert(forall|a: int| 0 <= a < n && a != ii && a != bb ==> ts@[a] == pre[a]);
                // the new listing keeps every old adjacency
                assert forall|a: int, b: int| 0 <= a < n && #[trigger] adj(g1, a, b) implies adj(
                    g2,
                    a,
                    b,
                ) by {
                    assert(g1[a] == pre[a].connections@);
                    assert(g2[a] == ts@[a].connections@);
                }
                // old reachability carries over
                assert forall|t: int| 0 <= t < ii implies reaches(g2, 0, t) by {
                    lemma_reaches_monotone(g1, g2, 0, t);
                }
                // the added edge makes territory i reachable
                assert(g2[bb].contains(i));
                assert(adj(g2, bb, ii));
                lemma_reaches_step(g2, 0, bb, ii);
                // both rows stay valid and duplicate-free
                assert(!pre[ii].connections@.contains(best)) by {
                    if pre[ii].connections@.contains(best) {
                        let k = choose|k: int|
                            0 <= k < pre[ii].connections@.len() && pre[ii].connections@[k] == best;
                        assert((pre[ii].connections@[k] as int) < ii);
                    }
                }
                assert(!pre[bb].connections@.contains(i)) by {
                    if pre[bb].connections@.contains(i) {
                        assert(adj(g1, bb, ii));
                        assert(adj(g1, ii, bb));
                        let k = choose|k: int|
                            0 <= k < pre[ii].connections@.len() && pre[ii].connections@[k]
                                == best;
                        assert((pre[ii].connections@[k] as int) < ii);
                    }
                }
                assert forall|a: int|
                    0 <= a < n implies row_ok((#[trigger] ts@[a]).connections@, a, n as int)
                    && distinct_row(ts@[a].connections@) by {
                    lemma_row_push_ok(pre[ii].connections@, best, ii, n as int);
                    lemma_row_push_ok(pre[bb].connections@, i, bb, n as int);
                }
                // symmetry: only the pair (i, best) was added, both ways
                assert forall|a: int, b: int|
                    0 <= a < n && 0 <= b < n && #[trigger] adj(g2, a, b) implies adj(g2, b, a) by {
                    if a == ii && b == bb {
                    } else if a == bb && b == ii {
                    } else {
                        assert(adj(g1, a, b));
                        assert(adj(g1, b, a));
                    }
                }
            }
        } else {
            proof {
                let g = graph_of(ts@);
                let ii = i as int;
                let row = ts@[ii].connections@;
                let k = choose|k: int| 0 <= k < row.len() && (#[trigger] row[k] as int) < i;
                let jj = row[k] as int;
                assert(row.contains(row[k]));
                assert(adj(g, ii, jj));
                assert(0 <= jj < n);
                assert(adj(g, jj, ii));
                lemma_reaches_step(g, 0, jj, ii);
            }
        }
        i += 1;
    }
}

/// A duplicate-free connection list stays so when a fresh territory is
/// appended.
proof fn lemma_row_push_ok(s: Seq<usize>, v: usize, i: int, n: int)
    requires
        row_ok(s, i, n),
        distinct_row(s),
        !s.contains(v),
        (v as int) < n,
        v as int != i,
    ensures
        row_ok(s.push(v), i, n),
        distinct_row(s.push(v)),
{
    assert forall|k1: int, k2: int| 0 <= k1 < k2 < s.push(v).len() implies s.push(v)[k1] != s.push(
        v,
    )[k2] by {
        if k2 == s.len() {
            assert(s.contains(s[k1]));
        }
    }
}

impl Board {
    /// Produces a random initial board: `territory_count` territories placed
    /// on the grid, each owned by a random player below `player_count` and
    /// holding a random reinforcement count in `1..=MAX_STACK`, connected by
    /// proximity and repaired into one connected graph. The same seed yields
    /// the same board; with no seed the system's entropy decides.
    pub fn generate(territory_count: usize, player_count: usize, seed: Option<u64>) -> (r: Result<
        Board,
        GenerationError,
    >)
        ensures
            r is Ok <==> (territory_count >= 2 && player_count >= 1),
            territory_count < 2 ==> r == Result::<Board, GenerationError>::Err(
                GenerationError::TooFewTeritories,
            ),
            territory_count >= 2 && player_count < 1 ==> r == Result::<Board, GenerationError>::Err(
                GenerationError::TooFewPlayers,
            ),
            r matches Ok(b) ==> b.teritories@.len() == territory_count && b.generated_wf(
                player_count as int,
            ),
    {
        if territory_count < 2 {
            return Result::Err(GenerationError::TooFewTeritories);
        }
        if player_count < 1 {
            return Result::Err(GenerationError::TooFewPlayers);
        }
        let n = territory_count;
        let seed_value: u64 = match seed {
            Option::Some(s) => s,
            Option::None => random_seed(),
        };
        let mut rng = rng_from_seed(seed_value);

        // place the territories and draw their owners and strengths
        let mut xs: Vec<usize> = Vec::new();
        let mut ys: Vec<usize> = Vec::new();
        let mut teritories: Vec<Teritory> = Vec::new();
        let mut i: usize = 0;
        while i < n
            invariant
                i <= n,
                xs@.len() == i,
                ys@.len() == i,
                teritories@.len() == i,
                forall|k: int| 0 <= k < i ==> #[trigger] xs@[k] < GRID,
                forall|k: int| 0 <= k < i ==> #[trigger] ys@[k] < GRID,
                forall|k: int|
                    0 <= k < i ==> ((#[trigger] teritories@[k]).owner as int) < player_count
                        && 1 <= teritories@[k].dice <= MAX_STACK
                        && teritories@[k].connections@.len() == 0,
            decreases n - i,
        {
            xs.push(gen_range(&mut rng, 0, GRID));
            ys.push(gen_range(&mut rng, 0, GRID));
            let owner = gen_range(&mut rng, 0, player_count);
            let d = gen_range(&mut rng, 1, (MAX_STACK as usize) + 1);
            teritories.push(Teritory { owner, dice: d as u32, connections: Vec::new() });
            i += 1;
        }
        connect_proximity(&mut teritories, &xs, &ys);
        proof {
            lemma_prox_symmetric(teritories@, xs@, ys@);
        }
        repair_connectivity(&mut teritories, &xs, &ys);
        Result::Ok(Board { teritories })
    }
}

} // verus!

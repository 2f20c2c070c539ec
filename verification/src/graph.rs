//! Reachability over adjacency lists, used to state and prove that a
//! generated board is a connected, symmetric graph.

use vstd::prelude::*;

verus! {

/// Territory `j` is listed among the connections of territory `i`.
pub open spec fn adj(g: Seq<Seq<usize>>, i: int, j: int) -> bool {
    g[i].contains(j as usize)
}

/// `t` can be reached from `src` along listed connections in at most `k` steps.
pub open spec fn reachable_within(g: Seq<Seq<usize>>, src: int, t: int, k: nat) -> bool
    decreases k,
{
    t == src || (k > 0 && exists|m: int|
        0 <= m < g.len() && #[trigger] adj(g, m, t) && reachable_within(g, src, m, (k - 1) as nat))
}

/// `t` can be reached from `src` in some number of steps.
pub open spec fn reaches(g: Seq<Seq<usize>>, src: int, t: int) -> bool {
    exists|k: nat| reachable_within(g, src, t, k)
}

/// Every territory can be reached from `src`.
pub open spec fn connected_from(g: Seq<Seq<usize>>, src: int) -> bool {
    forall|t: int| 0 <= t < g.len() ==> reaches(g, src, t)
}

/// The connection relation is symmetric: if `i` lists `j`, then `j` lists `i`.
pub open spec fn symmetric(g: Seq<Seq<usize>>) -> bool {
    forall|i: int, j: int|
        0 <= i < g.len() && 0 <= j < g.len() && #[trigger] adj(g, i, j) ==> adj(g, j, i)
}

/// A source reaches itself.
pub proof fn lemma_reaches_self(g: Seq<Seq<usize>>, src: int)
    ensures
        reaches(g, src, src),
{
    assert(reachable_within(g, src, src, 0));
}

/// One listed connection extends a reachable path by a step.
pub proof fn lemma_reaches_step(g: Seq<Seq<usize>>, src: int, m: int, t: int)
    requires
        reaches(g, src, m),
        0 <= m < g.len(),
        adj(g, m, t),
    ensures
        reaches(g, src, t),
{
    let k = choose|k: nat| reachable_within(g, src, m, k);
    assert(reachable_within(g, src, t, k + 1));
}

/// Adding connections never removes a path: if `g2` keeps every adjacency of
/// `g1` over the same territories, whatever was reachable stays reachable.
pub proof fn lemma_reachable_within_monotone(
    g1: Seq<Seq<usize>>,
    g2: Seq<Seq<usize>>,
    src: int,
    t: int,
    k: nat,
)
    requires
        g2.len() == g1.len(),
        forall|a: int, b: int| 0 <= a < g1.len() && #[trigger] adj(g1, a, b) ==> adj(g2, a, b),
        reachable_within(g1, src, t, k),
    ensures
        reachable_within(g2, src, t, k),
    decreases k,
{
    if t != src {
        let m = choose|m: int|
            0 <= m < g1.len() && #[trigger] adj(g1, m, t) && reachable_within(
                g1,
                src,
                m,
                (k - 1) as nat,
            );
        lemma_reachable_within_monotone(g1, g2, src, m, (k - 1) as nat);
        assert(adj(g2, m, t));
    }
}

/// The same, for reachability in any number of steps.
pub proof fn lemma_reaches_monotone(g1: Seq<Seq<usize>>, g2: Seq<Seq<usize>>, src: int, t: int)
    requires
        g2.len() == g1.len(),
        forall|a: int, b: int| 0 <= a < g1.len() && #[trigger] adj(g1, a, b) ==> adj(g2, a, b),
        reaches(g1, src, t),
    ensures
        reaches(g2, src, t),
{
    let k = choose|k: nat| reachable_within(g1, src, t, k);
    lemma_reachable_within_monotone(g1, g2, src, t, k);
}

} // verus!

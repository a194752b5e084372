use vstd::prelude::*;
use crate::TileType;
use crate::is_traversable;
use crate::map::{adjacent, TileMap};

verus! {

/// The start tile can be walked to from itself in zero steps; any other
/// tile can be walked to in at most `n` steps when it is traversable and
/// some orthogonal neighbour can be walked to in at most `n - 1` steps.
pub open spec fn reachable_in(
    tiles: Seq<TileType>, width: int, height: int, start: int, t: int, n: nat,
) -> bool
    decreases n,
{
    if t == start {
        true
    } else if n == 0 {
        false
    } else {
        &&& 0 <= t < tiles.len()
        &&& is_traversable(tiles[t])
        &&& exists|u: int|
            adjacent(width, height, u, t)
            && reachable_in(tiles, width, height, start, u, (n - 1) as nat)
    }
}

/// Walkable from the start at all.  A shortest route never revisits a
/// cell, so as many steps as there are tiles lose nothing.
pub open spec fn reachable(
    tiles: Seq<TileType>, width: int, height: int, start: int, t: int,
) -> bool {
    reachable_in(tiles, width, height, start, t, tiles.len())
}

/// `n` is the graph distance of `t` from the start: reachable in `n`
/// steps and, unless `n` is zero, in no fewer.
pub open spec fn is_dist(
    tiles: Seq<TileType>, width: int, height: int, start: int, t: int, n: nat,
) -> bool {
    &&& reachable_in(tiles, width, height, start, t, n)
    &&& (n == 0 || !reachable_in(tiles, width, height, start, t, (n - 1) as nat))
}

/// The graph distance of `t` from the start; meaningful once some
/// `is_dist` witness exists.
pub open spec fn dist_of(
    tiles: Seq<TileType>, width: int, height: int, start: int, t: int,
) -> nat {
    choose|n: nat| is_dist(tiles, width, height, start, t, n)
}

/// Reachability within a step budget survives a larger budget.
pub proof fn lemma_reachable_in_mono(
    tiles: Seq<TileType>, width: int, height: int, start: int, t: int, n: nat, m: nat,
)
    requires
        reachable_in(tiles, width, height, start, t, n),
        n <= m,
    ensures
        reachable_in(tiles, width, height, start, t, m),
    decreases n,
{
    if t != start && n > 0 {
        let u = choose|u: int|
            adjacent(width, height, u, t)
            && reachable_in(tiles, width, height, start, u, (n - 1) as nat);
        lemma_reachable_in_mono(tiles, width, height, start, u, (n - 1) as nat, (m - 1) as nat);
    }
}

/// A tile reachable within `n` steps has a graph distance, and that
/// distance is at most `n`.
pub proof fn lemma_reachable_has_dist(
    tiles: Seq<TileType>, width: int, height: int, start: int, t: int, n: nat,
)
    requires
        reachable_in(tiles, width, height, start, t, n),
    ensures
        is_dist(tiles, width, height, start, t, dist_of(tiles, width, height, start, t)),
        dist_of(tiles, width, height, start, t) <= n,
    decreases n,
{
    if n == 0 {
        assert(is_dist(tiles, width, height, start, t, 0));
    } else if reachable_in(tiles, width, height, start, t, (n - 1) as nat) {
        lemma_reachable_has_dist(tiles, width, height, start, t, (n - 1) as nat);
    } else {
        assert(is_dist(tiles, width, height, start, t, n));
    }
    let d = dist_of(tiles, width, height, start, t);
    if d > n {
        lemma_reachable_in_mono(tiles, width, height, start, t, n, (d - 1) as nat);
    }
}

/// Graph distances are unique.
pub proof fn lemma_dist_unique(
    tiles: Seq<TileType>, width: int, height: int, start: int, t: int, n1: nat, n2: nat,
)
    requires
        is_dist(tiles, width, height, start, t, n1),
        is_dist(tiles, width, height, start, t, n2),
    ensures
        n1 == n2,
{
    if n1 < n2 {
        lemma_reachable_in_mono(tiles, width, height, start, t, n1, (n2 - 1) as nat);
    }
    if n2 < n1 {
        lemma_reachable_in_mono(tiles, width, height, start, t, n2, (n1 - 1) as nat);
    }
}

/// A distance witness pins down `dist_of`.
pub proof fn lemma_is_dist_dist_of(
    tiles: Seq<TileType>, width: int, height: int, start: int, t: int, n: nat,
)
    requires
        is_dist(tiles, width, height, start, t, n),
    ensures
        dist_of(tiles, width, height, start, t) == n,
{
    let d = dist_of(tiles, width, height, start, t);
    assert(is_dist(tiles, width, height, start, t, d));
    lemma_dist_unique(tiles, width, height, start, t, d, n);
}

/// One traversable step extends reachability by one.
pub proof fn lemma_step(
    tiles: Seq<TileType>, width: int, height: int, start: int, u: int, t: int, n: nat,
)
    requires
        reachable_in(tiles, width, height, start, u, n),
        adjacent(width, height, u, t),
        0 <= t < tiles.len(),
        is_traversable(tiles[t]),
    ensures
        reachable_in(tiles, width, height, start, t, (n + 1) as nat),
{
    if t != start {
        assert(adjacent(width, height, u, t)
            && reachable_in(tiles, width, height, start, u, n));
    }
}

/// A tile at distance `k + 1` has a neighbour at distance exactly `k`.
pub proof fn lemma_dist_predecessor(
    tiles: Seq<TileType>, width: int, height: int, start: int, t: int, k: nat,
)
    requires
        is_dist(tiles, width, height, start, t, (k + 1) as nat),
    ensures
        exists|u: int|
            adjacent(width, height, u, t)
            && is_dist(tiles, width, height, start, u, k),
{
    assert(t != start) by {
        if t == start {
            assert(reachable_in(tiles, width, height, start, t, k));
        }
    }
    let u = choose|u: int|
        adjacent(width, height, u, t)
        && reachable_in(tiles, width, height, start, u, k);
    lemma_reachable_has_dist(tiles, width, height, start, u, k);
    let m = dist_of(tiles, width, height, start, u);
    if m < k {
        lemma_step(tiles, width, height, start, u, t, m);
        lemma_reachable_in_mono(tiles, width, height, start, t, (m + 1) as nat, k);
        assert(false);
    }
    assert(adjacent(width, height, u, t) && is_dist(tiles, width, height, start, u, k));
}

/// Whether a tile can be walked on decides reachability: two tile
/// sequences whose walls agree cell by cell have the same reachable set
/// and the same distances.
pub proof fn lemma_reachable_in_congruent(
    t1: Seq<TileType>, t2: Seq<TileType>, width: int, height: int, start: int, t: int, n: nat,
)
    requires
        t1.len() == t2.len(),
        forall|i: int| 0 <= i < t1.len()
            ==> (is_traversable(t1[i]) <==> is_traversable(#[trigger] t2[i])),
    ensures
        reachable_in(t1, width, height, start, t, n)
            == reachable_in(t2, width, height, start, t, n),
    decreases n,
{
    if t != start && n > 0 {
        assert forall|u: int| adjacent(width, height, u, t) implies
            reachable_in(t1, width, height, start, u, (n - 1) as nat)
                == reachable_in(t2, width, height, start, u, (n - 1) as nat) by {
            lemma_reachable_in_congruent(t1, t2, width, height, start, u, (n - 1) as nat);
        }
    }
}

/// Single-source flood fill over the traversable-neighbour graph.
///
/// Returns one entry per tile: `usize::MAX` marks a tile that cannot be
/// walked to from `start`; every other entry is the exact graph
/// distance (edge count) of that tile from `start`.
#[verifier::loop_isolation(false)]
pub fn distances_from(map: &TileMap, start: usize) -> (dist: Vec<usize>)
    requires
        map.wf(),
        start < map.tiles@.len(),
    ensures
        dist@.len() == map.tiles@.len(),
        forall|t: int| 0 <= t < dist@.len() ==> (
            (dist@[t] != usize::MAX) <==> reachable(
                map.tiles@, map.width as int, map.height as int, start as int, t,
            )
        ),
        forall|t: int| 0 <= t < dist@.len() && dist@[t] != usize::MAX ==> is_dist(
            map.tiles@, map.width as int, map.height as int, start as int, t,
            dist@[t] as nat,
        ),
        dist@[start as int] == 0,
{
    let ghost tiles = map.tiles@;
    let ghost w = map.width as int;
    let ghost h = map.height as int;
    let ghost s = start as int;
    let n = map.tiles.len();
    let mut dist: Vec<usize> = Vec::new();
    let mut i: usize = 0;
    while i < n
        invariant
            i <= n,
            dist@.len() == i,
            forall|t: int| 0 <= t < i ==> dist@[t] == usize::MAX,
        decreases n - i,
    {
        dist.push(usize::MAX);
        i += 1;
    }
    dist[start] = 0;
    proof {
        assert(is_dist(tiles, w, h, s, s, 0));
    }
    let mut d: usize = 0;
    while d < n
        invariant
            d <= n,
            dist@.len() == n,
            forall|t: int| 0 <= t < n && dist@[t] != usize::MAX
                ==> dist@[t] <= d && is_dist(tiles, w, h, s, t, dist@[t] as nat),
            forall|t: int, k: nat| 0 <= t < n && k <= d && #[trigger] is_dist(tiles, w, h, s, t, k)
                ==> dist@[t] == k,
        decreases n - d,
    {
        let mut i: usize = 0;
        while i < n
            invariant
                i <= n,
                d < n,
                dist@.len() == n,
                forall|t: int| 0 <= t < n && dist@[t] != usize::MAX
                    ==> dist@[t] <= d + 1 && is_dist(tiles, w, h, s, t, dist@[t] as nat),
                forall|t: int, k: nat| 0 <= t < n && k <= d
                    && #[trigger] is_dist(tiles, w, h, s, t, k) ==> dist@[t] == k,
                forall|t: int, u: int|
                    0 <= t < n && 0 <= u < i && #[trigger] adjacent(w, h, u, t)
                    && dist@[u] == d && is_dist(tiles, w, h, s, t, (d + 1) as nat)
                    ==> dist@[t] != usize::MAX,
            decreases n - i,
        {
            if dist[i] == d {
                let nbrs = map.traversable_neighbors(i);
                let mut j: usize = 0;
                while j < nbrs.len()
                    invariant
                        j <= nbrs@.len(),
                        dist@.len() == n,
                        dist@[i as int] == d,
                        forall|q: int| #![auto] 0 <= q < nbrs@.len() ==> nbrs@[q] < n,
                        forall|t: int| #![trigger nbrs@.contains(t as usize)] 0 <= t < n ==> (
                            nbrs@.contains(t as usize) <==> (
                                adjacent(w, h, i as int, t) && is_traversable(tiles[t])
                            )
                        ),
                        forall|t: int| 0 <= t < n && dist@[t] != usize::MAX
                            ==> dist@[t] <= d + 1 && is_dist(tiles, w, h, s, t, dist@[t] as nat),
                        forall|t: int, k: nat| 0 <= t < n && k <= d
                            && #[trigger] is_dist(tiles, w, h, s, t, k) ==> dist@[t] == k,
                        forall|t: int, u: int|
                            0 <= t < n && 0 <= u < i && #[trigger] adjacent(w, h, u, t)
                            && dist@[u] == d && is_dist(tiles, w, h, s, t, (d + 1) as nat)
                            ==> dist@[t] != usize::MAX,
                        forall|q: int| 0 <= q < j ==> dist@[#[trigger] nbrs@[q] as int] != usize::MAX,
                    decreases nbrs@.len() - j,
                {
                    let nb = nbrs[j];
                    if dist[nb] == usize::MAX {
                        proof {
                            let ghost tnb = nb as int;
                            assert(nbrs@.contains(nb)) by {
                                assert(nbrs@[j as int] == nb);
                            }
                            assert(tnb as usize == nb);
                            assert(nbrs@.contains(tnb as usize));
                            assert(adjacent(w, h, i as int, nb as int)
                                && is_traversable(tiles[nb as int]));
                            assert(is_dist(tiles, w, h, s, i as int, d as nat));
                            lemma_step(tiles, w, h, s, i as int, nb as int, d as nat);
                            if reachable_in(tiles, w, h, s, nb as int, d as nat) {
                                lemma_reachable_has_dist(tiles, w, h, s, nb as int, d as nat);
                                assert(dist@[nb as int] != usize::MAX);
                            }
                            assert(is_dist(tiles, w, h, s, nb as int, (d + 1) as nat));
                        }
                        dist[nb] = d + 1;
                    }
                    j += 1;
                }
                proof {
                    assert forall|t: int, u: int|
                        0 <= t < n && 0 <= u < i + 1 && #[trigger] adjacent(w, h, u, t)
                        && dist@[u] == d && is_dist(tiles, w, h, s, t, (d + 1) as nat)
                        implies dist@[t] != usize::MAX by {
                        if u == i {
                            assert(t != s) by {
                                if t == s {
                                    assert(reachable_in(tiles, w, h, s, t, d as nat));
                                }
                            }
                            assert(reachable_in(tiles, w, h, s, t, (d + 1) as nat));
                            assert(is_traversable(tiles[t]));
                            assert(nbrs@.contains(t as usize));
                            let q = choose|q: int|
                                0 <= q < nbrs@.len() && nbrs@[q] == t as usize;
                            assert(dist@[nbrs@[q] as int] != usize::MAX);
                        }
                    }
                }
            }
            i += 1;
        }
        proof {
            assert forall|t: int, k: nat|
                0 <= t < n && k <= d + 1 && #[trigger] is_dist(tiles, w, h, s, t, k)
                implies dist@[t] == k by {
                if k == d + 1 {
                    lemma_dist_predecessor(tiles, w, h, s, t, d as nat);
                    let u = choose|u: int|
                        adjacent(w, h, u, t) && is_dist(tiles, w, h, s, u, d as nat);
                    assert(0 <= u < n);
                    assert(dist@[u] == d);
                    assert(dist@[t] != usize::MAX);
                    lemma_dist_unique(tiles, w, h, s, t, dist@[t] as nat, k);
                }
            }
        }
        d += 1;
    }
    proof {
        assert forall|t: int| 0 <= t < n implies (
            (dist@[t] != usize::MAX) <==> reachable(tiles, w, h, s, t)
        ) by {
            if dist@[t] != usize::MAX {
                lemma_reachable_in_mono(tiles, w, h, s, t, dist@[t] as nat, n as nat);
            }
            if reachable(tiles, w, h, s, t) {
                lemma_reachable_has_dist(tiles, w, h, s, t, n as nat);
                let m = dist_of(tiles, w, h, s, t);
                assert(dist@[t] == m);
            }
        }
        assert(is_dist(tiles, w, h, s, s, 0));
    }
    dist
}

} // verus!

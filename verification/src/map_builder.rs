use vstd::prelude::*;
use crate::TileType;
use crate::is_traversable;
use crate::map::{index_at, lemma_point_index_round_trip, MapError, TileMap};
use crate::path::{
    dist_of, distances_from, is_dist, lemma_is_dist_dist_of, lemma_reachable_has_dist,
    lemma_reachable_in_congruent, reachable, reachable_in,
};
use crate::rng::{rng_next, RandomSource};

verus! {

/// Grid size of the reference configuration.
pub const MAP_SIZE_WIDTH: usize = 14;

/// Grid size of the reference configuration.
pub const MAP_SIZE_HEIGHT: usize = 21;

/// How many carving attempts a build makes before giving up.
pub const MAX_BUILD_ATTEMPTS: usize = 10;

/// The deterministic start coordinate: the grid centre.
pub open spec fn start_index(width: int, height: int) -> int {
    index_at(width, width / 2, height / 2)
}

/// Where one step of the carving walk lands: the draw picks one of the
/// four orthogonal directions, and a step that would leave the grid
/// stays in place.
pub open spec fn walk_dest(width: int, height: int, x: int, y: int, draw: u64) -> (int, int) {
    let dir = draw % 4;
    if dir == 0 {
        if y >= 1 { (x, y - 1) } else { (x, y) }
    } else if dir == 1 {
        if y + 1 < height { (x, y + 1) } else { (x, y) }
    } else if dir == 2 {
        if x >= 1 { (x - 1, y) } else { (x, y) }
    } else {
        if x + 1 < width { (x + 1, y) } else { (x, y) }
    }
}

/// The tiles and final random state after `steps` steps of the carving
/// walk from `(x, y)`: each step draws a direction, moves, and floors
/// the tile it lands on.
pub open spec fn carve_from(
    tiles: Seq<TileType>, width: int, height: int, x: int, y: int, state: u64, steps: nat,
) -> (Seq<TileType>, u64)
    decreases steps,
{
    if steps == 0 {
        (tiles, state)
    } else {
        let draw = rng_next(state);
        let p = walk_dest(width, height, x, y, draw);
        let floored = tiles.update(index_at(width, p.0, p.1), TileType::Floor);
        carve_from(floored, width, height, p.0, p.1, draw, (steps - 1) as nat)
    }
}

/// The all-wall grid with the centre tile floored: what carving starts
/// from.
pub open spec fn initial_tiles(width: int, height: int) -> Seq<TileType> {
    Seq::new((width * height) as nat, |i: int| TileType::Wall)
        .update(start_index(width, height), TileType::Floor)
}

/// One full carving pass from random state `state`: a walk of one step
/// per grid cell, starting at the centre.
pub open spec fn carved(width: int, height: int, state: u64) -> (Seq<TileType>, u64) {
    carve_from(
        initial_tiles(width, height), width, height,
        width / 2, height / 2, state, (width * height) as nat,
    )
}

/// Carving never unfloors a tile and introduces nothing but floors.
pub proof fn lemma_carve_from_props(
    tiles: Seq<TileType>, width: int, height: int, x: int, y: int, state: u64, steps: nat,
)
    requires
        1 <= width,
        1 <= height,
        tiles.len() == width * height,
        0 <= x < width,
        0 <= y < height,
    ensures
        carve_from(tiles, width, height, x, y, state, steps).0.len() == tiles.len(),
        forall|i: int| 0 <= i < tiles.len() ==> {
            let c = #[trigger] carve_from(tiles, width, height, x, y, state, steps).0[i];
            c == tiles[i] || c == TileType::Floor
        },
    decreases steps,
{
    if steps != 0 {
        let draw = rng_next(state);
        let p = walk_dest(width, height, x, y, draw);
        lemma_point_index_round_trip(width, height, p.0, p.1);
        let floored = tiles.update(index_at(width, p.0, p.1), TileType::Floor);
        lemma_carve_from_props(floored, width, height, p.0, p.1, draw, (steps - 1) as nat);
    }
}

/// A full carving pass keeps the grid size, keeps the centre floored,
/// and yields no exit tile.
pub proof fn lemma_carved_props(width: int, height: int, state: u64)
    requires
        1 <= width,
        1 <= height,
    ensures
        carved(width, height, state).0.len() == width * height,
        carved(width, height, state).0[start_index(width, height)] == TileType::Floor,
        forall|i: int| 0 <= i < width * height
            ==> #[trigger] carved(width, height, state).0[i] != TileType::Exit,
{
    lemma_point_index_round_trip(width, height, width / 2, height / 2);
    lemma_carve_from_props(
        initial_tiles(width, height), width, height,
        width / 2, height / 2, state, (width * height) as nat,
    );
}

/// `t` could serve as the exit of `tiles`: a floor tile other than the
/// start that can be walked to from the start.
pub open spec fn exit_candidate(
    tiles: Seq<TileType>, width: int, height: int, start: int, t: int,
) -> bool {
    &&& 0 <= t < tiles.len()
    &&& t != start
    &&& tiles[t] == TileType::Floor
    &&& reachable(tiles, width, height, start, t)
}

/// `e` is the exit the builder picks: a candidate of maximal graph
/// distance from the start, ties resolved to the lowest linear index.
pub open spec fn exit_choice(
    tiles: Seq<TileType>, width: int, height: int, start: int, e: int,
) -> bool {
    &&& exit_candidate(tiles, width, height, start, e)
    &&& forall|t: int| #[trigger] exit_candidate(tiles, width, height, start, t)
        ==> dist_of(tiles, width, height, start, t) <= dist_of(tiles, width, height, start, e)
    &&& forall|t: int| #[trigger] exit_candidate(tiles, width, height, start, t) && t < e
        ==> dist_of(tiles, width, height, start, t) < dist_of(tiles, width, height, start, e)
}

/// At most one index can be the builder's exit pick.
pub proof fn lemma_exit_choice_unique(
    tiles: Seq<TileType>, width: int, height: int, start: int, e1: int, e2: int,
)
    requires
        exit_choice(tiles, width, height, start, e1),
        exit_choice(tiles, width, height, start, e2),
    ensures
        e1 == e2,
{
    assert(exit_candidate(tiles, width, height, start, e1));
    assert(exit_candidate(tiles, width, height, start, e2));
}

/// Convert the exit stage's `DisconnectedMap`/`Ok` split and the chosen
/// index into a single contract: `Ok(e)` exactly when a candidate
/// exists, with `e` the maximal-distance, lowest-index candidate, and
/// that tile turned into the exit.
#[verifier::loop_isolation(false)]
pub fn place_exit(map: &mut TileMap, start_x: usize, start_y: usize) -> (r: Result<
    usize,
    MapError,
>)
    requires
        old(map).wf(),
        start_x < old(map).width,
        start_y < old(map).height,
    ensures
        final(map).wf(),
        final(map).width == old(map).width,
        final(map).height == old(map).height,
        ({
            let tiles = old(map).tiles@;
            let w = old(map).width as int;
            let h = old(map).height as int;
            let s = index_at(w, start_x as int, start_y as int);
            match r {
                Ok(e) => {
                    &&& exit_choice(tiles, w, h, s, e as int)
                    &&& final(map).tiles@ == tiles.update(e as int, TileType::Exit)
                },
                Err(err) => {
                    &&& err == MapError::DisconnectedMap
                    &&& final(map).tiles@ == tiles
                    &&& forall|t: int| !exit_candidate(tiles, w, h, s, t)
                },
            }
        }),
{
    let ghost tiles = map.tiles@;
    let ghost w = map.width as int;
    let ghost h = map.height as int;
    let start = map.point_to_index(start_x, start_y);
    let ghost s = start as int;
    let dist = distances_from(map, start);
    let n = map.tiles.len();
    // `n` doubles as the "no candidate seen yet" marker: it is no index.
    let mut best: usize = n;
    let mut best_d: usize = 0;
    let mut i: usize = 0;
    while i < n
        invariant
            i <= n,
            best == n || best < i,
            best == n ==> forall|t: int| 0 <= t < i ==> !exit_candidate(tiles, w, h, s, t),
            best < n ==> {
                &&& exit_candidate(tiles, w, h, s, best as int)
                &&& best_d == dist@[best as int]
                &&& best_d == dist_of(tiles, w, h, s, best as int)
                &&& forall|t: int| #[trigger] exit_candidate(tiles, w, h, s, t) && t < i
                    ==> dist_of(tiles, w, h, s, t) <= dist_of(tiles, w, h, s, best as int)
                &&& forall|t: int| #[trigger] exit_candidate(tiles, w, h, s, t) && t < best
                    ==> dist_of(tiles, w, h, s, t) < dist_of(tiles, w, h, s, best as int)
            },
        decreases n - i,
    {
        let ti = map.tiles[i];
        if i != start && ti == TileType::Floor && dist[i] != usize::MAX {
            proof {
                lemma_is_dist_dist_of(tiles, w, h, s, i as int, dist@[i as int] as nat);
            }
            if best == n || dist[i] > best_d {
                best = i;
                best_d = dist[i];
            }
        }
        i += 1;
    }
    if best == n {
        Err(MapError::DisconnectedMap)
    } else {
        let p = map.index_to_point(best);
        map.set_tile(p.0, p.1, TileType::Exit);
        Ok(best)
    }
}

/// The random state with which carving attempt `k` begins.
pub open spec fn attempt_state(s0: u64, width: int, height: int, k: nat) -> u64
    decreases k,
{
    if k == 0 {
        s0
    } else {
        carved(width, height, attempt_state(s0, width, height, (k - 1) as nat)).1
    }
}

/// The tiles that carving attempt `k` produces.
pub open spec fn attempt_tiles(s0: u64, width: int, height: int, k: nat) -> Seq<TileType> {
    carved(width, height, attempt_state(s0, width, height, k)).0
}

/// Attempt `k` carved a map with at least one exit candidate.
pub open spec fn attempt_good(s0: u64, width: int, height: int, k: nat) -> bool {
    exists|t: int| exit_candidate(
        attempt_tiles(s0, width, height, k), width, height, start_index(width, height), t,
    )
}

/// The generator that drives one game session: it owns the map being
/// carved and hands it over, with the chosen start coordinate, once
/// generation succeeds.
pub struct MapBuilder {
    pub map: TileMap,
    pub start_x: usize,
    pub start_y: usize,
}

/// `b` is the outcome of the first good carving attempt for seed `s0`:
/// its map is that attempt's carve with the chosen exit floored over,
/// and its start coordinate is the grid centre.
pub open spec fn builds_to(s0: u64, width: int, height: int, b: MapBuilder) -> bool {
    exists|k: nat|
        {
            &&& k < MAX_BUILD_ATTEMPTS
            &&& #[trigger] attempt_good(s0, width, height, k)
            &&& forall|j: nat| j < k ==> !attempt_good(s0, width, height, j)
            &&& b.map.width == width
            &&& b.map.height == height
            &&& b.start_x == width / 2
            &&& b.start_y == height / 2
            &&& exists|e: int|
                exit_choice(
                    attempt_tiles(s0, width, height, k), width, height,
                    start_index(width, height), e,
                ) && b.map.tiles@ == attempt_tiles(s0, width, height, k).update(
                    e, TileType::Exit,
                )
        }
}

/// What a build with initial random state `s0` returns: invalid
/// dimensions are rejected; otherwise the first good attempt (if any
/// within the budget) decides the map, and a budget exhausted without a
/// good attempt is `MapGenerationFailed`.  Every clause is a function
/// of `s0`, `width` and `height`, which is what makes builds
/// reproducible.
pub open spec fn build_post(
    s0: u64, width: int, height: int, r: Result<MapBuilder, MapError>,
) -> bool {
    if width < 1 || height < 1 {
        r == Err::<MapBuilder, MapError>(MapError::InvalidDimensions)
    } else if exists|k: nat| k < MAX_BUILD_ATTEMPTS && #[trigger] attempt_good(
        s0, width, height, k,
    ) {
        match r {
            Ok(b) => builds_to(s0, width, height, b),
            Err(_) => false,
        }
    } else {
        r == Err::<MapBuilder, MapError>(MapError::MapGenerationFailed)
    }
}

/// What every successfully built map guarantees: the centre tile is a
/// floor, exactly one tile is the exit, the exit can be walked to from
/// the start, and no reachable floor tile lies farther from the start
/// than the exit — with ties going to the lower linear index.
pub open spec fn builder_ok(b: MapBuilder) -> bool {
    let tiles = b.map.tiles@;
    let w = b.map.width as int;
    let h = b.map.height as int;
    let s = start_index(w, h);
    &&& b.map.wf()
    &&& b.start_x == w / 2
    &&& b.start_y == h / 2
    &&& 0 <= s < tiles.len()
    &&& tiles[s] == TileType::Floor
    &&& exists|e: int| 0 <= e < tiles.len() && #[trigger] tiles[e] == TileType::Exit
    &&& forall|e: int|
        0 <= e < tiles.len() && #[trigger] tiles[e] == TileType::Exit ==> {
            &&& forall|i: int| 0 <= i < tiles.len() && #[trigger] tiles[i] == TileType::Exit
                ==> i == e
            &&& reachable(tiles, w, h, s, e)
            &&& forall|t: int|
                0 <= t < tiles.len() && #[trigger] tiles[t] == TileType::Floor
                    && reachable(tiles, w, h, s, t) ==> {
                    &&& dist_of(tiles, w, h, s, t) <= dist_of(tiles, w, h, s, e)
                    &&& (t < e ==> dist_of(tiles, w, h, s, t) != dist_of(tiles, w, h, s, e))
                }
        }
}

/// Replacing the chosen floor tile by the exit keeps distances intact
/// and establishes every guarantee of `builder_ok`'s tile clauses.
proof fn lemma_exit_update_ok(tiles: Seq<TileType>, w: int, h: int, s: int, e: int)
    requires
        1 <= w,
        1 <= h,
        tiles.len() == w * h,
        0 <= s < tiles.len(),
        tiles[s] == TileType::Floor,
        forall|i: int| 0 <= i < tiles.len() ==> #[trigger] tiles[i] != TileType::Exit,
        exit_choice(tiles, w, h, s, e),
    ensures
        ({
            let u = tiles.update(e, TileType::Exit);
            &&& u[s] == TileType::Floor
            &&& u[e] == TileType::Exit
            &&& forall|i: int| 0 <= i < u.len() && #[trigger] u[i] == TileType::Exit ==> i == e
            &&& reachable(u, w, h, s, e)
            &&& forall|t: int|
                0 <= t < u.len() && #[trigger] u[t] == TileType::Floor
                    && reachable(u, w, h, s, t) ==> {
                    &&& dist_of(u, w, h, s, t) <= dist_of(u, w, h, s, e)
                    &&& (t < e ==> dist_of(u, w, h, s, t) != dist_of(u, w, h, s, e))
                }
        }),
{
    let u = tiles.update(e, TileType::Exit);
    assert(exit_candidate(tiles, w, h, s, e));
    assert(forall|i: int| 0 <= i < tiles.len()
        ==> (is_traversable(tiles[i]) <==> is_traversable(#[trigger] u[i])));
    lemma_same_walls_same_dist(tiles, u, w, h, s, e);
    assert(reachable(u, w, h, s, e));
    assert forall|t: int|
        0 <= t < u.len() && #[trigger] u[t] == TileType::Floor
            && reachable(u, w, h, s, t) implies {
            &&& dist_of(u, w, h, s, t) <= dist_of(u, w, h, s, e)
            &&& (t < e ==> dist_of(u, w, h, s, t) != dist_of(u, w, h, s, e))
        } by {
        lemma_same_walls_same_dist(u, tiles, w, h, s, t);
        lemma_same_walls_same_dist(tiles, u, w, h, s, t);
        if t == s {
            assert(is_dist(tiles, w, h, s, s, 0));
            lemma_is_dist_dist_of(tiles, w, h, s, s, 0);
            let de = dist_of(tiles, w, h, s, e);
            lemma_reachable_has_dist(tiles, w, h, s, e, tiles.len());
            if de == 0 {
                assert(reachable_in(tiles, w, h, s, e, 0));
            }
        } else {
            assert(exit_candidate(tiles, w, h, s, t));
        }
    }
}

/// Tile sequences with the same walls give every tile the same
/// reachability and, for reachable tiles, the same distance.
proof fn lemma_same_walls_same_dist(
    t1: Seq<TileType>, t2: Seq<TileType>, w: int, h: int, s: int, t: int,
)
    requires
        t1.len() == t2.len(),
        forall|i: int| 0 <= i < t1.len()
            ==> (is_traversable(t1[i]) <==> is_traversable(#[trigger] t2[i])),
    ensures
        reachable(t1, w, h, s, t) == reachable(t2, w, h, s, t),
        reachable(t1, w, h, s, t) ==> dist_of(t1, w, h, s, t) == dist_of(t2, w, h, s, t),
{
    lemma_reachable_in_congruent(t1, t2, w, h, s, t, t1.len());
    if reachable(t1, w, h, s, t) {
        lemma_reachable_has_dist(t1, w, h, s, t, t1.len());
        let d = dist_of(t1, w, h, s, t);
        lemma_reachable_in_congruent(t1, t2, w, h, s, t, d);
        if d > 0 {
            lemma_reachable_in_congruent(t1, t2, w, h, s, t, (d - 1) as nat);
        }
        assert(is_dist(t2, w, h, s, t, d));
        lemma_is_dist_dist_of(t2, w, h, s, t, d);
    }
}

/// One carving pass as executable code: a drunkard's walk of one step
/// per cell over an all-wall grid, floored as it goes.
#[verifier::loop_isolation(false)]
fn carve(rng: &mut RandomSource, width: usize, height: usize) -> (m: TileMap)
    requires
        1 <= width,
        1 <= height,
        width * height < usize::MAX,
    ensures
        m.wf(),
        m.width == width,
        m.height == height,
        m.tiles@ == carved(width as int, height as int, old(rng)@).0,
        final(rng)@ == carved(width as int, height as int, old(rng)@).1,
{
    let ghost w = width as int;
    let ghost h = height as int;
    let ghost s0 = rng@;
    let mut map = TileMap::new(width, height);
    let sx = width / 2;
    let sy = height / 2;
    map.set_tile(sx, sy, TileType::Floor);
    proof {
        lemma_point_index_round_trip(w, h, w / 2, h / 2);
        assert(map.tiles@ =~= initial_tiles(w, h));
    }
    let total = width * height;
    let mut x = sx;
    let mut y = sy;
    let mut k: usize = 0;
    while k < total
        invariant
            k <= total,
            x < width,
            y < height,
            map.wf(),
            map.width == width,
            map.height == height,
            carve_from(map.tiles@, w, h, x as int, y as int, rng@, (total - k) as nat)
                == carved(w, h, s0),
        decreases total - k,
    {
        let ghost pre_tiles = map.tiles@;
        let ghost pre_state = rng@;
        let ghost px = x as int;
        let ghost py = y as int;
        let draw = rng.next_value();
        let dir = draw % 4;
        if dir == 0 {
            if y >= 1 {
                y -= 1;
            }
        } else if dir == 1 {
            if y + 1 < height {
                y += 1;
            }
        } else if dir == 2 {
            if x >= 1 {
                x -= 1;
            }
        } else {
            if x + 1 < width {
                x += 1;
            }
        }
        map.set_tile(x, y, TileType::Floor);
        proof {
            assert((x as int, y as int) == walk_dest(w, h, px, py, draw));
            assert(carve_from(pre_tiles, w, h, px, py, pre_state, (total - k) as nat)
                == carve_from(map.tiles@, w, h, x as int, y as int, rng@, (total - k - 1) as nat));
        }
        k += 1;
    }
    map
}

impl MapBuilder {
    /// Generate a map: carve, validate connectivity, and place the
    /// exit, retrying on a degenerate carve up to the attempt budget.
    /// The outcome is a function of the random source's starting state,
    /// so identically seeded sources build identical maps.
    #[verifier::loop_isolation(false)]
    pub fn build(rng: &mut RandomSource, width: usize, height: usize) -> (r: Result<
        MapBuilder,
        MapError,
    >)
        requires
            width * height < usize::MAX,
        ensures
            build_post(old(rng)@, width as int, height as int, r),
            r matches Ok(b) ==> builder_ok(b) && b.map.width == width && b.map.height == height,
    {
        let ghost s0 = rng@;
        let ghost w = width as int;
        let ghost h = height as int;
        if width == 0 || height == 0 {
            return Err(MapError::InvalidDimensions);
        }
        let ghost s = start_index(w, h);
        let sx = width / 2;
        let sy = height / 2;
        let mut attempt: usize = 0;
        while attempt < MAX_BUILD_ATTEMPTS
            invariant
                attempt <= MAX_BUILD_ATTEMPTS,
                rng@ == attempt_state(s0, w, h, attempt as nat),
                forall|j: nat| j < attempt ==> !attempt_good(s0, w, h, j),
            decreases MAX_BUILD_ATTEMPTS - attempt,
        {
            let mut map = carve(rng, width, height);
            proof {
                assert(attempt_state(s0, w, h, (attempt + 1) as nat)
                    == carved(w, h, attempt_state(s0, w, h, attempt as nat)).1);
                assert(map.tiles@ == attempt_tiles(s0, w, h, attempt as nat));
                lemma_carved_props(w, h, attempt_state(s0, w, h, attempt as nat));
                lemma_point_index_round_trip(w, h, w / 2, h / 2);
            }
            let ghost pre = map.tiles@;
            match place_exit(&mut map, sx, sy) {
                Ok(e) => {
                    proof {
                        assert(exit_candidate(pre, w, h, s, e as int));
                        assert(attempt_good(s0, w, h, attempt as nat));
                        lemma_exit_update_ok(pre, w, h, s, e as int);
                    }
                    let b = MapBuilder { map, start_x: sx, start_y: sy };
                    proof {
                        assert(builds_to(s0, w, h, b)) by {
                            let k = attempt as nat;
                            assert(k < MAX_BUILD_ATTEMPTS && attempt_good(s0, w, h, k)
                                && (forall|j: nat| j < k ==> !attempt_good(s0, w, h, j))
                                && b.map.width == w && b.map.height == h
                                && b.start_x == w / 2 && b.start_y == h / 2
                                && (exit_choice(attempt_tiles(s0, w, h, k), w, h,
                                        start_index(w, h), e as int)
                                    && b.map.tiles@ == attempt_tiles(s0, w, h, k).update(
                                        e as int, TileType::Exit,
                                    )));
                        }
                    }
                    return Ok(b);
                },
                Err(_) => {
                    proof {
                        assert(!attempt_good(s0, w, h, attempt as nat));
                    }
                    attempt += 1;
                },
            }
        }
        Err(MapError::MapGenerationFailed)
    }

    /// Generate a map of the reference configuration's size.
    pub fn new(rng: &mut RandomSource) -> (r: Result<MapBuilder, MapError>)
        ensures
            build_post(old(rng)@, MAP_SIZE_WIDTH as int, MAP_SIZE_HEIGHT as int, r),
            r matches Ok(b) ==> builder_ok(b) && b.map.width == MAP_SIZE_WIDTH
                && b.map.height == MAP_SIZE_HEIGHT,
    {
        MapBuilder::build(rng, MAP_SIZE_WIDTH, MAP_SIZE_HEIGHT)
    }
}

/// Builds are deterministic: any two results that satisfy the build
/// contract for the same initial random state and dimensions carry the
/// same tile sequence, the same dimensions and the same start
/// coordinate — or are the same error.
pub proof fn lemma_build_deterministic(
    s0: u64, width: int, height: int,
    r1: Result<MapBuilder, MapError>, r2: Result<MapBuilder, MapError>,
)
    requires
        build_post(s0, width, height, r1),
        build_post(s0, width, height, r2),
    ensures
        r1 is Ok <==> r2 is Ok,
        r1 is Err ==> r1 == r2,
        r1 matches Ok(b1) ==> r2 matches Ok(b2) && {
            &&& b1.map.tiles@ == b2.map.tiles@
            &&& b1.map.width == b2.map.width
            &&& b1.map.height == b2.map.height
            &&& b1.start_x == b2.start_x
            &&& b1.start_y == b2.start_y
        },
{
    if width >= 1 && height >= 1
        && exists|k: nat| k < MAX_BUILD_ATTEMPTS && #[trigger] attempt_good(s0, width, height, k) {
        let b1 = r1->Ok_0;
        let b2 = r2->Ok_0;
        let k1 = choose|k: nat|
            {
                &&& k < MAX_BUILD_ATTEMPTS
                &&& #[trigger] attempt_good(s0, width, height, k)
                &&& forall|j: nat| j < k ==> !attempt_good(s0, width, height, j)
                &&& b1.map.width == width
                &&& b1.map.height == height
                &&& b1.start_x == width / 2
                &&& b1.start_y == height / 2
                &&& exists|e: int|
                    exit_choice(attempt_tiles(s0, width, height, k), width, height,
                        start_index(width, height), e)
                    && b1.map.tiles@ == attempt_tiles(s0, width, height, k).update(
                        e, TileType::Exit,
                    )
            };
        let k2 = choose|k: nat|
            {
                &&& k < MAX_BUILD_ATTEMPTS
                &&& #[trigger] attempt_good(s0, width, height, k)
                &&& forall|j: nat| j < k ==> !attempt_good(s0, width, height, j)
                &&& b2.map.width == width
                &&& b2.map.height == height
                &&& b2.start_x == width / 2
                &&& b2.start_y == height / 2
                &&& exists|e: int|
                    exit_choice(attempt_tiles(s0, width, height, k), width, height,
                        start_index(width, height), e)
                    && b2.map.tiles@ == attempt_tiles(s0, width, height, k).update(
                        e, TileType::Exit,
                    )
            };
        assert(k1 == k2) by {
            if k1 < k2 {
                assert(!attempt_good(s0, width, height, k1));
            }
            if k2 < k1 {
                assert(!attempt_good(s0, width, height, k2));
            }
        }
        let tiles = attempt_tiles(s0, width, height, k1);
        let e1 = choose|e: int|
            exit_choice(tiles, width, height, start_index(width, height), e)
            && b1.map.tiles@ == tiles.update(e, TileType::Exit);
        let e2 = choose|e: int|
            exit_choice(tiles, width, height, start_index(width, height), e)
            && b2.map.tiles@ == tiles.update(e, TileType::Exit);
        lemma_exit_choice_unique(tiles, width, height, start_index(width, height), e1, e2);
    }
}

} // verus!

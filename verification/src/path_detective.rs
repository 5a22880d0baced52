//! Shortest paths over the grid: the adjacency between passable cells, a
//! breadth-first search of distances from the start, and the greedy walk
//! back from the exit that reconstructs a path.

use vstd::prelude::*;
use crate::grid_info::{GridInfo, Error};
use crate::table::view2;

verus! {

/// The pathfinding session: a validated grid, and an optional live sink that
/// receives each discovered cell of the path as the walk finds it.
pub struct PathDetective {
    pub grid_info: GridInfo,
    pub sender: Option<std::sync::mpsc::Sender<(usize, usize)>>,
}

// ------------------------------------------------------------------
// Cells and adjacency
// ------------------------------------------------------------------
/// A cell one can stand on: inside the grid and not closed.
pub open spec fn passable(g: Seq<Seq<char>>, r: int, c: int) -> bool {
    &&& 0 <= r < g.len()
    &&& 0 <= c < g[r].len()
    &&& g[r][c] != 'E'
}

pub open spec fn pass_at(g: Seq<Seq<char>>, p: (usize, usize)) -> bool {
    passable(g, p.0 as int, p.1 as int)
}

/// The eight compass offsets, in the fixed order the neighbor lists use:
/// down, down-right, right, up-right, up, up-left, left, down-left.
pub open spec fn spec_dir(i: int) -> (int, int) {
    if i == 0 {
        (-1, 0)
    } else if i == 1 {
        (-1, 1)
    } else if i == 2 {
        (0, 1)
    } else if i == 3 {
        (1, 1)
    } else if i == 4 {
        (1, 0)
    } else if i == 5 {
        (1, -1)
    } else if i == 6 {
        (0, -1)
    } else {
        (-1, -1)
    }
}

/// Two distinct cells within one king-move of each other.
pub open spec fn adjacent(p: (usize, usize), q: (usize, usize)) -> bool {
    let dr = q.0 as int - p.0 as int;
    let dc = q.1 as int - p.1 as int;
    &&& -1 <= dr <= 1
    &&& -1 <= dc <= 1
    &&& !(dr == 0 && dc == 0)
}

/// Grids held in memory have machine-sized dimensions; abstract grids must
/// say so before coordinates can be cast.
pub open spec fn grid_fits(g: Seq<Seq<char>>) -> bool {
    &&& g.len() <= usize::MAX
    &&& forall|r: int| 0 <= r < g.len() ==> (#[trigger] g[r]).len() <= usize::MAX
}

/// The rows of a vector-held grid always fit the machine.
pub proof fn lemma_view2_fits(v: &Vec<Vec<char>>)
    ensures
        grid_fits(view2(*v)),
{
    vstd::std_specs::vec::axiom_spec_len(v);
    assert forall|r: int| 0 <= r < view2(*v).len() implies (#[trigger] view2(*v)[r]).len()
        <= usize::MAX by {
        vstd::std_specs::vec::axiom_spec_len(&v@[r]);
        assert(view2(*v)[r] == v@[r]@);
    }
}

/// `q` appears in the neighbor list of `p`: adjacent and passable.
pub open spec fn is_nbr(g: Seq<Seq<char>>, p: (usize, usize), q: (usize, usize)) -> bool {
    pass_at(g, q) && adjacent(p, q)
}

/// The neighbor list of `p` restricted to the first `n` compass directions.
pub open spec fn nbrs_upto(g: Seq<Seq<char>>, p: (usize, usize), n: int) -> Seq<(usize, usize)>
    decreases n,
{
    if n <= 0 {
        seq![]
    } else {
        let prev = nbrs_upto(g, p, n - 1);
        let d = spec_dir(n - 1);
        let r: int = p.0 + d.0;
        let c: int = p.1 + d.1;
        if passable(g, r, c) {
            prev.push((r as usize, c as usize))
        } else {
            prev
        }
    }
}

/// The neighbor list of `p`: its passable 8-directional neighbors, in
/// direction order.
pub open spec fn nbrs(g: Seq<Seq<char>>, p: (usize, usize)) -> Seq<(usize, usize)> {
    nbrs_upto(g, p, 8)
}

proof fn lemma_nbrs_upto_prefix(g: Seq<Seq<char>>, p: (usize, usize), n: int, m: int)
    requires
        0 <= n <= m,
    ensures
        forall|q: (usize, usize)| nbrs_upto(g, p, n).contains(q) ==> nbrs_upto(g, p, m).contains(q),
    decreases m - n,
{
    if n < m {
        lemma_nbrs_upto_prefix(g, p, n, m - 1);
        assert forall|q: (usize, usize)| nbrs_upto(g, p, m - 1).contains(q) implies nbrs_upto(
            g,
            p,
            m,
        ).contains(q) by {
            let prev = nbrs_upto(g, p, m - 1);
            let k = choose|k: int| 0 <= k < prev.len() && prev[k] == q;
            assert(nbrs_upto(g, p, m)[k] == q);
        }
    }
}

proof fn lemma_nbrs_upto_sound(g: Seq<Seq<char>>, p: (usize, usize), n: int)
    requires
        0 <= n <= 8,
        grid_fits(g),
    ensures
        forall|q: (usize, usize)| nbrs_upto(g, p, n).contains(q) ==> is_nbr(g, p, q),
    decreases n,
{
    if n > 0 {
        lemma_nbrs_upto_sound(g, p, n - 1);
        let prev = nbrs_upto(g, p, n - 1);
        let d = spec_dir(n - 1);
        assert forall|q: (usize, usize)| nbrs_upto(g, p, n).contains(q) implies is_nbr(
            g,
            p,
            q,
        ) by {
            let cur = nbrs_upto(g, p, n);
            let k = choose|k: int| 0 <= k < cur.len() && cur[k] == q;
            if k < prev.len() {
                assert(prev[k] == q);
                assert(prev.contains(q));
            } else {
                assert(passable(g, p.0 + d.0, p.1 + d.1));
                assert(q == ((p.0 + d.0) as usize, (p.1 + d.1) as usize));
            }
        }
    }
}

/// The neighbor list holds exactly the adjacent passable cells.
pub proof fn lemma_nbrs_iff(g: Seq<Seq<char>>, p: (usize, usize), q: (usize, usize))
    requires
        grid_fits(g),
    ensures
        nbrs(g, p).contains(q) <==> is_nbr(g, p, q),
{
    lemma_nbrs_upto_sound(g, p, 8);
    if is_nbr(g, p, q) {
        let dr = q.0 as int - p.0 as int;
        let dc = q.1 as int - p.1 as int;
        let i: int = if dr == -1 && dc == 0 {
            0
        } else if dr == -1 && dc == 1 {
            1
        } else if dr == 0 && dc == 1 {
            2
        } else if dr == 1 && dc == 1 {
            3
        } else if dr == 1 && dc == 0 {
            4
        } else if dr == 1 && dc == -1 {
            5
        } else if dr == 0 && dc == -1 {
            6
        } else {
            7
        };
        assert(spec_dir(i) == (dr, dc));
        let cur = nbrs_upto(g, p, i + 1);
        assert(passable(g, p.0 + dr, p.1 + dc));
        assert(cur.last() == q);
        assert(cur.contains(q));
        lemma_nbrs_upto_prefix(g, p, i + 1, 8);
    }
}

/// Adjacency is symmetric, so neighborhood is symmetric between passable
/// cells.
pub proof fn lemma_nbr_symmetric(g: Seq<Seq<char>>, p: (usize, usize), q: (usize, usize))
    ensures
        is_nbr(g, p, q) && pass_at(g, p) ==> is_nbr(g, q, p),
{
}

// ------------------------------------------------------------------
// The adjacency graph
// ------------------------------------------------------------------
/// For every passable cell, the list of its passable neighbors; closed and
/// out-of-grid cells have no entry.
pub struct AdjacencyGraph {
    pub cases: Vec<Vec<Option<Vec<(usize, usize)>>>>,
}

impl AdjacencyGraph {
    /// The graph is exactly the adjacency of the grid `g`.
    pub open spec fn matches(self, g: Seq<Seq<char>>) -> bool {
        &&& self.cases@.len() == g.len()
        &&& forall|r: int| 0 <= r < g.len() ==> (#[trigger] self.cases@[r])@.len() == g[r].len()
        &&& forall|r: int, c: int|
            0 <= r < g.len() && 0 <= c < g[r].len() ==> ((#[trigger] self.cases@[r]@[c]) is Some
                <==> g[r][c] != 'E')
        &&& forall|r: int, c: int|
            0 <= r < g.len() && 0 <= c < g[r].len() && self.cases@[r]@[c] is Some ==> (
            #[trigger] self.cases@[r]@[c])->0@ == nbrs(g, (r as usize, c as usize))
    }

    /// The neighbor list recorded for one cell, if the cell is passable.
    pub fn connected_case(&self, row: usize, column: usize) -> (r: Option<&Vec<(usize, usize)>>)
        ensures
            ({
                let cs = self.cases@;
                match r {
                    Some(l) => row < cs.len() && column < cs[row as int]@.len()
                        && cs[row as int]@[column as int] is Some
                        && l@ == cs[row as int]@[column as int]->0@,
                    None => row >= cs.len() || column >= cs[row as int]@.len()
                        || cs[row as int]@[column as int] is None,
                }
            }),
    {
        if row < self.cases.len() {
            let cells = &self.cases[row];
            if column < cells.len() {
                cells[column].as_ref()
            } else {
                None
            }
        } else {
            None
        }
    }
}

// ------------------------------------------------------------------
// The distance field
// ------------------------------------------------------------------
/// For each cell, the number of steps from the start recorded by the search;
/// `None` where the search never reached.
pub struct DistanceField {
    pub distance: Vec<Vec<Option<usize>>>,
}

/// A search structure covers the grid cell for cell.
pub open spec fn dims_match<A, B>(d: Seq<Seq<A>>, g: Seq<Seq<B>>) -> bool {
    &&& d.len() == g.len()
    &&& forall|r: int| 0 <= r < g.len() ==> (#[trigger] d[r]).len() == g[r].len()
}

/// The search reached `p` and recorded a distance for it.
pub open spec fn recorded(d: Seq<Seq<Option<usize>>>, p: (usize, usize)) -> bool {
    &&& (p.0 as int) < d.len()
    &&& (p.1 as int) < d[p.0 as int].len()
    &&& d[p.0 as int][p.1 as int] is Some
}

/// The recorded distance of a reached cell.
pub open spec fn rdist(d: Seq<Seq<Option<usize>>>, p: (usize, usize)) -> int {
    d[p.0 as int][p.1 as int]->0 as int
}

impl DistanceField {
    /// The recorded distance of one cell, if any.
    pub fn distance_of(&self, row: usize, column: usize) -> (r: Option<usize>)
        ensures
            r is Some <==> recorded(view2(self.distance), (row, column)),
            r matches Some(v) ==> v == rdist(view2(self.distance), (row, column)),
    {
        if row < self.distance.len() {
            let cells = &self.distance[row];
            if column < cells.len() {
                cells[column]
            } else {
                None
            }
        } else {
            None
        }
    }
}

// ------------------------------------------------------------------
// What a finished search guarantees
// ------------------------------------------------------------------
/// Facts every finished search establishes: distances start at zero exactly
/// on the start cell, every positive distance is one more than a neighbor's,
/// and adjacent recorded cells differ by at most one step.
pub open spec fn bfs_base(
    g: Seq<Seq<char>>,
    d: Seq<Seq<Option<usize>>>,
    s: (usize, usize),
) -> bool {
    &&& dims_match(d, g)
    &&& forall|p: (usize, usize)| #[trigger] recorded(d, p) ==> pass_at(g, p)
    &&& recorded(d, s) && rdist(d, s) == 0
    &&& forall|p: (usize, usize)| #[trigger] recorded(d, p) && rdist(d, p) == 0 ==> p == s
    &&& forall|p: (usize, usize)| #[trigger] recorded(d, p) && rdist(d, p) > 0 ==> exists|
        w: (usize, usize),
    | #[trigger] recorded(d, w) && adjacent(p, w) && rdist(d, w) + 1 == rdist(d, p)
    &&& forall|p: (usize, usize), q: (usize, usize)|
        #![trigger recorded(d, p), recorded(d, q), adjacent(p, q)]
        recorded(d, p) && recorded(d, q) && adjacent(p, q) ==> rdist(d, q) <= rdist(d, p) + 1
}

/// The search stopped on the cell `u`: the first reached cell whose neighbor
/// list holds the exit. No other reached cell is adjacent to the exit, and
/// the exit itself was never entered.
pub open spec fn bfs_found(
    g: Seq<Seq<char>>,
    d: Seq<Seq<Option<usize>>>,
    s: (usize, usize),
    e: (usize, usize),
    u: (usize, usize),
    du: int,
) -> bool {
    &&& bfs_base(g, d, s)
    &&& recorded(d, u) && rdist(d, u) == du
    &&& is_nbr(g, u, e)
    &&& !recorded(d, e)
    &&& forall|p: (usize, usize)| #[trigger] recorded(d, p) && adjacent(p, e) ==> p == u
}

/// The search ran dry: the reached cells are closed under adjacency and none
/// of them borders the exit.
pub open spec fn bfs_exhausted(
    g: Seq<Seq<char>>,
    d: Seq<Seq<Option<usize>>>,
    s: (usize, usize),
    e: (usize, usize),
) -> bool {
    &&& bfs_base(g, d, s)
    &&& forall|p: (usize, usize), q: (usize, usize)|
        #![trigger recorded(d, p), is_nbr(g, p, q)]
        recorded(d, p) && is_nbr(g, p, q) ==> recorded(d, q)
    &&& forall|p: (usize, usize)| #[trigger] recorded(d, p) ==> !is_nbr(g, p, e)
}

// ------------------------------------------------------------------
// Invariants of the running search
// ------------------------------------------------------------------
/// Facts that hold of the recorded distances while the search runs.
pub open spec fn records_ok(
    g: Seq<Seq<char>>,
    d: Seq<Seq<Option<usize>>>,
    s: (usize, usize),
) -> bool {
    &&& dims_match(d, g)
    &&& forall|p: (usize, usize)| #[trigger] recorded(d, p) ==> pass_at(g, p)
    &&& forall|p: (usize, usize)| #[trigger] recorded(d, p) && rdist(d, p) == 0 ==> p == s
    &&& forall|p: (usize, usize)| #[trigger] recorded(d, p) ==> rdist(d, p) >= 0
    &&& forall|p: (usize, usize)| #[trigger] recorded(d, p) && rdist(d, p) > 0 ==> exists|
        w: (usize, usize),
    | #[trigger] recorded(d, w) && adjacent(p, w) && rdist(d, w) + 1 == rdist(d, p)
    &&& (crate::table::count_some(d) > 0 ==> recorded(d, s) && rdist(d, s) == 0)
}

/// Facts that hold of one still-queued entry: its cell is passable, not yet
/// recorded, and its distance is one more than that of a recorded neighbor
/// (or zero on the start itself, before anything is recorded).
pub open spec fn entry_ok(
    g: Seq<Seq<char>>,
    d: Seq<Seq<Option<usize>>>,
    s: (usize, usize),
    en: ((usize, usize), usize),
) -> bool {
    &&& pass_at(g, en.0)
    &&& !recorded(d, en.0)
    &&& en.1 <= crate::table::count_some(d)
    &&& (en.1 == 0 ==> en.0 == s)
    &&& (en.1 > 0 ==> exists|w: (usize, usize)| #[trigger] recorded(d, w) && adjacent(en.0, w)
        && rdist(d, w) + 1 == en.1)
}

impl PathDetective {
    /// Whether a cell is inside the grid and not closed.
    pub fn is_valid_case(&self, row: usize, column: usize) -> (b: bool)
        ensures
            b == passable(view2(self.grid_info.grid), row as int, column as int),
    {
        let g = &self.grid_info.grid;
        if row < g.len() {
            let cells = &g[row];
            if column < cells.len() {
                cells[column] != 'E'
            } else {
                false
            }
        } else {
            false
        }
    }

    /// The cell one compass step from `(row, column)`, or nothing where the
    /// step would leave the grid on the low side.
    fn case_neighbor(row: usize, column: usize, i: usize) -> (r: Option<(usize, usize)>)
        requires
            i < 8,
            row < usize::MAX,
            column < usize::MAX,
        ensures
            ({
                let d = spec_dir(i as int);
                let nr: int = row + d.0;
                let nc: int = column + d.1;
                match r {
                    Some(q) => nr >= 0 && nc >= 0 && q.0 == nr && q.1 == nc,
                    None => nr < 0 || nc < 0,
                }
            }),
    {
        match i {
            0 => if row == 0 {
                None
            } else {
                Some((row - 1, column))
            },
            1 => if row == 0 {
                None
            } else {
                Some((row - 1, column + 1))
            },
            2 => Some((row, column + 1)),
            3 => Some((row + 1, column + 1)),
            4 => Some((row + 1, column)),
            5 => if column == 0 {
                None
            } else {
                Some((row + 1, column - 1))
            },
            6 => if column == 0 {
                None
            } else {
                Some((row, column - 1))
            },
            _ => if row == 0 || column == 0 {
                None
            } else {
                Some((row - 1, column - 1))
            },
        }
    }

    /// Build the adjacency graph of the grid: an entry for every passable
    /// cell, holding its passable neighbors in direction order.
    #[verifier::loop_isolation(false)]
    pub fn fill_graph(&self) -> (graph: AdjacencyGraph)
        ensures
            graph.matches(view2(self.grid_info.grid)),
    {
        let ghost g = view2(self.grid_info.grid);
        let grid = &self.grid_info.grid;
        let mut cases: Vec<Vec<Option<Vec<(usize, usize)>>>> = Vec::new();
        let mut r: usize = 0;
        while r < grid.len()
            invariant
                r <= g.len(),
                cases@.len() == r,
                forall|a: int| 0 <= a < r ==> (#[trigger] cases@[a])@.len() == g[a].len(),
                forall|a: int, b: int|
                    0 <= a < r && 0 <= b < g[a].len() ==> ((#[trigger] cases@[a]@[b]) is Some
                        <==> g[a][b] != 'E'),
                forall|a: int, b: int|
                    0 <= a < r && 0 <= b < g[a].len() && cases@[a]@[b] is Some ==> (
                    #[trigger] cases@[a]@[b])->0@ == nbrs(g, (a as usize, b as usize)),
            decreases g.len() - r,
        {
            let row = &grid[r];
            let mut cells: Vec<Option<Vec<(usize, usize)>>> = Vec::new();
            let mut c: usize = 0;
            while c < row.len()
                invariant
                    c <= g[r as int].len(),
                    r < g.len(),
                    row@ == g[r as int],
                    cells@.len() == c,
                    forall|b: int|
                        0 <= b < c ==> ((#[trigger] cells@[b]) is Some <==> g[r as int][b] != 'E'),
                    forall|b: int|
                        0 <= b < c && cells@[b] is Some ==> (#[trigger] cells@[b])->0@ == nbrs(
                            g,
                            (r as usize, b as usize),
                        ),
                decreases g[r as int].len() - c,
            {
                if row[c] != 'E' {
                    let mut l: Vec<(usize, usize)> = Vec::new();
                    let mut i: usize = 0;
                    while i < 8
                        invariant
                            i <= 8,
                            r < g.len(),
                            c < g[r as int].len(),
                            l@ == nbrs_upto(g, (r, c), i as int),
                        decreases 8 - i,
                    {
                        match Self::case_neighbor(r, c, i) {
                            Some(q) => {
                                if self.is_valid_case(q.0, q.1) {
                                    l.push(q);
                                }
                            },
                            None => {},
                        }
                        i += 1;
                    }
                    cells.push(Some(l));
                } else {
                    cells.push(None);
                }
                c += 1;
            }
            cases.push(cells);
            r += 1;
        }
        AdjacencyGraph { cases }
    }
}

/// A table with one copy of `x` per grid cell.
#[verifier::loop_isolation(false)]
fn blank_table<T: Copy>(grid: &Vec<Vec<char>>, x: T) -> (t: Vec<Vec<T>>)
    ensures
        view2(t).len() == view2(*grid).len(),
        forall|a: int|
            0 <= a < view2(*grid).len() ==> (#[trigger] view2(t)[a]).len() == view2(*grid)[a].len(),
        forall|a: int, b: int|
            0 <= a < view2(*grid).len() && 0 <= b < view2(*grid)[a].len() ==> #[trigger] view2(t)[
                a
            ][b] == x,
{
    let ghost g = view2(*grid);
    let mut t: Vec<Vec<T>> = Vec::new();
    let mut i: usize = 0;
    while i < grid.len()
        invariant
            i <= g.len(),
            view2(t).len() == i,
            forall|a: int| 0 <= a < i ==> (#[trigger] view2(t)[a]).len() == g[a].len(),
            forall|a: int, b: int|
                0 <= a < i && 0 <= b < g[a].len() ==> #[trigger] view2(t)[a][b] == x,
        decreases g.len() - i,
    {
        let row = &grid[i];
        let mut cells: Vec<T> = Vec::new();
        let mut j: usize = 0;
        while j < row.len()
            invariant
                j <= g[i as int].len(),
                i < g.len(),
                row@ == g[i as int],
                cells@.len() == j,
                forall|b: int| 0 <= b < j ==> #[trigger] cells@[b] == x,
            decreases g[i as int].len() - j,
        {
            cells.push(x);
            j += 1;
        }
        let ghost tv_old = view2(t);
        t.push(cells);
        proof {
            assert(view2(t) =~~= tv_old.push(cells@));
        }
        i += 1;
    }
    t
}


// ------------------------------------------------------------------
// Invariants of the running search
// ------------------------------------------------------------------
/// Facts about the still-queued entries: each is a passable unreached cell
/// one step beyond a reached one, distances sit in nondecreasing order and
/// within one step of each other, no cell is queued twice, every queued
/// distance dominates every recorded one, and the exit is never queued.
pub open spec fn queue_inv(
    g: Seq<Seq<char>>,
    d: Seq<Seq<Option<usize>>>,
    q: Seq<((usize, usize), usize)>,
    head: int,
    s: (usize, usize),
    e: (usize, usize),
) -> bool {
    &&& 0 <= head <= q.len()
    &&& forall|i: int| head <= i < q.len() ==> entry_ok(g, d, s, #[trigger] q[i])
    &&& forall|i: int, j: int|
        head <= i <= j < q.len() ==> (#[trigger] q[i]).1 <= (#[trigger] q[j]).1 && q[j].1 <= q[i].1
            + 1
    &&& forall|i: int, j: int|
        head <= i < j < q.len() ==> (#[trigger] q[i]).0 != (#[trigger] q[j]).0
    &&& forall|i: int, p: (usize, usize)|
        #![trigger q[i], recorded(d, p)]
        head <= i < q.len() && recorded(d, p) ==> rdist(d, p) <= q[i].1
    &&& forall|i: int| head <= i < q.len() ==> (#[trigger] q[i]).0 != e
}

/// A cell is marked exactly when it was reached or is still queued.
pub open spec fn enq_inv(
    g: Seq<Seq<char>>,
    d: Seq<Seq<Option<usize>>>,
    q: Seq<((usize, usize), usize)>,
    head: int,
    ev: Seq<Seq<bool>>,
) -> bool {
    &&& dims_match(ev, g)
    &&& forall|p: (usize, usize)|
        #![trigger recorded(d, p)]
        (p.0 as int) < g.len() && (p.1 as int) < g[p.0 as int].len() ==> ((ev[p.0 as int][p.1
            as int]) <==> (recorded(d, p) || exists|i: int|
            head <= i < q.len() && (#[trigger] q[i]).0 == p))
}

/// Every neighbor of a reached cell other than `u` was reached, or waits in
/// the queue, at a distance at most one step further.
pub open spec fn expanded_except(
    g: Seq<Seq<char>>,
    d: Seq<Seq<Option<usize>>>,
    q: Seq<((usize, usize), usize)>,
    head: int,
    u: (usize, usize),
) -> bool {
    forall|p: (usize, usize), v: (usize, usize)|
        #![trigger recorded(d, p), is_nbr(g, p, v)]
        recorded(d, p) && is_nbr(g, p, v) && p != u ==> ((recorded(d, v) && rdist(d, v) <= rdist(
            d,
            p,
        ) + 1) || exists|i: int|
            head <= i < q.len() && (#[trigger] q[i]).0 == v && q[i].1 <= rdist(d, p) + 1)
}

/// Every neighbor of every reached cell was reached or waits in the queue.
pub open spec fn expanded_inv(
    g: Seq<Seq<char>>,
    d: Seq<Seq<Option<usize>>>,
    q: Seq<((usize, usize), usize)>,
    head: int,
) -> bool {
    forall|p: (usize, usize), v: (usize, usize)|
        #![trigger recorded(d, p), is_nbr(g, p, v)]
        recorded(d, p) && is_nbr(g, p, v) ==> ((recorded(d, v) && rdist(d, v) <= rdist(d, p) + 1)
            || exists|i: int|
            head <= i < q.len() && (#[trigger] q[i]).0 == v && q[i].1 <= rdist(d, p) + 1)
}

/// The exit has not been reached and no reached cell borders it.
pub open spec fn exit_clear(
    g: Seq<Seq<char>>,
    d: Seq<Seq<Option<usize>>>,
    e: (usize, usize),
) -> bool {
    &&& !recorded(d, e)
    &&& forall|p: (usize, usize)| #[trigger] recorded(d, p) ==> !(adjacent(p, e) && pass_at(g, e))
}

/// Everything the search keeps true from one queue round to the next.
pub open spec fn bfs_inv(
    g: Seq<Seq<char>>,
    d: Seq<Seq<Option<usize>>>,
    q: Seq<((usize, usize), usize)>,
    head: int,
    ev: Seq<Seq<bool>>,
    s: (usize, usize),
    e: (usize, usize),
) -> bool {
    &&& records_ok(g, d, s)
    &&& crate::table::count_some(d) <= crate::table::sum_lens(g)
    &&& queue_inv(g, d, q, head, s, e)
    &&& enq_inv(g, d, q, head, ev)
    &&& expanded_inv(g, d, q, head)
    &&& exit_clear(g, d, e)
}

/// Taking the next queued cell and recording its distance keeps every fact
/// of the search, with the taken cell itself still to be expanded.
#[verifier::spinoff_prover]
proof fn lemma_bfs_pop(
    g: Seq<Seq<char>>,
    d_old: Seq<Seq<Option<usize>>>,
    d: Seq<Seq<Option<usize>>>,
    q: Seq<((usize, usize), usize)>,
    head: int,
    ev: Seq<Seq<bool>>,
    s: (usize, usize),
    e: (usize, usize),
)
    requires
        bfs_inv(g, d_old, q, head, ev, s, e),
        0 <= head < q.len(),
        d == d_old.update(
            q[head].0.0 as int,
            d_old[q[head].0.0 as int].update(q[head].0.1 as int, Some(q[head].1)),
        ),
    ensures
        ({
            let u = q[head].0;
            let dv = q[head].1 as int;
            &&& records_ok(g, d, s)
            &&& recorded(d, s) && rdist(d, s) == 0
            &&& crate::table::count_some(d) == crate::table::count_some(d_old) + 1
            &&& crate::table::count_some(d) <= crate::table::sum_lens(g)
            &&& recorded(d, u) && rdist(d, u) == dv
            &&& forall|p: (usize, usize)| #[trigger] recorded(d, p) ==> rdist(d, p) <= dv
            &&& forall|p: (usize, usize)|
                p != u && #[trigger] recorded(d, p) ==> recorded(d_old, p) && rdist(d, p) == rdist(
                    d_old,
                    p,
                )
            &&& queue_inv(g, d, q, head + 1, s, e)
            &&& enq_inv(g, d, q, head + 1, ev)
            &&& forall|i: int| head + 1 <= i < q.len() ==> dv <= (#[trigger] q[i]).1 <= dv + 1
            &&& expanded_except(g, d, q, head + 1, u)
            &&& forall|p: (usize, usize)|
                #[trigger] recorded(d, p) && p != u ==> !(adjacent(p, e) && pass_at(g, e))
            &&& !recorded(d, e)
        }),
{
    let u = q[head].0;
    let dv = q[head].1 as int;
    assert(entry_ok(g, d_old, s, q[head]));
    assert(pass_at(g, u));
    // the one changed cell, and every other cell unchanged
    assert(recorded(d, u) && rdist(d, u) == dv);
    assert forall|p: (usize, usize)| p != u && recorded(d_old, p) implies recorded(d, p) && rdist(
        d,
        p,
    ) == rdist(d_old, p) by {
        if p.0 == u.0 {
            assert(d[p.0 as int] == d_old[p.0 as int].update(u.1 as int, Some(q[head].1)));
        } else {
            assert(d[p.0 as int] == d_old[p.0 as int]);
        }
    }
    assert forall|p: (usize, usize)| p != u && recorded(d, p) implies recorded(d_old, p) by {
        if p.0 == u.0 {
            assert(d[p.0 as int] == d_old[p.0 as int].update(u.1 as int, Some(q[head].1)));
        } else {
            assert(d[p.0 as int] == d_old[p.0 as int]);
        }
    }
    crate::table::lemma_count_some_update(d_old, u.0 as int, u.1 as int, q[head].1);
    crate::table::lemma_count_some_le_sum(d);
    crate::table::lemma_sum_lens_congruent(d, g);
    // every recorded distance is at most the one just written
    assert forall|p: (usize, usize)| #[trigger] recorded(d, p) implies rdist(d, p) <= dv by {
        if p != u {
            assert(rdist(d_old, p) <= q[head].1);
        }
    }
    // the start is recorded with distance zero
    if crate::table::count_some(d_old) == 0 {
        assert(q[head].1 <= crate::table::count_some(d_old));
        assert(u == s && dv == 0);
    }
    assert(recorded(d, s) && rdist(d, s) == 0);
    // records_ok: descent witnesses carry over, the new cell brings its own
    assert forall|p: (usize, usize)| #[trigger] recorded(d, p) && rdist(d, p) > 0 implies exists|
        w: (usize, usize),
    | #[trigger] recorded(d, w) && adjacent(p, w) && rdist(d, w) + 1 == rdist(d, p) by {
        if p == u {
            let w = choose|w: (usize, usize)|
                #[trigger] recorded(d_old, w) && adjacent(u, w) && rdist(d_old, w) + 1 == dv;
            assert(w != u);
            assert(recorded(d, w) && adjacent(p, w) && rdist(d, w) + 1 == rdist(d, p));
        } else {
            let w = choose|w: (usize, usize)|
                #[trigger] recorded(d_old, w) && adjacent(p, w) && rdist(d_old, w) + 1 == rdist(
                    d_old,
                    p,
                );
            if w == u {
                assert(recorded(d, w) && adjacent(p, w) && rdist(d, w) + 1 == rdist(d, p));
            } else {
                assert(recorded(d, w) && adjacent(p, w) && rdist(d, w) + 1 == rdist(d, p));
            }
        }
    }
    assert forall|p: (usize, usize)| #[trigger] recorded(d, p) && rdist(d, p) == 0 implies p
        == s by {
        if p != u {
            assert(recorded(d_old, p));
        }
    }
    // the remaining queue entries keep their facts
    assert forall|i: int| head + 1 <= i < q.len() implies entry_ok(g, d, s, #[trigger] q[i]) by {
        assert(entry_ok(g, d_old, s, q[i]));
        assert(q[i].0 != u);
        if q[i].1 > 0 {
            let w = choose|w: (usize, usize)|
                #[trigger] recorded(d_old, w) && adjacent(q[i].0, w) && rdist(d_old, w) + 1 == q[
                    i
                ].1;
            assert(w != u ==> recorded(d, w) && rdist(d, w) == rdist(d_old, w));
            assert(recorded(d, w) && adjacent(q[i].0, w) && rdist(d, w) + 1 == q[i].1);
        }
    }
    // the queue never holds the newly recorded cell twice
    assert forall|i: int| head + 1 <= i < q.len() implies dv <= (#[trigger] q[i]).1 <= dv + 1 by {
        assert(q[head].1 <= q[i].1 <= q[head].1 + 1);
    }
    // marks still mean reached-or-queued
    assert forall|p: (usize, usize)|
        (p.0 as int) < g.len() && (p.1 as int) < g[p.0 as int].len() implies ((ev[p.0 as int][p.1
        as int]) <==> (recorded(d, p) || exists|i: int|
        head + 1 <= i < q.len() && (#[trigger] q[i]).0 == p)) by {
        if p == u {
            assert(q[head].0 == p);
            assert(ev[p.0 as int][p.1 as int]);
        } else {
            if exists|i: int| head <= i < q.len() && (#[trigger] q[i]).0 == p {
                let i = choose|i: int| head <= i < q.len() && (#[trigger] q[i]).0 == p;
                assert(i != head);
                assert(q[i].0 == p);
            }
        }
    }
    // every reached cell but the new one was expanded before and stays so
    assert forall|p: (usize, usize), v: (usize, usize)|
        recorded(d, p) && is_nbr(g, p, v) && p != u implies ((recorded(d, v) && rdist(d, v)
        <= rdist(d, p) + 1) || exists|i: int|
        head + 1 <= i < q.len() && (#[trigger] q[i]).0 == v && q[i].1 <= rdist(d, p) + 1) by {
        assert(recorded(d_old, p) && rdist(d, p) == rdist(d_old, p));
        assert((recorded(d_old, v) && rdist(d_old, v) <= rdist(d_old, p) + 1) || exists|i: int|
            head <= i < q.len() && (#[trigger] q[i]).0 == v && q[i].1 <= rdist(d_old, p) + 1);
        if recorded(d_old, v) && rdist(d_old, v) <= rdist(d_old, p) + 1 {
            assert(v != u);
            assert(recorded(d, v) && rdist(d, v) <= rdist(d, p) + 1);
        } else {
            let i = choose|i: int|
                head <= i < q.len() && (#[trigger] q[i]).0 == v && q[i].1 <= rdist(d_old, p) + 1;
            if i == head {
                assert(v == u);
                assert(recorded(d, v) && rdist(d, v) <= rdist(d, p) + 1);
            } else {
                assert(head + 1 <= i < q.len() && q[i].0 == v && q[i].1 <= rdist(d, p) + 1);
            }
        }
    }
    // the exit stays unreached and unbordered by older cells
    assert(u != e);
    assert forall|p: (usize, usize)| #[trigger] recorded(d, p) && p != u implies !(adjacent(p, e)
        && pass_at(g, e)) by {
        assert(recorded(d_old, p));
    }
    assert(!recorded(d, e));
}

/// When the taken cell borders the exit, the search is complete.
proof fn lemma_bfs_found_assemble(
    g: Seq<Seq<char>>,
    d: Seq<Seq<Option<usize>>>,
    q: Seq<((usize, usize), usize)>,
    head: int,
    u: (usize, usize),
    dv: int,
    s: (usize, usize),
    e: (usize, usize),
)
    requires
        records_ok(g, d, s),
        recorded(d, s) && rdist(d, s) == 0,
        recorded(d, u) && rdist(d, u) == dv,
        forall|p: (usize, usize)| #[trigger] recorded(d, p) ==> rdist(d, p) <= dv,
        queue_inv(g, d, q, head, s, e),
        expanded_except(g, d, q, head, u),
        forall|p: (usize, usize)|
            #[trigger] recorded(d, p) && p != u ==> !(adjacent(p, e) && pass_at(g, e)),
        !recorded(d, e),
        is_nbr(g, u, e),
    ensures
        bfs_found(g, d, s, e, u, dv),
{
    // adjacent reached cells differ by at most one step
    assert forall|p: (usize, usize), v: (usize, usize)|
        #![trigger recorded(d, p), recorded(d, v), adjacent(p, v)]
        recorded(d, p) && recorded(d, v) && adjacent(p, v) implies rdist(d, v) <= rdist(d, p)
        + 1 by {
        if p == u {
            assert(rdist(d, v) <= dv);
        } else {
            assert(pass_at(g, v) && adjacent(p, v));
            assert(is_nbr(g, p, v));
            assert((recorded(d, v) && rdist(d, v) <= rdist(d, p) + 1) || exists|i: int|
                head <= i < q.len() && (#[trigger] q[i]).0 == v && q[i].1 <= rdist(d, p) + 1);
            if !(recorded(d, v) && rdist(d, v) <= rdist(d, p) + 1) {
                let i = choose|i: int|
                    head <= i < q.len() && (#[trigger] q[i]).0 == v && q[i].1 <= rdist(d, p) + 1;
                assert(entry_ok(g, d, s, q[i]));
                assert(!recorded(d, q[i].0));
                assert(false);
            }
        }
    }
    // only the stopping cell borders the exit
    assert forall|p: (usize, usize)| #[trigger] recorded(d, p) && adjacent(p, e) implies p == u by {
        if p != u {
            assert(pass_at(g, e));
        }
    }
}

/// When the queue runs dry, the reached cells are closed under adjacency and
/// none borders the exit.
proof fn lemma_bfs_exhausted_assemble(
    g: Seq<Seq<char>>,
    d: Seq<Seq<Option<usize>>>,
    q: Seq<((usize, usize), usize)>,
    head: int,
    s: (usize, usize),
    e: (usize, usize),
)
    requires
        records_ok(g, d, s),
        recorded(d, s) && rdist(d, s) == 0,
        queue_inv(g, d, q, head, s, e),
        expanded_inv(g, d, q, head),
        exit_clear(g, d, e),
        head == q.len(),
    ensures
        bfs_exhausted(g, d, s, e),
{
    assert forall|p: (usize, usize), v: (usize, usize)|
        #![trigger recorded(d, p), is_nbr(g, p, v)]
        recorded(d, p) && is_nbr(g, p, v) implies recorded(d, v) by {
        assert((recorded(d, v) && rdist(d, v) <= rdist(d, p) + 1) || exists|i: int|
            head <= i < q.len() && (#[trigger] q[i]).0 == v && q[i].1 <= rdist(d, p) + 1);
    }
    assert forall|p: (usize, usize), v: (usize, usize)|
        #![trigger recorded(d, p), recorded(d, v), adjacent(p, v)]
        recorded(d, p) && recorded(d, v) && adjacent(p, v) implies rdist(d, v) <= rdist(d, p)
        + 1 by {
        assert(is_nbr(g, p, v));
        assert((recorded(d, v) && rdist(d, v) <= rdist(d, p) + 1) || exists|i: int|
            head <= i < q.len() && (#[trigger] q[i]).0 == v && q[i].1 <= rdist(d, p) + 1);
    }
    assert forall|p: (usize, usize)| #[trigger] recorded(d, p) implies !is_nbr(g, p, e) by {}
}

/// Queueing one unmarked passable neighbor of the just-recorded cell keeps
/// every queue fact.
#[verifier::spinoff_prover]
proof fn lemma_bfs_push(
    g: Seq<Seq<char>>,
    d: Seq<Seq<Option<usize>>>,
    q_old: Seq<((usize, usize), usize)>,
    q: Seq<((usize, usize), usize)>,
    head: int,
    ev_old: Seq<Seq<bool>>,
    ev: Seq<Seq<bool>>,
    s: (usize, usize),
    e: (usize, usize),
    u: (usize, usize),
    dv: usize,
    v: (usize, usize),
)
    requires
        queue_inv(g, d, q_old, head, s, e),
        enq_inv(g, d, q_old, head, ev_old),
        expanded_except(g, d, q_old, head, u),
        forall|i: int| head <= i < q_old.len() ==> dv <= (#[trigger] q_old[i]).1 <= dv + 1,
        forall|p: (usize, usize)| #[trigger] recorded(d, p) ==> rdist(d, p) <= dv as int,
        recorded(d, u) && rdist(d, u) == dv as int,
        is_nbr(g, u, v),
        v != e,
        !ev_old[v.0 as int][v.1 as int],
        dv as int + 1 <= crate::table::count_some(d),
        dv < usize::MAX,
        ev == ev_old.update(v.0 as int, ev_old[v.0 as int].update(v.1 as int, true)),
        q == q_old.push((v, (dv + 1) as usize)),
    ensures
        queue_inv(g, d, q, head, s, e),
        enq_inv(g, d, q, head, ev),
        expanded_except(g, d, q, head, u),
        forall|i: int| head <= i < q.len() ==> dv <= (#[trigger] q[i]).1 <= dv + 1,
        q[q.len() - 1] == (v, (dv + 1) as usize),
{
    assert(pass_at(g, v));
    assert(!recorded(d, v) && !(exists|i: int|
        head <= i < q_old.len() && (#[trigger] q_old[i]).0 == v));
    let last: int = q.len() - 1;
    assert(q[last] == (v, (dv + 1) as usize));
    assert forall|i: int| head <= i < q.len() implies entry_ok(g, d, s, #[trigger] q[i]) by {
        if i < last {
            assert(q[i] == q_old[i]);
            assert(entry_ok(g, d, s, q_old[i]));
        } else {
            assert(recorded(d, u) && adjacent(v, u) && rdist(d, u) + 1 == q[i].1);
        }
    }
    assert forall|i: int, j: int| head <= i <= j < q.len() implies (#[trigger] q[i]).1 <= (
    #[trigger] q[j]).1 && q[j].1 <= q[i].1 + 1 by {
        if j < last {
            assert(q[i] == q_old[i] && q[j] == q_old[j]);
        } else if i < last {
            assert(q[i] == q_old[i]);
            assert(dv <= q_old[i].1 <= dv + 1);
        }
    }
    assert forall|i: int, j: int| head <= i < j < q.len() implies (#[trigger] q[i]).0 != (
    #[trigger] q[j]).0 by {
        if j < last {
            assert(q[i] == q_old[i] && q[j] == q_old[j]);
        } else {
            assert(q[i] == q_old[i]);
            if q[i].0 == v {
                assert(exists|t: int| head <= t < q_old.len() && (#[trigger] q_old[t]).0 == v);
                assert(false);
            }
        }
    }
    assert forall|i: int, p: (usize, usize)|
        #![trigger q[i], recorded(d, p)]
        head <= i < q.len() && recorded(d, p) implies rdist(d, p) <= q[i].1 by {
        if i < last {
            assert(q[i] == q_old[i]);
            assert(rdist(d, p) <= q_old[i].1);
        } else {
            assert(rdist(d, p) <= dv as int);
        }
    }
    assert forall|i: int| head <= i < q.len() implies (#[trigger] q[i]).0 != e by {
        if i < last {
            assert(q[i] == q_old[i]);
            assert(q_old[i].0 != e);
        }
    }
    assert forall|p: (usize, usize)|
        (p.0 as int) < g.len() && (p.1 as int) < g[p.0 as int].len() implies ((ev[p.0 as int][p.1
        as int]) <==> (recorded(d, p) || exists|i: int|
        head <= i < q.len() && (#[trigger] q[i]).0 == p)) by {
        if p == v {
            assert(ev[p.0 as int] == ev_old[p.0 as int].update(v.1 as int, true));
            assert(ev[p.0 as int][p.1 as int]);
            assert(q[last].0 == p);
        } else {
            if p.0 == v.0 {
                assert(ev[p.0 as int] == ev_old[p.0 as int].update(v.1 as int, true));
                assert(ev[p.0 as int][p.1 as int] == ev_old[p.0 as int][p.1 as int]);
            } else {
                assert(ev[p.0 as int] == ev_old[p.0 as int]);
            }
            if exists|i: int| head <= i < q_old.len() && (#[trigger] q_old[i]).0 == p {
                let i = choose|i: int| head <= i < q_old.len() && (#[trigger] q_old[i]).0 == p;
                assert(q[i].0 == p);
            }
            if exists|i: int| head <= i < q.len() && (#[trigger] q[i]).0 == p {
                let i = choose|i: int| head <= i < q.len() && (#[trigger] q[i]).0 == p;
                assert(i < last);
                assert(q_old[i].0 == p);
            }
        }
    }
    assert forall|p: (usize, usize), w: (usize, usize)|
        recorded(d, p) && is_nbr(g, p, w) && p != u implies ((recorded(d, w) && rdist(d, w)
        <= rdist(d, p) + 1) || exists|i: int|
        head <= i < q.len() && (#[trigger] q[i]).0 == w && q[i].1 <= rdist(d, p) + 1) by {
        if !(recorded(d, w) && rdist(d, w) <= rdist(d, p) + 1) {
            let i = choose|i: int|
                head <= i < q_old.len() && (#[trigger] q_old[i]).0 == w && q_old[i].1 <= rdist(
                    d,
                    p,
                ) + 1;
            assert(q[i].0 == w && q[i].1 <= rdist(d, p) + 1);
        }
    }
}

// ------------------------------------------------------------------
// The search as a mathematical function
// ------------------------------------------------------------------
/// A table of one value per grid cell.
pub open spec fn blank_of<T>(g: Seq<Seq<char>>, x: T) -> Seq<Seq<T>> {
    Seq::new(g.len(), |i: int| Seq::new(g[i].len(), |j: int| x))
}

/// The marks and queue after the first `k` cells of one neighbor list have
/// been taken in, exactly as the expansion loop takes them.
pub open spec fn expand_upto(
    g: Seq<Seq<char>>,
    ev0: Seq<Seq<bool>>,
    q0: Seq<((usize, usize), usize)>,
    dv: usize,
    list: Seq<(usize, usize)>,
    k: int,
) -> (Seq<Seq<bool>>, Seq<((usize, usize), usize)>)
    decreases k,
{
    if k <= 0 {
        (ev0, q0)
    } else {
        let prev = expand_upto(g, ev0, q0, dv, list, k - 1);
        let v = list[k - 1];
        if prev.0[v.0 as int][v.1 as int] {
            prev
        } else {
            (
                prev.0.update(v.0 as int, prev.0[v.0 as int].update(v.1 as int, true)),
                prev.1.push((v, (dv + 1) as usize)),
            )
        }
    }
}

/// The whole state of the running search.
pub struct BfsState {
    pub d: Seq<Seq<Option<usize>>>,
    pub ev: Seq<Seq<bool>>,
    pub q: Seq<((usize, usize), usize)>,
    pub head: int,
}

/// One round of the search, exactly as `bfs_step` performs it.
pub open spec fn bfs_round(g: Seq<Seq<char>>, e: (usize, usize), st: BfsState) -> (
    BfsState,
    Option<((usize, usize), usize)>,
) {
    let en = st.q[st.head];
    let u = en.0;
    let dv = en.1;
    let d2 = st.d.update(u.0 as int, st.d[u.0 as int].update(u.1 as int, Some(dv)));
    if nbrs(g, u).contains(e) {
        (BfsState { d: d2, ev: st.ev, q: st.q, head: st.head + 1 }, Some((u, dv)))
    } else {
        let step = expand_upto(g, st.ev, st.q, dv, nbrs(g, u), nbrs(g, u).len() as int);
        (BfsState { d: d2, ev: step.0, q: step.1, head: st.head + 1 }, None)
    }
}

/// The search run to its end: the final distance field, and the stopping
/// cell with its distance if the exit was met.
pub open spec fn bfs_iter(g: Seq<Seq<char>>, e: (usize, usize), st: BfsState, fuel: nat) -> (
    Seq<Seq<Option<usize>>>,
    Option<((usize, usize), usize)>,
)
    decreases fuel,
{
    if st.head >= st.q.len() || fuel == 0 {
        (st.d, None)
    } else {
        let round = bfs_round(g, e, st);
        if round.1 is Some {
            (round.0.d, round.1)
        } else {
            bfs_iter(g, e, round.0, (fuel - 1) as nat)
        }
    }
}

/// The search's starting state: nothing recorded, the start queued and
/// marked.
pub open spec fn bfs_init(g: Seq<Seq<char>>, s: (usize, usize)) -> BfsState {
    BfsState {
        d: blank_of(g, Option::<usize>::None),
        ev: blank_of(g, false).update(
            s.0 as int,
            blank_of(g, false)[s.0 as int].update(s.1 as int, true),
        ),
        q: seq![(s, 0usize)],
        head: 0,
    }
}

/// The whole search as a function of the grid alone; one unit of fuel per
/// cell always suffices.
pub open spec fn bfs_run(g: Seq<Seq<char>>, s: (usize, usize), e: (usize, usize)) -> (
    Seq<Seq<Option<usize>>>,
    Option<((usize, usize), usize)>,
) {
    bfs_iter(g, e, bfs_init(g, s), (crate::table::sum_lens(g) + 1) as nat)
}

/// Mark and queue every not-yet-marked cell of one neighbor list, one step
/// beyond the cell whose list it is.
#[verifier::loop_isolation(false)]
#[verifier::rlimit(100)]
#[verifier::spinoff_prover]
fn bfs_expand(
    list: &Vec<(usize, usize)>,
    enq: &mut Vec<Vec<bool>>,
    queue: &mut Vec<((usize, usize), usize)>,
    head: usize,
    dv: usize,
    Ghost(g): Ghost<Seq<Seq<char>>>,
    Ghost(d): Ghost<Seq<Seq<Option<usize>>>>,
    Ghost(s): Ghost<(usize, usize)>,
    Ghost(e): Ghost<(usize, usize)>,
    Ghost(u): Ghost<(usize, usize)>,
)
    requires
        grid_fits(g),
        list@ == nbrs(g, u),
        !is_nbr(g, u, e),
        queue_inv(g, d, old(queue)@, head as int, s, e),
        enq_inv(g, d, old(queue)@, head as int, view2(*old(enq))),
        expanded_except(g, d, old(queue)@, head as int, u),
        forall|i: int| head <= i < old(queue)@.len() ==> dv <= (#[trigger] old(queue)@[i]).1 <= dv
            + 1,
        forall|p: (usize, usize)| #[trigger] recorded(d, p) ==> rdist(d, p) <= dv as int,
        recorded(d, u) && rdist(d, u) == dv as int,
        dv as int + 1 <= crate::table::count_some(d),
        crate::table::count_some(d) <= usize::MAX,
    ensures
        queue_inv(g, d, final(queue)@, head as int, s, e),
        enq_inv(g, d, final(queue)@, head as int, view2(*final(enq))),
        expanded_except(g, d, final(queue)@, head as int, u),
        forall|i: int| head <= i < final(queue)@.len() ==> dv <= (#[trigger] final(queue)@[i]).1
            <= dv + 1,
        forall|t: int|
            0 <= t < list@.len() ==> ((recorded(d, #[trigger] list@[t]) && rdist(d, list@[t]) <= dv
                + 1) || exists|i: int|
                head <= i < final(queue)@.len() && (#[trigger] final(queue)@[i]).0 == list@[t]
                    && final(queue)@[i].1 <= dv + 1),
        (view2(*final(enq)), final(queue)@) == expand_upto(
            g,
            view2(*old(enq)),
            old(queue)@,
            dv,
            list@,
            list@.len() as int,
        ),
{
    let ghost ev_init = view2(*enq);
    let ghost q_init = queue@;
    let mut k: usize = 0;
    while k < list.len()
        invariant
            k <= list@.len(),
            head <= queue@.len(),
            forall|t: int|
                0 <= t < k ==> ((recorded(d, #[trigger] list@[t]) && rdist(d, list@[t]) <= dv + 1)
                    || exists|i: int|
                    head <= i < queue@.len() && (#[trigger] queue@[i]).0 == list@[t] && queue@[i].1
                        <= dv + 1),
            queue_inv(g, d, queue@, head as int, s, e),
            enq_inv(g, d, queue@, head as int, view2(*enq)),
            expanded_except(g, d, queue@, head as int, u),
            forall|i: int| head <= i < queue@.len() ==> dv <= (#[trigger] queue@[i]).1 <= dv + 1,
            (view2(*enq), queue@) == expand_upto(g, ev_init, q_init, dv, list@, k as int),
        decreases list@.len() - k,
    {
        let q = list[k];
        proof {
            assert(list@.contains(list@[k as int]));
            lemma_nbrs_iff(g, u, q);
            assert(is_nbr(g, u, q));
            assert(q != e);
            assert(pass_at(g, q));
            assert(view2(*enq).len() == g.len());
            assert(view2(*enq)[q.0 as int].len() == g[q.0 as int].len());
        }
        let seen = enq[q.0][q.1];
        proof {
            assert(expand_upto(g, ev_init, q_init, dv, list@, k + 1) == (if seen {
                (view2(*enq), queue@)
            } else {
                (
                    view2(*enq).update(
                        q.0 as int,
                        view2(*enq)[q.0 as int].update(q.1 as int, true),
                    ),
                    queue@.push((q, (dv + 1) as usize)),
                )
            }));
        }
        if !seen {
            let ghost ev_old = view2(*enq);
            let ghost queue_old = queue@;
            crate::table::set2(enq, q.0, q.1, true);
            queue.push((q, dv + 1));
            proof {
                assert(queue@ =~= queue_old.push((q, (dv + 1) as usize)));
                lemma_bfs_push(
                    g,
                    d,
                    queue_old,
                    queue@,
                    head as int,
                    ev_old,
                    view2(*enq),
                    s,
                    e,
                    u,
                    dv,
                    q,
                );
                assert(queue@[queue@.len() - 1].0 == q);
                assert(queue@[queue@.len() - 1].1 <= dv + 1);
                assert forall|t: int| 0 <= t < k implies ((recorded(d, #[trigger] list@[t])
                    && rdist(d, list@[t]) <= dv + 1) || exists|i: int|
                    head <= i < queue@.len() && (#[trigger] queue@[i]).0 == list@[t] && queue@[i].1
                        <= dv + 1) by {
                    if !(recorded(d, list@[t]) && rdist(d, list@[t]) <= dv + 1) {
                        let i = choose|i: int|
                            head <= i < queue_old.len() && (#[trigger] queue_old[i]).0 == list@[t]
                                && queue_old[i].1 <= dv + 1;
                        assert(queue@[i] == queue_old[i]);
                    }
                }
            }
        } else {
            proof {
                assert(view2(*enq)[q.0 as int][q.1 as int]);
                assert(recorded(d, q) || exists|i: int|
                    head <= i < queue@.len() && (#[trigger] queue@[i]).0 == q);
                if recorded(d, q) {
                    assert(rdist(d, q) <= dv);
                } else {
                    let i = choose|i: int|
                        head <= i < queue@.len() && (#[trigger] queue@[i]).0 == q;
                    assert(queue@[i].1 <= dv + 1);
                }
            }
        }
        k += 1;
    }
}

impl PathDetective {
    /// One round of the search: record the next queued cell's distance, stop
    /// if the exit borders it, and otherwise queue its unseen neighbors.
    #[verifier::loop_isolation(false)]
    #[verifier::rlimit(100)]
    #[verifier::spinoff_prover]
    fn bfs_step(
        &self,
        graph: &AdjacencyGraph,
        distance: &mut Vec<Vec<Option<usize>>>,
        enq: &mut Vec<Vec<bool>>,
        queue: &mut Vec<((usize, usize), usize)>,
        head: usize,
    ) -> (found: Option<((usize, usize), usize)>)
        requires
            graph.matches(view2(self.grid_info.grid)),
            crate::table::sum_lens(view2(self.grid_info.grid)) <= usize::MAX,
            bfs_inv(
                view2(self.grid_info.grid),
                view2(*old(distance)),
                old(queue)@,
                head as int,
                view2(*old(enq)),
                self.grid_info.start_pos,
                self.grid_info.exit_pos,
            ),
            (head as int) < old(queue)@.len(),
        ensures
            ({
                let g = view2(self.grid_info.grid);
                let d = view2(*final(distance));
                let s = self.grid_info.start_pos;
                let e = self.grid_info.exit_pos;
                &&& crate::table::count_some(d) == crate::table::count_some(view2(*old(distance)))
                    + 1
                &&& crate::table::count_some(d) <= crate::table::sum_lens(g)
                &&& (head as int) + 1 <= final(queue)@.len()
                &&& match found {
                    Some(f) => bfs_found(g, d, s, e, f.0, f.1 as int),
                    None => bfs_inv(g, d, final(queue)@, head as int + 1, view2(*final(enq)), s, e),
                }
                &&& ({
                    let round = bfs_round(
                        g,
                        e,
                        BfsState {
                            d: view2(*old(distance)),
                            ev: view2(*old(enq)),
                            q: old(queue)@,
                            head: head as int,
                        },
                    );
                    &&& d == round.0.d
                    &&& view2(*final(enq)) == round.0.ev
                    &&& final(queue)@ == round.0.q
                    &&& found == round.1
                })
            }),
    {
        let ghost g = view2(self.grid_info.grid);
        let s = self.grid_info.start_pos;
        let e = self.grid_info.exit_pos;
        proof {
            lemma_view2_fits(&self.grid_info.grid);
        }
        let entry = queue[head];
        let u = entry.0;
        let dv: usize = entry.1;
        let ghost d_old = view2(*distance);
        proof {
            assert(entry_ok(g, d_old, s, queue@[head as int]));
        }
        crate::table::set2(distance, u.0, u.1, Some(dv));
        let ghost d = view2(*distance);
        proof {
            lemma_bfs_pop(g, d_old, d, queue@, head as int, view2(*enq), s, e);
        }
        // look the cell's neighbors up
        let nb_opt = graph.connected_case(u.0, u.1);
        proof {
            assert(graph.cases@[u.0 as int]@[u.1 as int] is Some);
        }
        let list = nb_opt.unwrap();
        proof {
            assert(list@ == nbrs(g, u));
        }
        // does the exit border this cell?
        let mut adj_exit = false;
        let mut k: usize = 0;
        while k < list.len()
            invariant
                k <= list@.len(),
                adj_exit == exists|t: int| 0 <= t < k && #[trigger] list@[t] == e,
            decreases list@.len() - k,
        {
            let q = list[k];
            if q.0 == e.0 && q.1 == e.1 {
                assert(list@[k as int] == e);
                adj_exit = true;
            }
            k += 1;
        }
        if adj_exit {
            proof {
                let t = choose|t: int| 0 <= t < list@.len() && #[trigger] list@[t] == e;
                assert(nbrs(g, u).contains(e));
                lemma_nbrs_iff(g, u, e);
                assert(is_nbr(g, u, e));
                lemma_bfs_found_assemble(g, d, queue@, head as int + 1, u, dv as int, s, e);
            }
            return Some((u, dv));
        }
        proof {
            if nbrs(g, u).contains(e) {
                let t = choose|t: int| 0 <= t < nbrs(g, u).len() && nbrs(g, u)[t] == e;
                assert(list@[t] == e);
                assert(false);
            }
        }
        proof {
            lemma_nbrs_iff(g, u, e);
            assert(!nbrs(g, u).contains(e));
            assert(!is_nbr(g, u, e));
            vstd::std_specs::vec::axiom_spec_len(&*queue);
        }
        bfs_expand(
            list,
            enq,
            queue,
            head + 1,
            dv,
            Ghost(g),
            Ghost(d),
            Ghost(s),
            Ghost(e),
            Ghost(u),
        );
        proof {
            // every reached cell, the new one included, is expanded again
            assert forall|p: (usize, usize), v: (usize, usize)|
                recorded(d, p) && is_nbr(g, p, v) implies ((recorded(d, v) && rdist(d, v) <= rdist(
                d,
                p,
            ) + 1) || exists|i: int|
                head as int + 1 <= i < queue@.len() && (#[trigger] queue@[i]).0 == v && queue@[i].1
                    <= rdist(d, p) + 1) by {
                if p == u {
                    lemma_nbrs_iff(g, u, v);
                    assert(nbrs(g, u).contains(v));
                    let t = choose|t: int| 0 <= t < list@.len() && list@[t] == v;
                    assert(list@[t] == v);
                }
            }
            assert forall|p: (usize, usize)| #[trigger] recorded(d, p) implies !(adjacent(p, e)
                && pass_at(g, e)) by {
                if p == u {
                    assert(!is_nbr(g, u, e));
                }
            }
            assert(bfs_inv(g, d, queue@, head as int + 1, view2(*enq), s, e));
        }
        None
    }

    /// Breadth-first search of step counts from the start. Stops the moment
    /// a reached cell's neighbor list holds the exit, and returns that cell
    /// with its distance; reports `StartUnreachable` when the start itself is
    /// not passable, and `NoPathFound` when the search runs dry.
    #[verifier::loop_isolation(false)]
    #[verifier::rlimit(100)]
    #[verifier::spinoff_prover]
    pub fn fill_intersection_distance(&self, graph: &AdjacencyGraph) -> (r: (
        DistanceField,
        Result<((usize, usize), usize), Error>,
    ))
        requires
            graph.matches(view2(self.grid_info.grid)),
            crate::table::sum_lens(view2(self.grid_info.grid)) <= usize::MAX,
            self.grid_info.start_pos != self.grid_info.exit_pos,
        ensures
            ({
                let g = view2(self.grid_info.grid);
                let d = view2(r.0.distance);
                let s = self.grid_info.start_pos;
                let e = self.grid_info.exit_pos;
                &&& dims_match(d, g)
                &&& (r.1 == Err::<((usize, usize), usize), Error>(Error::StartUnreachable) <==> !pass_at(g, s))
                &&& match r.1 {
                    Ok(f) => bfs_found(g, d, s, e, f.0, f.1 as int),
                    Err(Error::StartUnreachable) => true,
                    Err(Error::NoPathFound) => pass_at(g, s) && bfs_exhausted(g, d, s, e),
                    Err(_) => false,
                }
                &&& (pass_at(g, s) ==> bfs_run(g, s, e) == (
                    d,
                    match r.1 {
                        Ok(f) => Some(f),
                        Err(_) => Option::<((usize, usize), usize)>::None,
                    },
                ))
            }),
    {
        let ghost g = view2(self.grid_info.grid);
        let grid = &self.grid_info.grid;
        let s = self.grid_info.start_pos;
        let e = self.grid_info.exit_pos;
        let ghost fuel0 = (crate::table::sum_lens(g) + 1) as nat;
        proof {
            lemma_view2_fits(grid);
        }
        let mut distance: Vec<Vec<Option<usize>>> = blank_table(grid, None);
        proof {
            assert forall|p: (usize, usize)| !recorded(view2(distance), p) by {
                if (p.0 as int) < g.len() && (p.1 as int) < g[p.0 as int].len() {
                    assert(view2(distance)[p.0 as int][p.1 as int] is None);
                }
            }
            crate::table::lemma_count_some_zero(view2(distance));
        }
        if !self.is_valid_case(s.0, s.1) {
            return (DistanceField { distance }, Err(Error::StartUnreachable));
        }
        let mut enq: Vec<Vec<bool>> = blank_table(grid, false);
        let mut queue: Vec<((usize, usize), usize)> = Vec::new();
        queue.push((s, 0));
        crate::table::set2(&mut enq, s.0, s.1, true);
        let mut head: usize = 0;
        let mut found: Option<((usize, usize), usize)> = None;
        let mut done = false;
        proof {
            assert(queue@[0].0 == s);
            assert forall|p: (usize, usize)|
                (p.0 as int) < g.len() && (p.1 as int) < g[p.0 as int].len() implies ((view2(enq)[
                p.0 as int][p.1 as int]) <==> (recorded(view2(distance), p) || exists|i: int|
                0 <= i < queue@.len() && (#[trigger] queue@[i]).0 == p)) by {
                if p == s {
                    assert(view2(enq)[p.0 as int][p.1 as int]);
                    assert(queue@[0].0 == p);
                } else {
                    assert(view2(enq)[p.0 as int][p.1 as int] == false);
                }
            }
            assert(bfs_inv(g, view2(distance), queue@, 0, view2(enq), s, e));
            // the state in hand is exactly the search's starting state
            assert(view2(distance) =~~= blank_of(g, Option::<usize>::None));
            assert(view2(enq) =~~= bfs_init(g, s).ev) by {
                assert(view2(enq) == crate::table::view2(enq));
                assert forall|a: int| 0 <= a < g.len() implies view2(enq)[a] =~= bfs_init(g, s).ev[a] by {
                    if a == s.0 as int {
                        assert(blank_of(g, false)[a] =~= Seq::new(g[a].len(), |j: int| false));
                    }
                }
            }
            assert(queue@ =~= seq![(s, 0usize)]);
            assert(bfs_iter(g, e, BfsState { d: view2(distance), ev: view2(enq), q: queue@, head: 0 }, fuel0)
                == bfs_run(g, s, e));
        }
        while !done && head < queue.len()
            invariant
                done == (found is Some),
                found matches Some(f) ==> bfs_found(g, view2(distance), s, e, f.0, f.1 as int),
                head <= queue@.len(),
                crate::table::count_some(view2(distance)) + queue@.len() - head >= 1,
                crate::table::count_some(view2(distance)) <= crate::table::sum_lens(g),
                found is None ==> bfs_inv(
                    g,
                    view2(distance),
                    queue@,
                    head as int,
                    view2(enq),
                    s,
                    e,
                ),
                found is None ==> bfs_iter(
                    g,
                    e,
                    BfsState { d: view2(distance), ev: view2(enq), q: queue@, head: head as int },
                    (fuel0 - crate::table::count_some(view2(distance))) as nat,
                ) == bfs_run(g, s, e),
                found matches Some(f) ==> bfs_run(g, s, e) == (view2(distance), Some(f)),
            decreases crate::table::sum_lens(g) - crate::table::count_some(view2(distance)),
        {
            let ghost st_before = BfsState {
                d: view2(distance),
                ev: view2(enq),
                q: queue@,
                head: head as int,
            };
            let ghost fuel_before = (fuel0 - crate::table::count_some(view2(distance))) as nat;
            let step = self.bfs_step(graph, &mut distance, &mut enq, &mut queue, head);
            head += 1;
            proof {
                let round = bfs_round(g, e, st_before);
                let st_after = BfsState {
                    d: view2(distance),
                    ev: view2(enq),
                    q: queue@,
                    head: head as int,
                };
                assert(st_after == round.0);
                assert(fuel_before >= 1);
                assert(bfs_iter(g, e, st_before, fuel_before) == (if round.1 is Some {
                    (round.0.d, round.1)
                } else {
                    bfs_iter(g, e, round.0, (fuel_before - 1) as nat)
                }));
            }
            match step {
                Some(f) => {
                    found = Some(f);
                    done = true;
                },
                None => {},
            }
        }
        let field = DistanceField { distance };
        match found {
            Some(f) => (field, Ok(f)),
            None => {
                proof {
                    let d = view2(field.distance);
                    assert(crate::table::count_some(d) >= 1);
                    assert(recorded(d, s) && rdist(d, s) == 0);
                    lemma_bfs_exhausted_assemble(g, d, queue@, head as int, s, e);
                    let st = BfsState { d, ev: view2(enq), q: queue@, head: head as int };
                    assert(bfs_iter(g, e, st, (fuel0 - crate::table::count_some(d)) as nat) == (
                        d,
                        Option::<((usize, usize), usize)>::None,
                    ));
                }
                (field, Err(Error::NoPathFound))
            },
        }
    }
}

// ------------------------------------------------------------------
// Paths and reachability
// ------------------------------------------------------------------
/// The step onto the cell at `i` from the cell before it is walkable.
pub open spec fn path_step(g: Seq<Seq<char>>, p: Seq<(usize, usize)>, i: int) -> bool {
    is_nbr(g, p[i - 1], p[i])
}

/// Read backwards: the cell before `i` is a passable neighbor of the cell at
/// `i` (the walk from the exit discovers paths in this direction).
pub open spec fn back_step(g: Seq<Seq<char>>, p: Seq<(usize, usize)>, i: int) -> bool {
    is_nbr(g, p[i], p[i - 1])
}

/// A walkable sequence of cells: nonempty, starting on a passable cell, each
/// next cell a passable neighbor of the one before.
pub open spec fn valid_path(g: Seq<Seq<char>>, p: Seq<(usize, usize)>) -> bool {
    &&& p.len() >= 1
    &&& pass_at(g, p[0])
    &&& forall|i: int| 1 <= i < p.len() ==> #[trigger] path_step(g, p, i)
}

/// Some walkable sequence leads from `s` to `e`.
pub open spec fn path_exists(g: Seq<Seq<char>>, s: (usize, usize), e: (usize, usize)) -> bool {
    exists|p: Seq<(usize, usize)>| valid_path(g, p) && p[0] == s && p.last() == e
}

#[verifier::rlimit(50)]
proof fn lemma_path_stays_recorded(
    g: Seq<Seq<char>>,
    d: Seq<Seq<Option<usize>>>,
    p: Seq<(usize, usize)>,
    i: int,
)
    requires
        valid_path(g, p),
        recorded(d, p[0]),
        forall|a: (usize, usize), b: (usize, usize)|
            #![trigger recorded(d, a), is_nbr(g, a, b)]
            recorded(d, a) && is_nbr(g, a, b) ==> recorded(d, b),
        0 <= i < p.len(),
    ensures
        recorded(d, p[i]),
    decreases i,
{
    if i > 0 {
        lemma_path_stays_recorded(g, d, p, i - 1);
        assert(path_step(g, p, i));
        assert(is_nbr(g, p[i - 1], p[i]));
    }
}

/// When the search ran dry, no walkable sequence reaches the exit: the
/// reached cells are closed under adjacency, and none of them borders it.
#[verifier::rlimit(50)]
pub proof fn lemma_blocked(
    g: Seq<Seq<char>>,
    d: Seq<Seq<Option<usize>>>,
    s: (usize, usize),
    e: (usize, usize),
)
    requires
        bfs_exhausted(g, d, s, e),
        s != e,
    ensures
        !path_exists(g, s, e),
{
    if path_exists(g, s, e) {
        let p = choose|p: Seq<(usize, usize)>| valid_path(g, p) && p[0] == s && p.last() == e;
        assert(p.len() >= 2);
        lemma_path_stays_recorded(g, d, p, p.len() - 2);
        assert(path_step(g, p, p.len() - 1));
        assert(is_nbr(g, p[p.len() - 2], e));
        assert(false);
    }
}

/// The round trip of a finished search: the start lies at distance zero, and
/// every reached cell at positive distance has a neighbor exactly one step
/// closer to the start.
pub proof fn lemma_distance_round_trip(
    g: Seq<Seq<char>>,
    d: Seq<Seq<Option<usize>>>,
    s: (usize, usize),
    e: (usize, usize),
    u: (usize, usize),
    du: int,
)
    requires
        bfs_found(g, d, s, e, u, du),
    ensures
        recorded(d, s) && rdist(d, s) == 0,
        forall|p: (usize, usize)|
            #[trigger] recorded(d, p) && rdist(d, p) > 0 ==> exists|w: (usize, usize)|
                #[trigger] recorded(d, w) && is_nbr(g, p, w) && rdist(d, w) + 1 == rdist(d, p),
{
    assert forall|p: (usize, usize)| #[trigger] recorded(d, p) && rdist(d, p) > 0 implies exists|
        w: (usize, usize),
    | #[trigger] recorded(d, w) && is_nbr(g, p, w) && rdist(d, w) + 1 == rdist(d, p) by {
        let w = choose|w: (usize, usize)|
            #[trigger] recorded(d, w) && adjacent(p, w) && rdist(d, w) + 1 == rdist(d, p);
        assert(pass_at(g, w));
        assert(is_nbr(g, p, w));
    }
}

/// What the walk knows of its visited marks and its partial path, after the
/// cursor itself has been marked: every cell of the path is marked and
/// passable, and every marked cell lies on the path.
pub open spec fn walk_marks(
    g: Seq<Seq<char>>,
    vis: Seq<Seq<bool>>,
    p: Seq<(usize, usize)>,
) -> bool {
    &&& forall|i: int|
        0 <= i < p.len() ==> (pass_at(g, #[trigger] p[i]) && vis[p[i].0 as int][p[i].1 as int])
    &&& forall|q: (usize, usize)|
        #![trigger vis[q.0 as int][q.1 as int]]
        ((q.0 as int) < g.len() && (q.1 as int) < g[q.0 as int].len() && vis[q.0 as int][q.1
            as int]) ==> exists|i: int| 0 <= i < p.len() && #[trigger] p[i] == q
}

/// What the walk knows of its partial path after a finished search: the walk
/// left the exit and has descended one distance step per cell.
pub open spec fn walk_descent(
    g: Seq<Seq<char>>,
    d: Seq<Seq<Option<usize>>>,
    p: Seq<(usize, usize)>,
    du: int,
) -> bool {
    &&& forall|j: int|
        0 <= j < p.len() - 1 ==> (recorded(d, #[trigger] p[j]) && rdist(d, p[j]) == du + 2 - p.len()
            + j)
}

// ------------------------------------------------------------------
// The walk as a mathematical function
// ------------------------------------------------------------------
/// The first unvisited recorded cell with the smallest distance among the
/// first `k` of a neighbor list, exactly as the scanning loop keeps it.
pub open spec fn scan_upto(
    d: Seq<Seq<Option<usize>>>,
    vis: Seq<Seq<bool>>,
    list: Seq<(usize, usize)>,
    k: int,
) -> Option<((usize, usize), usize)>
    decreases k,
{
    if k <= 0 {
        None
    } else {
        let prev = scan_upto(d, vis, list, k - 1);
        let v = list[k - 1];
        if !vis[v.0 as int][v.1 as int] && recorded(d, v) {
            let dq = d[v.0 as int][v.1 as int]->0;
            match prev {
                Option::None => Some((v, dq)),
                Option::Some(b) => if dq < b.1 {
                    Some((v, dq))
                } else {
                    prev
                },
            }
        } else {
            prev
        }
    }
}

/// The state of the running walk.
pub struct WalkState {
    pub vis: Seq<Seq<bool>>,
    pub path: Seq<(usize, usize)>,
    pub cursor: (usize, usize),
}

/// The walk run to its end, exactly as `find_best_intersection` performs it.
pub open spec fn walk_iter(
    g: Seq<Seq<char>>,
    d: Seq<Seq<Option<usize>>>,
    s: (usize, usize),
    st: WalkState,
    fuel: nat,
) -> Result<Seq<(usize, usize)>, Error>
    decreases fuel,
{
    if st.cursor == s {
        Ok(st.path)
    } else if fuel == 0 || !pass_at(g, st.cursor) {
        Err(Error::PathReconstructionFailed)
    } else {
        let c = st.cursor;
        let vis2 = st.vis.update(c.0 as int, st.vis[c.0 as int].update(c.1 as int, true));
        match scan_upto(d, vis2, nbrs(g, c), nbrs(g, c).len() as int) {
            Option::None => Err(Error::PathReconstructionFailed),
            Option::Some(b) => walk_iter(
                g,
                d,
                s,
                WalkState { vis: vis2, path: seq![b.0] + st.path, cursor: b.0 },
                (fuel - 1) as nat,
            ),
        }
    }
}

/// The whole walk as a function of the grid and the distance field; one unit
/// of fuel per cell always suffices.
pub open spec fn walk_run(
    g: Seq<Seq<char>>,
    d: Seq<Seq<Option<usize>>>,
    s: (usize, usize),
    e: (usize, usize),
) -> Result<Seq<(usize, usize)>, Error> {
    walk_iter(
        g,
        d,
        s,
        WalkState { vis: blank_of(g, false), path: seq![e], cursor: e },
        (crate::table::sum_lens(g) + 1) as nat,
    )
}

/// A walk recorded backwards from the exit, read forwards, is a valid path.
#[verifier::rlimit(50)]
proof fn lemma_forward_path(g: Seq<Seq<char>>, p: Seq<(usize, usize)>, s: (usize, usize), e: (usize, usize))
    requires
        p.len() >= 1,
        p[0] == s,
        p.last() == e,
        pass_at(g, s),
        pass_at(g, e),
        forall|i: int| 1 <= i < p.len() ==> #[trigger] back_step(g, p, i),
    ensures
        valid_path(g, p),
        path_exists(g, s, e),
{
    assert forall|i: int| 1 <= i < p.len() implies #[trigger] path_step(g, p, i) by {
        assert(back_step(g, p, i));
        assert(is_nbr(g, p[i], p[i - 1]));
        if i < p.len() - 1 {
            assert(back_step(g, p, i + 1));
            assert(is_nbr(g, p[i + 1], p[i]));
        } else {
            assert(p[i] == e);
        }
    }
    assert(valid_path(g, p));
}

/// Under a finished search, the walk's next cell is always there: some
/// unvisited neighbor of the cursor has a recorded distance.
#[verifier::rlimit(100)]
#[verifier::spinoff_prover]
proof fn lemma_walk_candidate(
    g: Seq<Seq<char>>,
    d: Seq<Seq<Option<usize>>>,
    s: (usize, usize),
    e: (usize, usize),
    u: (usize, usize),
    du: int,
    p: Seq<(usize, usize)>,
    vis: Seq<Seq<bool>>,
) -> (w: (usize, usize))
    requires
        bfs_found(g, d, s, e, u, du),
        grid_fits(g),
        p.len() >= 1,
        p.last() == e,
        p.len() == 1 ==> p[0] == e,
        p[0] != s,
        p.len() >= 2 ==> recorded(d, p[0]) && rdist(d, p[0]) == du + 2 - p.len(),
        walk_descent(g, d, p, du),
        walk_marks(g, vis, p),
    ensures
        recorded(d, w),
        is_nbr(g, p[0], w),
        !vis[w.0 as int][w.1 as int],
        rdist(d, w) == du + 2 - (p.len() + 1),
        forall|v: (usize, usize)|
            recorded(d, v) && is_nbr(g, p[0], v) && !vis[v.0 as int][v.1 as int] ==> rdist(d, w)
                <= #[trigger] rdist(d, v),
{
    let cursor = p[0];
    if p.len() == 1 {
        // the cursor is the exit; its only reached neighbor is the stopping
        // cell, one step away from nothing yet visited but the exit itself
        assert(is_nbr(g, u, e) && pass_at(g, e));
        assert(is_nbr(g, e, u));
        assert(u != e);
        assert(pass_at(g, u));
        if vis[u.0 as int][u.1 as int] {
            let i = choose|i: int| 0 <= i < p.len() && #[trigger] p[i] == u;
            assert(false);
        }
        assert forall|v: (usize, usize)|
            recorded(d, v) && is_nbr(g, e, v) && !vis[v.0 as int][v.1 as int] implies rdist(d, u)
            <= #[trigger] rdist(d, v) by {
            assert(adjacent(v, e));
            assert(v == u);
        }
        assert(rdist(d, u) == du);
        u
    } else {
        let dc = rdist(d, cursor);
        assert(dc == du + 2 - p.len());
        assert(recorded(d, cursor) && rdist(d, cursor) != 0);
        assert(dc > 0);
        let w = choose|w: (usize, usize)|
            #[trigger] recorded(d, w) && adjacent(cursor, w) && rdist(d, w) + 1 == dc;
        assert(pass_at(g, w));
        assert(is_nbr(g, cursor, w));
        // the witness lies strictly closer than anything on the path
        assert forall|i: int| 0 <= i < p.len() implies #[trigger] p[i] != w by {
            if i < p.len() - 1 {
                assert(recorded(d, p[i]) && rdist(d, p[i]) == du + 2 - p.len() + i);
            } else {
                assert(p[i] == e && !recorded(d, e));
            }
        }
        if vis[w.0 as int][w.1 as int] {
            let i = choose|i: int| 0 <= i < p.len() && #[trigger] p[i] == w;
            assert(false);
        }
        // and nothing unvisited can lie closer than one step below the cursor
        assert forall|v: (usize, usize)|
            recorded(d, v) && is_nbr(g, cursor, v) && !vis[v.0 as int][v.1 as int] implies rdist(
            d,
            w,
        ) <= #[trigger] rdist(d, v) by {
            assert(adjacent(cursor, v));
            assert(adjacent(v, cursor));
            assert(rdist(d, cursor) <= rdist(d, v) + 1);
        }
        w
    }
}

/// The whole computation as a function of the grid, the start and the exit:
/// the one path the pipeline finds, or the one error it reports.
pub open spec fn spec_find_path(g: Seq<Seq<char>>, s: (usize, usize), e: (usize, usize)) -> Result<
    Seq<(usize, usize)>,
    Error,
> {
    if !pass_at(g, s) {
        Err(Error::StartUnreachable)
    } else if s == e {
        Ok(seq![s])
    } else {
        let run = bfs_run(g, s, e);
        if run.1 is Some {
            walk_run(g, run.0, s, e)
        } else {
            Err(Error::NoPathFound)
        }
    }
}

/// The result `r` is the one `spec_find_path` prescribes.
pub open spec fn outcome_of(
    g: Seq<Seq<char>>,
    s: (usize, usize),
    e: (usize, usize),
    r: Result<Vec<(usize, usize)>, Error>,
) -> bool {
    match r {
        Ok(p) => spec_find_path(g, s, e) == Ok::<Seq<(usize, usize)>, Error>(p@),
        Err(err) => spec_find_path(g, s, e) == Err::<Seq<(usize, usize)>, Error>(err),
    }
}

/// Running the whole pipeline twice on one description yields the identical
/// path: any two models of the same text, and any two results each as the
/// pipeline prescribes for its model, agree.
pub proof fn lemma_pipeline_idempotent(
    s: Seq<char>,
    a: GridInfo,
    b: GridInfo,
    r1: Result<Vec<(usize, usize)>, Error>,
    r2: Result<Vec<(usize, usize)>, Error>,
)
    requires
        crate::grid_info::model_of(s, a),
        crate::grid_info::model_of(s, b),
        outcome_of(view2(a.grid), a.start_pos, a.exit_pos, r1),
        outcome_of(view2(b.grid), b.start_pos, b.exit_pos, r2),
    ensures
        r1 is Ok <==> r2 is Ok,
        r1 is Ok && r2 is Ok ==> r1->Ok_0@ == r2->Ok_0@,
        r1 is Err && r2 is Err ==> r1->Err_0 == r2->Err_0,
{
    crate::grid_info::lemma_model_determined(s, a, b);
}

impl PathDetective {
    /// Walk back from the exit, always to the unvisited neighbor with the
    /// smallest recorded distance, until the start is reached; the path comes
    /// back in start-to-exit order. Each discovered cell goes to the sink,
    /// the start itself last, as the signal that the walk is done. After a
    /// finished search this always succeeds, with exactly one cell per
    /// distance step.
    #[verifier::loop_isolation(false)]
    #[verifier::rlimit(100)]
    #[verifier::spinoff_prover]
    pub fn find_best_intersection(&self, graph: &AdjacencyGraph, field: &DistanceField) -> (r:
        Result<Vec<(usize, usize)>, Error>)
        requires
            graph.matches(view2(self.grid_info.grid)),
            crate::table::sum_lens(view2(self.grid_info.grid)) <= usize::MAX,
        ensures
            ({
                let g = view2(self.grid_info.grid);
                let d = view2(field.distance);
                let s = self.grid_info.start_pos;
                let e = self.grid_info.exit_pos;
                &&& match r {
                    Ok(p) => p@.len() >= 1 && p@[0] == s && p@.last() == e && forall|i: int|
                        1 <= i < p@.len() ==> #[trigger] back_step(g, p@, i),
                    Err(err) => err == Error::PathReconstructionFailed,
                }
                &&& forall|u: (usize, usize), du: int|
                    #[trigger] bfs_found(g, d, s, e, u, du) ==> (r matches Ok(p) && p@.len() == du
                        + 2 && forall|i: int|
                        0 <= i <= du ==> recorded(d, #[trigger] p@[i]) && rdist(d, p@[i]) == i)
                &&& match r {
                    Ok(p) => walk_run(g, d, s, e) == Ok::<Seq<(usize, usize)>, Error>(p@),
                    Err(err) => walk_run(g, d, s, e) == Err::<Seq<(usize, usize)>, Error>(err),
                }
            }),
    {
        let ghost g = view2(self.grid_info.grid);
        let grid = &self.grid_info.grid;
        let s = self.grid_info.start_pos;
        let e = self.grid_info.exit_pos;
        let ghost d = view2(field.distance);
        let ghost fuel0 = (crate::table::sum_lens(g) + 1) as nat;
        proof {
            lemma_view2_fits(grid);
        }
        let mut visited: Vec<Vec<bool>> = blank_table(grid, false);
        let mut path: Vec<(usize, usize)> = Vec::new();
        path.push(e);
        let mut cursor = e;
        proof {
            crate::table::lemma_count_true_zero(view2(visited));
            assert(view2(visited) =~~= blank_of(g, false));
            assert(path@ =~= seq![e]);
            assert(walk_iter(
                g,
                d,
                s,
                WalkState { vis: view2(visited), path: path@, cursor },
                fuel0,
            ) == walk_run(g, d, s, e));
        }
        loop
            invariant
                path@.len() >= 1,
                path@[0] == cursor,
                path@.last() == e,
                forall|i: int| 1 <= i < path@.len() ==> #[trigger] back_step(g, path@, i),
                path@.len() == 1 ==> cursor == e,
                dims_match(view2(visited), g),
                crate::table::count_true(view2(visited)) == path@.len() - 1,
                crate::table::count_true(view2(visited)) <= crate::table::sum_lens(g),
                walk_marks(g, view2(visited), path@.drop_first()),
                forall|i: int| 1 <= i < path@.len() ==> #[trigger] path@[i] != cursor,
                forall|u: (usize, usize), du: int|
                    #[trigger] bfs_found(g, d, s, e, u, du) ==> ((path@.len() >= 2 ==> recorded(
                        d,
                        cursor,
                    ) && rdist(d, cursor) == du + 2 - path@.len()) && walk_descent(
                        g,
                        d,
                        path@,
                        du,
                    )),
                walk_iter(
                    g,
                    d,
                    s,
                    WalkState { vis: view2(visited), path: path@, cursor },
                    (fuel0 - crate::table::count_true(view2(visited))) as nat,
                ) == walk_run(g, d, s, e),
            decreases crate::table::sum_lens(g) - crate::table::count_true(view2(visited)),
        {
            let ghost st_now = WalkState { vis: view2(visited), path: path@, cursor };
            let ghost fuel_now = (fuel0 - crate::table::count_true(view2(visited))) as nat;
            proof {
                assert(fuel_now >= 1);
            }
            if cursor.0 == s.0 && cursor.1 == s.1 {
                proof {
                    assert(cursor == s);
                    assert forall|u: (usize, usize), du: int|
                        #[trigger] bfs_found(g, d, s, e, u, du) implies (path@.len() == du + 2
                        && forall|i: int|
                        0 <= i <= du ==> recorded(d, #[trigger] path@[i]) && rdist(d, path@[i])
                            == i) by {
                        let m: int = path@.len() as int;
                        if m == 1 {
                            assert(s == e);
                            assert(recorded(d, s) && !recorded(d, e));
                            assert(false);
                        } else {
                            assert(recorded(d, cursor) && rdist(d, cursor) == du + 2 - m);
                            assert(rdist(d, s) == 0);
                            assert(m == du + 2);
                            assert forall|i: int| 0 <= i <= du implies recorded(
                                d,
                                #[trigger] path@[i],
                            ) && rdist(d, path@[i]) == i by {
                                assert(recorded(d, path@[i]) && rdist(d, path@[i]) == du + 2 - m
                                    + i);
                            }
                        }
                    }
                }
                proof {
                    assert(walk_iter(g, d, s, st_now, fuel_now) == Ok::<
                        Seq<(usize, usize)>,
                        Error,
                    >(path@));
                }
                return Ok(path);
            }
            let nb_opt = graph.connected_case(cursor.0, cursor.1);
            let list = match nb_opt {
                Some(l) => l,
                None => {
                    proof {
                        assert(cursor.0 as int >= g.len() || cursor.1 as int >= g[cursor.0 as int].len()
                            || g[cursor.0 as int][cursor.1 as int] == 'E');
                        assert(!pass_at(g, cursor));
                        assert(walk_iter(g, d, s, st_now, fuel_now) == Err::<
                            Seq<(usize, usize)>,
                            Error,
                        >(Error::PathReconstructionFailed));
                        assert forall|u: (usize, usize), du: int| !bfs_found(
                            g,
                            d,
                            s,
                            e,
                            u,
                            du,
                        ) by {
                            if bfs_found(g, d, s, e, u, du) {
                                if path@.len() == 1 {
                                    assert(cursor == e);
                                    assert(is_nbr(g, u, e));
                                    assert(pass_at(g, e));
                                } else {
                                    assert(recorded(d, cursor));
                                    assert(pass_at(g, cursor));
                                }
                                assert(graph.cases@[cursor.0 as int]@[cursor.1 as int] is Some);
                                assert(false);
                            }
                        }
                    }
                    return Err(Error::PathReconstructionFailed);
                },
            };
            let ghost vis2_spec = st_now.vis.update(
                cursor.0 as int,
                st_now.vis[cursor.0 as int].update(cursor.1 as int, true),
            );
            proof {
                assert(list@ == nbrs(g, cursor));
                assert(pass_at(g, cursor));
            }
            // the cursor becomes visited
            let ghost vis_old = view2(visited);
            proof {
                if vis_old[cursor.0 as int][cursor.1 as int] {
                    let i = choose|i: int|
                        0 <= i < path@.drop_first().len() && #[trigger] path@.drop_first()[i]
                            == cursor;
                    assert(path@[i + 1] == cursor);
                    assert(false);
                }
            }
            crate::table::set2(&mut visited, cursor.0, cursor.1, true);
            let ghost vis = view2(visited);
            proof {
                crate::table::lemma_count_true_update(vis_old, cursor.0 as int, cursor.1 as int);
                crate::table::lemma_count_true_le_sum(vis);
                crate::table::lemma_sum_lens_congruent(vis, g);
                assert forall|i: int| 0 <= i < path@.len() implies (pass_at(g, #[trigger] path@[i])
                    && vis[path@[i].0 as int][path@[i].1 as int]) by {
                    if i == 0 {
                        assert(vis[cursor.0 as int] == vis_old[cursor.0 as int].update(
                            cursor.1 as int,
                            true,
                        ));
                    } else {
                        assert(path@.drop_first()[i - 1] == path@[i]);
                        assert(pass_at(g, path@[i]) && vis_old[path@[i].0 as int][path@[i].1
                            as int]);
                        if path@[i].0 == cursor.0 {
                            assert(vis[path@[i].0 as int] == vis_old[path@[i].0 as int].update(
                                cursor.1 as int,
                                true,
                            ));
                        } else {
                            assert(vis[path@[i].0 as int] == vis_old[path@[i].0 as int]);
                        }
                    }
                }
                assert forall|q: (usize, usize)|
                    ((q.0 as int) < g.len() && (q.1 as int) < g[q.0 as int].len() && vis[q.0
                    as int][q.1 as int]) implies exists|i: int|
                    0 <= i < path@.len() && #[trigger] path@[i] == q by {
                    if q == cursor {
                        assert(path@[0] == q);
                    } else {
                        if q.0 == cursor.0 {
                            assert(vis[q.0 as int] == vis_old[q.0 as int].update(
                                cursor.1 as int,
                                true,
                            ));
                            assert(vis[q.0 as int][q.1 as int] == vis_old[q.0 as int][q.1 as int]);
                        } else {
                            assert(vis[q.0 as int] == vis_old[q.0 as int]);
                        }
                        let i = choose|i: int|
                            0 <= i < path@.drop_first().len() && #[trigger] path@.drop_first()[i]
                                == q;
                        assert(path@[i + 1] == q);
                    }
                }
                assert(walk_marks(g, vis, path@));
                assert(vis == vis2_spec);
            }
            // the unvisited neighbor with the smallest recorded distance
            let mut best: Option<((usize, usize), usize)> = None;
            let mut k: usize = 0;
            while k < list.len()
                invariant
                    k <= list@.len(),
                    best == scan_upto(d, vis, list@, k as int),
                    match best {
                        Option::None => forall|t: int|
                            0 <= t < k ==> !(!vis[(#[trigger] list@[t]).0 as int][list@[t].1
                                as int] && recorded(d, list@[t])),
                        Option::Some(b) => {
                            &&& list@.contains(b.0)
                            &&& !vis[b.0.0 as int][b.0.1 as int]
                            &&& recorded(d, b.0)
                            &&& b.1 == rdist(d, b.0)
                            &&& forall|t: int|
                                0 <= t < k && !vis[(#[trigger] list@[t]).0 as int][list@[t].1
                                    as int] && recorded(d, list@[t]) ==> b.1 <= rdist(d, list@[t])
                        },
                    },
                decreases list@.len() - k,
            {
                let q = list[k];
                proof {
                    assert(list@.contains(list@[k as int]));
                    lemma_nbrs_iff(g, cursor, q);
                    assert(is_nbr(g, cursor, q));
                    assert(pass_at(g, q));
                    assert(vis.len() == g.len());
                    assert(vis[q.0 as int].len() == g[q.0 as int].len());
                }
                let vq = visited[q.0][q.1];
                proof {
                    assert(scan_upto(d, vis, list@, k + 1) == (if !vis[q.0 as int][q.1 as int]
                        && recorded(d, q) {
                        match scan_upto(d, vis, list@, k as int) {
                            Option::None => Some((q, d[q.0 as int][q.1 as int]->0)),
                            Option::Some(b) => if d[q.0 as int][q.1 as int]->0 < b.1 {
                                Some((q, d[q.0 as int][q.1 as int]->0))
                            } else {
                                scan_upto(d, vis, list@, k as int)
                            },
                        }
                    } else {
                        scan_upto(d, vis, list@, k as int)
                    }));
                }
                if !vq {
                    match field.distance_of(q.0, q.1) {
                        Some(dq) => {
                            match best {
                                None => {
                                    best = Some((q, dq));
                                },
                                Some(b) => {
                                    if dq < b.1 {
                                        best = Some((q, dq));
                                    }
                                },
                            }
                        },
                        None => {},
                    }
                }
                k += 1;
            }
            match best {
                None => {
                    proof {
                        assert forall|u: (usize, usize), du: int| !bfs_found(
                            g,
                            d,
                            s,
                            e,
                            u,
                            du,
                        ) by {
                            if bfs_found(g, d, s, e, u, du) {
                                let w = lemma_walk_candidate(g, d, s, e, u, du, path@, vis);
                                lemma_nbrs_iff(g, cursor, w);
                                assert(nbrs(g, cursor).contains(w));
                                let t = choose|t: int| 0 <= t < list@.len() && list@[t] == w;
                                assert(list@[t] == w);
                                assert(false);
                            }
                        }
                        assert(scan_upto(d, vis2_spec, nbrs(g, cursor), nbrs(g, cursor).len() as int)
                            is None);
                        assert(walk_iter(g, d, s, st_now, fuel_now) == Err::<
                            Seq<(usize, usize)>,
                            Error,
                        >(Error::PathReconstructionFailed));
                    }
                    return Err(Error::PathReconstructionFailed);
                },
                Some(b) => {
                    let next = b.0;
                    proof {
                        assert(list@.contains(next));
                        lemma_nbrs_iff(g, cursor, next);
                        assert(is_nbr(g, cursor, next));
                        // under a finished search the step goes exactly one
                        // distance closer
                        assert forall|u: (usize, usize), du: int|
                            #[trigger] bfs_found(g, d, s, e, u, du) implies (recorded(d, next)
                            && rdist(d, next) == du + 2 - (path@.len() + 1)) by {
                            let w = lemma_walk_candidate(g, d, s, e, u, du, path@, vis);
                            lemma_nbrs_iff(g, cursor, w);
                            assert(nbrs(g, cursor).contains(w));
                            let t = choose|t: int| 0 <= t < list@.len() && list@[t] == w;
                            assert(list@[t] == w);
                            assert(b.1 <= rdist(d, w));
                            assert(rdist(d, w) <= rdist(d, next));
                        }
                    }
                    if let Some(sender) = &self.sender {
                        crate::sink::send_case(sender, next);
                    }
                    let ghost path_old = path@;
                    path.insert(0, next);
                    cursor = next;
                    proof {
                        assert(path@ =~= seq![next] + path_old);
                        assert(path@.last() == e);
                        assert(path@.drop_first() =~= path_old);
                        assert forall|i: int| 1 <= i < path@.len() implies #[trigger] back_step(
                            g,
                            path@,
                            i,
                        ) by {
                            if i == 1 {
                                assert(path@[1] == path_old[0]);
                                assert(path@[0] == next);
                            } else {
                                assert(path@[i - 1] == path_old[i - 2]);
                                assert(path@[i] == path_old[i - 1]);
                                assert(back_step(g, path_old, i - 1));
                                assert(is_nbr(g, path_old[i - 1], path_old[i - 2]));
                            }
                        }
                        assert forall|i: int| 1 <= i < path@.len() implies #[trigger] path@[i]
                            != cursor by {
                            assert(path@[i] == path_old[i - 1]);
                            assert(!vis[cursor.0 as int][cursor.1 as int]);
                        }
                        assert forall|u: (usize, usize), du: int|
                            #[trigger] bfs_found(g, d, s, e, u, du) implies ((path@.len() >= 2
                            ==> recorded(d, cursor) && rdist(d, cursor) == du + 2 - path@.len())
                            && walk_descent(g, d, path@, du)) by {
                            let m: int = path@.len() as int;
                            assert(recorded(d, next) && rdist(d, next) == du + 2 - m);
                            assert forall|j: int| 0 <= j < m - 1 implies (recorded(
                                d,
                                #[trigger] path@[j],
                            ) && rdist(d, path@[j]) == du + 2 - m + j) by {
                                if j == 0 {
                                    assert(path@[0] == next);
                                } else {
                                    assert(path@[j] == path_old[j - 1]);
                                    assert(recorded(d, path_old[j - 1]) && rdist(
                                        d,
                                        path_old[j - 1],
                                    ) == du + 2 - (m - 1) + (j - 1));
                                }
                            }
                        }
                        // the step is exactly the mathematical walk's step
                        assert(k as int == list@.len());
                        assert(best == scan_upto(d, vis, list@, list@.len() as int));
                        assert(vis == vis2_spec);
                        assert(list@ == nbrs(g, st_now.cursor));
                        assert(scan_upto(
                            d,
                            vis2_spec,
                            nbrs(g, st_now.cursor),
                            nbrs(g, st_now.cursor).len() as int,
                        ) == Some(b));
                        let st_next = WalkState {
                            vis: vis2_spec,
                            path: seq![next] + path_old,
                            cursor: next,
                        };
                        assert(st_now.cursor != s);
                        assert(pass_at(g, st_now.cursor));
                        assert(walk_iter(g, d, s, st_now, fuel_now) == walk_iter(
                            g,
                            d,
                            s,
                            st_next,
                            (fuel_now - 1) as nat,
                        ));
                        assert(st_next.path =~= path@);
                        assert(st_next == WalkState { vis: view2(visited), path: path@, cursor });
                    }
                },
            }
        }
    }

    /// The whole pipeline: build the adjacency graph, search distances from
    /// the start, and walk the path back from the exit, streaming it to the
    /// sink if one is attached. Fails with `StartUnreachable` exactly when
    /// the start cell is not passable; a start that is its own exit yields
    /// the single-cell path; otherwise a path is returned exactly when one
    /// exists, and `NoPathFound` otherwise. The outcome equals
    /// `spec_find_path` of the grid: a function of the grid alone.
    #[verifier::rlimit(100)]
    #[verifier::spinoff_prover]
    pub fn find_and_transmit_shortest_path(&self) -> (r: Result<Vec<(usize, usize)>, Error>)
        requires
            crate::table::sum_lens(view2(self.grid_info.grid)) <= usize::MAX,
        ensures
            ({
                let g = view2(self.grid_info.grid);
                let s = self.grid_info.start_pos;
                let e = self.grid_info.exit_pos;
                &&& (r == Err::<Vec<(usize, usize)>, Error>(Error::StartUnreachable) <==> !pass_at(
                    g,
                    s,
                ))
                &&& (pass_at(g, s) && s == e ==> (r matches Ok(p) && p@ == seq![s]))
                &&& (pass_at(g, s) && s != e ==> ((r is Ok) <==> path_exists(g, s, e)))
                &&& (r is Err ==> r == Err::<Vec<(usize, usize)>, Error>(Error::StartUnreachable)
                    || r == Err::<Vec<(usize, usize)>, Error>(Error::NoPathFound))
                &&& (r matches Ok(p) ==> p@.len() >= 1 && p@[0] == s && p@.last() == e
                    && valid_path(g, p@))
                &&& outcome_of(g, s, e, r)
            }),
    {
        let ghost g = view2(self.grid_info.grid);
        let s = self.grid_info.start_pos;
        let e = self.grid_info.exit_pos;
        proof {
            lemma_view2_fits(&self.grid_info.grid);
        }
        let graph = self.fill_graph();
        if !self.is_valid_case(s.0, s.1) {
            return Err(Error::StartUnreachable);
        }
        if s.0 == e.0 && s.1 == e.1 {
            let mut p: Vec<(usize, usize)> = Vec::new();
            p.push(s);
            proof {
                assert(p@ =~= seq![s]);
                assert(spec_find_path(g, s, e) == Ok::<Seq<(usize, usize)>, Error>(seq![s]));
            }
            return Ok(p);
        }
        let (field, outcome) = self.fill_intersection_distance(&graph);
        proof {
            assert(bfs_run(g, s, e).0 == view2(field.distance));
        }
        match outcome {
            Err(err) => {
                proof {
                    assert(err == Error::NoPathFound);
                    lemma_blocked(g, view2(field.distance), s, e);
                    assert(bfs_run(g, s, e).1 is None);
                    assert(spec_find_path(g, s, e) == Err::<Seq<(usize, usize)>, Error>(
                        Error::NoPathFound,
                    ));
                }
                Err(err)
            },
            Ok(f) => {
                let ghost d = view2(field.distance);
                let res = self.find_best_intersection(&graph, &field);
                proof {
                    assert(bfs_found(g, d, s, e, f.0, f.1 as int));
                    assert(bfs_run(g, s, e).1 == Some(f));
                    assert(spec_find_path(g, s, e) == walk_run(g, d, s, e));
                }
                match res {
                    Ok(p) => {
                        proof {
                            // read forward, the walked cells form a valid
                            // path witnessing reachability
                            assert(pass_at(g, e));
                            lemma_forward_path(g, p@, s, e);
                        }
                        Ok(p)
                    },
                    // a finished search always reconstructs; this arm cannot
                    // be reached
                    Err(err2) => Err(err2),
                }
            },
        }
    }
}

} // verus!

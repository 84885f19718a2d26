//! A cheapest-first search over a height map, from one cell to another along
//! steps between cells that share an edge.

use crate::heap_state::HeapState;
use vstd::prelude::*;

verus! {

/// A cell of the height map: row index first, column index second.
pub type Cell = (usize, usize);

/// Whether `c` lies inside a grid of `x_len` rows and `y_len` columns.
pub open spec fn in_grid(c: Cell, x_len: nat, y_len: nat) -> bool {
    c.0 < x_len && c.1 < y_len
}

/// Whether two cells share an edge.
pub open spec fn adjacent(a: Cell, b: Cell) -> bool {
    ||| (a.0 == b.0 && (a.1 + 1 == b.1 || b.1 + 1 == a.1))
    ||| (a.1 == b.1 && (a.0 + 1 == b.0 || b.0 + 1 == a.0))
}

/// A usable height map: it has a first row, the first row has a cell, and no
/// row is shorter than the first. The grid searched is as wide as the first
/// row.
pub open spec fn grid_ok(height_map: Seq<Vec<i32>>) -> bool {
    &&& height_map.len() > 0
    &&& height_map[0].len() > 0
    &&& forall|i: int| 0 <= i < height_map.len() ==> (#[trigger] height_map[i]).len() >= height_map[0].len()
}

/// A path from `start` to `end` that stays inside the grid, moves between
/// cells that share an edge, and visits no cell twice.
pub open spec fn valid_path(path: Seq<Cell>, start: Cell, end: Cell, x_len: nat, y_len: nat) -> bool {
    &&& path.len() >= 1
    &&& path[0] == start
    &&& path[path.len() - 1] == end
    &&& forall|i: int| 0 <= i < path.len() ==> in_grid(#[trigger] path[i], x_len, y_len)
    &&& forall|i: int| 0 <= i < path.len() - 1 ==> adjacent(#[trigger] path[i], path[i + 1])
    &&& forall|i: int, j: int| 0 <= i < j < path.len() ==> #[trigger] path[i] != #[trigger] path[j]
}

/// What one step costs: one, plus the height difference it climbs or drops.
pub open spec fn step_cost_spec(from: i32, to: i32) -> int {
    1 + if to >= from {
        to - from
    } else {
        from - to
    }
}

/// The cost of stepping between two heights, held at the largest
/// representable cost where it would exceed it.
pub fn step_cost(from: i32, to: i32) -> (r: usize)
    ensures
        r == if step_cost_spec(from, to) <= usize::MAX {
            step_cost_spec(from, to)
        } else {
            usize::MAX as int
        },
{
    let a: i64 = from as i64;
    let b: i64 = to as i64;
    let climb: i64 = if b >= a {
        b - a
    } else {
        a - b
    };
    let climb: u64 = climb as u64;
    if climb >= usize::MAX as u64 {
        usize::MAX
    } else {
        climb as usize + 1
    }
}

/// The sum of two costs, held at the largest representable cost where it
/// would exceed it.
pub fn add_cost(a: usize, b: usize) -> (r: usize)
    ensures
        r == if a + b <= usize::MAX {
            a + b
        } else {
            usize::MAX as int
        },
{
    if a > usize::MAX - b {
        usize::MAX
    } else {
        a + b
    }
}

/// Takes the greatest entry out of the frontier: a cheapest one, and among
/// equally cheap ones the one that entered first.
pub fn pop_cheapest(frontier: &mut Vec<HeapState>) -> (r: Option<HeapState>)
    ensures
        old(frontier).len() == 0 ==> r is None && final(frontier)@ == old(frontier)@,
        old(frontier).len() > 0 ==> r is Some && exists|k: int|
            {
                &&& 0 <= k < old(frontier).len()
                &&& r == Some(#[trigger] old(frontier)@[k])
                &&& final(frontier)@ == old(frontier)@.remove(k)
                &&& forall|j: int|
                    0 <= j < old(frontier).len() ==> old(frontier)@[k].cost <= (
                    #[trigger] old(frontier)@[j]).cost
                &&& forall|j: int| 0 <= j < k ==> old(frontier)@[k].cost < (#[trigger] old(
                    frontier,
                )@[j]).cost
            },
{
    if frontier.len() == 0 {
        return None;
    }
    let mut best: usize = 0;
    let mut i: usize = 1;
    while i < frontier.len()
        invariant
            frontier@ == old(frontier)@,
            0 <= best < i <= frontier.len(),
            forall|j: int| 0 <= j < i ==> frontier@[best as int].cost <= (#[trigger] frontier@[j]).cost,
            forall|j: int| 0 <= j < best ==> frontier@[best as int].cost < (#[trigger] frontier@[j]).cost,
        decreases frontier.len() - i,
    {
        if frontier[i] > frontier[best] {
            best = i;
        }
        i += 1;
    }
    let taken = frontier.remove(best);
    assert(taken == old(frontier)@[best as int]);
    Some(taken)
}

/// Whether the search has reached `c`.
spec fn seen(cf: Seq<Vec<Option<Cell>>>, c: Cell) -> bool {
    cf[c.0 as int]@[c.1 as int] is Some
}

/// The cell from which the search reached `c`.
spec fn parent(cf: Seq<Vec<Option<Cell>>>, c: Cell) -> Cell {
    cf[c.0 as int]@[c.1 as int]->Some_0
}

/// The position of `c` in the order in which cells were reached.
spec fn rank(order: Map<Cell, nat>, c: Cell) -> nat {
    if order.contains_key(c) {
        order[c]
    } else {
        0
    }
}

/// The bookkeeping grid has `x_len` rows of `y_len` cells each.
spec fn shaped(cf: Seq<Vec<Option<Cell>>>, x_len: nat, y_len: nat) -> bool {
    &&& cf.len() == x_len
    &&& forall|i: int| 0 <= i < x_len ==> (#[trigger] cf[i]).len() == y_len
}

/// Whether `c` waits in the frontier.
spec fn waiting(f: Seq<HeapState>, c: Cell) -> bool {
    exists|i: int| 0 <= i < f.len() && (#[trigger] f[i]).position == c
}

/// Whether every cell of the grid that shares an edge with `c` is reached.
spec fn surrounded(cf: Seq<Vec<Option<Cell>>>, c: Cell, x_len: nat, y_len: nat) -> bool {
    forall|n: Cell| in_grid(n, x_len, y_len) && #[trigger] adjacent(c, n) ==> seen(cf, n)
}

/// How many cells of one row the search has not reached.
spec fn row_unseen(row: Seq<Option<Cell>>) -> nat
    decreases row.len(),
{
    if row.len() == 0 {
        0
    } else {
        row_unseen(row.drop_last()) + if row.last() is None {
            1nat
        } else {
            0nat
        }
    }
}

/// How many cells of the grid the search has not reached.
spec fn grid_unseen(cf: Seq<Vec<Option<Cell>>>) -> nat
    decreases cf.len(),
{
    if cf.len() == 0 {
        0
    } else {
        grid_unseen(cf.drop_last()) + row_unseen(cf.last()@)
    }
}

/// Reaching one more cell of a row leaves one cell fewer unreached.
proof fn lemma_row_visit(row: Seq<Option<Cell>>, j: int, p: Cell)
    requires
        0 <= j < row.len(),
        row[j] is None,
    ensures
        row_unseen(row.update(j, Some(p))) + 1 == row_unseen(row),
    decreases row.len(),
{
    let after = row.update(j, Some(p));
    if j == row.len() - 1 {
        assert(after.drop_last() =~= row.drop_last());
    } else {
        lemma_row_visit(row.drop_last(), j, p);
        assert(after.drop_last() =~= row.drop_last().update(j, Some(p)));
    }
}

/// Reaching one more cell of one row of the grid leaves one cell fewer
/// unreached in the grid.
proof fn lemma_grid_visit(cf: Seq<Vec<Option<Cell>>>, after: Seq<Vec<Option<Cell>>>, i: int)
    requires
        0 <= i < cf.len(),
        after.len() == cf.len(),
        forall|k: int| 0 <= k < cf.len() && k != i ==> (#[trigger] after[k])@ == cf[k]@,
        row_unseen(after[i]@) + 1 == row_unseen(cf[i]@),
    ensures
        grid_unseen(after) + 1 == grid_unseen(cf),
    decreases cf.len(),
{
    if i == cf.len() - 1 {
        lemma_grid_same(cf.drop_last(), after.drop_last());
    } else {
        lemma_grid_visit(cf.drop_last(), after.drop_last(), i);
        assert(after.last()@ == cf.last()@);
    }
}

/// Grids whose rows hold the same cells leave the same number unreached.
proof fn lemma_grid_same(cf: Seq<Vec<Option<Cell>>>, after: Seq<Vec<Option<Cell>>>)
    requires
        after.len() == cf.len(),
        forall|k: int| 0 <= k < cf.len() ==> (#[trigger] after[k])@ == cf[k]@,
    ensures
        grid_unseen(after) == grid_unseen(cf),
    decreases cf.len(),
{
    if cf.len() > 0 {
        lemma_grid_same(cf.drop_last(), after.drop_last());
        assert(after.last()@ == cf.last()@);
    }
}

/// The distance between two cells in steps.
spec fn steps_between(a: Cell, b: Cell) -> nat {
    let dx = if a.0 >= b.0 {
        a.0 - b.0
    } else {
        b.0 - a.0
    };
    let dy = if a.1 >= b.1 {
        a.1 - b.1
    } else {
        b.1 - a.1
    };
    (dx + dy) as nat
}

/// A reached set that contains `start` and the neighbours of each of its
/// cells contains every cell of the grid.
proof fn lemma_all_reached(cf: Seq<Vec<Option<Cell>>>, start: Cell, c: Cell, x_len: nat, y_len: nat)
    requires
        in_grid(start, x_len, y_len),
        in_grid(c, x_len, y_len),
        seen(cf, start),
        forall|v: Cell|
            in_grid(v, x_len, y_len) && #[trigger] seen(cf, v) ==> surrounded(cf, v, x_len, y_len),
    ensures
        seen(cf, c),
    decreases steps_between(c, start),
{
    if c != start {
        let n: Cell = if c.0 > start.0 {
            ((c.0 - 1) as usize, c.1)
        } else if c.0 < start.0 {
            ((c.0 + 1) as usize, c.1)
        } else if c.1 > start.1 {
            (c.0, (c.1 - 1) as usize)
        } else {
            (c.0, (c.1 + 1) as usize)
        };
        lemma_all_reached(cf, start, n, x_len, y_len);
        assert(adjacent(n, c));
        assert(surrounded(cf, n, x_len, y_len));
    }
}

/// A bookkeeping grid of the given shape in which nothing is reached yet.
fn blank_grid(x_len: usize, y_len: usize) -> (cf: Vec<Vec<Option<Cell>>>)
    ensures
        shaped(cf@, x_len as nat, y_len as nat),
        forall|c: Cell| in_grid(c, x_len as nat, y_len as nat) ==> !#[trigger] seen(cf@, c),
{
    let mut cf: Vec<Vec<Option<Cell>>> = Vec::new();
    let mut i: usize = 0;
    while i < x_len
        invariant
            0 <= i <= x_len,
            cf.len() == i,
            forall|k: int| 0 <= k < i ==> (#[trigger] cf@[k]).len() == y_len,
            forall|k: int, j: int| 0 <= k < i && 0 <= j < y_len ==> (#[trigger] cf@[k]@[j]) is None,
        decreases x_len - i,
    {
        let mut row: Vec<Option<Cell>> = Vec::new();
        let mut j: usize = 0;
        while j < y_len
            invariant
                0 <= j <= y_len,
                row.len() == j,
                forall|k: int| 0 <= k < j ==> (#[trigger] row@[k]) is None,
            decreases y_len - j,
        {
            row.push(None);
            j += 1;
        }
        cf.push(row);
        i += 1;
    }
    cf
}

/// What the search knows while it runs: for each reached cell the cell it
/// was reached from, the cells still waiting to be expanded, and the order
/// in which cells were reached.
struct Search {
    came_from: Vec<Vec<Option<Cell>>>,
    frontier: Vec<HeapState>,
    order: Ghost<Map<Cell, nat>>,
    next: Ghost<nat>,
}

impl Search {
    /// The start is its own origin; every other reached cell was reached
    /// from a neighbour that was reached earlier; every waiting cell is
    /// reached; and every reached cell other than `exempt` either waits or
    /// has all its neighbours reached.
    spec fn inv(&self, start: Cell, x_len: nat, y_len: nat, exempt: Option<Cell>) -> bool {
        let cf = self.came_from@;
        let order = self.order@;
        &&& shaped(cf, x_len, y_len)
        &&& in_grid(start, x_len, y_len)
        &&& cf[start.0 as int]@[start.1 as int] == Some(start)
        &&& forall|c: Cell| in_grid(c, x_len, y_len) && #[trigger] seen(cf, c) ==> rank(order, c) < self.next@
        &&& forall|c: Cell|
            in_grid(c, x_len, y_len) && c != start && seen(cf, c) ==> {
                let p = #[trigger] parent(cf, c);
                &&& in_grid(p, x_len, y_len)
                &&& seen(cf, p)
                &&& adjacent(p, c)
                &&& rank(order, p) < rank(order, c)
            }
        &&& forall|i: int|
            0 <= i < self.frontier@.len() ==> {
                &&& in_grid((#[trigger] self.frontier@[i]).position, x_len, y_len)
                &&& seen(cf, self.frontier@[i].position)
            }
        &&& forall|c: Cell|
            in_grid(c, x_len, y_len) && #[trigger] seen(cf, c) && Some(c) != exempt ==> waiting(
                self.frontier@,
                c,
            ) || surrounded(cf, c, x_len, y_len)
    }

    /// What shrinks with every turn of the search.
    spec fn measure(&self) -> nat {
        2 * grid_unseen(self.came_from@) + self.frontier@.len()
    }

    /// Looks at `n`, a neighbour of the cell `curr` being expanded: if it
    /// is not reached yet, it is reached from `curr` and joins the frontier
    /// at the cost of `curr` plus the step.
    fn relax(
        &mut self,
        height_map: &Vec<Vec<i32>>,
        curr: HeapState,
        n: Cell,
        Ghost(start): Ghost<Cell>,
    )
        requires
            grid_ok(height_map@),
            old(self).inv(
                start,
                height_map@.len(),
                height_map@[0].len() as nat,
                Some(curr.position),
            ),
            in_grid(curr.position, height_map@.len(), height_map@[0].len() as nat),
            seen(old(self).came_from@, curr.position),
            in_grid(n, height_map@.len(), height_map@[0].len() as nat),
            adjacent(curr.position, n),
        ensures
            final(self).inv(
                start,
                height_map@.len(),
                height_map@[0].len() as nat,
                Some(curr.position),
            ),
            seen(final(self).came_from@, n),
            forall|c: Cell|
                in_grid(c, height_map@.len(), height_map@[0].len() as nat) && seen(
                    old(self).came_from@,
                    c,
                ) ==> #[trigger] seen(final(self).came_from@, c),
            final(self).measure() <= old(self).measure(),
    {
        let ghost x_len = height_map@.len();
        let ghost y_len = height_map@[0].len() as nat;
        if self.came_from[n.0][n.1].is_some() {
            return ;
        }
        let here: i32 = height_map[curr.position.0][curr.position.1];
        let there: i32 = height_map[n.0][n.1];
        let cost = add_cost(curr.cost, step_cost(here, there));
        self.frontier.push(HeapState::new(cost, n));
        self.came_from[n.0][n.1] = Some(curr.position);
        self.order = Ghost(self.order@.insert(n, self.next@));
        self.next = Ghost(self.next@ + 1);
        proof {
            let cf0 = old(self).came_from@;
            let cf1 = self.came_from@;
            let f0 = old(self).frontier@;
            let f1 = self.frontier@;
            assert(cf1[n.0 as int]@ == cf0[n.0 as int]@.update(n.1 as int, Some(curr.position)));
            assert(forall|k: int| 0 <= k < x_len && k != n.0 ==> (#[trigger] cf1[k]) == cf0[k]);
            assert forall|c: Cell| in_grid(c, x_len, y_len) implies (#[trigger] seen(cf1, c)) == (
            seen(cf0, c) || c == n) by {}
            assert forall|c: Cell| in_grid(c, x_len, y_len) && c != n implies (#[trigger] parent(
                cf1,
                c,
            )) == parent(cf0, c) by {}
            assert(parent(cf1, n) == curr.position);
            lemma_row_visit(cf0[n.0 as int]@, n.1 as int, curr.position);
            lemma_grid_visit(cf0, cf1, n.0 as int);
            assert forall|c: Cell| waiting(f0, c) implies waiting(f1, c) by {
                let i = choose|i: int| 0 <= i < f0.len() && (#[trigger] f0[i]).position == c;
                assert(f1[i].position == c);
            }
            assert(f1[f1.len() - 1].position == n);
            assert(waiting(f1, n));
            assert forall|c: Cell|
                in_grid(c, x_len, y_len) && #[trigger] seen(cf1, c) && Some(c) != Some(
                    curr.position,
                ) implies waiting(f1, c) || surrounded(cf1, c, x_len, y_len) by {
                if c != n {
                    assert(seen(cf0, c));
                    if !waiting(f0, c) {
                        assert(surrounded(cf0, c, x_len, y_len));
                        assert forall|m: Cell|
                            in_grid(m, x_len, y_len) && #[trigger] adjacent(c, m) implies seen(
                            cf1,
                            m,
                        ) by {
                            assert(seen(cf0, m));
                        }
                    }
                }
            }
            assert forall|c: Cell| in_grid(c, x_len, y_len) && c != start && seen(cf1, c) implies {
                let p = #[trigger] parent(cf1, c);
                &&& in_grid(p, x_len, y_len)
                &&& seen(cf1, p)
                &&& adjacent(p, c)
                &&& rank(self.order@, p) < rank(self.order@, c)
            } by {
                if c != n {
                    assert(seen(cf0, c));
                    let p = parent(cf0, c);
                    assert(seen(cf0, p));
                    assert(seen(cf1, p));
                } else {
                    assert(seen(cf1, curr.position));
                }
            }
            assert forall|i: int| 0 <= i < f1.len() implies {
                &&& in_grid((#[trigger] f1[i]).position, x_len, y_len)
                &&& seen(cf1, f1[i].position)
            } by {
                if i < f0.len() {
                    assert(f1[i] == f0[i]);
                    assert(seen(cf0, f0[i].position));
                }
            }
        }
    }
}

/// Taking one entry out of the frontier keeps every other cell waiting.
proof fn lemma_still_waiting(f0: Seq<HeapState>, k: int, c: Cell)
    requires
        0 <= k < f0.len(),
        waiting(f0, c),
        c != f0[k].position,
    ensures
        waiting(f0.remove(k), c),
{
    let i = choose|i: int| 0 <= i < f0.len() && (#[trigger] f0[i]).position == c;
    let f1 = f0.remove(k);
    if i < k {
        assert(f1[i].position == c);
    } else {
        assert(f1[i - 1].position == c);
    }
}

/// Searches the height map from `start` for `end`, cheapest frontier cell
/// first, and returns the way found, `start` first and `end` last. A step
/// leads to a cell that shares an edge and costs one plus the height
/// difference; a cell is settled from whichever neighbour reaches it first.
pub fn dijkstra(start: (usize, usize), end: (usize, usize), height_map: &Vec<Vec<i32>>) -> (path:
    Vec<(usize, usize)>)
    requires
        grid_ok(height_map@),
        in_grid(start, height_map@.len(), height_map@[0].len() as nat),
        in_grid(end, height_map@.len(), height_map@[0].len() as nat),
    ensures
        valid_path(path@, start, end, height_map@.len(), height_map@[0].len() as nat),
{
    let x_len: usize = height_map.len();
    let y_len: usize = height_map[0].len();
    let mut search = Search {
        came_from: blank_grid(x_len, y_len),
        frontier: Vec::new(),
        order: Ghost(Map::empty().insert(start, 0nat)),
        next: Ghost(1nat),
    };
    let ghost blank = search.came_from@;
    search.frontier.push(HeapState::new(0, start));
    search.came_from[start.0][start.1] = Some(start);
    proof {
        let cf = search.came_from@;
        assert(cf[start.0 as int]@ == blank[start.0 as int]@.update(start.1 as int, Some(start)));
        assert(forall|k: int| 0 <= k < x_len && k != start.0 ==> (#[trigger] cf[k]) == blank[k]);
        assert(search.frontier@[0].position == start);
        assert forall|c: Cell| in_grid(c, x_len as nat, y_len as nat) implies (#[trigger] seen(
            cf,
            c,
        )) == (c == start) by {
            assert(!seen(blank, c));
        }
        assert(waiting(search.frontier@, start));
    }
    let mut done = false;
    let ghost mut exempt: Option<Cell> = None;
    while !done
        invariant
            grid_ok(height_map@),
            x_len == height_map@.len(),
            y_len == height_map@[0].len(),
            in_grid(end, x_len as nat, y_len as nat),
            search.inv(start, x_len as nat, y_len as nat, exempt),
            !done ==> exempt is None,
            done ==> seen(search.came_from@, end),
        decreases
            if done {
                0
            } else {
                1 + search.measure()
            },
    {
        let ghost before = search;
        match pop_cheapest(&mut search.frontier) {
            None => {
                proof {
                    assert forall|v: Cell|
                        in_grid(v, x_len as nat, y_len as nat) && #[trigger] seen(
                            search.came_from@,
                            v,
                        ) implies surrounded(search.came_from@, v, x_len as nat, y_len as nat) by {
                        assert(!waiting(search.frontier@, v));
                    }
                    lemma_all_reached(search.came_from@, start, end, x_len as nat, y_len as nat);
                }
                done = true;
            },
            Some(curr) => {
                let at: Cell = curr.position;
                proof {
                    let f0 = before.frontier@;
                    let f1 = search.frontier@;
                    let k = choose|k: int|
                        {
                            &&& 0 <= k < f0.len()
                            &&& Some(curr) == Some(#[trigger] f0[k])
                            &&& f1 == f0.remove(k)
                        };
                    assert forall|c: Cell|
                        in_grid(c, x_len as nat, y_len as nat) && #[trigger] seen(
                            search.came_from@,
                            c,
                        ) && Some(c) != Some(at) implies waiting(f1, c) || surrounded(
                        search.came_from@,
                        c,
                        x_len as nat,
                        y_len as nat,
                    ) by {
                        if waiting(f0, c) {
                            lemma_still_waiting(f0, k, c);
                        }
                    }
                    assert forall|i: int| 0 <= i < f1.len() implies {
                        &&& in_grid((#[trigger] f1[i]).position, x_len as nat, y_len as nat)
                        &&& seen(search.came_from@, f1[i].position)
                    } by {
                        if i < k {
                            assert(f1[i] == f0[i]);
                        } else {
                            assert(f1[i] == f0[i + 1]);
                        }
                    }
                    assert(search.inv(start, x_len as nat, y_len as nat, Some(at)));
                    assert(search.measure() < before.measure());
                }
                if at.0 == end.0 && at.1 == end.1 {
                    proof {
                        exempt = Some(at);
                    }
                    done = true;
                } else {
                    if at.0 > 0 {
                        search.relax(height_map, curr, (at.0 - 1, at.1), Ghost(start));
                    }
                    if at.0 + 1 < x_len {
                        search.relax(height_map, curr, (at.0 + 1, at.1), Ghost(start));
                    }
                    if at.1 + 1 < y_len {
                        search.relax(height_map, curr, (at.0, at.1 + 1), Ghost(start));
                    }
                    if at.1 > 0 {
                        search.relax(height_map, curr, (at.0, at.1 - 1), Ghost(start));
                    }
                    proof {
                        let cf = search.came_from@;
                        assert forall|n: Cell|
                            in_grid(n, x_len as nat, y_len as nat) && #[trigger] adjacent(
                                at,
                                n,
                            ) implies seen(cf, n) by {
                            assert((n.1 == at.1 && (n.0 + 1 == at.0 || at.0 + 1 == n.0)) || (n.0
                                == at.0 && (n.1 + 1 == at.1 || at.1 + 1 == n.1)));
                        }
                        assert(surrounded(cf, at, x_len as nat, y_len as nat));
                    }
                }
            },
        }
    }
    let mut reverse_path: Vec<Cell> = Vec::new();
    let mut curr: Cell = end;
    while curr.0 != start.0 || curr.1 != start.1
        invariant
            search.inv(start, x_len as nat, y_len as nat, exempt),
            in_grid(curr, x_len as nat, y_len as nat),
            seen(search.came_from@, curr),
            reverse_path@.len() == 0 ==> curr == end,
            reverse_path@.len() > 0 ==> reverse_path@[0] == end && adjacent(
                curr,
                reverse_path@[reverse_path@.len() - 1],
            ),
            forall|i: int|
                0 <= i < reverse_path@.len() ==> in_grid(
                    #[trigger] reverse_path@[i],
                    x_len as nat,
                    y_len as nat,
                ),
            forall|i: int|
                0 <= i < reverse_path@.len() ==> rank(search.order@, curr) < rank(
                    search.order@,
                    #[trigger] reverse_path@[i],
                ),
            forall|i: int|
                0 <= i < reverse_path@.len() - 1 ==> adjacent(
                    reverse_path@[i + 1],
                    #[trigger] reverse_path@[i],
                ),
            forall|i: int, j: int|
                0 <= i < j < reverse_path@.len() ==> rank(
                    search.order@,
                    #[trigger] reverse_path@[j],
                ) < rank(search.order@, #[trigger] reverse_path@[i]),
        decreases rank(search.order@, curr),
    {
        proof {
            let p = parent(search.came_from@, curr);
            assert(rank(search.order@, p) < rank(search.order@, curr));
        }
        reverse_path.push(curr);
        curr = search.came_from[curr.0][curr.1].unwrap();
    }
    reverse_path.push(curr);
    let mut path: Vec<Cell> = Vec::new();
    let mut i: usize = reverse_path.len();
    while i > 0
        invariant
            0 <= i <= reverse_path@.len(),
            path@.len() == reverse_path@.len() - i,
            forall|k: int|
                0 <= k < path@.len() ==> #[trigger] path@[k] == reverse_path@[reverse_path@.len()
                    - 1 - k],
        decreases i,
    {
        i -= 1;
        path.push(reverse_path[i]);
    }
    proof {
        let n = reverse_path@.len() as int;
        assert(curr == start);
        assert forall|a: int, b: int| 0 <= a < b < path@.len() implies #[trigger] path@[a]
            != #[trigger] path@[b] by {
            let ra = reverse_path@[n - 1 - a];
            let rb = reverse_path@[n - 1 - b];
            assert(rank(search.order@, ra) < rank(search.order@, rb));
        }
        assert forall|a: int| 0 <= a < path@.len() - 1 implies adjacent(
            #[trigger] path@[a],
            path@[a + 1],
        ) by {
            let rb = reverse_path@[n - 1 - (a + 1)];
            assert(adjacent(reverse_path@[(n - 1 - (a + 1)) + 1], rb));
        }
    }
    path
}

/// The cells of a connection laid out as an elbow: along the first axis
/// from `start` up to, but not including, the column of `end`, then along
/// the second axis in the column of `end`, from the row of `start` up to and
/// including `end`. A leg whose far end lies before its near end is empty.
pub open spec fn path_voxels_spec(start: (i32, i32), end: (i32, i32)) -> Seq<(i32, i32)> {
    Seq::new(
        if end.0 > start.0 {
            (end.0 - start.0) as nat
        } else {
            0
        },
        |k: int| ((start.0 + k) as i32, start.1),
    ) + Seq::new(
        if end.1 >= start.1 {
            (end.1 - start.1 + 1) as nat
        } else {
            0
        },
        |k: int| (end.0, (start.1 + k) as i32),
    )
}

/// The cells of the elbow-shaped connection from `start` to `end`.
pub fn path_voxels(start: (i32, i32), end: (i32, i32)) -> (r: Vec<(i32, i32)>)
    ensures
        r@ == path_voxels_spec(start, end),
{
    let mut out: Vec<(i32, i32)> = Vec::new();
    let mut x: i32 = start.0;
    while x < end.0
        invariant
            start.0 <= x,
            end.0 > start.0 ==> x <= end.0,
            end.0 <= start.0 ==> x == start.0,
            out@ == Seq::new(
                if x > start.0 {
                    (x - start.0) as nat
                } else {
                    0
                },
                |k: int| ((start.0 + k) as i32, start.1),
            ),
        decreases end.0 - x,
    {
        out.push((x, start.1));
        x += 1;
        assert(out@ =~= Seq::new((x - start.0) as nat, |k: int| ((start.0 + k) as i32, start.1)));
    }
    let ghost first = out@;
    assert(first =~= Seq::new(
        if end.0 > start.0 {
            (end.0 - start.0) as nat
        } else {
            0
        },
        |k: int| ((start.0 + k) as i32, start.1),
    ));
    let mut y: i64 = start.1 as i64;
    while y <= end.1 as i64
        invariant
            start.1 <= y,
            end.1 >= start.1 ==> y <= end.1 + 1,
            end.1 < start.1 ==> y == start.1,
            out@ == first + Seq::new(
                if y > start.1 {
                    (y - start.1) as nat
                } else {
                    0
                },
                |k: int| (end.0, (start.1 + k) as i32),
            ),
        decreases end.1 + 1 - y,
    {
        out.push((end.0, y as i32));
        y += 1;
        assert(out@ =~= first + Seq::new(
            (y - start.1) as nat,
            |k: int| (end.0, (start.1 + k) as i32),
        ));
    }
    let ghost second = Seq::new(
        if end.1 >= start.1 {
            (end.1 - start.1 + 1) as nat
        } else {
            0
        },
        |k: int| (end.0, (start.1 + k) as i32),
    );
    assert(out@ =~= first + second);
    assert(out@ =~= path_voxels_spec(start, end));
    out
}

} // verus!

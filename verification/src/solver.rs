//! The scheduling core of the Fast Marching Method.
//!
//! Each grid cell is `Far` (never reached), `Considered` (holds a tentative
//! arrival cost and waits in the queue) or `Accepted` (its cost is final).
//! Costs are held as order keys: a key stands for a non-negative arrival
//! cost, keys compare exactly as the costs they stand for, and `UNREACHED`
//! stands for an infinite cost. Accepting cells in increasing key order and
//! relaxing the neighbours of each accepted cell builds the distance field.
use vstd::prelude::*;
use crate::grid::{
    valid_resolution,
    cell_count,
    in_grid,
    flat_index,
    coords_of,
    direction,
    face_step,
    cell_index,
    cell_coords,
    face_neighbour,
    face_direction,
    lemma_flat_index_bounds,
};
use crate::heap::{MinHeap, Entry};
use crate::march::unit_direction;

verus! {

/// The key of a cell no front has reached: an infinite cost.
pub const UNREACHED: u64 = 0xffff_ffff_ffff_ffffu64;

/// Where a cell stands in the march.
#[derive(Clone, Copy, PartialEq, Eq, Structural, Debug)]
pub enum CellState {
    Far,
    Considered,
    Accepted,
}

/// The smaller of two keys, keeping the first on a tie.
pub open spec fn lesser(a: u64, b: u64) -> u64 {
    if b < a {
        b
    } else {
        a
    }
}

/// What a not-yet-accepted face neighbour of a freshly accepted cell needs
/// for its eikonal update: where it is, the direction it was reached in,
/// and the least accepted key along each axis (`UNREACHED` where no
/// accepted neighbour lies on that axis).
#[derive(Clone, Copy, PartialEq, Eq, Structural, Debug)]
pub struct NeighbourUpdate {
    pub cell: usize,
    pub x: usize,
    pub y: usize,
    pub z: usize,
    pub dx: isize,
    pub dy: isize,
    pub dz: isize,
    pub axis_x: u64,
    pub axis_y: u64,
    pub axis_z: u64,
}

/// The state of one march over a grid.
pub struct Fmm {
    n: usize,
    cost: Vec<u64>,
    state: Vec<CellState>,
    queue: MinHeap,
}

impl Fmm {
    /// Grid resolution.
    pub closed spec fn n(&self) -> int {
        self.n as int
    }

    /// Cost key of every cell, by flat index.
    pub closed spec fn costs(&self) -> Seq<u64> {
        self.cost@
    }

    /// State of every cell, by flat index.
    pub closed spec fn states(&self) -> Seq<CellState> {
        self.state@
    }

    /// The march invariant: the queue holds, for each considered cell, an
    /// entry with its current key; no entry undercuts the key of a cell that
    /// is still considered; far cells are unreached and have no entry.
    pub closed spec fn wf(&self) -> bool {
        let count = cell_count(self.n as int);
        &&& valid_resolution(self.n as int)
        &&& self.cost@.len() == count
        &&& self.state@.len() == count
        &&& self.queue.wf()
        &&& forall|e: Entry| #[trigger]
            self.queue.contents().contains(e) ==> {
                &&& e.1 < count
                &&& self.state@[e.1 as int] != CellState::Far
                &&& self.state@[e.1 as int] == CellState::Considered ==> self.cost@[e.1 as int]
                    <= e.0
            }
        &&& forall|i: int|
            0 <= i < count && #[trigger] self.state@[i] == CellState::Considered ==> {
                &&& self.queue.contents().contains((self.cost@[i], i as usize))
                &&& self.cost@[i] < UNREACHED
            }
        &&& forall|i: int|
            0 <= i < count && #[trigger] self.state@[i] == CellState::Far ==> self.cost@[i]
                == UNREACHED
    }

    /// The key an accepted face neighbour in direction `d` offers to cell
    /// `(x, y, z)`: its cost when it exists and is accepted, else `UNREACHED`.
    pub open spec fn side_key(&self, x: int, y: int, z: int, d: int) -> u64 {
        match face_step(self.n(), x, y, z, d) {
            Some(c) => {
                let j = flat_index(self.n(), c.0, c.1, c.2);
                if self.states()[j] == CellState::Accepted {
                    self.costs()[j]
                } else {
                    UNREACHED
                }
            },
            None => UNREACHED,
        }
    }

    /// The least accepted key next to `(x, y, z)` along `axis`, looking
    /// first in the negative and then in the positive direction.
    pub open spec fn axis_min_key(&self, x: int, y: int, z: int, axis: int) -> u64 {
        lesser(self.side_key(x, y, z, 2 * axis), self.side_key(x, y, z, 2 * axis + 1))
    }

    /// The update owed to the neighbour of `(x, y, z)` in direction `d`:
    /// none where the step leaves the grid or reaches an accepted cell.
    pub open spec fn update_toward(&self, x: int, y: int, z: int, d: int) -> Option<
        NeighbourUpdate,
    > {
        match face_step(self.n(), x, y, z, d) {
            Some(c) => {
                let j = flat_index(self.n(), c.0, c.1, c.2);
                if self.states()[j] == CellState::Accepted {
                    None
                } else {
                    Some(
                        NeighbourUpdate {
                            cell: j as usize,
                            x: c.0 as usize,
                            y: c.1 as usize,
                            z: c.2 as usize,
                            dx: direction(d).0 as isize,
                            dy: direction(d).1 as isize,
                            dz: direction(d).2 as isize,
                            axis_x: self.axis_min_key(c.0, c.1, c.2, 0),
                            axis_y: self.axis_min_key(c.0, c.1, c.2, 1),
                            axis_z: self.axis_min_key(c.0, c.1, c.2, 2),
                        },
                    )
                }
            },
            None => None,
        }
    }

    /// The updates owed to the neighbours of `(x, y, z)` in directions
    /// `d..6`, in direction order.
    pub open spec fn updates_from(&self, x: int, y: int, z: int, d: int) -> Seq<NeighbourUpdate>
        decreases 6 - d,
    {
        if d >= 6 {
            Seq::empty()
        } else {
            match self.update_toward(x, y, z, d) {
                Some(u) => seq![u] + self.updates_from(x, y, z, d + 1),
                None => self.updates_from(x, y, z, d + 1),
            }
        }
    }

    /// A march over a grid of resolution `n` from `source`, whose cost key
    /// is `source_key`: the source is accepted, every other cell is far and
    /// unreached, and nothing is queued yet.
    pub fn new(n: usize, source: usize, source_key: u64) -> (f: Self)
        requires
            valid_resolution(n as int),
            source < cell_count(n as int),
        ensures
            f.wf(),
            f.n() == n,
            f.costs().len() == cell_count(n as int),
            f.states().len() == cell_count(n as int),
            forall|i: int|
                0 <= i < cell_count(n as int) ==> #[trigger] f.costs()[i] == (if i == source {
                    source_key
                } else {
                    UNREACHED
                }),
            forall|i: int|
                0 <= i < cell_count(n as int) ==> #[trigger] f.states()[i] == (if i == source {
                    CellState::Accepted
                } else {
                    CellState::Far
                }),
    {
        proof {
            assert(n * n <= n * n * n) by (nonlinear_arith)
                requires
                    1 <= n,
            ;
        }
        let total = n * n * n;
        let mut cost: Vec<u64> = Vec::new();
        let mut state: Vec<CellState> = Vec::new();
        let mut i: usize = 0;
        while i < total
            invariant
                i <= total,
                total == cell_count(n as int),
                cost@.len() == i,
                state@.len() == i,
                forall|j: int|
                    0 <= j < i ==> #[trigger] cost@[j] == (if j == source {
                        source_key
                    } else {
                        UNREACHED
                    }),
                forall|j: int|
                    0 <= j < i ==> #[trigger] state@[j] == (if j == source {
                        CellState::Accepted
                    } else {
                        CellState::Far
                    }),
            decreases total - i,
        {
            if i == source {
                cost.push(source_key);
                state.push(CellState::Accepted);
            } else {
                cost.push(UNREACHED);
                state.push(CellState::Far);
            }
            i = i + 1;
        }
        let f = Fmm { n, cost, state, queue: MinHeap::new() };
        proof {
            broadcast use vstd::multiset::group_multiset_axioms;

        }
        f
    }

    /// Grid resolution.
    pub fn resolution(&self) -> (r: usize)
        ensures
            r == self.n(),
    {
        self.n
    }

    /// Number of grid cells.
    pub fn num_cells(&self) -> (r: usize)
        requires
            self.wf(),
        ensures
            r == cell_count(self.n()),
            r == self.costs().len(),
    {
        self.cost.len()
    }

    /// Cost key of cell `i`.
    pub fn cost_at(&self, i: usize) -> (r: u64)
        requires
            self.wf(),
            i < cell_count(self.n()),
        ensures
            r == self.costs()[i as int],
    {
        self.cost[i]
    }

    /// State of cell `i`.
    pub fn state_at(&self, i: usize) -> (r: CellState)
        requires
            self.wf(),
            i < cell_count(self.n()),
        ensures
            r == self.states()[i as int],
    {
        self.state[i]
    }

    /// Offer `key` as a new tentative cost for `cell`. The offer is taken
    /// when the cell is not yet accepted and `key` is below its current
    /// key: the cell then becomes considered with that key and is queued.
    pub fn relax(&mut self, cell: usize, key: u64) -> (taken: bool)
        requires
            old(self).wf(),
            cell < cell_count(old(self).n()),
        ensures
            final(self).wf(),
            final(self).n() == old(self).n(),
            taken == (old(self).states()[cell as int] != CellState::Accepted && key < old(
                self,
            ).costs()[cell as int]),
            taken ==> final(self).costs() == old(self).costs().update(cell as int, key)
                && final(self).states() == old(self).states().update(
                cell as int,
                CellState::Considered,
            ),
            !taken ==> final(self).costs() == old(self).costs() && final(self).states() == old(
                self,
            ).states(),
    {
        if self.state[cell] == CellState::Accepted || key >= self.cost[cell] {
            return false;
        }
        let ghost old_cost = self.cost@;
        let ghost old_state = self.state@;
        let ghost old_contents = self.queue.contents();
        self.cost.set(cell, key);
        self.state.set(cell, CellState::Considered);
        self.queue.push((key, cell));
        proof {
            broadcast use vstd::multiset::group_multiset_axioms;

            let count = cell_count(self.n as int);
            assert forall|e: Entry| #[trigger] self.queue.contents().contains(e) implies {
                &&& e.1 < count
                &&& self.state@[e.1 as int] != CellState::Far
                &&& self.state@[e.1 as int] == CellState::Considered ==> self.cost@[e.1 as int]
                    <= e.0
            } by {
                if e != (key, cell) {
                    assert(old_contents.contains(e));
                }
            }
            assert forall|i: int|
                0 <= i < count && #[trigger] self.state@[i] == CellState::Considered implies {
                &&& self.queue.contents().contains((self.cost@[i], i as usize))
                &&& self.cost@[i] < UNREACHED
            } by {
                if i != cell as int {
                    assert(old_state[i] == CellState::Considered);
                }
            }
            assert forall|i: int|
                0 <= i < count && #[trigger] self.state@[i] == CellState::Far implies self.cost@[i]
                == UNREACHED by {
                assert(old_state[i] == CellState::Far);
            }
        }
        true
    }

    /// Accept the considered cell of least key and return it, skipping
    /// queue entries of cells that were accepted already; `None` once no
    /// cell is considered. No key changes: the accepted cell keeps the key
    /// it was last offered.
    pub fn accept_next(&mut self) -> (r: Option<usize>)
        requires
            old(self).wf(),
        ensures
            final(self).wf(),
            final(self).n() == old(self).n(),
            final(self).costs() == old(self).costs(),
            r is None <==> (forall|j: int|
                0 <= j < cell_count(old(self).n()) ==> #[trigger] old(self).states()[j]
                    != CellState::Considered),
            r is None ==> final(self).states() == old(self).states(),
            r matches Some(i) ==> {
                &&& i < cell_count(old(self).n())
                &&& old(self).states()[i as int] == CellState::Considered
                &&& final(self).states() == old(self).states().update(
                    i as int,
                    CellState::Accepted,
                )
                &&& forall|j: int|
                    0 <= j < cell_count(old(self).n()) && #[trigger] old(self).states()[j]
                        == CellState::Considered ==> old(self).costs()[i as int] <= old(
                        self,
                    ).costs()[j]
            },
    {
        broadcast use vstd::multiset::group_multiset_axioms;

        let ghost count = cell_count(self.n as int);
        loop
            invariant
                self.wf(),
                self.n == old(self).n,
                self.cost@ == old(self).cost@,
                self.state@ == old(self).state@,
                count == cell_count(self.n as int),
            decreases self.queue.contents().len(),
        {
            let ghost contents = self.queue.contents();
            match self.queue.pop() {
                None => {
                    proof {
                        assert forall|j: int|
                            0 <= j < count implies #[trigger] self.state@[j]
                            != CellState::Considered by {
                            if self.state@[j] == CellState::Considered {
                                assert(contents.contains((self.cost@[j], j as usize)));
                            }
                        }
                    }
                    return None;
                },
                Some(e) => {
                    let k = e.0;
                    let i = e.1;
                    assert(contents.contains(e));
                    if self.state[i] == CellState::Accepted {
                        proof {
                            assert forall|f: Entry| #[trigger]
                                self.queue.contents().contains(f) implies contents.contains(
                                f,
                            ) by {}
                            assert forall|j: int|
                                0 <= j < count && #[trigger] self.state@[j]
                                    == CellState::Considered implies self.queue.contents().contains(
                                (self.cost@[j], j as usize),
                            ) by {
                                assert(contents.contains((self.cost@[j], j as usize)));
                                assert((self.cost@[j], j as usize) != e);
                            }
                        }
                        continue;
                    }
                    proof {
                        assert(self.state@[i as int] == CellState::Considered);
                        assert(contents.contains((self.cost@[i as int], i)));
                        assert(k == self.cost@[i as int]);
                        assert forall|j: int|
                            0 <= j < count && #[trigger] self.state@[j]
                                == CellState::Considered implies self.cost@[i as int]
                            <= self.cost@[j] by {
                            assert(contents.contains((self.cost@[j], j as usize)));
                        }
                    }
                    let ghost old_state = self.state@;
                    let ghost old_cost = self.cost@;
                    self.state.set(i, CellState::Accepted);
                    self.cost.set(i, k);
                    proof {
                        assert(self.cost@ =~= old_cost);
                        assert forall|f: Entry| #[trigger]
                            self.queue.contents().contains(f) implies {
                            &&& f.1 < count
                            &&& self.state@[f.1 as int] != CellState::Far
                            &&& self.state@[f.1 as int] == CellState::Considered
                                ==> self.cost@[f.1 as int] <= f.0
                        } by {
                            assert(contents.contains(f));
                        }
                        assert forall|j: int|
                            0 <= j < count && #[trigger] self.state@[j]
                                == CellState::Considered implies {
                            &&& self.queue.contents().contains((self.cost@[j], j as usize))
                            &&& self.cost@[j] < UNREACHED
                        } by {
                            assert(old_state[j] == CellState::Considered);
                            assert(contents.contains((self.cost@[j], j as usize)));
                            assert((self.cost@[j], j as usize) != e);
                        }
                        assert forall|j: int|
                            0 <= j < count && #[trigger] self.state@[j]
                                == CellState::Far implies self.cost@[j] == UNREACHED by {
                            assert(old_state[j] == CellState::Far);
                        }
                    }
                    return Some(i);
                },
            }
        }
    }

    /// The key an accepted neighbour of `(x, y, z)` in direction `d` offers.
    fn side_key_at(&self, x: usize, y: usize, z: usize, d: usize) -> (r: u64)
        requires
            self.wf(),
            in_grid(self.n(), x as int, y as int, z as int),
            d < 6,
        ensures
            r == self.side_key(x as int, y as int, z as int, d as int),
    {
        match face_neighbour(self.n, x, y, z, d) {
            Some(c) => {
                let j = cell_index(self.n, c.0, c.1, c.2);
                if self.state[j] == CellState::Accepted {
                    self.cost[j]
                } else {
                    UNREACHED
                }
            },
            None => UNREACHED,
        }
    }

    /// The least cost key among the accepted face neighbours of cell
    /// `(x, y, z)` along `axis` (0, 1, 2 for x, y, z); `UNREACHED` where
    /// there is none.
    pub fn axis_min(&self, x: usize, y: usize, z: usize, axis: usize) -> (r: u64)
        requires
            self.wf(),
            in_grid(self.n(), x as int, y as int, z as int),
            axis < 3,
        ensures
            r == self.axis_min_key(x as int, y as int, z as int, axis as int),
            is_least_on_axis(self, x as int, y as int, z as int, axis as int, r),
    {
        proof {
            lemma_axis_min_key_is_least(self, x as int, y as int, z as int, axis as int);
        }
        let below = self.side_key_at(x, y, z, 2 * axis);
        let above = self.side_key_at(x, y, z, 2 * axis + 1);
        if above < below {
            above
        } else {
            below
        }
    }

    /// The update owed to the neighbour of `(x, y, z)` in direction `d`.
    fn update_at(&self, x: usize, y: usize, z: usize, d: usize) -> (r: Option<NeighbourUpdate>)
        requires
            self.wf(),
            in_grid(self.n(), x as int, y as int, z as int),
            d < 6,
        ensures
            r == self.update_toward(x as int, y as int, z as int, d as int),
    {
        match face_neighbour(self.n, x, y, z, d) {
            Some(c) => {
                let j = cell_index(self.n, c.0, c.1, c.2);
                if self.state[j] == CellState::Accepted {
                    None
                } else {
                    let dir = face_direction(d);
                    Some(
                        NeighbourUpdate {
                            cell: j,
                            x: c.0,
                            y: c.1,
                            z: c.2,
                            dx: dir.0,
                            dy: dir.1,
                            dz: dir.2,
                            axis_x: self.axis_min(c.0, c.1, c.2, 0),
                            axis_y: self.axis_min(c.0, c.1, c.2, 1),
                            axis_z: self.axis_min(c.0, c.1, c.2, 2),
                        },
                    )
                }
            },
            None => None,
        }
    }

    /// The updates owed to the face neighbours of `cell` that lie in the
    /// grid and are not accepted, in the order −x, +x, −y, +y, −z, +z.
    pub fn neighbour_updates(&self, cell: usize) -> (r: Vec<NeighbourUpdate>)
        requires
            self.wf(),
            cell < cell_count(self.n()),
        ensures
            r@ == self.updates_from(
                coords_of(self.n(), cell as int).0,
                coords_of(self.n(), cell as int).1,
                coords_of(self.n(), cell as int).2,
                0,
            ),
            forall|q: int|
                0 <= q < r@.len() ==> is_face_update(
                    self,
                    coords_of(self.n(), cell as int).0,
                    coords_of(self.n(), cell as int).1,
                    coords_of(self.n(), cell as int).2,
                    #[trigger] r@[q],
                ),
    {
        proof {
            lemma_neighbour_updates_are_face_updates(self, cell as int);
        }
        let c = cell_coords(self.n, cell);
        let mut out: Vec<NeighbourUpdate> = Vec::new();
        let mut d: usize = 0;
        while d < 6
            invariant
                self.wf(),
                d <= 6,
                in_grid(self.n(), c.0 as int, c.1 as int, c.2 as int),
                out@ + self.updates_from(c.0 as int, c.1 as int, c.2 as int, d as int)
                    == self.updates_from(c.0 as int, c.1 as int, c.2 as int, 0),
            decreases 6 - d,
        {
            let ghost before = out@;
            let u = self.update_at(c.0, c.1, c.2, d);
            match u {
                Some(v) => {
                    out.push(v);
                    proof {
                        assert(before + self.updates_from(
                            c.0 as int,
                            c.1 as int,
                            c.2 as int,
                            d as int,
                        ) =~= out@ + self.updates_from(
                            c.0 as int,
                            c.1 as int,
                            c.2 as int,
                            d + 1,
                        ));
                    }
                },
                None => {},
            }
            d = d + 1;
        }
        proof {
            assert(out@ + self.updates_from(c.0 as int, c.1 as int, c.2 as int, 6) =~= out@);
        }
        out
    }
}

/// In a march state, a far cell is unreached and a considered cell holds a
/// finite key.
pub proof fn lemma_far_iff_unreached(f: &Fmm, i: int)
    requires
        f.wf(),
        0 <= i < cell_count(f.n()),
    ensures
        f.states()[i] == CellState::Far ==> f.costs()[i] == UNREACHED,
        f.states()[i] == CellState::Considered ==> f.costs()[i] < UNREACHED,
{
    if f.states()[i] == CellState::Considered {
    }
    if f.states()[i] == CellState::Far {
    }
}

/// A march state covers every cell of a grid of valid resolution.
pub proof fn lemma_wf_dims(f: &Fmm)
    requires
        f.wf(),
    ensures
        valid_resolution(f.n()),
        f.costs().len() == cell_count(f.n()),
        f.states().len() == cell_count(f.n()),
{
}

/// The updates owed to a cell's neighbours depend only on which cells are
/// accepted and on their keys: relaxing other cells in between changes
/// none of them.
pub proof fn lemma_updates_read_only_accepted(a: &Fmm, b: &Fmm, x: int, y: int, z: int, d: int)
    requires
        a.wf(),
        b.wf(),
        a.n() == b.n(),
        0 <= d <= 6,
        forall|i: int|
            0 <= i < cell_count(a.n()) ==> (#[trigger] a.states()[i] == CellState::Accepted
                <==> b.states()[i] == CellState::Accepted),
        forall|i: int|
            0 <= i < cell_count(a.n()) && #[trigger] a.states()[i] == CellState::Accepted
                ==> a.costs()[i] == b.costs()[i],
    ensures
        a.updates_from(x, y, z, d) == b.updates_from(x, y, z, d),
    decreases 6 - d,
{
    lemma_wf_dims(a);
    lemma_wf_dims(b);
    if d < 6 {
        lemma_updates_read_only_accepted(a, b, x, y, z, d + 1);
        assert forall|p: int, q: int, r: int, e: int|
            in_grid(a.n(), p, q, r) && 0 <= e < 6 implies #[trigger] a.side_key(p, q, r, e)
            == b.side_key(p, q, r, e) by {
            if let Some(c) = face_step(a.n(), p, q, r, e) {
                lemma_flat_index_bounds(a.n(), c.0, c.1, c.2);
            }
        }
        if let Some(c) = face_step(a.n(), x, y, z, d) {
            lemma_flat_index_bounds(a.n(), c.0, c.1, c.2);
            assert(a.axis_min_key(c.0, c.1, c.2, 0) == b.axis_min_key(c.0, c.1, c.2, 0));
            assert(a.axis_min_key(c.0, c.1, c.2, 1) == b.axis_min_key(c.0, c.1, c.2, 1));
            assert(a.axis_min_key(c.0, c.1, c.2, 2) == b.axis_min_key(c.0, c.1, c.2, 2));
        }
        assert(a.update_toward(x, y, z, d) == b.update_toward(x, y, z, d));
    }
}

/// `k` is the least key among the accepted face neighbours of `(x, y, z)`
/// along `axis` (0, 1, 2 for x, y, z): no accepted neighbour on that axis
/// has a smaller key, and `k` is the key of one of them, or `UNREACHED`
/// when none of them is accepted.
pub open spec fn is_least_on_axis(f: &Fmm, x: int, y: int, z: int, axis: int, k: u64) -> bool {
    let n = f.n();
    let lo = face_step(n, x, y, z, 2 * axis);
    let hi = face_step(n, x, y, z, 2 * axis + 1);
    let lo_cell = flat_index(n, lo.unwrap().0, lo.unwrap().1, lo.unwrap().2);
    let hi_cell = flat_index(n, hi.unwrap().0, hi.unwrap().1, hi.unwrap().2);
    let lo_accepted = lo is Some && f.states()[lo_cell] == CellState::Accepted;
    let hi_accepted = hi is Some && f.states()[hi_cell] == CellState::Accepted;
    &&& lo_accepted ==> k <= f.costs()[lo_cell]
    &&& hi_accepted ==> k <= f.costs()[hi_cell]
    &&& k == UNREACHED || (lo_accepted && k == f.costs()[lo_cell]) || (hi_accepted && k
        == f.costs()[hi_cell])
}

/// Position of an axis unit step in the order −x, +x, −y, +y, −z, +z.
pub open spec fn step_rank(dx: int, dy: int, dz: int) -> int {
    if dx == -1 {
        0
    } else if dx == 1 {
        1
    } else if dy == -1 {
        2
    } else if dy == 1 {
        3
    } else if dz == -1 {
        4
    } else {
        5
    }
}

/// `u` is an update for a face neighbour of cell `(x, y, z)`: the updated
/// cell lies one axis unit step `(u.dx, u.dy, u.dz)` away from `(x, y, z)`
/// inside the grid, `u.cell` is its flat index, it is not accepted, and
/// each axis key is the least accepted key next to it on that axis.
pub open spec fn is_face_update(f: &Fmm, x: int, y: int, z: int, u: NeighbourUpdate) -> bool {
    &&& unit_direction(u.dx as int, u.dy as int, u.dz as int)
    &&& u.x as int == x + u.dx as int
    &&& u.y as int == y + u.dy as int
    &&& u.z as int == z + u.dz as int
    &&& in_grid(f.n(), u.x as int, u.y as int, u.z as int)
    &&& u.cell as int == flat_index(f.n(), u.x as int, u.y as int, u.z as int)
    &&& f.states()[u.cell as int] != CellState::Accepted
    &&& is_least_on_axis(f, u.x as int, u.y as int, u.z as int, 0, u.axis_x)
    &&& is_least_on_axis(f, u.x as int, u.y as int, u.z as int, 1, u.axis_y)
    &&& is_least_on_axis(f, u.x as int, u.y as int, u.z as int, 2, u.axis_z)
}

/// The axis key the march hands out is the least accepted key on that
/// axis, or `UNREACHED` when no neighbour on the axis is accepted.
pub proof fn lemma_axis_min_key_is_least(f: &Fmm, x: int, y: int, z: int, axis: int)
    requires
        f.wf(),
        in_grid(f.n(), x, y, z),
        0 <= axis < 3,
    ensures
        is_least_on_axis(f, x, y, z, axis, f.axis_min_key(x, y, z, axis)),
{
    lemma_wf_dims(f);
    let n = f.n();
    if let Some(c) = face_step(n, x, y, z, 2 * axis) {
        lemma_flat_index_bounds(n, c.0, c.1, c.2);
    }
    if let Some(c) = face_step(n, x, y, z, 2 * axis + 1) {
        lemma_flat_index_bounds(n, c.0, c.1, c.2);
    }
}

/// The update owed in direction `d` is a face update for the step of that
/// direction, and names the neighbour that step reaches.
proof fn lemma_update_toward_is_face_update(f: &Fmm, x: int, y: int, z: int, d: int)
    requires
        f.wf(),
        in_grid(f.n(), x, y, z),
        0 <= d < 6,
    ensures
        f.update_toward(x, y, z, d) matches Some(u) ==> {
            &&& is_face_update(f, x, y, z, u)
            &&& step_rank(u.dx as int, u.dy as int, u.dz as int) == d
            &&& face_step(f.n(), x, y, z, d) is Some
            &&& u.cell as int == flat_index(
                f.n(),
                face_step(f.n(), x, y, z, d).unwrap().0,
                face_step(f.n(), x, y, z, d).unwrap().1,
                face_step(f.n(), x, y, z, d).unwrap().2,
            )
        },
        f.update_toward(x, y, z, d) is None ==> (face_step(f.n(), x, y, z, d) is None
            || f.states()[flat_index(
            f.n(),
            face_step(f.n(), x, y, z, d).unwrap().0,
            face_step(f.n(), x, y, z, d).unwrap().1,
            face_step(f.n(), x, y, z, d).unwrap().2,
        )] == CellState::Accepted),
{
    lemma_wf_dims(f);
    let n = f.n();
    if let Some(c) = face_step(n, x, y, z, d) {
        lemma_flat_index_bounds(n, c.0, c.1, c.2);
        assert(n <= n * n * n) by (nonlinear_arith)
            requires
                1 <= n,
        ;
        lemma_axis_min_key_is_least(f, c.0, c.1, c.2, 0);
        lemma_axis_min_key_is_least(f, c.0, c.1, c.2, 1);
        lemma_axis_min_key_is_least(f, c.0, c.1, c.2, 2);
    }
}

/// The updates listed for directions `d0..6` are face updates whose steps
/// rank at least `d0`.
proof fn lemma_updates_from_each(f: &Fmm, x: int, y: int, z: int, d0: int)
    requires
        f.wf(),
        in_grid(f.n(), x, y, z),
        0 <= d0 <= 6,
    ensures
        forall|q: int|
            0 <= q < f.updates_from(x, y, z, d0).len() ==> is_face_update(
                f,
                x,
                y,
                z,
                #[trigger] f.updates_from(x, y, z, d0)[q],
            ) && d0 <= step_rank(
                f.updates_from(x, y, z, d0)[q].dx as int,
                f.updates_from(x, y, z, d0)[q].dy as int,
                f.updates_from(x, y, z, d0)[q].dz as int,
            ),
    decreases 6 - d0,
{
    if d0 < 6 {
        lemma_updates_from_each(f, x, y, z, d0 + 1);
        lemma_update_toward_is_face_update(f, x, y, z, d0);
        let rest = f.updates_from(x, y, z, d0 + 1);
        let all = f.updates_from(x, y, z, d0);
        if f.update_toward(x, y, z, d0) is Some {
            assert forall|q: int|
                0 <= q < all.len() implies is_face_update(f, x, y, z, #[trigger] all[q]) && d0
                <= step_rank(all[q].dx as int, all[q].dy as int, all[q].dz as int) by {
                if q > 0 {
                    assert(all[q] == rest[q - 1]);
                }
            }
        }
    }
}

/// The updates listed for directions `d0..6` come in strictly increasing
/// step order.
proof fn lemma_updates_from_ordered(f: &Fmm, x: int, y: int, z: int, d0: int)
    requires
        f.wf(),
        in_grid(f.n(), x, y, z),
        0 <= d0 <= 6,
    ensures
        forall|q: int, q2: int|
            0 <= q < q2 < f.updates_from(x, y, z, d0).len() ==> step_rank(
                (#[trigger] f.updates_from(x, y, z, d0)[q]).dx as int,
                f.updates_from(x, y, z, d0)[q].dy as int,
                f.updates_from(x, y, z, d0)[q].dz as int,
            ) < step_rank(
                (#[trigger] f.updates_from(x, y, z, d0)[q2]).dx as int,
                f.updates_from(x, y, z, d0)[q2].dy as int,
                f.updates_from(x, y, z, d0)[q2].dz as int,
            ),
    decreases 6 - d0,
{
    if d0 < 6 {
        lemma_updates_from_ordered(f, x, y, z, d0 + 1);
        lemma_updates_from_each(f, x, y, z, d0 + 1);
        lemma_update_toward_is_face_update(f, x, y, z, d0);
        let rest = f.updates_from(x, y, z, d0 + 1);
        let all = f.updates_from(x, y, z, d0);
        if f.update_toward(x, y, z, d0) is Some {
            assert forall|q: int, q2: int| 0 <= q < q2 < all.len() implies step_rank(
                (#[trigger] all[q]).dx as int,
                all[q].dy as int,
                all[q].dz as int,
            ) < step_rank((#[trigger] all[q2]).dx as int, all[q2].dy as int, all[q2].dz as int) by {
                assert(all[q2] == rest[q2 - 1]);
                if q > 0 {
                    assert(all[q] == rest[q - 1]);
                }
            }
        }
    }
}

/// Every face neighbour in directions `d0..6` that is in the grid and not
/// accepted gets an update among those listed.
proof fn lemma_updates_from_cover(f: &Fmm, x: int, y: int, z: int, d0: int)
    requires
        f.wf(),
        in_grid(f.n(), x, y, z),
        0 <= d0 <= 6,
    ensures
        forall|d: int|
            d0 <= d < 6 && (#[trigger] face_step(f.n(), x, y, z, d)) is Some && f.states()[flat_index(
                f.n(),
                face_step(f.n(), x, y, z, d).unwrap().0,
                face_step(f.n(), x, y, z, d).unwrap().1,
                face_step(f.n(), x, y, z, d).unwrap().2,
            )] != CellState::Accepted ==> exists|q: int|
                0 <= q < f.updates_from(x, y, z, d0).len() && (#[trigger] f.updates_from(
                    x,
                    y,
                    z,
                    d0,
                )[q]).cell as int == flat_index(
                    f.n(),
                    face_step(f.n(), x, y, z, d).unwrap().0,
                    face_step(f.n(), x, y, z, d).unwrap().1,
                    face_step(f.n(), x, y, z, d).unwrap().2,
                ),
    decreases 6 - d0,
{
    if d0 < 6 {
        lemma_updates_from_cover(f, x, y, z, d0 + 1);
        lemma_update_toward_is_face_update(f, x, y, z, d0);
        let n = f.n();
        let rest = f.updates_from(x, y, z, d0 + 1);
        let all = f.updates_from(x, y, z, d0);
        assert forall|d: int|
            d0 <= d < 6 && (#[trigger] face_step(n, x, y, z, d)) is Some && f.states()[flat_index(
                n,
                face_step(n, x, y, z, d).unwrap().0,
                face_step(n, x, y, z, d).unwrap().1,
                face_step(n, x, y, z, d).unwrap().2,
            )] != CellState::Accepted implies exists|q: int|
            0 <= q < all.len() && (#[trigger] all[q]).cell as int == flat_index(
                n,
                face_step(n, x, y, z, d).unwrap().0,
                face_step(n, x, y, z, d).unwrap().1,
                face_step(n, x, y, z, d).unwrap().2,
            ) by {
            if d == d0 {
                assert(all[0] == f.update_toward(x, y, z, d0).unwrap());
            } else {
                let q = choose|q: int|
                    0 <= q < rest.len() && (#[trigger] rest[q]).cell as int == flat_index(
                        n,
                        face_step(n, x, y, z, d).unwrap().0,
                        face_step(n, x, y, z, d).unwrap().1,
                        face_step(n, x, y, z, d).unwrap().2,
                    );
                if f.update_toward(x, y, z, d0) is Some {
                    assert(all[q + 1] == rest[q]);
                } else {
                    assert(all[q] == rest[q]);
                }
            }
        }
    }
}

/// The updates owed to the neighbours of a cell are exactly its face
/// updates: each names a face neighbour that is not accepted, reached by
/// the axis unit step it carries, with the least accepted key on each of
/// its axes; they come in the step order −x, +x, −y, +y, −z, +z; and every
/// face neighbour in the grid that is not accepted gets one.
pub proof fn lemma_neighbour_updates_are_face_updates(f: &Fmm, cell: int)
    requires
        f.wf(),
        0 <= cell < cell_count(f.n()),
    ensures
        ({
            let c = coords_of(f.n(), cell);
            let ups = f.updates_from(c.0, c.1, c.2, 0);
            &&& forall|q: int| 0 <= q < ups.len() ==> is_face_update(f, c.0, c.1, c.2, #[trigger] ups[q])
            &&& forall|q: int, q2: int|
                0 <= q < q2 < ups.len() ==> step_rank(
                    (#[trigger] ups[q]).dx as int,
                    ups[q].dy as int,
                    ups[q].dz as int,
                ) < step_rank(
                    (#[trigger] ups[q2]).dx as int,
                    ups[q2].dy as int,
                    ups[q2].dz as int,
                )
            &&& forall|d: int|
                0 <= d < 6 && (#[trigger] face_step(f.n(), c.0, c.1, c.2, d)) is Some
                    && f.states()[flat_index(
                    f.n(),
                    face_step(f.n(), c.0, c.1, c.2, d).unwrap().0,
                    face_step(f.n(), c.0, c.1, c.2, d).unwrap().1,
                    face_step(f.n(), c.0, c.1, c.2, d).unwrap().2,
                )] != CellState::Accepted ==> exists|q: int|
                    0 <= q < ups.len() && (#[trigger] ups[q]).cell as int == flat_index(
                        f.n(),
                        face_step(f.n(), c.0, c.1, c.2, d).unwrap().0,
                        face_step(f.n(), c.0, c.1, c.2, d).unwrap().1,
                        face_step(f.n(), c.0, c.1, c.2, d).unwrap().2,
                    )
        }),
{
    lemma_wf_dims(f);
    crate::grid::lemma_flat_index_of_coords(f.n(), cell);
    let c = coords_of(f.n(), cell);
    lemma_updates_from_each(f, c.0, c.1, c.2, 0);
    lemma_updates_from_ordered(f, c.0, c.1, c.2, 0);
    lemma_updates_from_cover(f, c.0, c.1, c.2, 0);
}

} // verus!

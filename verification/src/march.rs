//! The march itself: accept cells one by one and offer each accepted cell's
//! neighbours new tentative keys until no cell is considered.
use vstd::prelude::*;
use crate::grid::{
    valid_resolution,
    cell_count,
    in_grid,
    flat_index,
    coords_of,
    face_step,
    lemma_flat_index_bounds,
    lemma_coords_of_flat_index,
    lemma_flat_index_of_coords,
};
use crate::solver::{
    lesser,
    Fmm,
    CellState,
    NeighbourUpdate,
    UNREACHED,
    lemma_wf_dims,
    lemma_far_iff_unreached,
};

verus! {

/// Number of cells not yet accepted.
pub open spec fn unaccepted_count(s: Seq<CellState>) -> nat
    decreases s.len(),
{
    if s.len() == 0 {
        0
    } else {
        unaccepted_count(s.drop_last()) + if s.last() == CellState::Accepted {
            0nat
        } else {
            1nat
        }
    }
}

/// Flat index of the face neighbour of cell `i` in direction `d`, if that
/// neighbour lies in the grid.
pub open spec fn neighbour_of(n: int, i: int, d: int) -> Option<int> {
    let c = coords_of(n, i);
    match face_step(n, c.0, c.1, c.2, d) {
        Some(p) => Some(flat_index(n, p.0, p.1, p.2)),
        None => None,
    }
}

/// Every face neighbour of cell `i` has been reached (is no longer far).
pub open spec fn reached_around(s: Seq<CellState>, n: int, i: int) -> bool {
    forall|d: int|
        0 <= d < 6 ==> (#[trigger] neighbour_of(n, i, d) matches Some(j) ==> s[j]
            != CellState::Far)
}

/// The accepted cells form a region closed under face adjacency.
pub open spec fn accepted_closed(s: Seq<CellState>, n: int) -> bool {
    forall|i: int, d: int|
        0 <= i < cell_count(n) && s[i] == CellState::Accepted && 0 <= d < 6 ==> (
        #[trigger] neighbour_of(n, i, d) matches Some(j) ==> s[j] == CellState::Accepted)
}

/// Cell `i` has an accepted face neighbour whose key is no larger than its
/// own: its key is supported from upwind.
pub open spec fn supported(s: Seq<CellState>, c: Seq<u64>, n: int, i: int) -> bool {
    exists|d: int|
        0 <= d < 6 && (#[trigger] neighbour_of(n, i, d) matches Some(j) && s[j]
            == CellState::Accepted && c[j] <= c[i])
}

/// An offer for update `u` is never below the least axis key it was given.
pub open spec fn upwind_offer(u: NeighbourUpdate, r: Option<u64>) -> bool {
    r matches Some(k) ==> lesser(lesser(u.axis_x, u.axis_y), u.axis_z) <= k
}

/// `(dx, dy, dz)` is one of the six axis unit steps.
pub open spec fn unit_direction(dx: int, dy: int, dz: int) -> bool {
    ||| (dx, dy, dz) == (-1int, 0int, 0int)
    ||| (dx, dy, dz) == (1int, 0int, 0int)
    ||| (dx, dy, dz) == (0int, -1int, 0int)
    ||| (dx, dy, dz) == (0int, 1int, 0int)
    ||| (dx, dy, dz) == (0int, 0int, -1int)
    ||| (dx, dy, dz) == (0int, 0int, 1int)
}

/// `u` names a cell of a grid of resolution `n` by its coordinates and
/// flat index, and carries an axis unit direction.
pub open spec fn valid_update(n: int, u: NeighbourUpdate) -> bool {
    &&& in_grid(n, u.x as int, u.y as int, u.z as int)
    &&& u.cell as int == flat_index(n, u.x as int, u.y as int, u.z as int)
    &&& unit_direction(u.dx as int, u.dy as int, u.dz as int)
}

/// One step of a march: the accepted cell whose neighbours were served,
/// its key, the march state just before serving them, and each update
/// handed out with the reply it got, in the order they were handed out.
pub struct MarchStep {
    pub cell: usize,
    pub key: u64,
    pub before: Fmm,
    pub offers: Seq<(NeighbourUpdate, Option<u64>)>,
}

/// The key cell `i` holds after starting at `key` and being offered, in
/// turn, each key in `offers` addressed to it: a key is taken when it is
/// below the one held.
pub open spec fn least_offer(key: u64, offers: Seq<(NeighbourUpdate, Option<u64>)>, i: int) -> u64
    decreases offers.len(),
{
    if offers.len() == 0 {
        key
    } else {
        let prev = least_offer(key, offers.drop_last(), i);
        match offers.last().1 {
            Some(k) => if offers.last().0.cell as int == i && k < prev {
                k
            } else {
                prev
            },
            None => prev,
        }
    }
}

/// `least_offer` over every step of a march log, in order.
pub open spec fn least_offer_log(key: u64, log: Seq<MarchStep>, i: int) -> u64
    decreases log.len(),
{
    if log.len() == 0 {
        key
    } else {
        least_offer(least_offer_log(key, log.drop_last(), i), log.last().offers, i)
    }
}

/// No offer in `offers` is below `key`.
pub open spec fn offers_not_below(offers: Seq<(NeighbourUpdate, Option<u64>)>, key: u64) -> bool {
    forall|q: int| 0 <= q < offers.len() ==> ((#[trigger] offers[q]).1 matches Some(k) ==> key <= k)
}

/// No offer of any step is below the key of the cell that step served.
pub open spec fn log_offers_not_below_keys(log: Seq<MarchStep>) -> bool {
    forall|t: int| 0 <= t < log.len() ==> offers_not_below(#[trigger] log[t].offers, log[t].key)
}

/// The step keys do not decrease along the log.
pub open spec fn keys_nondecreasing(log: Seq<MarchStep>) -> bool {
    forall|t: int, t2: int| 0 <= t < t2 < log.len() ==> #[trigger] log[t].key <= #[trigger] log[t2].key
}

/// `u` is an update owed by march state `f`: it names an unaccepted grid
/// cell by its coordinates and carries that cell's axis keys.
spec fn owed(f: &Fmm, u: NeighbourUpdate) -> bool {
    &&& valid_update(f.n(), u)
    &&& in_grid(f.n(), u.x as int, u.y as int, u.z as int)
    &&& u.cell as int == flat_index(f.n(), u.x as int, u.y as int, u.z as int)
    &&& u.cell < cell_count(f.n())
    &&& f.states()[u.cell as int] != CellState::Accepted
    &&& u.axis_x == f.axis_min_key(u.x as int, u.y as int, u.z as int, 0)
    &&& u.axis_y == f.axis_min_key(u.x as int, u.y as int, u.z as int, 1)
    &&& u.axis_z == f.axis_min_key(u.x as int, u.y as int, u.z as int, 2)
}

/// Support survives while accepted cells keep their keys and the cell's
/// own key does not drop.
proof fn lemma_support_kept(
    s: Seq<CellState>,
    c: Seq<u64>,
    s2: Seq<CellState>,
    c2: Seq<u64>,
    n: int,
    i: int,
)
    requires
        valid_resolution(n),
        0 <= i < cell_count(n),
        supported(s, c, n, i),
        forall|j: int|
            0 <= j < cell_count(n) && #[trigger] s[j] == CellState::Accepted ==> s2[j]
                == CellState::Accepted && c2[j] == c[j],
        c[i] <= c2[i],
    ensures
        supported(s2, c2, n, i),
{
    let d = choose|d: int|
        0 <= d < 6 && (#[trigger] neighbour_of(n, i, d) matches Some(j) && s[j]
            == CellState::Accepted && c[j] <= c[i]);
    lemma_flat_index_of_coords(n, i);
    let cc = coords_of(n, i);
    let p = face_step(n, cc.0, cc.1, cc.2, d).unwrap();
    lemma_flat_index_bounds(n, p.0, p.1, p.2);
    let j = flat_index(n, p.0, p.1, p.2);
    assert(s[j] == CellState::Accepted);
    assert(neighbour_of(n, i, d) matches Some(jj) && s2[jj] == CellState::Accepted && c2[jj]
        <= c2[i]);
}

/// A taken upwind offer for an owed update leaves the updated cell
/// supported.
proof fn lemma_offer_supported(
    f0: &Fmm,
    s: Seq<CellState>,
    c: Seq<u64>,
    u: NeighbourUpdate,
    k: u64,
)
    requires
        f0.wf(),
        owed(f0, u),
        lesser(lesser(u.axis_x, u.axis_y), u.axis_z) <= k,
        k < UNREACHED,
        s.len() == cell_count(f0.n()),
        c.len() == cell_count(f0.n()),
        forall|j: int|
            0 <= j < cell_count(f0.n()) && #[trigger] f0.states()[j] == CellState::Accepted
                ==> s[j] == CellState::Accepted && c[j] == f0.costs()[j],
        c[u.cell as int] == k,
    ensures
        supported(s, c, f0.n(), u.cell as int),
{
    let n = f0.n();
    lemma_wf_dims(f0);
    let (x, y, z) = (u.x as int, u.y as int, u.z as int);
    let e = if f0.side_key(x, y, z, 0) <= k {
        0int
    } else if f0.side_key(x, y, z, 1) <= k {
        1int
    } else if f0.side_key(x, y, z, 2) <= k {
        2int
    } else if f0.side_key(x, y, z, 3) <= k {
        3int
    } else if f0.side_key(x, y, z, 4) <= k {
        4int
    } else {
        5int
    };
    assert(f0.side_key(x, y, z, e) <= k);
    let p = face_step(n, x, y, z, e).unwrap();
    lemma_flat_index_bounds(n, p.0, p.1, p.2);
    let j = flat_index(n, p.0, p.1, p.2);
    assert(f0.states()[j] == CellState::Accepted);
    lemma_coords_of_flat_index(n, x, y, z);
    assert(neighbour_of(n, u.cell as int, e) == Some(j));
    assert(neighbour_of(n, u.cell as int, e) matches Some(jj) && s[jj] == CellState::Accepted
        && c[jj] <= c[u.cell as int]);
}

/// Sequences that agree on which cells are accepted count alike.
proof fn lemma_unaccepted_same(s: Seq<CellState>, t: Seq<CellState>)
    requires
        s.len() == t.len(),
        forall|i: int|
            0 <= i < s.len() ==> (#[trigger] s[i] == CellState::Accepted <==> t[i]
                == CellState::Accepted),
    ensures
        unaccepted_count(s) == unaccepted_count(t),
    decreases s.len(),
{
    if s.len() > 0 {
        assert(s.last() == s[s.len() - 1]);
        lemma_unaccepted_same(s.drop_last(), t.drop_last());
    }
}

/// Accepting a cell that was not accepted lowers the count by one.
proof fn lemma_unaccepted_accept(s: Seq<CellState>, i: int)
    requires
        0 <= i < s.len(),
        s[i] != CellState::Accepted,
    ensures
        unaccepted_count(s.update(i, CellState::Accepted)) + 1 == unaccepted_count(s),
    decreases s.len(),
{
    let t = s.update(i, CellState::Accepted);
    if i == s.len() - 1 {
        assert(t.drop_last() =~= s.drop_last());
    } else {
        assert(t.drop_last() =~= s.drop_last().update(i, CellState::Accepted));
        lemma_unaccepted_accept(s.drop_last(), i);
    }
}

/// Reached neighbourhoods stay reached while no cell becomes far again.
proof fn lemma_reached_monotone(s: Seq<CellState>, t: Seq<CellState>, n: int, i: int)
    requires
        1 <= n,
        0 <= i < cell_count(n),
        reached_around(s, n, i),
        forall|j: int| 0 <= j < cell_count(n) && s[j] != CellState::Far ==> #[trigger] t[j]
            != CellState::Far,
    ensures
        reached_around(t, n, i),
{
    assert forall|d: int| 0 <= d < 6 implies (#[trigger] neighbour_of(n, i, d) matches Some(j)
        ==> t[j] != CellState::Far) by {
        lemma_flat_index_of_coords(n, i);
        let c = coords_of(n, i);
        if let Some(p) = face_step(n, c.0, c.1, c.2, d) {
            lemma_flat_index_bounds(n, p.0, p.1, p.2);
        }
    }
}

/// Every update listed for directions `d0..6` is owed by the state.
proof fn lemma_updates_owed(f: &Fmm, x: int, y: int, z: int, d0: int)
    requires
        f.wf(),
        in_grid(f.n(), x, y, z),
        0 <= d0 <= 6,
    ensures
        forall|q: int|
            0 <= q < f.updates_from(x, y, z, d0).len() ==> owed(
                f,
                #[trigger] f.updates_from(x, y, z, d0)[q],
            ),
    decreases 6 - d0,
{
    lemma_wf_dims(f);
    if d0 < 6 {
        lemma_updates_owed(f, x, y, z, d0 + 1);
        let rest = f.updates_from(x, y, z, d0 + 1);
        match f.update_toward(x, y, z, d0) {
            Some(u) => {
                let c = face_step(f.n(), x, y, z, d0).unwrap();
                lemma_flat_index_bounds(f.n(), c.0, c.1, c.2);
                let n = f.n();
                assert(n <= n * n * n) by (nonlinear_arith)
                    requires
                        1 <= n,
                ;
                assert(u.x as int == c.0 && u.y as int == c.1 && u.z as int == c.2);
                assert(owed(f, u));
                assert forall|q: int| 0 <= q < f.updates_from(x, y, z, d0).len() implies owed(
                    f,
                    #[trigger] f.updates_from(x, y, z, d0)[q],
                ) by {
                    if q > 0 {
                        assert(f.updates_from(x, y, z, d0)[q] == rest[q - 1]);
                    }
                }
            },
            None => {},
        }
    }
}

/// An update owed in direction `d` is listed among the updates owed in
/// directions `d0..6` for any `d0 <= d`.
proof fn lemma_update_listed(f: &Fmm, x: int, y: int, z: int, d0: int, d: int)
    requires
        0 <= d0 <= d < 6,
        f.update_toward(x, y, z, d) is Some,
    ensures
        f.updates_from(x, y, z, d0).contains(f.update_toward(x, y, z, d).unwrap()),
    decreases d - d0,
{
    let u = f.update_toward(x, y, z, d).unwrap();
    if d0 == d {
        assert(f.updates_from(x, y, z, d0)[0] == u);
    } else {
        lemma_update_listed(f, x, y, z, d0 + 1, d);
        let rest = f.updates_from(x, y, z, d0 + 1);
        let k = choose|k: int| 0 <= k < rest.len() && rest[k] == u;
        match f.update_toward(x, y, z, d0) {
            Some(v) => {
                assert(f.updates_from(x, y, z, d0)[k + 1] == u);
            },
            None => {
                assert(f.updates_from(x, y, z, d0)[k] == u);
            },
        }
    }
}

/// A region of accepted cells that holds `source` and is closed under face
/// adjacency holds every cell with coordinates `(x, y, z)`.
proof fn lemma_closed_region_reaches(s: Seq<CellState>, n: int, source: int, x: int, y: int, z: int)
    requires
        valid_resolution(n),
        s.len() == cell_count(n),
        0 <= source < cell_count(n),
        s[source] == CellState::Accepted,
        accepted_closed(s, n),
        in_grid(n, x, y, z),
    ensures
        s[flat_index(n, x, y, z)] == CellState::Accepted,
    decreases (if x >= coords_of(n, source).0 {
        x - coords_of(n, source).0
    } else {
        coords_of(n, source).0 - x
    }) + (if y >= coords_of(n, source).1 {
        y - coords_of(n, source).1
    } else {
        coords_of(n, source).1 - y
    }) + (if z >= coords_of(n, source).2 {
        z - coords_of(n, source).2
    } else {
        coords_of(n, source).2 - z
    }),
{
    let sc = coords_of(n, source);
    lemma_flat_index_of_coords(n, source);
    lemma_flat_index_bounds(n, x, y, z);
    if x > sc.0 {
        lemma_closed_region_reaches(s, n, source, x - 1, y, z);
        step_closes(s, n, x - 1, y, z, 1);
    } else if x < sc.0 {
        lemma_closed_region_reaches(s, n, source, x + 1, y, z);
        step_closes(s, n, x + 1, y, z, 0);
    } else if y > sc.1 {
        lemma_closed_region_reaches(s, n, source, x, y - 1, z);
        step_closes(s, n, x, y - 1, z, 3);
    } else if y < sc.1 {
        lemma_closed_region_reaches(s, n, source, x, y + 1, z);
        step_closes(s, n, x, y + 1, z, 2);
    } else if z > sc.2 {
        lemma_closed_region_reaches(s, n, source, x, y, z - 1);
        step_closes(s, n, x, y, z - 1, 5);
    } else if z < sc.2 {
        lemma_closed_region_reaches(s, n, source, x, y, z + 1);
        step_closes(s, n, x, y, z + 1, 4);
    }
}

/// One step of the closure: the neighbour of an accepted cell in the
/// grid is accepted.
proof fn step_closes(s: Seq<CellState>, n: int, x: int, y: int, z: int, d: int)
    requires
        valid_resolution(n),
        accepted_closed(s, n),
        in_grid(n, x, y, z),
        0 <= d < 6,
        s[flat_index(n, x, y, z)] == CellState::Accepted,
        face_step(n, x, y, z, d) is Some,
    ensures
        s[flat_index(
            n,
            face_step(n, x, y, z, d).unwrap().0,
            face_step(n, x, y, z, d).unwrap().1,
            face_step(n, x, y, z, d).unwrap().2,
        )] == CellState::Accepted,
{
    let i = flat_index(n, x, y, z);
    lemma_flat_index_bounds(n, x, y, z);
    lemma_coords_of_flat_index(n, x, y, z);
    assert(neighbour_of(n, i, d) is Some);
}

/// A closed accepted region that holds one cell holds the whole grid: the
/// grid is connected through faces.
pub proof fn lemma_closed_region_is_grid(s: Seq<CellState>, n: int, source: int)
    requires
        valid_resolution(n),
        s.len() == cell_count(n),
        0 <= source < cell_count(n),
        s[source] == CellState::Accepted,
        accepted_closed(s, n),
    ensures
        forall|i: int| 0 <= i < cell_count(n) ==> #[trigger] s[i] == CellState::Accepted,
{
    assert forall|i: int| 0 <= i < cell_count(n) implies #[trigger] s[i]
        == CellState::Accepted by {
        lemma_flat_index_of_coords(n, i);
        let c = coords_of(n, i);
        lemma_closed_region_reaches(s, n, source, c.0, c.1, c.2);
    }
}

/// Offering one more key: taken when addressed to `i` and below the key held.
proof fn lemma_least_offer_push(
    key: u64,
    offers: Seq<(NeighbourUpdate, Option<u64>)>,
    o: (NeighbourUpdate, Option<u64>),
    i: int,
)
    ensures
        least_offer(key, offers.push(o), i) == (match o.1 {
            Some(k) => if o.0.cell as int == i && k < least_offer(key, offers, i) {
                k
            } else {
                least_offer(key, offers, i)
            },
            None => least_offer(key, offers, i),
        }),
{
    assert(offers.push(o).drop_last() =~= offers);
}

/// Extending a log by one step extends `least_offer_log` by that step's offers.
proof fn lemma_least_offer_log_push(key: u64, log: Seq<MarchStep>, step: MarchStep, i: int)
    ensures
        least_offer_log(key, log.push(step), i) == least_offer(
            least_offer_log(key, log, i),
            step.offers,
            i,
        ),
{
    assert(log.push(step).drop_last() =~= log);
}

/// A bound on every offer of a longer list bounds every offer of the prefix
/// and the last offer.
proof fn lemma_offers_not_below_push(
    offers: Seq<(NeighbourUpdate, Option<u64>)>,
    o: (NeighbourUpdate, Option<u64>),
    key: u64,
)
    ensures
        offers_not_below(offers.push(o), key) ==> offers_not_below(offers, key) && (o.1 matches Some(
            k,
        ) ==> key <= k),
{
    if offers_not_below(offers.push(o), key) {
        assert forall|q: int| 0 <= q < offers.len() implies ((#[trigger] offers[q]).1 matches Some(
            k,
        ) ==> key <= k) by {
            assert(offers.push(o)[q] == offers[q]);
        }
        assert(offers.push(o)[offers.len() as int] == o);
    }
}

/// The per-step bound on a longer log holds on its prefix and its last step.
proof fn lemma_log_bound_push(log: Seq<MarchStep>, step: MarchStep)
    ensures
        log_offers_not_below_keys(log.push(step)) ==> log_offers_not_below_keys(log)
            && offers_not_below(step.offers, step.key),
{
    if log_offers_not_below_keys(log.push(step)) {
        assert forall|t: int| 0 <= t < log.len() implies offers_not_below(
            #[trigger] log[t].offers,
            log[t].key,
        ) by {
            assert(log.push(step)[t] == log[t]);
        }
        assert(log.push(step)[log.len() as int] == step);
    }
}

/// Appending a step whose key is no smaller than the last keeps the keys
/// non-decreasing.
proof fn lemma_keys_push(log: Seq<MarchStep>, step: MarchStep)
    requires
        keys_nondecreasing(log),
        log.len() > 0 ==> log.last().key <= step.key,
    ensures
        keys_nondecreasing(log.push(step)),
{
    let l = log.push(step);
    assert forall|t: int, t2: int| 0 <= t < t2 < l.len() implies #[trigger] l[t].key
        <= #[trigger] l[t2].key by {
        if t2 == log.len() {
            assert(l[t] == log[t]);
            if t < log.len() - 1 {
                assert(log[t].key <= log[log.len() - 1].key);
            }
        } else {
            assert(l[t] == log[t]);
            assert(l[t2] == log[t2]);
        }
    }
}

/// The updates a march step was owed: those of its cell in its `before` state.
pub open spec fn step_updates(step: MarchStep, n: int) -> Seq<NeighbourUpdate> {
    step.before.updates_from(
        coords_of(n, step.cell as int).0,
        coords_of(n, step.cell as int).1,
        coords_of(n, step.cell as int).2,
        0,
    )
}

/// The shape every march log keeps against the march state `(s, c)`: it
/// starts at `source` in the state `(os, oc)`, each step served an accepted
/// cell with exactly the updates it owed, each step accepts one new cell,
/// accepted cells keep their keys, and each cell not accepted at the start
/// holds the least key offered to it.
#[verifier::opaque]
spec fn log_shape(
    log: Seq<MarchStep>,
    os: Seq<CellState>,
    oc: Seq<u64>,
    source: int,
    n: int,
    s: Seq<CellState>,
    c: Seq<u64>,
) -> bool {
    let count = cell_count(n);
    &&& log.len() >= 1
    &&& log[0].cell == source
    &&& log[0].before.states() == os
    &&& log[0].before.costs() == oc
    &&& forall|t: int|
        0 <= t < log.len() ==> {
            &&& (#[trigger] log[t]).before.wf()
            &&& log[t].before.n() == n
            &&& log[t].cell < count
            &&& log[t].before.states()[log[t].cell as int] == CellState::Accepted
            &&& log[t].key == c[log[t].cell as int]
            &&& log[t].offers.len() == step_updates(log[t], n).len()
        }
    &&& forall|t: int, q: int|
        0 <= t < log.len() && 0 <= q < log[t].offers.len() ==> (#[trigger] log[t].offers[q]).0
            == step_updates(log[t], n)[q]
    &&& forall|t: int, i: int|
        0 <= t < log.len() && 0 <= i < count && #[trigger] log[t].before.states()[i]
            == CellState::Accepted ==> s[i] == CellState::Accepted && c[i]
            == log[t].before.costs()[i]
    &&& forall|t: int, u: int|
        #![trigger log[t], log[u]]
        0 <= t && u == t + 1 && u < log.len() ==> log[t].before.states()[log[u].cell as int]
            != CellState::Accepted
    &&& forall|t: int, u: int, i: int|
        #![trigger log[u].before.states()[i], log[t]]
        0 <= t && u == t + 1 && u < log.len() && 0 <= i < count ==> (log[u].before.states()[i]
        == CellState::Accepted <==> (log[t].before.states()[i] == CellState::Accepted || i == log[u].cell))
    &&& forall|i: int|
        0 <= i < count && #[trigger] os[i] != CellState::Accepted ==> c[i] == least_offer_log(
            oc[i],
            log,
            i,
        )
    &&& forall|t: int, i: int|
        1 <= t < log.len() && 0 <= i < count && #[trigger] log[t].before.states()[i]
            == CellState::Considered ==> log[t].key <= log[t].before.costs()[i]
}

/// A march log right after its last step served its cell: the accepted
/// cells are those of the last step's `before` state, and when no offer
/// undercut its step's key, the keys so far do not decrease and no
/// considered cell is below the last one.
#[verifier::opaque]
spec fn served_log(
    log: Seq<MarchStep>,
    os: Seq<CellState>,
    oc: Seq<u64>,
    source: int,
    n: int,
    s: Seq<CellState>,
    c: Seq<u64>,
    old_low: bool,
) -> bool {
    &&& log_shape(log, os, oc, source, n, s, c)
    &&& forall|i: int|
        0 <= i < cell_count(n) ==> (#[trigger] s[i] == CellState::Accepted
            <==> log.last().before.states()[i] == CellState::Accepted)
    &&& old_low && log_offers_not_below_keys(log) ==> {
        &&& keys_nondecreasing(log)
        &&& forall|i: int|
            0 <= i < cell_count(n) && #[trigger] s[i] == CellState::Considered ==> log.last().key
                <= c[i]
    }
}

/// A march log while the cell `current`, accepted after its last step, is
/// still to be served.
#[verifier::opaque]
spec fn pending_log(
    log: Seq<MarchStep>,
    os: Seq<CellState>,
    oc: Seq<u64>,
    source: int,
    n: int,
    s: Seq<CellState>,
    c: Seq<u64>,
    current: int,
    old_low: bool,
) -> bool {
    &&& log_shape(log, os, oc, source, n, s, c)
    &&& log.last().before.states()[current] != CellState::Accepted
    &&& forall|i: int|
        0 <= i < cell_count(n) ==> (#[trigger] s[i] == CellState::Accepted <==> (
        log.last().before.states()[i] == CellState::Accepted || i == current))
    &&& forall|i: int|
        0 <= i < cell_count(n) && #[trigger] s[i] == CellState::Considered ==> c[current] <= c[i]
    &&& old_low && log_offers_not_below_keys(log) ==> {
        &&& keys_nondecreasing(log)
        &&& log.last().key <= c[current]
    }
}

/// Serving the pending cell extends the log by one step.
proof fn lemma_log_after_serve(
    log: Seq<MarchStep>,
    os: Seq<CellState>,
    oc: Seq<u64>,
    source: int,
    n: int,
    old_low: bool,
    current: int,
    f0: Fmm,
    offers: Seq<(NeighbourUpdate, Option<u64>)>,
    s1: Seq<CellState>,
    c1: Seq<u64>,
)
    requires
        valid_resolution(n),
        os.len() == cell_count(n),
        oc.len() == cell_count(n),
        old_low == (forall|i: int|
            0 <= i < cell_count(n) && #[trigger] os[i] == CellState::Considered ==> oc[source]
                <= oc[i]),
        f0.wf(),
        f0.n() == n,
        0 <= current < cell_count(n),
        f0.states()[current] == CellState::Accepted,
        log.len() == 0 ==> current == source && f0.states() == os && f0.costs() == oc,
        log.len() > 0 ==> pending_log(
            log,
            os,
            oc,
            source,
            n,
            f0.states(),
            f0.costs(),
            current,
            old_low,
        ),
        s1.len() == cell_count(n),
        c1.len() == cell_count(n),
        forall|i: int|
            0 <= i < cell_count(n) ==> (#[trigger] s1[i] == CellState::Accepted
                <==> f0.states()[i] == CellState::Accepted),
        forall|i: int|
            0 <= i < cell_count(n) && #[trigger] f0.states()[i] == CellState::Accepted ==> c1[i]
                == f0.costs()[i],
        offers.len() == f0.updates_from(
            coords_of(n, current).0,
            coords_of(n, current).1,
            coords_of(n, current).2,
            0,
        ).len(),
        forall|q: int|
            0 <= q < offers.len() ==> (#[trigger] offers[q]).0 == f0.updates_from(
                coords_of(n, current).0,
                coords_of(n, current).1,
                coords_of(n, current).2,
                0,
            )[q],
        forall|i: int|
            0 <= i < cell_count(n) ==> #[trigger] c1[i] == least_offer(f0.costs()[i], offers, i),
        offers_not_below(offers, f0.costs()[current]) && (forall|i: int|
            0 <= i < cell_count(n) && #[trigger] f0.states()[i] == CellState::Considered
                ==> f0.costs()[current] <= f0.costs()[i]) ==> forall|i: int|
            0 <= i < cell_count(n) && #[trigger] s1[i] == CellState::Considered ==> f0.costs()[current]
                <= c1[i],
    ensures
        served_log(
            log.push(
                MarchStep { cell: current as usize, key: f0.costs()[current], before: f0, offers },
            ),
            os,
            oc,
            source,
            n,
            s1,
            c1,
            old_low,
        ),
{
    reveal(served_log);
    reveal(pending_log);
    reveal(log_shape);
    let count = cell_count(n);
    let s0 = f0.states();
    let c0 = f0.costs();
    let step = MarchStep { cell: current as usize, key: c0[current], before: f0, offers };
    let l = log.push(step);
    lemma_wf_dims(&f0);
    assert(l.last() == step);
    assert forall|t: int| 0 <= t < log.len() implies #[trigger] l[t] == log[t] by {}
    assert(l[log.len() as int] == step);
    assert forall|t: int|
        0 <= t < l.len() implies {
        &&& (#[trigger] l[t]).before.wf()
        &&& l[t].before.n() == n
        &&& l[t].cell < count
        &&& l[t].before.states()[l[t].cell as int] == CellState::Accepted
        &&& l[t].key == c1[l[t].cell as int]
        &&& l[t].offers.len() == step_updates(l[t], n).len()
    } by {
        if t < log.len() {
            assert(l[t] == log[t]);
        }
    }
    assert forall|t: int, q: int|
        0 <= t < l.len() && 0 <= q < l[t].offers.len() implies (#[trigger] l[t].offers[q]).0
        == step_updates(l[t], n)[q] by {
        if t < log.len() {
            assert(l[t] == log[t]);
        }
    }
    assert forall|t: int, i: int|
        0 <= t < l.len() && 0 <= i < count && #[trigger] l[t].before.states()[i]
            == CellState::Accepted implies s1[i] == CellState::Accepted && c1[i]
        == l[t].before.costs()[i] by {
        if t < log.len() {
            assert(l[t] == log[t]);
            assert(s0[i] == CellState::Accepted);
        }
    }
    assert forall|t: int, u: int|
        #![trigger l[t], l[u]]
        0 <= t && u == t + 1 && u < l.len() implies l[t].before.states()[l[u].cell as int]
        != CellState::Accepted by {
        assert(l[t] == log[t]);
        if u < log.len() {
            assert(l[u] == log[u]);
        }
    }
    assert forall|t: int, u: int, i: int|
        #![trigger l[u].before.states()[i], l[t]]
        0 <= t && u == t + 1 && u < l.len() && 0 <= i < count implies (l[u].before.states()[i]
        == CellState::Accepted <==> (l[t].before.states()[i] == CellState::Accepted || i == l[u].cell)) by {
        assert(l[t] == log[t]);
        if u < log.len() {
            assert(l[u] == log[u]);
        }
    }
    assert forall|i: int|
        0 <= i < count && #[trigger] os[i] != CellState::Accepted implies c1[i]
        == least_offer_log(oc[i], l, i) by {
        lemma_least_offer_log_push(oc[i], log, step, i);
    }
    assert forall|t: int, i: int|
        1 <= t < l.len() && 0 <= i < count && #[trigger] l[t].before.states()[i]
            == CellState::Considered implies l[t].key <= l[t].before.costs()[i] by {
        if t < log.len() {
            assert(l[t] == log[t]);
        } else {
            assert(l[t] == step);
            assert(s0[i] == CellState::Considered);
        }
    }
    assert(log_shape(l, os, oc, source, n, s1, c1));
    if old_low && log_offers_not_below_keys(l) {
        lemma_log_bound_push(log, step);
        if log.len() > 0 {
            lemma_keys_push(log, step);
        } else {
            lemma_keys_push(log, step);
        }
    }
}

/// Accepting the next cell after a served step leaves it pending.
proof fn lemma_log_after_accept(
    log: Seq<MarchStep>,
    os: Seq<CellState>,
    oc: Seq<u64>,
    source: int,
    n: int,
    old_low: bool,
    s1: Seq<CellState>,
    c1: Seq<u64>,
    next: int,
    s2: Seq<CellState>,
    c2: Seq<u64>,
)
    requires
        served_log(log, os, oc, source, n, s1, c1, old_low),
        valid_resolution(n),
        s1.len() == cell_count(n),
        0 <= next < cell_count(n),
        s1[next] == CellState::Considered,
        s2 == s1.update(next, CellState::Accepted),
        c2 == c1,
        forall|j: int|
            0 <= j < cell_count(n) && #[trigger] s1[j] == CellState::Considered ==> c1[next]
                <= c1[j],
    ensures
        pending_log(log, os, oc, source, n, s2, c2, next, old_low),
{
    reveal(served_log);
    reveal(pending_log);
    reveal(log_shape);
    let count = cell_count(n);
    assert forall|t: int, i: int|
        0 <= t < log.len() && 0 <= i < count && #[trigger] log[t].before.states()[i]
            == CellState::Accepted implies s2[i] == CellState::Accepted && c2[i]
        == log[t].before.costs()[i] by {
        assert(s1[i] == CellState::Accepted);
    }
    assert(log_shape(log, os, oc, source, n, s2, c2));
    assert forall|i: int|
        0 <= i < count && #[trigger] s2[i] == CellState::Considered implies c2[next] <= c2[i] by {
        assert(s1[i] == CellState::Considered);
    }
}

/// What a served log states of the march it records.
proof fn lemma_served_log_facts(
    log: Seq<MarchStep>,
    os: Seq<CellState>,
    oc: Seq<u64>,
    source: int,
    n: int,
    s: Seq<CellState>,
    c: Seq<u64>,
    old_low: bool,
)
    requires
        served_log(log, os, oc, source, n, s, c, old_low),
    ensures
        log.len() >= 1,
        log[0].cell == source,
        log[0].before.states() == os,
        log[0].before.costs() == oc,
        forall|t: int|
            0 <= t < log.len() ==> {
                &&& (#[trigger] log[t]).before.wf()
                &&& log[t].before.n() == n
                &&& log[t].cell < cell_count(n)
                &&& log[t].before.states()[log[t].cell as int] == CellState::Accepted
                &&& log[t].key == c[log[t].cell as int]
                &&& log[t].offers.len() == step_updates(log[t], n).len()
            },
        forall|t: int, q: int|
            0 <= t < log.len() && 0 <= q < log[t].offers.len() ==> (
            #[trigger] log[t].offers[q]).0 == step_updates(log[t], n)[q],
        forall|t: int, i: int|
            0 <= t < log.len() && 0 <= i < cell_count(n) && #[trigger] log[t].before.states()[i]
                == CellState::Accepted ==> s[i] == CellState::Accepted && c[i]
                == log[t].before.costs()[i],
        forall|t: int, u: int|
            #![trigger log[t], log[u]]
            0 <= t && u == t + 1 && u < log.len() ==> log[t].before.states()[log[u].cell as int]
                != CellState::Accepted,
        forall|t: int, u: int, i: int|
            #![trigger log[u].before.states()[i], log[t]]
            0 <= t && u == t + 1 && u < log.len() && 0 <= i < cell_count(n) ==> (log[u].before.states()[i]
            == CellState::Accepted <==> (log[t].before.states()[i] == CellState::Accepted || i == log[u].cell)),
        forall|i: int|
            0 <= i < cell_count(n) ==> (#[trigger] s[i] == CellState::Accepted
                <==> log.last().before.states()[i] == CellState::Accepted),
        forall|i: int|
            0 <= i < cell_count(n) && #[trigger] os[i] != CellState::Accepted ==> c[i]
                == least_offer_log(oc[i], log, i),
        forall|t: int, i: int|
            1 <= t < log.len() && 0 <= i < cell_count(n) && #[trigger] log[t].before.states()[i]
                == CellState::Considered ==> log[t].key <= log[t].before.costs()[i],
        old_low && log_offers_not_below_keys(log) ==> keys_nondecreasing(log),
{
    reveal(served_log);
    reveal(log_shape);
}

impl Fmm {
    /// Hand each update owed to the neighbours of the accepted cell
    /// `current` to `offer`, in direction order, and relax that neighbour
    /// with the key that comes back. Returns each update handed out with
    /// its reply, in order.
    fn serve<F: Fn(NeighbourUpdate) -> Option<u64>>(&mut self, current: usize, offer: &F) -> (offers:
        Ghost<Seq<(NeighbourUpdate, Option<u64>)>>)
        requires
            old(self).wf(),
            current < cell_count(old(self).n()),
            old(self).states()[current as int] == CellState::Accepted,
            forall|u: NeighbourUpdate|
                valid_update(old(self).n(), u) ==> call_requires(*offer, (u,)),
        ensures
            final(self).wf(),
            final(self).n() == old(self).n(),
            forall|i: int|
                0 <= i < cell_count(old(self).n()) ==> (#[trigger] final(self).states()[i]
                    == CellState::Accepted <==> old(self).states()[i] == CellState::Accepted),
            forall|i: int|
                0 <= i < cell_count(old(self).n()) && old(self).states()[i] != CellState::Far
                    ==> #[trigger] final(self).states()[i] != CellState::Far,
            forall|i: int|
                0 <= i < cell_count(old(self).n()) && #[trigger] old(self).states()[i]
                    == CellState::Accepted ==> final(self).costs()[i] == old(self).costs()[i],
            offers@.len() == old(self).updates_from(
                coords_of(old(self).n(), current as int).0,
                coords_of(old(self).n(), current as int).1,
                coords_of(old(self).n(), current as int).2,
                0,
            ).len(),
            forall|q: int|
                0 <= q < offers@.len() ==> (#[trigger] offers@[q]).0 == old(self).updates_from(
                    coords_of(old(self).n(), current as int).0,
                    coords_of(old(self).n(), current as int).1,
                    coords_of(old(self).n(), current as int).2,
                    0,
                )[q] && call_ensures(*offer, (offers@[q].0,), offers@[q].1),
            forall|i: int|
                0 <= i < cell_count(old(self).n()) ==> #[trigger] final(self).costs()[i]
                    == least_offer(old(self).costs()[i], offers@, i),
            offers_not_below(offers@, old(self).costs()[current as int]) && (forall|i: int|
                0 <= i < cell_count(old(self).n()) && #[trigger] old(self).states()[i]
                    == CellState::Considered ==> old(self).costs()[current as int] <= old(self).costs()[i]) ==> forall|i: int|
                0 <= i < cell_count(old(self).n()) && #[trigger] final(self).states()[i]
                    == CellState::Considered ==> old(self).costs()[current as int] <= final(self).costs()[i],
            (forall|u: NeighbourUpdate, r: Option<u64>|
                call_ensures(*offer, (u,), r) ==> (r matches Some(k) && k < UNREACHED))
                ==> reached_around(final(self).states(), old(self).n(), current as int),
            (forall|u: NeighbourUpdate, r: Option<u64>|
                call_ensures(*offer, (u,), r) ==> upwind_offer(u, r)) ==> forall|i: int|
                0 <= i < cell_count(old(self).n()) && #[trigger] final(self).states()[i]
                    != CellState::Far && old(self).states()[i] != CellState::Accepted && (old(self).states()[i] == CellState::Far || final(self).costs()[i] != old(self).costs()[i])
                    ==> supported(final(self).states(), final(self).costs(), old(self).n(), i),
    {
        let ghost n = self.n();
        let ghost count = cell_count(n);
        let ghost f0: Fmm = *self;
        let ghost s0 = self.states();
        let ghost c0 = self.costs();
        let ghost cc = coords_of(n, current as int);
        let ghost key = c0[current as int];
        let ghost finite = forall|u: NeighbourUpdate, r: Option<u64>|
            call_ensures(*offer, (u,), r) ==> (r matches Some(k) && k < UNREACHED);
        let ghost upwind = forall|u: NeighbourUpdate, r: Option<u64>|
            call_ensures(*offer, (u,), r) ==> upwind_offer(u, r);
        let ghost low = forall|i: int|
            0 <= i < count && #[trigger] s0[i] == CellState::Considered ==> key <= c0[i];
        let ups = self.neighbour_updates(current);
        proof {
            lemma_wf_dims(self);
            lemma_flat_index_of_coords(n, current as int);
            lemma_updates_owed(self, cc.0, cc.1, cc.2, 0);
        }
        let ghost mut offers_now: Seq<(NeighbourUpdate, Option<u64>)> = Seq::empty();
        let mut t: usize = 0;
        while t < ups.len()
            invariant
                self.wf(),
                self.n() == n,
                count == cell_count(n),
                valid_resolution(n),
                forall|u: NeighbourUpdate| valid_update(n, u) ==> call_requires(*offer, (u,)),
                finite == (forall|u: NeighbourUpdate, r: Option<u64>|
                    call_ensures(*offer, (u,), r) ==> (r matches Some(k) && k < UNREACHED)),
                upwind == (forall|u: NeighbourUpdate, r: Option<u64>|
                    call_ensures(*offer, (u,), r) ==> upwind_offer(u, r)),
                t <= ups@.len(),
                current < count,
                s0[current as int] == CellState::Accepted,
                key == c0[current as int],
                s0.len() == count,
                c0.len() == count,
                self.states().len() == count,
                self.costs().len() == count,
                ups@ == f0.updates_from(cc.0, cc.1, cc.2, 0),
                forall|q: int| 0 <= q < ups@.len() ==> owed(&f0, #[trigger] ups@[q]),
                f0.wf(),
                f0.n() == n,
                f0.states() == s0,
                f0.costs() == c0,
                forall|i: int|
                    0 <= i < count ==> (#[trigger] self.states()[i] == CellState::Accepted
                        <==> s0[i] == CellState::Accepted),
                forall|i: int|
                    0 <= i < count && s0[i] != CellState::Far ==> #[trigger] self.states()[i]
                        != CellState::Far,
                forall|i: int|
                    0 <= i < count && #[trigger] s0[i] == CellState::Accepted ==> self.costs()[i]
                        == c0[i],
                offers_now.len() == t,
                forall|q: int|
                    0 <= q < t ==> (#[trigger] offers_now[q]).0 == ups@[q] && call_ensures(
                        *offer,
                        (ups@[q],),
                        offers_now[q].1,
                    ),
                forall|i: int|
                    0 <= i < count ==> #[trigger] self.costs()[i] == least_offer(
                        c0[i],
                        offers_now,
                        i,
                    ),
                low && offers_not_below(offers_now, key) ==> forall|i: int|
                    0 <= i < count && #[trigger] self.states()[i] == CellState::Considered
                        ==> key <= self.costs()[i],
                finite ==> forall|q: int|
                    0 <= q < t ==> self.states()[(#[trigger] ups@[q]).cell as int]
                        != CellState::Far,
                upwind ==> forall|i: int|
                    0 <= i < count && #[trigger] self.states()[i] != CellState::Far && s0[i]
                        != CellState::Accepted && (s0[i] == CellState::Far || self.costs()[i]
                        != c0[i]) ==> supported(self.states(), self.costs(), n, i),
            decreases ups@.len() - t,
        {
            let u = ups[t];
            proof {
                assert(owed(&f0, ups@[t as int]));
            }
            let r = offer(u);
            let ghost prev_offers = offers_now;
            let ghost costs_pre = self.costs();
            let ghost states_pre = self.states();
            proof {
                offers_now = offers_now.push((u, r));
                lemma_offers_not_below_push(prev_offers, (u, r), key);
                assert forall|q: int| 0 <= q < t + 1 implies (#[trigger] offers_now[q]).0
                    == ups@[q] && call_ensures(*offer, (ups@[q],), offers_now[q].1) by {
                    if q < t {
                        assert(offers_now[q] == prev_offers[q]);
                    }
                }
            }
            match r {
                Some(k) => {
                    proof {
                        lemma_far_iff_unreached(self, u.cell as int);
                    }
                    let taken = self.relax(u.cell, k);
                    proof {
                        lemma_wf_dims(self);
                        if upwind {
                            assert forall|i: int|
                                0 <= i < count && #[trigger] self.states()[i] != CellState::Far
                                    && s0[i] != CellState::Accepted && (s0[i] == CellState::Far
                                    || self.costs()[i] != c0[i]) implies supported(
                                self.states(),
                                self.costs(),
                                n,
                                i,
                            ) by {
                                assert forall|j: int|
                                    0 <= j < count && #[trigger] states_pre[j]
                                        == CellState::Accepted implies self.states()[j]
                                    == CellState::Accepted && self.costs()[j] == costs_pre[j] by {
                                    assert(j != u.cell as int);
                                }
                                if taken && i == u.cell as int {
                                    assert(upwind_offer(u, r));
                                    assert forall|j: int|
                                        0 <= j < cell_count(f0.n()) && #[trigger] f0.states()[j]
                                            == CellState::Accepted implies self.states()[j]
                                        == CellState::Accepted && self.costs()[j]
                                        == f0.costs()[j] by {
                                        assert(states_pre[j] == CellState::Accepted);
                                    }
                                    lemma_offer_supported(&f0, self.states(), self.costs(), u, k);
                                } else {
                                    assert(states_pre[i] != CellState::Far);
                                    assert(supported(states_pre, costs_pre, n, i));
                                    lemma_support_kept(
                                        states_pre,
                                        costs_pre,
                                        self.states(),
                                        self.costs(),
                                        n,
                                        i,
                                    );
                                }
                            }
                        }
                    }
                },
                None => {},
            }
            proof {
                lemma_wf_dims(self);
                assert forall|i: int|
                    0 <= i < count && #[trigger] s0[i] == CellState::Accepted implies self.costs()[i]
                    == c0[i] by {
                    assert(i != u.cell as int);
                    assert(costs_pre[i] == c0[i]);
                }
                assert forall|i: int| 0 <= i < count implies #[trigger] self.costs()[i]
                    == least_offer(c0[i], offers_now, i) by {
                    lemma_least_offer_push(c0[i], prev_offers, (u, r), i);
                }
                if low && offers_not_below(offers_now, key) {
                    assert forall|i: int|
                        0 <= i < count && #[trigger] self.states()[i]
                            == CellState::Considered implies key <= self.costs()[i] by {
                        if i != u.cell as int {
                            assert(states_pre[i] == CellState::Considered);
                        } else if states_pre[i] == CellState::Considered {
                        }
                    }
                }
            }
            t = t + 1;
        }
        proof {
            if finite {
                let s1 = self.states();
                assert forall|d: int| 0 <= d < 6 implies (#[trigger] neighbour_of(
                    n,
                    current as int,
                    d,
                ) matches Some(j) ==> s1[j] != CellState::Far) by {
                    lemma_flat_index_of_coords(n, current as int);
                    if let Some(p) = face_step(n, cc.0, cc.1, cc.2, d) {
                        let j = flat_index(n, p.0, p.1, p.2);
                        lemma_flat_index_bounds(n, p.0, p.1, p.2);
                        if s0[j] != CellState::Accepted {
                            lemma_update_listed(&f0, cc.0, cc.1, cc.2, 0, d);
                            let u = f0.update_toward(cc.0, cc.1, cc.2, d).unwrap();
                            let q = choose|q: int| 0 <= q < ups@.len() && ups@[q] == u;
                            assert(ups@[q].cell == j);
                        }
                    }
                }
            }
        }
        Ghost(offers_now)
    }

    /// Run the march from the accepted cell `source` until no cell is
    /// considered. Each time a cell is accepted (the source first), each of
    /// its face neighbours that is not accepted is handed to `offer`; a key
    /// it returns is offered to that neighbour with `relax`, and `None`
    /// offers nothing.
    ///
    /// Whatever `offer` returns, cells accepted before stay accepted with
    /// their keys, every newly accepted cell holds a finite key, and no cell
    /// is left considered. When every offer is a finite key, and every cell
    /// accepted at the start other than `source` already has all its face
    /// neighbours reached (as after `Fmm::new`), every cell of the grid ends
    /// accepted. When no offer is below the least axis key it
    /// was given, every newly accepted cell has an accepted face neighbour
    /// whose key is no larger than its own.
    ///
    /// The returned log has one step per served cell, the source first and
    /// then each newly accepted cell in acceptance order. Each step records
    /// the state before serving, and the updates handed to `offer` are
    /// exactly the updates that state owed, in direction order, each with
    /// the reply `offer` gave. Every cell not accepted at the start ends
    /// with the least key offered to it (or its starting key, if none was
    /// lower). Each step after the first serves a cell whose key is no
    /// larger than that of any cell still considered in its recorded state.
    /// When no reply is below the key of the cell its step served,
    /// and no cell considered at the start is below the source, the served
    /// keys do not decrease along the log.
    pub fn march<F: Fn(NeighbourUpdate) -> Option<u64>>(&mut self, source: usize, offer: F) -> (log:
        Ghost<Seq<MarchStep>>)
        requires
            old(self).wf(),
            source < cell_count(old(self).n()),
            old(self).states()[source as int] == CellState::Accepted,
            forall|u: NeighbourUpdate|
                valid_update(old(self).n(), u) ==> call_requires(offer, (u,)),
        ensures
            log@.len() >= 1,
            log@[0].cell == source,
            log@[0].before.states() == old(self).states(),
            log@[0].before.costs() == old(self).costs(),
            forall|t: int|
                0 <= t < log@.len() ==> {
                    &&& (#[trigger] log@[t]).before.wf()
                    &&& log@[t].before.n() == old(self).n()
                    &&& log@[t].cell < cell_count(old(self).n())
                    &&& log@[t].before.states()[log@[t].cell as int] == CellState::Accepted
                    &&& log@[t].key == final(self).costs()[log@[t].cell as int]
                    &&& log@[t].offers.len() == log@[t].before.updates_from(
                        coords_of(old(self).n(), log@[t].cell as int).0,
                        coords_of(old(self).n(), log@[t].cell as int).1,
                        coords_of(old(self).n(), log@[t].cell as int).2,
                        0,
                    ).len()
                },
            forall|t: int, q: int|
                0 <= t < log@.len() && 0 <= q < log@[t].offers.len() ==> {
                    &&& (#[trigger] log@[t].offers[q]).0 == log@[t].before.updates_from(
                        coords_of(old(self).n(), log@[t].cell as int).0,
                        coords_of(old(self).n(), log@[t].cell as int).1,
                        coords_of(old(self).n(), log@[t].cell as int).2,
                        0,
                    )[q]
                    &&& call_ensures(offer, (log@[t].offers[q].0,), log@[t].offers[q].1)
                },
            forall|t: int, i: int|
                0 <= t < log@.len() && 0 <= i < cell_count(old(self).n())
                    && #[trigger] log@[t].before.states()[i] == CellState::Accepted
                    ==> final(self).states()[i] == CellState::Accepted && final(self).costs()[i]
                    == log@[t].before.costs()[i],
            forall|t: int, u: int|
                #![trigger log@[t], log@[u]]
                0 <= t && u == t + 1 && u < log@.len() ==> log@[t].before.states()[log@[u].cell as int]
                    != CellState::Accepted,
            forall|t: int, u: int, i: int|
                #![trigger log@[u].before.states()[i], log@[t]]
                0 <= t && u == t + 1 && u < log@.len() && 0 <= i < cell_count(old(self).n()) ==> (log@[u].before.states()[i]
                == CellState::Accepted <==> (log@[t].before.states()[i] == CellState::Accepted || i == log@[u].cell)),
            forall|i: int|
                0 <= i < cell_count(old(self).n()) ==> (#[trigger] final(self).states()[i]
                    == CellState::Accepted <==> log@.last().before.states()[i]
                    == CellState::Accepted),
            forall|i: int|
                0 <= i < cell_count(old(self).n()) && #[trigger] old(self).states()[i]
                    != CellState::Accepted ==> final(self).costs()[i] == least_offer_log(
                    old(self).costs()[i],
                    log@,
                    i,
                ),
            forall|t: int, i: int|
                1 <= t < log@.len() && 0 <= i < cell_count(old(self).n())
                    && #[trigger] log@[t].before.states()[i] == CellState::Considered
                    ==> log@[t].key <= log@[t].before.costs()[i],
            (forall|i: int|
                0 <= i < cell_count(old(self).n()) && #[trigger] old(self).states()[i]
                    == CellState::Considered ==> old(self).costs()[source as int] <= old(self).costs()[i]) && log_offers_not_below_keys(log@) ==> keys_nondecreasing(log@),
            final(self).wf(),
            final(self).n() == old(self).n(),
            forall|i: int|
                0 <= i < cell_count(old(self).n()) ==> #[trigger] final(self).states()[i]
                    != CellState::Considered,
            forall|i: int|
                0 <= i < cell_count(old(self).n()) && #[trigger] old(self).states()[i]
                    == CellState::Accepted ==> final(self).states()[i] == CellState::Accepted
                    && final(self).costs()[i] == old(self).costs()[i],
            forall|i: int|
                0 <= i < cell_count(old(self).n()) && #[trigger] final(self).states()[i]
                    == CellState::Accepted && old(self).states()[i] != CellState::Accepted
                    ==> final(self).costs()[i] < UNREACHED,
            (forall|u: NeighbourUpdate, r: Option<u64>|
                call_ensures(offer, (u,), r) ==> (r matches Some(k) && k < UNREACHED)) && (forall|
                i: int|
                0 <= i < cell_count(old(self).n()) && #[trigger] old(self).states()[i]
                    == CellState::Accepted && i != source ==> reached_around(
                old(self).states(),
                old(self).n(),
                i,
            )) ==> (forall|i: int|
                0 <= i < cell_count(old(self).n()) ==> #[trigger] final(self).states()[i]
                    == CellState::Accepted),
            (forall|u: NeighbourUpdate, r: Option<u64>|
                call_ensures(offer, (u,), r) ==> upwind_offer(u, r)) && (forall|i: int|
                0 <= i < cell_count(old(self).n()) && #[trigger] old(self).states()[i]
                    == CellState::Considered ==> supported(
                old(self).states(),
                old(self).costs(),
                old(self).n(),
                i,
            )) ==> (forall|i: int|
                0 <= i < cell_count(old(self).n()) && #[trigger] final(self).states()[i]
                    == CellState::Accepted && old(self).states()[i] != CellState::Accepted
                    ==> supported(final(self).states(), final(self).costs(), old(self).n(), i)),
    {
        let ghost n = self.n();
        let ghost count = cell_count(n);
        let ghost os = self.states();
        let ghost oc = self.costs();
        let ghost finite = (forall|u: NeighbourUpdate, r: Option<u64>|
            call_ensures(offer, (u,), r) ==> (r matches Some(k) && k < UNREACHED)) && (forall|
            i: int|
            0 <= i < count && #[trigger] old(self).states()[i] == CellState::Accepted && i
                != source ==> reached_around(old(self).states(), n, i));
        let ghost upwind = (forall|u: NeighbourUpdate, r: Option<u64>|
            call_ensures(offer, (u,), r) ==> upwind_offer(u, r)) && (forall|i: int|
            0 <= i < count && #[trigger] old(self).states()[i] == CellState::Considered
                ==> supported(old(self).states(), old(self).costs(), n, i));
        let ghost old_low = forall|i: int|
            0 <= i < count && #[trigger] os[i] == CellState::Considered ==> oc[source as int]
                <= oc[i];
        let ghost mut log: Seq<MarchStep> = Seq::empty();
        proof {
            lemma_wf_dims(self);
        }
        let mut current = source;
        loop
            invariant_except_break
                log.len() == 0 ==> current == source && self.states() == os && self.costs()
                    == oc,
                log.len() > 0 ==> pending_log(
                    log,
                    os,
                    oc,
                    source as int,
                    n,
                    self.states(),
                    self.costs(),
                    current as int,
                    old_low,
                ),
            invariant
                self.wf(),
                self.n() == n,
                count == cell_count(n),
                valid_resolution(n),
                os == old(self).states(),
                oc == old(self).costs(),
                os.len() == count,
                oc.len() == count,
                old_low == (forall|i: int|
                    0 <= i < count && #[trigger] os[i] == CellState::Considered
                        ==> oc[source as int] <= oc[i]),
                finite ==> (forall|u: NeighbourUpdate, r: Option<u64>|
                    call_ensures(offer, (u,), r) ==> (r matches Some(k) && k < UNREACHED)),
                forall|u: NeighbourUpdate| valid_update(n, u) ==> call_requires(offer, (u,)),
                current < count,
                self.states()[current as int] == CellState::Accepted,
                forall|i: int|
                    0 <= i < count && #[trigger] old(self).states()[i] == CellState::Accepted
                        ==> self.states()[i] == CellState::Accepted && self.costs()[i] == old(
                        self).costs()[i],
                forall|i: int|
                    0 <= i < count && #[trigger] self.states()[i] == CellState::Accepted
                        && old(self).states()[i] != CellState::Accepted ==> self.costs()[i]
                        < UNREACHED,
                finite ==> forall|i: int|
                    0 <= i < count && #[trigger] self.states()[i] == CellState::Accepted && i
                        != current ==> reached_around(self.states(), n, i),
                upwind ==> (forall|u: NeighbourUpdate, r: Option<u64>|
                    call_ensures(offer, (u,), r) ==> upwind_offer(u, r)),
                upwind ==> forall|i: int|
                    0 <= i < count && #[trigger] self.states()[i] != CellState::Far && old(
                        self).states()[i] != CellState::Accepted ==> supported(
                        self.states(),
                        self.costs(),
                        n,
                        i,
                    ),
                forall|t: int, q: int|
                    0 <= t < log.len() && 0 <= q < log[t].offers.len() ==> call_ensures(
                        offer,
                        ((#[trigger] log[t].offers[q]).0,),
                        log[t].offers[q].1,
                    ),
            ensures
                self.wf(),
                self.n() == n,
                forall|i: int|
                    0 <= i < count ==> #[trigger] self.states()[i] != CellState::Considered,
                forall|i: int|
                    0 <= i < count && #[trigger] old(self).states()[i] == CellState::Accepted
                        ==> self.states()[i] == CellState::Accepted && self.costs()[i] == old(
                        self).costs()[i],
                forall|i: int|
                    0 <= i < count && #[trigger] self.states()[i] == CellState::Accepted
                        && old(self).states()[i] != CellState::Accepted ==> self.costs()[i]
                        < UNREACHED,
                finite ==> accepted_closed(self.states(), n),
                upwind ==> forall|i: int|
                    0 <= i < count && #[trigger] self.states()[i] != CellState::Far && old(
                        self).states()[i] != CellState::Accepted ==> supported(
                        self.states(),
                        self.costs(),
                        n,
                        i,
                    ),
                served_log(log, os, oc, source as int, n, self.states(), self.costs(), old_low),
                forall|t: int, q: int|
                    0 <= t < log.len() && 0 <= q < log[t].offers.len() ==> call_ensures(
                        offer,
                        ((#[trigger] log[t].offers[q]).0,),
                        log[t].offers[q].1,
                    ),
            decreases unaccepted_count(self.states()),
        {
            let ghost f0: Fmm = *self;
            let ghost s0 = self.states();
            let ghost c0 = self.costs();
            proof {
                lemma_wf_dims(self);
            }
            let served = self.serve(current, &offer);
            let ghost offers_now = served@;
            proof {
                lemma_wf_dims(self);
                lemma_unaccepted_same(s0, self.states());
                let s1 = self.states();
                let c1 = self.costs();
                if finite {
                    assert forall|i: int|
                        0 <= i < count && #[trigger] s1[i] == CellState::Accepted implies reached_around(
                        s1,
                        n,
                        i,
                    ) by {
                        if i != current as int {
                            assert(s0[i] == CellState::Accepted);
                            lemma_reached_monotone(s0, s1, n, i);
                        }
                    }
                }
                if upwind {
                    assert forall|i: int|
                        0 <= i < count && #[trigger] s1[i] != CellState::Far && old(self).states()[i]
                            != CellState::Accepted implies supported(s1, c1, n, i) by {
                        if s0[i] != CellState::Accepted && (s0[i] == CellState::Far || c1[i]
                            != c0[i]) {
                        } else {
                            assert(s0[i] != CellState::Far);
                            assert(supported(s0, c0, n, i));
                            lemma_support_kept(s0, c0, s1, c1, n, i);
                        }
                    }
                }
                lemma_log_after_serve(
                    log,
                    os,
                    oc,
                    source as int,
                    n,
                    old_low,
                    current as int,
                    f0,
                    offers_now,
                    s1,
                    c1,
                );
            }
            let ghost step = MarchStep {
                cell: current,
                key: c0[current as int],
                before: f0,
                offers: offers_now,
            };
            let ghost prev_log = log;
            proof {
                log = log.push(step);
                assert forall|t: int, q: int|
                    0 <= t < log.len() && 0 <= q < log[t].offers.len() implies call_ensures(
                        offer,
                        ((#[trigger] log[t].offers[q]).0,),
                        log[t].offers[q].1,
                    ) by {
                    if t < prev_log.len() {
                        assert(log[t] == prev_log[t]);
                    } else {
                        assert(log[t] == step);
                    }
                }
            }
            let ghost s1 = self.states();
            let ghost c1 = self.costs();
            let ghost f1: Fmm = *self;
            let next = self.accept_next();
            match next {
                Some(i) => {
                    proof {
                        lemma_unaccepted_accept(s1, i as int);
                        lemma_far_iff_unreached(&f1, i as int);
                        lemma_log_after_accept(
                            log,
                            os,
                            oc,
                            source as int,
                            n,
                            old_low,
                            s1,
                            c1,
                            i as int,
                            self.states(),
                            self.costs(),
                        );
                        if upwind {
                            assert forall|j: int|
                                0 <= j < count && #[trigger] self.states()[j] != CellState::Far
                                    && old(self).states()[j] != CellState::Accepted implies supported(
                                self.states(),
                                self.costs(),
                                n,
                                j,
                            ) by {
                                assert(s1[j] != CellState::Far);
                                lemma_support_kept(s1, c1, self.states(), self.costs(), n, j);
                            }
                        }
                        if finite {
                            assert forall|j: int|
                                0 <= j < count && #[trigger] self.states()[j]
                                    == CellState::Accepted && j != i as int implies reached_around(
                                self.states(),
                                n,
                                j,
                            ) by {
                                assert(s1[j] == CellState::Accepted);
                                lemma_reached_monotone(s1, self.states(), n, j);
                            }
                        }
                    }
                    current = i;
                },
                None => {
                    proof {
                        if finite {
                            let s = self.states();
                            assert forall|i: int, d: int|
                                0 <= i < count && s[i] == CellState::Accepted && 0 <= d
                                    < 6 implies (#[trigger] neighbour_of(n, i, d) matches Some(j)
                                ==> s[j] == CellState::Accepted) by {
                                assert(reached_around(s, n, i));
                                lemma_flat_index_of_coords(n, i);
                                let c = coords_of(n, i);
                                if let Some(p) = face_step(n, c.0, c.1, c.2, d) {
                                    lemma_flat_index_bounds(n, p.0, p.1, p.2);
                                    let j = flat_index(n, p.0, p.1, p.2);
                                    assert(s[j] != CellState::Considered);
                                }
                            }
                        }
                    }
                    break;
                },
            }
        }
        proof {
            lemma_wf_dims(self);
            if finite {
                lemma_closed_region_is_grid(self.states(), n, current as int);
            }
            lemma_served_log_facts(log, os, oc, source as int, n, self.states(), self.costs(), old_low);
        }
        Ghost(log)
    }
}

} // verus!

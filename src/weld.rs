//! Tolerance-aware vertex welding over a quantized spatial index.
use vstd::prelude::*;
use vstd::arithmetic::div_mod::lemma_fundamental_div_mod_converse_div;
use std::collections::HashMap;

use crate::geometry::{chebyshev, chebyshev_distance, Point};

verus! {

broadcast use vstd::std_specs::hash::group_hash_axioms;

/// Number of tolerance steps in the largest bounding-box extent.
pub const TOLERANCE_STEPS: u64 = 65536;

/// A welding tolerance of `extent / 65536` grid units, where `extent` is the
/// largest axis extent of a bounding box.
#[derive(Clone, Copy, Debug, PartialEq, Eq, Structural)]
pub struct Tolerance {
    pub extent: u32,
}

/// Integer key of the cell that a point falls into once every coordinate is
/// divided by the tolerance and floored.
#[derive(Clone, Copy, Debug, PartialEq, Eq, Structural)]
pub struct Cell {
    pub x: i64,
    pub y: i64,
    pub z: i64,
}

/// `floor(v / (e / 65536))`, or 0 for a zero tolerance.
pub open spec fn cell_coord(v: int, e: int) -> int {
    if e == 0 { 0 } else { (65536 * v) / e }
}

impl Tolerance {
    /// Two points are closer than the tolerance along every axis.
    pub open spec fn close(self, a: Point, b: Point) -> bool {
        65536 * chebyshev(a, b) < self.extent
    }

    pub open spec fn spec_cell(self, p: Point) -> Cell {
        Cell {
            x: cell_coord(p.x as int, self.extent as int) as i64,
            y: cell_coord(p.y as int, self.extent as int) as i64,
            z: cell_coord(p.z as int, self.extent as int) as i64,
        }
    }

    /// Whether two points lie within the tolerance of each other along every axis.
    pub fn within(&self, a: &Point, b: &Point) -> (r: bool)
        ensures
            r == self.close(*a, *b),
    {
        let d = chebyshev_distance(a, b);
        assert(d <= 0xffff_ffff);
        d * TOLERANCE_STEPS < self.extent as u64
    }

    /// The quantized cell of a point.
    pub fn cell_of(&self, p: &Point) -> (r: Cell)
        ensures
            r == self.spec_cell(*p),
            -0x8000_0000_0000 <= r.x <= 0x8000_0000_0000,
            -0x8000_0000_0000 <= r.y <= 0x8000_0000_0000,
            -0x8000_0000_0000 <= r.z <= 0x8000_0000_0000,
    {
        Cell {
            x: quantize(p.x, self.extent),
            y: quantize(p.y, self.extent),
            z: quantize(p.z, self.extent),
        }
    }
}

fn quantize(v: i32, e: u32) -> (r: i64)
    ensures
        r as int == cell_coord(v as int, e as int),
        -0x8000_0000_0000 <= r <= 0x8000_0000_0000,
{
    if e == 0 {
        return 0;
    }
    let n: i64 = 65536 * (v as i64);
    let d: i64 = e as i64;
    if n >= 0 {
        let q: i64 = n / d;
        proof {
            assert(q <= n) by (nonlinear_arith)
                requires q == n / d, n >= 0, d >= 1;
        }
        q
    } else {
        let m: i64 = -n;
        let q: i64 = (m + d - 1) / d;
        proof {
            let a: int = m + d - 1;
            let dd: int = d as int;
            let r: int = a % dd;
            assert(a == dd * q + r && 0 <= r < dd) by (nonlinear_arith)
                requires q == a / dd, r == a % dd, dd >= 1, a >= 0;
            assert(n == (-q) * dd + (dd - 1 - r)) by (nonlinear_arith)
                requires a == dd * q + r, a == m + dd - 1, n == -m;
            lemma_fundamental_div_mod_converse_div(n as int, dd, -q, dd - 1 - r);
            assert(q <= m) by (nonlinear_arith)
                requires a == dd * q + r, a == m + dd - 1, r >= 0, m >= 1, dd >= 1;
        }
        -q
    }
}

/// A welded vertex: the cell it was filed under, its representative position
/// and the indexes of the input vertices that collapsed onto it, ascending.
#[derive(Debug)]
pub struct MergedVertex {
    pub cell: Cell,
    pub position: Point,
    pub indexes: Vec<usize>,
}

pub ghost struct MergeGroup {
    pub cell: Cell,
    pub position: Point,
    pub indexes: Seq<usize>,
}

impl View for MergedVertex {
    type V = MergeGroup;

    open spec fn view(&self) -> MergeGroup {
        MergeGroup { cell: self.cell, position: self.position, indexes: self.indexes@ }
    }
}

pub open spec fn groups_view(gs: Seq<MergedVertex>) -> Seq<MergeGroup> {
    gs.map_values(|g: MergedVertex| g@)
}

/// The 2x2x2 block of cells probed for a vertex in cell `q`, lower
/// neighbours first, `q` itself last.
pub open spec fn probe_cell(q: Cell, k: int) -> Cell {
    Cell {
        x: (q.x - 1 + k / 4) as i64,
        y: (q.y - 1 + (k / 2) % 2) as i64,
        z: (q.z - 1 + k % 2) as i64,
    }
}

/// The group filed under cell `c`, if any.
pub open spec fn cell_index(gs: Seq<MergeGroup>, c: Cell) -> Option<int> {
    if exists|j: int| 0 <= j < gs.len() && gs[j].cell == c {
        Some(choose|j: int| 0 <= j < gs.len() && gs[j].cell == c)
    } else {
        None
    }
}

/// The group that vertex `v` of cell `q` merges into, probing cells from `k` on:
/// the first probed cell that holds a group filed under `q` itself or whose
/// representative lies within the tolerance of `v`.
pub open spec fn probe_from(gs: Seq<MergeGroup>, v: Point, q: Cell, tol: Tolerance, k: int) -> Option<int>
    decreases 8 - k,
{
    if k >= 8 {
        None
    } else {
        let c = probe_cell(q, k);
        match cell_index(gs, c) {
            Some(j) => if c == q || tol.close(gs[j].position, v) {
                Some(j)
            } else {
                probe_from(gs, v, q, tol, k + 1)
            },
            None => probe_from(gs, v, q, tol, k + 1),
        }
    }
}

/// Files vertex `v`, the input vertex number `i`, into the groups.
pub open spec fn weld_step(gs: Seq<MergeGroup>, v: Point, i: usize, tol: Tolerance) -> Seq<MergeGroup> {
    let q = tol.spec_cell(v);
    match probe_from(gs, v, q, tol, 0) {
        Some(j) => gs.update(j, MergeGroup { indexes: gs[j].indexes.push(i), ..gs[j] }),
        None => gs.push(MergeGroup { cell: q, position: v, indexes: seq![i] }),
    }
}

/// The groups that welding a vertex sequence in order produces.
pub open spec fn weld(vs: Seq<Point>, tol: Tolerance) -> Seq<MergeGroup>
    decreases vs.len(),
{
    if vs.len() == 0 {
        Seq::empty()
    } else {
        weld_step(weld(vs.drop_last(), tol), vs.last(), (vs.len() - 1) as usize, tol)
    }
}

pub open spec fn cells_unique(gs: Seq<MergeGroup>) -> bool {
    forall|a: int, b: int| 0 <= a < b < gs.len() ==> gs[a].cell != gs[b].cell
}

pub open spec fn member_of_some(gs: Seq<MergeGroup>, i: int) -> bool {
    exists|g: int| 0 <= g < gs.len() && #[trigger] gs[g].indexes.contains(i as usize)
}

/// Every vertex number below `n` belongs to exactly one group, each group is
/// non-empty and lists its vertex numbers in ascending order.
pub open spec fn partitions(gs: Seq<MergeGroup>, n: int) -> bool {
    &&& forall|g: int| 0 <= g < gs.len() ==> gs[g].indexes.len() > 0
    &&& forall|g: int, a: int, b: int|
        0 <= g < gs.len() && 0 <= a < b < gs[g].indexes.len()
            ==> gs[g].indexes[a] < gs[g].indexes[b]
    &&& forall|g: int, a: int| 0 <= g < gs.len() && 0 <= a < gs[g].indexes.len()
        ==> gs[g].indexes[a] < n
    &&& forall|i: int| 0 <= i < n ==> #[trigger] member_of_some(gs, i)
    &&& forall|g1: int, g2: int, i: usize|
        0 <= g1 < gs.len() && 0 <= g2 < gs.len() && #[trigger] gs[g1].indexes.contains(i)
            && #[trigger] gs[g2].indexes.contains(i) ==> g1 == g2
}

proof fn lemma_probe_in_range(gs: Seq<MergeGroup>, v: Point, q: Cell, tol: Tolerance, k: int)
    ensures
        probe_from(gs, v, q, tol, k) matches Some(j) ==> 0 <= j < gs.len(),
    decreases 8 - k,
{
    if k < 8 {
        lemma_probe_in_range(gs, v, q, tol, k + 1);
        let c = probe_cell(q, k);
        if cell_index(gs, c) is Some {
            let j = choose|j: int| 0 <= j < gs.len() && gs[j].cell == c;
        }
    }
}

/// A vertex opens a new group only when no group is filed under its own cell.
proof fn lemma_probe_none(gs: Seq<MergeGroup>, v: Point, q: Cell, tol: Tolerance, k: int)
    requires
        0 <= k <= 7,
        probe_from(gs, v, q, tol, k) is None,
        -0x8000_0000_0000 <= q.x <= 0x8000_0000_0000,
        -0x8000_0000_0000 <= q.y <= 0x8000_0000_0000,
        -0x8000_0000_0000 <= q.z <= 0x8000_0000_0000,
    ensures
        cell_index(gs, q) is None,
    decreases 7 - k,
{
    if k < 7 {
        lemma_probe_none(gs, v, q, tol, k + 1);
    } else {
        assert(probe_cell(q, 7) == q);
    }
}

proof fn lemma_step_partitions(gs: Seq<MergeGroup>, v: Point, i: usize, tol: Tolerance)
    requires
        cells_unique(gs),
        partitions(gs, i as int),
        -0x8000_0000_0000 <= tol.spec_cell(v).x <= 0x8000_0000_0000,
        -0x8000_0000_0000 <= tol.spec_cell(v).y <= 0x8000_0000_0000,
        -0x8000_0000_0000 <= tol.spec_cell(v).z <= 0x8000_0000_0000,
    ensures
        cells_unique(weld_step(gs, v, i, tol)),
        partitions(weld_step(gs, v, i, tol), i + 1),
{
    let q = tol.spec_cell(v);
    let ns = weld_step(gs, v, i, tol);
    lemma_probe_in_range(gs, v, q, tol, 0);
    match probe_from(gs, v, q, tol, 0) {
        Some(j) => {
            assert(ns.len() == gs.len());
            assert forall|g: int, a: int| 0 <= g < ns.len() && 0 <= a < ns[g].indexes.len()
                implies ns[g].indexes[a] < i + 1 by {
                if g == j && a < gs[g].indexes.len() {
                    assert(ns[g].indexes[a] == gs[g].indexes[a]);
                }
            }
            assert forall|x: int| 0 <= x < i + 1 implies #[trigger] member_of_some(ns, x) by {
                if x == i {
                    assert(ns[j].indexes.last() == i);
                    assert(ns[j].indexes.contains(x as usize));
                } else {
                    assert(member_of_some(gs, x));
                    let g = choose|g: int| 0 <= g < gs.len() && #[trigger] gs[g].indexes.contains(x as usize);
                    let a = choose|a: int| 0 <= a < gs[g].indexes.len() && gs[g].indexes[a] == x as usize;
                    assert(ns[g].indexes[a] == x as usize);
                    assert(ns[g].indexes.contains(x as usize));
                }
            }
            assert forall|g1: int, g2: int, x: usize|
                0 <= g1 < ns.len() && 0 <= g2 < ns.len() && #[trigger] ns[g1].indexes.contains(x)
                    && #[trigger] ns[g2].indexes.contains(x) implies g1 == g2 by {
                if x == i {
                    if g1 != j {
                        let a = choose|a: int| 0 <= a < ns[g1].indexes.len() && ns[g1].indexes[a] == x;
                        assert(gs[g1].indexes[a] < i);
                    }
                    if g2 != j {
                        let a = choose|a: int| 0 <= a < ns[g2].indexes.len() && ns[g2].indexes[a] == x;
                        assert(gs[g2].indexes[a] < i);
                    }
                } else {
                    let a1 = choose|a: int| 0 <= a < ns[g1].indexes.len() && ns[g1].indexes[a] == x;
                    let a2 = choose|a: int| 0 <= a < ns[g2].indexes.len() && ns[g2].indexes[a] == x;
                    if g1 == j {
                        assert(a1 < gs[g1].indexes.len());
                    }
                    if g2 == j {
                        assert(a2 < gs[g2].indexes.len());
                    }
                    assert(gs[g1].indexes[a1] == x);
                    assert(gs[g2].indexes[a2] == x);
                    assert(gs[g1].indexes.contains(x));
                    assert(gs[g2].indexes.contains(x));
                }
            }
        },
        None => {
            lemma_probe_none(gs, v, q, tol, 0);
            assert(ns == gs.push(MergeGroup { cell: q, position: v, indexes: seq![i] }));
            assert forall|a: int, b: int| 0 <= a < b < ns.len() implies ns[a].cell != ns[b].cell by {
                if b == gs.len() {
                    assert(gs[a].cell != q);
                }
            }
            assert forall|x: int| 0 <= x < i + 1 implies #[trigger] member_of_some(ns, x) by {
                if x == i {
                    assert(ns[gs.len() as int].indexes[0] == x);
                    assert(ns[gs.len() as int].indexes.contains(x as usize));
                } else {
                    assert(member_of_some(gs, x));
                    let g = choose|g: int| 0 <= g < gs.len() && #[trigger] gs[g].indexes.contains(x as usize);
                    assert(ns[g] == gs[g]);
                }
            }
            assert forall|g1: int, g2: int, x: usize|
                0 <= g1 < ns.len() && 0 <= g2 < ns.len() && #[trigger] ns[g1].indexes.contains(x)
                    && #[trigger] ns[g2].indexes.contains(x) implies g1 == g2 by {
                if g1 < gs.len() && g2 < gs.len() {
                    assert(ns[g1] == gs[g1] && ns[g2] == gs[g2]);
                } else if g1 < gs.len() {
                    let a = choose|a: int| 0 <= a < ns[g1].indexes.len() && ns[g1].indexes[a] == x;
                    assert(ns[g1] == gs[g1]);
                    assert(ns[g2].indexes[0] == x);
                } else if g2 < gs.len() {
                    let a = choose|a: int| 0 <= a < ns[g2].indexes.len() && ns[g2].indexes[a] == x;
                    assert(ns[g2] == gs[g2]);
                    assert(ns[g1].indexes[0] == x);
                }
            }
        },
    }
}

proof fn lemma_cell_bounds(tol: Tolerance, p: Point)
    ensures
        -0x8000_0000_0000 <= tol.spec_cell(p).x <= 0x8000_0000_0000,
        -0x8000_0000_0000 <= tol.spec_cell(p).y <= 0x8000_0000_0000,
        -0x8000_0000_0000 <= tol.spec_cell(p).z <= 0x8000_0000_0000,
{
    lemma_coord_bounds(p.x as int, tol.extent as int);
    lemma_coord_bounds(p.y as int, tol.extent as int);
    lemma_coord_bounds(p.z as int, tol.extent as int);
}

proof fn lemma_coord_bounds(v: int, e: int)
    requires
        -0x8000_0000 <= v < 0x8000_0000,
        0 <= e,
    ensures
        -0x8000_0000_0000 <= cell_coord(v, e) <= 0x8000_0000_0000,
{
    if e > 0 {
        let n = 65536 * v;
        let q = n / e;
        let r = n % e;
        assert(n == e * q + r && 0 <= r < e) by (nonlinear_arith)
            requires q == n / e, r == n % e, e >= 1;
        assert(-0x8000_0000_0000 <= q <= 0x8000_0000_0000) by (nonlinear_arith)
            requires n == e * q + r, 0 <= r < e, e >= 1, -0x8000_0000_0000 <= n < 0x8000_0000_0000;
    }
}

/// Welding files every vertex number into exactly one group, under distinct cells.
pub proof fn lemma_weld_partitions(vs: Seq<Point>, tol: Tolerance)
    requires
        vs.len() <= usize::MAX,
    ensures
        cells_unique(weld(vs, tol)),
        partitions(weld(vs, tol), vs.len() as int),
        weld(vs, tol).len() <= vs.len(),
    decreases vs.len(),
{
    if vs.len() > 0 {
        lemma_weld_partitions(vs.drop_last(), tol);
        lemma_cell_bounds(tol, vs.last());
        lemma_step_partitions(weld(vs.drop_last(), tol), vs.last(), (vs.len() - 1) as usize, tol);
        lemma_probe_in_range(weld(vs.drop_last(), tol), vs.last(), tol.spec_cell(vs.last()), tol, 0);
    }
}

/// Shift that makes the x and y of every probed cell non-negative.
const COLUMN_OFFSET: i64 = 0x1_0000_0000_0000;

/// Key of the column of cells that share x and y.
pub open spec fn column_key(c: Cell) -> u128 {
    ((c.x + 0x1_0000_0000_0000) * 0x1_0000_0000_0000_0000 + (c.y + 0x1_0000_0000_0000)) as u128
}

pub open spec fn cell_in_range(c: Cell) -> bool {
    &&& -0x8000_0000_0001 <= c.x <= 0x8000_0000_0000
    &&& -0x8000_0000_0001 <= c.y <= 0x8000_0000_0000
}

fn column_of(c: &Cell) -> (r: u128)
    requires
        cell_in_range(*c),
    ensures
        r == column_key(*c),
{
    ((c.x + COLUMN_OFFSET) as u128) * 0x1_0000_0000_0000_0000u128 + ((c.y + COLUMN_OFFSET) as u128)
}

/// Under each column key, the map lists the groups filed in that column,
/// and every group is listed.
spec fn indexes_columns(columns: Map<u128, Vec<usize>>, gs: Seq<MergeGroup>) -> bool {
    &&& forall|key: u128, k: int|
        columns.contains_key(key) && 0 <= k < columns[key]@.len() ==> {
            &&& #[trigger] columns[key]@[k] < gs.len()
            &&& column_key(gs[columns[key]@[k] as int].cell) == key
        }
    &&& forall|g: int| 0 <= g < gs.len() ==> {
        &&& columns.contains_key(column_key(#[trigger] gs[g].cell))
        &&& columns[column_key(gs[g].cell)]@.contains(g as usize)
    }
}

fn find_cell(gs: &Vec<MergedVertex>, columns: &HashMap<u128, Vec<usize>>, c: &Cell) -> (r: Option<usize>)
    requires
        cells_unique(groups_view(gs@)),
        indexes_columns(columns@, groups_view(gs@)),
        cell_in_range(*c),
    ensures
        match r {
            Some(j) => cell_index(groups_view(gs@), *c) == Some(j as int) && j < gs.len(),
            None => cell_index(groups_view(gs@), *c) is None,
        },
{
    let ghost gv = groups_view(gs@);
    let n = gs.len();
    assert(gv.len() == n);
    let key = column_of(c);
    match columns.get(&key) {
        None => {
            proof {
                if exists|w: int| 0 <= w < gv.len() && gv[w].cell == *c {
                    let w = choose|w: int| 0 <= w < gv.len() && gv[w].cell == *c;
                    assert(columns@.contains_key(column_key(gv[w].cell)));
                }
            }
            None
        },
        Some(list) => {
            let mut k: usize = 0;
            while k < list.len()
                invariant
                    0 <= k <= list@.len(),
                    gv == groups_view(gs@),
                    cells_unique(gv),
                    indexes_columns(columns@, gv),
                    columns@.contains_key(key),
                    columns@[key] == *list,
                    key == column_key(*c),
                    forall|k2: int| 0 <= k2 < k ==> gv[list@[k2] as int].cell != *c,
                    gv.len() == n,
                decreases list.len() - k,
            {
                let j = list[k];
                assert(columns@[key]@[k as int] == j);
                assert(j < gv.len());
                assert(gv.len() == gs@.len());
                if gs[j].cell == *c {
                    proof {
                        assert(gv[j as int].cell == *c);
                        assert(exists|w: int| 0 <= w < gv.len() && gv[w].cell == *c);
                        let w = choose|w: int| 0 <= w < gv.len() && gv[w].cell == *c;
                        assert(w == j) by {
                            if w < j {
                                assert(gv[w].cell != gv[j as int].cell);
                            } else if w > j {
                                assert(gv[j as int].cell != gv[w].cell);
                            }
                        }
                        assert(cell_index(gv, *c) == Some(j as int));
                    }
                    assert(j < gs.len());
                    return Some(j);
                }
                k += 1;
            }
            proof {
                if exists|w: int| 0 <= w < gv.len() && gv[w].cell == *c {
                    let w = choose|w: int| 0 <= w < gv.len() && gv[w].cell == *c;
                    assert(columns@[column_key(gv[w].cell)]@.contains(w as usize));
                    assert(column_key(gv[w].cell) == key);
                    assert(list@.contains(w as usize));
                    let k2 = choose|k2: int| 0 <= k2 < list@.len() && list@[k2] == w as usize;
                    assert(gv[list@[k2] as int].cell != *c);
                }
            }
            None
        },
    }
}

/// Files group `g`, just added under cell `q`, in its column.
fn file_in_column(columns: &mut HashMap<u128, Vec<usize>>, q: &Cell, g: usize, Ghost(gs): Ghost<Seq<MergeGroup>>)
    requires
        cell_in_range(*q),
        g + 1 == gs.len(),
        gs[g as int].cell == *q,
        indexes_columns(old(columns)@, gs.drop_last()),
    ensures
        indexes_columns(final(columns)@, gs),
{
    let key = column_of(q);
    let ghost before = columns@;
    let mut list: Vec<usize> = match columns.remove(&key) {
        Some(l) => l,
        None => Vec::new(),
    };
    let ghost old_list = list@;
    list.push(g);
    columns.insert(key, list);
    proof {
        let pre = gs.drop_last();
        assert forall|k2: u128, k: int| columns@.contains_key(k2) && 0 <= k < columns@[k2]@.len() implies {
            &&& #[trigger] columns@[k2]@[k] < gs.len()
            &&& column_key(gs[columns@[k2]@[k] as int].cell) == k2
        } by {
            if k2 == key {
                if k < old_list.len() {
                    assert(before.contains_key(key));
                    assert(before[key]@[k] == columns@[k2]@[k]);
                    assert(before[key]@[k] < pre.len());
                    assert(gs[columns@[k2]@[k] as int] == pre[columns@[k2]@[k] as int]);
                }
            } else {
                assert(before.contains_key(k2));
                assert(before[k2]@[k] < pre.len());
                assert(gs[columns@[k2]@[k] as int] == pre[columns@[k2]@[k] as int]);
            }
        }
        assert forall|w: int| 0 <= w < gs.len() implies {
            &&& columns@.contains_key(column_key(#[trigger] gs[w].cell))
            &&& columns@[column_key(gs[w].cell)]@.contains(w as usize)
        } by {
            if w == g {
                assert(columns@[key]@[old_list.len() as int] == g);
            } else {
                assert(gs[w] == pre[w]);
                let kw = column_key(pre[w].cell);
                assert(before.contains_key(kw) && before[kw]@.contains(w as usize));
                let i = choose|i: int| 0 <= i < before[kw]@.len() && before[kw]@[i] == w as usize;
                if kw == key {
                    assert(columns@[key]@[i] == w as usize);
                } else {
                    assert(columns@[kw] == before[kw]);
                }
            }
        }
    }
}

/// Welds a vertex sequence: each vertex joins the first group, among those
/// filed under the 2x2x2 block of cells at and below its own cell, that is
/// filed under its own cell or whose representative is within the tolerance
/// along every axis; otherwise it opens a group under its own cell.
pub fn merge_vertices(vertices: &Vec<Point>, tol: &Tolerance) -> (r: Vec<MergedVertex>)
    ensures
        groups_view(r@) == weld(vertices@, *tol),
        cells_unique(groups_view(r@)),
        partitions(groups_view(r@), vertices@.len() as int),
{
    let mut groups: Vec<MergedVertex> = Vec::new();
    let mut columns: HashMap<u128, Vec<usize>> = HashMap::new();
    let mut i: usize = 0;
    while i < vertices.len()
        invariant
            0 <= i <= vertices.len(),
            groups_view(groups@) == weld(vertices@.take(i as int), *tol),
            indexes_columns(columns@, groups_view(groups@)),
            cells_unique(groups_view(groups@)),
            partitions(groups_view(groups@), i as int),
        decreases vertices.len() - i,
    {
        let v = vertices[i];
        let q = tol.cell_of(&v);
        let ghost gv = groups_view(groups@);
        let mut target: Option<usize> = None;
        let mut k: usize = 0;
        while k < 8
            invariant
                0 <= k <= 8,
                gv == groups_view(groups@),
                cells_unique(gv),
                indexes_columns(columns@, gv),
                q == tol.spec_cell(v),
                -0x8000_0000_0000 <= q.x <= 0x8000_0000_0000,
                -0x8000_0000_0000 <= q.y <= 0x8000_0000_0000,
                -0x8000_0000_0000 <= q.z <= 0x8000_0000_0000,
                target is None ==> probe_from(gv, v, q, *tol, 0) == probe_from(gv, v, q, *tol, k as int),
                target matches Some(j) ==> probe_from(gv, v, q, *tol, 0) == Some(j as int) && j < gv.len(),
            decreases 8 - k,
        {
            if target.is_none() {
                let c = Cell {
                    x: q.x - 1 + (k / 4) as i64,
                    y: q.y - 1 + ((k / 2) % 2) as i64,
                    z: q.z - 1 + (k % 2) as i64,
                };
                assert(c == probe_cell(q, k as int));
                match find_cell(&groups, &columns, &c) {
                    Some(j) => {
                        if c == q || tol.within(&groups[j].position, &v) {
                            target = Some(j);
                        }
                    },
                    None => {},
                }
            }
            k += 1;
        }
        proof {
            lemma_step_partitions(gv, v, i, *tol);
            lemma_probe_in_range(gv, v, q, *tol, 0);
            assert(vertices@.take(i + 1).drop_last() == vertices@.take(i as int));
            assert(vertices@.take(i + 1).last() == v);
        }
        match target {
            Some(j) => {
                let ghost before = groups@;
                groups[j].indexes.push(i);
                assert(groups@.len() == before.len());
                assert(forall|k: int| 0 <= k < before.len() && k != j ==> groups@[k] == before[k]);
                assert(groups@[j as int].indexes@ == before[j as int].indexes@.push(i));
                assert(groups@[j as int].cell == before[j as int].cell);
                let ghost ws = gv.update(
                    j as int,
                    MergeGroup { indexes: gv[j as int].indexes.push(i), ..gv[j as int] },
                );
                assert(weld_step(gv, v, i, *tol) == ws);
                assert(groups_view(groups@) =~= ws);
                assert forall|g: int| 0 <= g < ws.len() implies #[trigger] ws[g].cell == gv[g].cell by {}
                assert(indexes_columns(columns@, ws));
            },
            None => {
                let mut idx: Vec<usize> = Vec::new();
                idx.push(i);
                assert(idx@ =~= seq![i]);
                let g = groups.len();
                groups.push(MergedVertex { cell: q, position: v, indexes: idx });
                assert(groups_view(groups@) =~= weld_step(gv, v, i, *tol));
                assert(groups_view(groups@).drop_last() =~= gv);
                file_in_column(&mut columns, &q, g, Ghost(groups_view(groups@)));
            },
        }
        i += 1;
    }
    assert(vertices@.take(vertices.len() as int) == vertices@);
    groups
}

/// The representative positions of the groups, in group order.
pub open spec fn representatives(gs: Seq<MergeGroup>) -> Seq<Point> {
    gs.map_values(|g: MergeGroup| g.position)
}

/// Two group sequences agree on everything but the vertex numbers.
pub open spec fn same_skeleton(a: Seq<MergeGroup>, b: Seq<MergeGroup>) -> bool {
    &&& a.len() == b.len()
    &&& forall|j: int| 0 <= j < a.len() ==> (#[trigger] a[j]).cell == b[j].cell && a[j].position == b[j].position
}

/// Group `g` found no group to join when it was opened.
pub open spec fn opened_fresh(gs: Seq<MergeGroup>, g: int, tol: Tolerance) -> bool {
    &&& gs[g].cell == tol.spec_cell(gs[g].position)
    &&& probe_from(gs.take(g), gs[g].position, gs[g].cell, tol, 0) is None
}

proof fn lemma_probe_skeleton(a: Seq<MergeGroup>, b: Seq<MergeGroup>, v: Point, q: Cell, tol: Tolerance, k: int)
    requires
        same_skeleton(a, b),
        cells_unique(a),
    ensures
        probe_from(a, v, q, tol, k) == probe_from(b, v, q, tol, k),
    decreases 8 - k,
{
    if k < 8 {
        lemma_probe_skeleton(a, b, v, q, tol, k + 1);
        let c = probe_cell(q, k);
        if exists|j: int| 0 <= j < a.len() && a[j].cell == c {
            let ja = choose|j: int| 0 <= j < a.len() && a[j].cell == c;
            assert(0 <= ja < b.len() && b[ja].cell == c);
            let jb = choose|j: int| 0 <= j < b.len() && b[j].cell == c;
            assert(a[jb].cell == c);
            assert(ja == jb) by {
                if ja < jb {
                    assert(a[ja].cell != a[jb].cell);
                } else if jb < ja {
                    assert(a[jb].cell != a[ja].cell);
                }
            }
        } else {
            assert(!exists|j: int| 0 <= j < b.len() && b[j].cell == c) by {
                if exists|j: int| 0 <= j < b.len() && b[j].cell == c {
                    let jb = choose|j: int| 0 <= j < b.len() && b[j].cell == c;
                    assert(a[jb].cell == c);
                }
            }
        }
    }
}

proof fn lemma_opened_fresh(vs: Seq<Point>, tol: Tolerance)
    requires
        vs.len() <= usize::MAX,
    ensures
        forall|g: int| 0 <= g < weld(vs, tol).len() ==> #[trigger] opened_fresh(weld(vs, tol), g, tol),
    decreases vs.len(),
{
    if vs.len() > 0 {
        let pre = vs.drop_last();
        let gs = weld(pre, tol);
        let v = vs.last();
        let q = tol.spec_cell(v);
        let ns = weld(vs, tol);
        lemma_opened_fresh(pre, tol);
        lemma_weld_partitions(pre, tol);
        lemma_probe_in_range(gs, v, q, tol, 0);
        assert forall|g: int| 0 <= g < ns.len() implies #[trigger] opened_fresh(ns, g, tol) by {
            match probe_from(gs, v, q, tol, 0) {
                Some(j) => {
                    assert(opened_fresh(gs, g, tol));
                    assert(same_skeleton(gs.take(g), ns.take(g)));
                    assert(cells_unique(gs.take(g)));
                    lemma_probe_skeleton(gs.take(g), ns.take(g), gs[g].position, gs[g].cell, tol, 0);
                },
                None => {
                    if g < gs.len() {
                        assert(opened_fresh(gs, g, tol));
                        assert(ns.take(g) == gs.take(g));
                    } else {
                        assert(ns.take(g) == gs);
                    }
                },
            }
        }
    }
}

proof fn lemma_reweld_prefix(gs: Seq<MergeGroup>, tol: Tolerance, k: int)
    requires
        0 <= k <= gs.len(),
        gs.len() <= usize::MAX,
        cells_unique(gs),
        forall|g: int| 0 <= g < gs.len() ==> #[trigger] opened_fresh(gs, g, tol),
    ensures
        same_skeleton(weld(representatives(gs).take(k), tol), gs.take(k)),
    decreases k,
{
    let rs = representatives(gs);
    if k > 0 {
        lemma_reweld_prefix(gs, tol, k - 1);
        let prev = weld(rs.take(k - 1), tol);
        let p = rs[k - 1];
        assert(rs.take(k).drop_last() == rs.take(k - 1));
        assert(rs.take(k).last() == p);
        assert(p == gs[k - 1].position);
        assert(opened_fresh(gs, k - 1, tol));
        lemma_weld_partitions(rs.take(k - 1), tol);
        lemma_probe_skeleton(prev, gs.take(k - 1), p, gs[k - 1].cell, tol, 0);
        assert(probe_from(prev, p, tol.spec_cell(p), tol, 0) is None);
    }
}

/// Welding the representatives of a welding again, under the same
/// tolerance, yields as many vertices.
pub proof fn lemma_weld_idempotent(vs: Seq<Point>, tol: Tolerance)
    requires
        vs.len() <= usize::MAX,
    ensures
        weld(representatives(weld(vs, tol)), tol).len() == weld(vs, tol).len(),
{
    let gs = weld(vs, tol);
    lemma_weld_partitions(vs, tol);
    lemma_opened_fresh(vs, tol);
    lemma_reweld_prefix(gs, tol, gs.len() as int);
    assert(representatives(gs).take(gs.len() as int) == representatives(gs));
}

} // verus!

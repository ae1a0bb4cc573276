//! Vertex connectivity of an indexed mesh, and the number of its bodies.
use vstd::prelude::*;

use crate::mesh::MeshModel;

verus! {

/// Two vertices share a face.
pub open spec fn adjacent(m: MeshModel, u: int, v: int) -> bool {
    exists|f: int|
        0 <= f < m.faces.len() && #[trigger] m.faces[f].contains(u as usize) && m.faces[f].contains(
            v as usize,
        )
}

/// A non-empty walk over valid vertices in which each step crosses a shared face.
pub open spec fn is_path(m: MeshModel, p: Seq<int>) -> bool {
    &&& p.len() >= 1
    &&& forall|k: int| 0 <= k < p.len() ==> 0 <= #[trigger] p[k] < m.vertices.len()
    &&& forall|k: int| 0 <= k < p.len() - 1 ==> adjacent(m, #[trigger] p[k], p[k + 1])
}

pub open spec fn connected(m: MeshModel, u: int, v: int) -> bool {
    exists|p: Seq<int>| #[trigger] is_path(m, p) && p[0] == u && p.last() == v
}

/// A vertex that no lower-numbered vertex is connected to: the first vertex
/// of its body.
pub open spec fn is_leader(m: MeshModel, v: int) -> bool {
    forall|j: int| 0 <= j < v ==> !#[trigger] connected(m, j, v)
}

/// The number of leaders among the first `i` vertices.
pub open spec fn leader_count(m: MeshModel, i: int) -> nat
    decreases i,
{
    if i <= 0 {
        0
    } else {
        leader_count(m, i - 1) + if is_leader(m, i - 1) { 1nat } else { 0nat }
    }
}

/// The number of connected components of the vertex graph whose edges are
/// shared faces.
pub open spec fn body_count(m: MeshModel) -> nat {
    leader_count(m, m.vertices.len() as int)
}

/// Some vertex below `i` is connected to `v`.
pub open spec fn reached(m: MeshModel, i: int, v: int) -> bool {
    exists|j: int| 0 <= j < i && #[trigger] connected(m, j, v)
}

pub proof fn lemma_connected_refl(m: MeshModel, u: int)
    requires
        0 <= u < m.vertices.len(),
    ensures
        connected(m, u, u),
{
    let p = seq![u];
    assert(is_path(m, p));
}

pub proof fn lemma_connected_step(m: MeshModel, u: int, v: int, w: int)
    requires
        connected(m, u, v),
        adjacent(m, v, w),
        0 <= w < m.vertices.len(),
    ensures
        connected(m, u, w),
{
    let p = choose|p: Seq<int>| #[trigger] is_path(m, p) && p[0] == u && p.last() == v;
    let q = p.push(w);
    assert forall|k: int| 0 <= k < q.len() - 1 implies adjacent(m, #[trigger] q[k], q[k + 1]) by {
        if k < p.len() - 1 {
            assert(q[k] == p[k] && q[k + 1] == p[k + 1]);
        }
    }
    assert(is_path(m, q));
}

pub proof fn lemma_connected_trans(m: MeshModel, u: int, v: int, w: int)
    requires
        connected(m, u, v),
        connected(m, v, w),
    ensures
        connected(m, u, w),
{
    let p = choose|p: Seq<int>| #[trigger] is_path(m, p) && p[0] == u && p.last() == v;
    let q = choose|q: Seq<int>| #[trigger] is_path(m, q) && q[0] == v && q.last() == w;
    let r = p + q.subrange(1, q.len() as int);
    assert forall|k: int| 0 <= k < r.len() implies 0 <= #[trigger] r[k] < m.vertices.len() by {
        if k >= p.len() {
            assert(r[k] == q[k - p.len() + 1]);
        }
    }
    assert forall|k: int| 0 <= k < r.len() - 1 implies adjacent(m, #[trigger] r[k], r[k + 1]) by {
        if k < p.len() - 1 {
            assert(r[k] == p[k] && r[k + 1] == p[k + 1]);
        } else if k == p.len() - 1 {
            assert(r[k] == q[0] && r[k + 1] == q[1]);
        } else {
            assert(r[k] == q[k - p.len() + 1] && r[k + 1] == q[k - p.len() + 2]);
        }
    }
    assert(is_path(m, r));
    if q.len() == 1 {
        assert(r.last() == p.last());
    } else {
        assert(r.last() == q.last());
    }
}

/// A set of vertices, given as the non-zero entries of `labels`, that holds
/// `u` and is closed under adjacency holds every vertex connected to `u`.
pub proof fn lemma_closed_holds_connected(m: MeshModel, labels: Seq<usize>, u: int, v: int)
    requires
        labels.len() == m.vertices.len(),
        0 <= u < m.vertices.len(),
        labels[u] != 0,
        forall|x: int, y: int|
            0 <= x < m.vertices.len() && 0 <= y < m.vertices.len() && #[trigger] labels[x] != 0
                && #[trigger] adjacent(m, x, y) ==> labels[y] != 0,
        connected(m, u, v),
    ensures
        labels[v] != 0,
{
    let p = choose|p: Seq<int>| #[trigger] is_path(m, p) && p[0] == u && p.last() == v;
    lemma_path_stays(m, labels, p, p.len() - 1);
}

proof fn lemma_path_stays(m: MeshModel, labels: Seq<usize>, p: Seq<int>, k: int)
    requires
        labels.len() == m.vertices.len(),
        is_path(m, p),
        labels[p[0]] != 0,
        0 <= k < p.len(),
        forall|x: int, y: int|
            0 <= x < m.vertices.len() && 0 <= y < m.vertices.len() && #[trigger] labels[x] != 0
                && #[trigger] adjacent(m, x, y) ==> labels[y] != 0,
    ensures
        labels[p[k]] != 0,
    decreases k,
{
    if k > 0 {
        lemma_path_stays(m, labels, p, k - 1);
        assert(adjacent(m, p[k - 1], p[k]));
        assert(0 <= p[k - 1] < m.vertices.len());
        assert(0 <= p[k] < m.vertices.len());
    }
}

/// The number of zero entries.
pub open spec fn unlabeled(s: Seq<usize>) -> nat
    decreases s.len(),
{
    if s.len() == 0 {
        0
    } else {
        unlabeled(s.drop_last()) + if s.last() == 0 { 1nat } else { 0nat }
    }
}

pub proof fn lemma_unlabeled_set(s: Seq<usize>, v: int, x: usize)
    requires
        0 <= v < s.len(),
        s[v] == 0,
        x != 0,
    ensures
        unlabeled(s.update(v, x)) + 1 == unlabeled(s),
    decreases s.len(),
{
    let t = s.update(v, x);
    if v == s.len() - 1 {
        assert(t.drop_last() =~= s.drop_last());
    } else {
        lemma_unlabeled_set(s.drop_last(), v, x);
        assert(t.drop_last() =~= s.drop_last().update(v, x));
    }
}

/// Every labeled vertex was labeled before or is connected to `start`.
pub open spec fn labels_sound(m: MeshModel, before: Seq<usize>, labels: Seq<usize>, start: int) -> bool {
    forall|v: int| 0 <= v < m.vertices.len() && #[trigger] labels[v] != 0
        ==> before[v] != 0 || connected(m, start, v)
}

/// Labels are never taken away.
pub open spec fn labels_grow(before: Seq<usize>, labels: Seq<usize>) -> bool {
    forall|v: int| 0 <= v < before.len() && #[trigger] before[v] != 0 ==> labels[v] != 0
}

/// Every vertex on the work stack is valid, labeled and connected to `start`.
pub open spec fn stack_ok(m: MeshModel, labels: Seq<usize>, stack: Seq<usize>, start: int) -> bool {
    forall|k: int| 0 <= k < stack.len() ==> {
        &&& 0 <= #[trigger] stack[k] < m.vertices.len()
        &&& labels[stack[k] as int] != 0
        &&& connected(m, start, stack[k] as int)
    }
}

/// The neighbours of every labeled vertex that is neither on the stack nor `u`
/// are labeled.
pub open spec fn closed_except(m: MeshModel, labels: Seq<usize>, stack: Seq<usize>, u: int) -> bool {
    forall|x: int, y: int|
        0 <= x < m.vertices.len() && 0 <= y < m.vertices.len() && #[trigger] labels[x] != 0
            && #[trigger] adjacent(m, x, y) && !stack.contains(x as usize) && x != u
            ==> labels[y] != 0
}

} // verus!

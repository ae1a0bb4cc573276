//! Indexed meshes built from triangle soups: degenerate-triangle filtering,
//! vertex welding, faces and the vertex-to-face adjacency.
use vstd::prelude::*;

use crate::geometry::{
    bounding_box, corners, lemma_corners_bound, max3, point_bounds, spec_bounding_box, lower_corner,
    upper_corner, Point, Triangle,
};
use crate::connectivity::{
    adjacent, body_count, closed_except, connected, is_leader, labels_grow, labels_sound,
    leader_count, lemma_closed_holds_connected, lemma_connected_refl, lemma_connected_step,
    lemma_connected_trans, lemma_unlabeled_set, reached, stack_ok, unlabeled,
};
use crate::weld::{
    groups_view, lemma_weld_partitions, merge_vertices, member_of_some, partitions, weld, MergeGroup,
    Tolerance,
};

verus! {

/// The largest axis extent of the bounding box of a triangle sequence, 0 when
/// it is empty.
pub open spec fn spec_extent(ts: Seq<Triangle>) -> int {
    match spec_bounding_box(ts) {
        None => 0,
        Some((lo, hi)) => max3(hi.x - lo.x, hi.y - lo.y, hi.z - lo.z),
    }
}

/// The tolerance of a triangle sequence: its largest extent over 65536.
pub open spec fn spec_tolerance(ts: Seq<Triangle>) -> Tolerance {
    Tolerance { extent: spec_extent(ts) as u32 }
}

/// Two of the triangle's vertices lie within the tolerance of each other.
pub open spec fn degenerate(t: Triangle, tol: Tolerance) -> bool {
    tol.close(t@[0], t@[1]) || tol.close(t@[1], t@[2]) || tol.close(t@[2], t@[0])
}

/// The triangles that survive the degenerate filter, in order.
pub open spec fn kept(ts: Seq<Triangle>, tol: Tolerance) -> Seq<Triangle> {
    ts.filter(|t: Triangle| !degenerate(t, tol))
}

/// The group that holds vertex number `c`.
pub open spec fn owner(gs: Seq<MergeGroup>, c: int) -> usize {
    (choose|g: int| 0 <= g < gs.len() && gs[g].indexes.contains(c as usize)) as usize
}

pub ghost struct MeshModel {
    pub vertices: Seq<Point>,
    pub faces: Seq<Seq<usize>>,
    pub face_map: Seq<Seq<usize>>,
}

/// The indexed mesh of a triangle sequence: one vertex per welded group, one
/// face per kept triangle naming the groups of its corners, and for each
/// vertex the triangles that its group's corners came from.
pub open spec fn spec_mesh(ts: Seq<Triangle>) -> MeshModel {
    let tol = spec_tolerance(ts);
    let ks = kept(ts, tol);
    let gs = weld(corners(ks), tol);
    MeshModel {
        vertices: gs.map_values(|g: MergeGroup| g.position),
        faces: Seq::new(
            ks.len(),
            |t: int| seq![owner(gs, 3 * t), owner(gs, 3 * t + 1), owner(gs, 3 * t + 2)],
        ),
        face_map: gs.map_values(|g: MergeGroup| group_faces(g)),
    }
}

/// The triangles that the corners of a group came from.
pub open spec fn group_faces(g: MergeGroup) -> Seq<usize> {
    g.indexes.map_values(|i: usize| (i / 3) as usize)
}

impl MeshModel {
    /// Every face and adjacency entry names a valid index.
    pub open spec fn valid(self) -> bool {
        &&& forall|f: int, k: int| 0 <= f < self.faces.len() && 0 <= k < self.faces[f].len()
            ==> self.faces[f][k] < self.vertices.len()
        &&& forall|f: int| 0 <= f < self.faces.len() ==> (#[trigger] self.faces[f]).len() == 3
        &&& self.face_map.len() == self.vertices.len()
        &&& forall|v: int, k: int| 0 <= v < self.face_map.len() && 0 <= k < self.face_map[v].len()
            ==> self.face_map[v][k] < self.faces.len()
    }
}

impl MeshModel {
    /// Indexes are valid, and a vertex lists a face exactly when the face names
    /// the vertex.
    pub open spec fn well_formed(self) -> bool {
        &&& self.valid()
        &&& forall|u: int, f: int|
            #![trigger self.face_map[u].contains(f as usize)]
            #![trigger self.faces[f].contains(u as usize)]
            0 <= u < self.vertices.len() && 0 <= f < self.faces.len()
                ==> (self.face_map[u].contains(f as usize) <==> self.faces[f].contains(u as usize))
    }
}

proof fn lemma_owner(gs: Seq<MergeGroup>, n: int)
    requires
        partitions(gs, n),
        n <= usize::MAX,
        gs.len() <= usize::MAX,
    ensures
        forall|c: int| 0 <= c < n ==> 0 <= #[trigger] owner(gs, c) < gs.len()
            && gs[owner(gs, c) as int].indexes.contains(c as usize),
{
    assert forall|c: int| 0 <= c < n implies 0 <= #[trigger] owner(gs, c) < gs.len()
        && gs[owner(gs, c) as int].indexes.contains(c as usize) by {
        assert(member_of_some(gs, c));
        let g = choose|g: int| 0 <= g < gs.len() && gs[g].indexes.contains(c as usize);
        assert(owner(gs, c) as int == g);
    }
}

proof fn lemma_mesh_indexes(ts: Seq<Triangle>)
    requires
        3 * kept(ts, spec_tolerance(ts)).len() <= usize::MAX,
    ensures
        spec_mesh(ts).valid(),
        spec_mesh(ts).vertices.len() <= 3 * ts.len(),
{
    let tol = spec_tolerance(ts);
    let ks = kept(ts, tol);
    let cs = corners(ks);
    let gs = weld(cs, tol);
    let m = spec_mesh(ts);
    let n = cs.len() as int;
    ts.lemma_filter_len(|t: Triangle| !degenerate(t, tol));
    lemma_weld_partitions(cs, tol);
    lemma_owner(gs, n);
    assert forall|f: int, k: int| 0 <= f < m.faces.len() && 0 <= k < m.faces[f].len()
        implies m.faces[f][k] < m.vertices.len() by {
        assert(0 <= 3 * f + k < n);
        assert(m.faces[f][k] == owner(gs, 3 * f + k));
    }
    assert forall|v: int, k: int| 0 <= v < m.face_map.len() && 0 <= k < m.face_map[v].len()
        implies m.face_map[v][k] < m.faces.len() by {
        assert(gs[v].indexes[k] < n);
    }
}

proof fn lemma_mesh_adjacency(ts: Seq<Triangle>)
    requires
        3 * kept(ts, spec_tolerance(ts)).len() <= usize::MAX,
    ensures
        forall|u: int, f: int|
            #![trigger spec_mesh(ts).face_map[u].contains(f as usize)]
            #![trigger spec_mesh(ts).faces[f].contains(u as usize)]
            0 <= u < spec_mesh(ts).vertices.len() && 0 <= f < spec_mesh(ts).faces.len()
                ==> (spec_mesh(ts).face_map[u].contains(f as usize)
                <==> spec_mesh(ts).faces[f].contains(u as usize)),
{
    let tol = spec_tolerance(ts);
    let ks = kept(ts, tol);
    let cs = corners(ks);
    let gs = weld(cs, tol);
    let m = spec_mesh(ts);
    let n = cs.len() as int;
    ts.lemma_filter_len(|t: Triangle| !degenerate(t, tol));
    lemma_weld_partitions(cs, tol);
    lemma_owner(gs, n);
    assert forall|u: int, f: int| 0 <= u < m.vertices.len() && 0 <= f < m.faces.len()
        implies (m.face_map[u].contains(f as usize) <==> m.faces[f].contains(u as usize)) by {
        if m.face_map[u].contains(f as usize) {
            let a = choose|a: int| 0 <= a < m.face_map[u].len() && m.face_map[u][a] == f as usize;
            let i = gs[u].indexes[a];
            let ii = i as int;
            assert(ii < n);
            assert(ii / 3 == f);
            assert(gs[u].indexes.contains(i));
            let o = owner(gs, ii);
            assert(gs[o as int].indexes.contains(i));
            assert(o == u);
            assert(m.faces[f][ii % 3] == owner(gs, 3 * f + ii % 3));
            assert(3 * f + ii % 3 == ii);
        }
        if m.faces[f].contains(u as usize) {
            let k = choose|k: int| 0 <= k < m.faces[f].len() && m.faces[f][k] == u as usize;
            let c = 3 * f + k;
            assert(m.faces[f][k] == owner(gs, c));
            assert(gs[u].indexes.contains(c as usize));
            let a = choose|a: int| 0 <= a < gs[u].indexes.len() && gs[u].indexes[a] == c as usize;
            assert(m.face_map[u][a] == f);
        }
    }
}

/// Every built mesh is well formed and has at most three vertices per input
/// triangle.
pub proof fn lemma_mesh_well_formed(ts: Seq<Triangle>)
    requires
        3 * ts.len() <= usize::MAX,
    ensures
        spec_mesh(ts).well_formed(),
        spec_mesh(ts).vertices.len() <= 3 * ts.len(),
{
    let tol = spec_tolerance(ts);
    ts.lemma_filter_len(|t: Triangle| !degenerate(t, tol));
    lemma_mesh_indexes(ts);
    lemma_mesh_adjacency(ts);
}

proof fn lemma_filter_drops(ts: Seq<Triangle>, tol: Tolerance, i: int)
    requires
        0 <= i < ts.len(),
        degenerate(ts[i], tol),
    ensures
        kept(ts, tol).len() < ts.len(),
    decreases ts.len(),
{
    reveal_with_fuel(Seq::filter, 1);
    let pre = ts.drop_last();
    pre.lemma_filter_len(|t: Triangle| !degenerate(t, tol));
    if i < ts.len() - 1 {
        assert(pre[i] == ts[i]);
        lemma_filter_drops(pre, tol, i);
    }
}

/// A triangle with two vertices within the tolerance of each other gets no
/// face: the faces come from the other triangles alone, so there are fewer
/// faces than triangles.
pub proof fn lemma_degenerate_excluded(ts: Seq<Triangle>, i: int)
    requires
        0 <= i < ts.len(),
        degenerate(ts[i], spec_tolerance(ts)),
    ensures
        !kept(ts, spec_tolerance(ts)).contains(ts[i]),
        spec_mesh(ts).faces.len() == kept(ts, spec_tolerance(ts)).len(),
        spec_mesh(ts).faces.len() < ts.len(),
{
    let tol = spec_tolerance(ts);
    let ks = kept(ts, tol);
    if ks.contains(ts[i]) {
        let k = choose|k: int| 0 <= k < ks.len() && ks[k] == ts[i];
        ts.lemma_filter_pred(|t: Triangle| !degenerate(t, tol), k);
    }
    lemma_filter_drops(ts, tol, i);
}

/// An indexed triangle mesh with deduplicated vertices.
#[derive(Debug)]
pub struct TriangleMesh {
    /// List of vertices
    vertices: Vec<Point>,
    /// List of faces, represented by three vertex indexes
    faces: Vec<[usize; 3]>,
    /// For each vertex, the faces that point to it
    face_map: Vec<Vec<usize>>,
}

pub open spec fn faces_view(fs: Seq<[usize; 3]>) -> Seq<Seq<usize>> {
    fs.map_values(|f: [usize; 3]| f@)
}

pub open spec fn lists_view(ls: Seq<Vec<usize>>) -> Seq<Seq<usize>> {
    ls.map_values(|l: Vec<usize>| l@)
}

impl TriangleMesh {
    #[verifier::type_invariant]
    spec fn inv(&self) -> bool {
        self@.well_formed()
    }
}

impl View for TriangleMesh {
    type V = MeshModel;

    closed spec fn view(&self) -> MeshModel {
        MeshModel {
            vertices: self.vertices@,
            faces: faces_view(self.faces@),
            face_map: lists_view(self.face_map@),
        }
    }
}

/// The tolerance of a triangle list, from its bounding box.
pub fn tolerance_of(triangles: &[Triangle]) -> (r: Tolerance)
    ensures
        r == spec_tolerance(triangles@),
        r.extent as int == spec_extent(triangles@),
{
    match bounding_box(triangles) {
        None => Tolerance { extent: 0 },
        Some((lo, hi)) => {
            proof {
                let cs = corners(triangles@);
                lemma_corners_bound(cs);
                assert(lo.x <= cs[0].x <= hi.x);
            }
            let dx: u32 = (hi.x as i64 - lo.x as i64) as u32;
            let dy: u32 = (hi.y as i64 - lo.y as i64) as u32;
            let dz: u32 = (hi.z as i64 - lo.z as i64) as u32;
            let e = if dx >= dy && dx >= dz {
                dx
            } else if dy >= dz {
                dy
            } else {
                dz
            };
            Tolerance { extent: e }
        },
    }
}

/// Whether two of the triangle's vertices coincide within the tolerance.
pub fn is_degenerate(t: &Triangle, tol: &Tolerance) -> (r: bool)
    ensures
        r == degenerate(*t, *tol),
{
    tol.within(&t[0], &t[1]) || tol.within(&t[1], &t[2]) || tol.within(&t[2], &t[0])
}

/// The triangles that are not degenerate under the tolerance, in order.
pub fn nondegenerate(triangles: &[Triangle], tol: &Tolerance) -> (r: Vec<Triangle>)
    ensures
        r@ == kept(triangles@, *tol),
{
    let mut out: Vec<Triangle> = Vec::new();
    let mut i: usize = 0;
    while i < triangles.len()
        invariant
            0 <= i <= triangles.len(),
            out@ == kept(triangles@.take(i as int), *tol),
        decreases triangles.len() - i,
    {
        let t = triangles[i];
        proof {
            let pre = triangles@.take(i + 1);
            assert(pre.drop_last() == triangles@.take(i as int));
            assert(pre.last() == t);
            reveal_with_fuel(Seq::filter, 1);
        }
        if !is_degenerate(&t, tol) {
            out.push(t);
        }
        i += 1;
    }
    assert(triangles@.take(triangles.len() as int) == triangles@);
    out
}

/// All corners of the triangles, three per triangle, in order.
pub fn flatten(triangles: &Vec<Triangle>) -> (r: Vec<Point>)
    ensures
        r@ == corners(triangles@),
{
    let mut out: Vec<Point> = Vec::new();
    let mut i: usize = 0;
    while i < triangles.len()
        invariant
            0 <= i <= triangles.len(),
            out@.len() == 3 * i,
            forall|c: int| 0 <= c < 3 * i ==> out@[c] == #[trigger] triangles@[c / 3]@[c % 3],
        decreases triangles.len() - i,
    {
        let t = triangles[i];
        out.push(t[0]);
        out.push(t[1]);
        out.push(t[2]);
        assert forall|c: int| 0 <= c < 3 * i + 3 implies out@[c] == #[trigger] triangles@[c / 3]@[c % 3] by {
            if c >= 3 * i {
                assert(c / 3 == i);
            }
        }
        i += 1;
    }
    assert(out@ =~= corners(triangles@));
    out
}

impl TriangleMesh {
    /// Builds the indexed mesh of a triangle soup: computes the tolerance from
    /// the bounding box, drops degenerate triangles, welds the corners of the
    /// rest, and records faces and the vertex-to-face adjacency.
    pub fn new(triangles: &[Triangle]) -> (r: TriangleMesh)
        ensures
            r@ == spec_mesh(triangles@),
    {
        let tol = tolerance_of(triangles);
        let ks = nondegenerate(triangles, &tol);
        let flat = flatten(&ks);
        let groups = merge_vertices(&flat, &tol);
        let ghost gs = groups_view(groups@);
        let ghost n: int = 3 * ks@.len() as int;
        let mut vertices: Vec<Point> = Vec::new();
        let mut faces: Vec<[usize; 3]> = Vec::new();
        let mut t: usize = 0;
        while t < ks.len()
            invariant
                0 <= t <= ks.len(),
                faces@.len() == t,
            decreases ks.len() - t,
        {
            faces.push([0usize, 0usize, 0usize]);
            t += 1;
        }
        let mut face_map: Vec<Vec<usize>> = Vec::new();
        let total = flat.len();
        let mut g: usize = 0;
        while g < groups.len()
            invariant
                0 <= g <= groups.len(),
                gs == groups_view(groups@),
                gs == weld(corners(ks@), tol),
                n == 3 * ks@.len(),
                flat@.len() == n,
                partitions(gs, n),
                faces@.len() == ks@.len(),
                vertices@ == gs.take(g as int).map_values(|m: MergeGroup| m.position),
                face_map@.len() == g,
                forall|k: int| 0 <= k < g ==> (#[trigger] face_map@[k])@ == group_faces(gs[k]),
                n == total as int,
                forall|c: int| 0 <= c < n && owner(gs, c) < g ==> #[trigger] faces@[c / 3]@[c % 3] == owner(gs, c),
            decreases groups.len() - g,
        {
            let members = &groups[g].indexes;
            let mut adjacent: Vec<usize> = Vec::new();
            let mut a: usize = 0;
            while a < members.len()
                invariant
                    0 <= a <= members.len(),
                    0 <= g < groups.len(),
                    members@ == gs[g as int].indexes,
                    gs == groups_view(groups@),
                    n == 3 * ks@.len(),
                    partitions(gs, n),
                    faces@.len() == ks@.len(),
                    adjacent@ == members@.take(a as int).map_values(|i: usize| (i / 3) as usize),
                    forall|c: int| 0 <= c < n && owner(gs, c) < g ==> #[trigger] faces@[c / 3]@[c % 3] == owner(gs, c),
                    forall|b: int| 0 <= b < a ==> faces@[members@[b] as int / 3]@[members@[b] as int % 3] == g,
                decreases members.len() - a,
            {
                let idx = members[a];
                let ft = idx / 3;
                let fc = idx % 3;
                proof {
                    assert(gs[g as int].indexes[a as int] < n);
                    assert(gs[g as int].indexes.contains(idx));
                }
                let mut f = faces[ft];
                f[fc] = g;
                faces.set(ft, f);
                proof {
                    assert forall|c: int| 0 <= c < n && owner(gs, c) < g
                        implies #[trigger] faces@[c / 3]@[c % 3] == owner(gs, c) by {
                        if c == idx {
                            assert(member_of_some(gs, c));
                            let o = owner(gs, c);
                            assert(gs[o as int].indexes.contains(c as usize));
                            assert(o == g);
                        }
                    }
                    assert forall|b: int| 0 <= b < a + 1 implies faces@[members@[b] as int / 3]@[members@[b] as int % 3] == g by {
                        if b < a {
                            assert(members@[b] < members@[a as int]);
                        }
                    }
                    assert(members@.take(a + 1).drop_last() == members@.take(a as int));
                }
                adjacent.push(idx / 3);
                assert(adjacent@ =~= members@.take(a + 1).map_values(|i: usize| (i / 3) as usize));
                a += 1;
            }
            proof {
                assert forall|c: int| 0 <= c < n && owner(gs, c) < g + 1
                    implies #[trigger] faces@[c / 3]@[c % 3] == owner(gs, c) by {
                    if owner(gs, c) == g {
                        assert(member_of_some(gs, c));
                        let o = owner(gs, c);
                        assert(0 <= o < gs.len() && gs[o as int].indexes.contains(c as usize));
                        let b = choose|b: int| 0 <= b < members@.len() && members@[b] == c as usize;
                        assert(members@[b] as int == c);
                        assert(faces@[members@[b] as int / 3]@[members@[b] as int % 3] == g);
                    }
                }
                assert(members@.take(members@.len() as int) == members@);
                assert(gs.take(g + 1).drop_last() == gs.take(g as int));
            }
            assert(adjacent@ =~= group_faces(gs[g as int]));
            vertices.push(groups[g].position);
            face_map.push(adjacent);
            assert(vertices@ =~= gs.take(g + 1).map_values(|m: MergeGroup| m.position));
            g += 1;
        }
        proof {
            assert(gs.take(gs.len() as int) == gs);
            let model = spec_mesh(triangles@);
            let fv = faces_view(faces@);
            let mv = lists_view(face_map@);
            assert forall|c: int| 0 <= c < n implies owner(gs, c) < gs.len() by {
                assert(member_of_some(gs, c));
            }
            assert forall|f: int| 0 <= f < ks@.len() implies fv[f] == model.faces[f] by {
                assert(faces@[(3 * f) / 3]@[(3 * f) % 3] == owner(gs, 3 * f));
                assert(faces@[(3 * f + 1) / 3]@[(3 * f + 1) % 3] == owner(gs, 3 * f + 1));
                assert(faces@[(3 * f + 2) / 3]@[(3 * f + 2) % 3] == owner(gs, 3 * f + 2));
                assert(fv[f] =~= model.faces[f]);
            }
            assert(fv =~= model.faces);
            assert(vertices@ =~= model.vertices);
            assert(mv =~= model.face_map);
            lemma_mesh_indexes(triangles@);
            lemma_mesh_adjacency(triangles@);
            assert((MeshModel { vertices: vertices@, faces: fv, face_map: mv }) == model);
            assert(model.well_formed());
        }
        let r = TriangleMesh { vertices, faces, face_map };
        r
    }
}


impl TriangleMesh {
    /// Labels, with `label`, every vertex connected to `start` that is not
    /// labeled yet.
    fn fill(&self, labels: &mut Vec<usize>, start: usize, label: usize)
        requires
            old(labels)@.len() == self@.vertices.len(),
            start < self@.vertices.len(),
            label != 0,
            old(labels)@[start as int] == 0,
            closed_except(self@, old(labels)@, Seq::empty(), -1),
        ensures
            final(labels)@.len() == old(labels)@.len(),
            forall|v: int| 0 <= v < self@.vertices.len() ==> (#[trigger] final(labels)@[v] != 0
                <==> (old(labels)@[v] != 0 || connected(self@, start as int, v))),
    {
        proof {
            use_type_invariant(self);
        }
        let ghost m = self@;
        let ghost before = labels@;
        let ghost nv = m.vertices.len();
        let nvx = self.vertices.len();
        let nfx = self.faces.len();
        assert(nv == nvx && m.faces.len() == nfx);
        proof {
            lemma_unlabeled_set(labels@, start as int, label);
            lemma_connected_refl(m, start as int);
        }
        labels.set(start, label);
        let mut stack: Vec<usize> = Vec::new();
        stack.push(start);
        proof {
            assert forall|x: int, y: int|
                0 <= x < nv && 0 <= y < nv && #[trigger] labels@[x] != 0
                    && #[trigger] adjacent(m, x, y) && !stack@.contains(x as usize) && x != -1
                    implies labels@[y] != 0 by {
                if x != start {
                    assert(before[x] != 0);
                    assert(before[y] != 0);
                } else {
                    assert(stack@[0] == start);
                }
            }
        }
        while stack.len() > 0
            invariant
                m == self@,
                m.well_formed(),
                nv == m.vertices.len(),
                nv <= usize::MAX,
                m.faces.len() <= usize::MAX,
                before.len() == nv,
                labels@.len() == nv,
                labels@[start as int] != 0,
                label != 0,
                labels_sound(m, before, labels@, start as int),
                labels_grow(before, labels@),
                stack_ok(m, labels@, stack@, start as int),
                closed_except(m, labels@, stack@, -1),
            decreases unlabeled(labels@), stack.len(),
        {
            let ghost full = stack@;
            let u = stack.pop().unwrap();
            let ghost popped = stack@;
            let ghost unl = unlabeled(labels@);
            proof {
                assert(full == popped.push(u));
                assert(stack_ok(m, labels@, full, start as int));
                assert(full[full.len() - 1] == u);
                assert forall|k: int| 0 <= k < popped.len() implies #[trigger] popped[k] == full[k] by {}
                assert forall|x: int, y: int|
                    0 <= x < nv && 0 <= y < nv && #[trigger] labels@[x] != 0
                        && #[trigger] adjacent(m, x, y) && !popped.contains(x as usize) && x != u
                        implies labels@[y] != 0 by {
                    if full.contains(x as usize) {
                        let k = choose|k: int| 0 <= k < full.len() && full[k] == x as usize;
                        if k < popped.len() {
                            assert(popped[k] == x as usize);
                            assert(popped.contains(x as usize));
                        } else {
                            assert(full[k] == u);
                        }
                    }
                    assert(!full.contains(x as usize));
                    assert(closed_except(m, labels@, full, -1));
                }
            }
            let faces_of_u = &self.face_map[u];
            let mut a: usize = 0;
            while a < faces_of_u.len()
                invariant
                    m == self@,
                    m.well_formed(),
                    nv == m.vertices.len(),
                    nv <= usize::MAX,
                    before.len() == nv,
                    labels@.len() == nv,
                    labels@[start as int] != 0,
                    label != 0,
                    0 <= u < nv,
                    labels@[u as int] != 0,
                    connected(m, start as int, u as int),
                    faces_of_u@ == m.face_map[u as int],
                    0 <= a <= faces_of_u.len(),
                    labels_sound(m, before, labels@, start as int),
                    labels_grow(before, labels@),
                    stack_ok(m, labels@, stack@, start as int),
                    closed_except(m, labels@, stack@, u as int),
                    forall|b: int, k: int| 0 <= b < a && 0 <= k < 3
                        ==> labels@[#[trigger] m.faces[m.face_map[u as int][b] as int][k] as int] != 0,
                    unlabeled(labels@) < unl || (unlabeled(labels@) == unl && stack@ == popped),
                decreases faces_of_u.len() - a,
            {
                let f = faces_of_u[a];
                proof {
                    assert(m.face_map[u as int][a as int] == f);
                    assert(m.face_map[u as int].contains((f as int) as usize));
                    assert(f < m.faces.len());
                    assert(m.faces[f as int].contains((u as int) as usize));
                }
                let face = self.faces[f];
                let mut k: usize = 0;
                while k < 3
                    invariant
                        m == self@,
                        m.well_formed(),
                        nv == m.vertices.len(),
                        nv <= usize::MAX,
                        before.len() == nv,
                        labels@.len() == nv,
                        labels@[start as int] != 0,
                        label != 0,
                        0 <= u < nv,
                        labels@[u as int] != 0,
                        connected(m, start as int, u as int),
                        faces_of_u@ == m.face_map[u as int],
                        0 <= a < faces_of_u.len(),
                        f == m.face_map[u as int][a as int],
                        0 <= f < m.faces.len(),
                        face@ == m.faces[f as int],
                        m.faces[f as int].contains(u),
                        0 <= k <= 3,
                        labels_sound(m, before, labels@, start as int),
                        labels_grow(before, labels@),
                        stack_ok(m, labels@, stack@, start as int),
                        closed_except(m, labels@, stack@, u as int),
                        forall|b: int, j: int| 0 <= b < a && 0 <= j < 3
                            ==> labels@[#[trigger] m.faces[m.face_map[u as int][b] as int][j] as int] != 0,
                        forall|j: int| 0 <= j < k ==> labels@[#[trigger] m.faces[f as int][j] as int] != 0,
                        unlabeled(labels@) < unl || (unlabeled(labels@) == unl && stack@ == popped),
                    decreases 3 - k,
                {
                    let w = face[k];
                    let ghost lab0 = labels@;
                    let ghost st0 = stack@;
                    assert(labels_grow(before, lab0));
                    if labels[w] == 0 {
                        proof {
                            assert(m.faces[f as int][k as int] == w);
                            assert(m.faces[f as int].contains(w));
                            assert(m.faces[f as int].contains(u));
                            assert(m.faces[f as int].contains(w as int as usize));
                            assert(m.faces[f as int].contains(u as int as usize));
                            assert(adjacent(m, u as int, w as int));
                            lemma_connected_step(m, start as int, u as int, w as int);
                            lemma_unlabeled_set(labels@, w as int, label);
                        }
                        labels.set(w, label);
                        stack.push(w);
                        proof {
                            assert(labels@ == lab0.update(w as int, label));
                            assert forall|v: int| 0 <= v < before.len() && #[trigger] before[v] != 0
                                implies labels@[v] != 0 by {
                                if v != w {
                                    assert(lab0[v] != 0);
                                }
                            }
                            assert forall|x: int, y: int|
                                0 <= x < nv && 0 <= y < nv && #[trigger] labels@[x] != 0
                                    && #[trigger] adjacent(m, x, y) && !stack@.contains(x as usize) && x != u
                                    implies labels@[y] != 0 by {
                                assert(stack@ == st0.push(w));
                                assert(stack@[st0.len() as int] == w);
                                if x != w {
                                    assert(lab0[x] != 0);
                                    if st0.contains(x as usize) {
                                        let k = choose|k: int| 0 <= k < st0.len() && st0[k] == x as usize;
                                        assert(stack@[k] == x as usize);
                                    }
                                    assert(lab0[y] != 0);
                                }
                            }
                        }
                    }
                    k += 1;
                }
                a += 1;
            }
            proof {
                assert forall|x: int, y: int|
                    0 <= x < nv && 0 <= y < nv && #[trigger] labels@[x] != 0
                        && #[trigger] adjacent(m, x, y) && !stack@.contains(x as usize) && x != -1
                        implies labels@[y] != 0 by {
                    if x == u {
                        let f = choose|f: int| 0 <= f < m.faces.len() && #[trigger] m.faces[f].contains(x as usize)
                            && m.faces[f].contains(y as usize);
                        assert(m.faces[f].len() == 3);
                        assert(m.face_map[u as int].contains(f as usize));
                        let b = choose|b: int| 0 <= b < m.face_map[u as int].len() && m.face_map[u as int][b] == f as usize;
                        let j = choose|j: int| 0 <= j < m.faces[f].len() && m.faces[f][j] == y as usize;
                        assert(m.face_map[u as int][b] as int == f);
                        assert(m.faces[f][j] == y as usize);
                        assert(labels@[m.faces[m.face_map[u as int][b] as int][j] as int] != 0);
                        assert(m.faces[m.face_map[u as int][b] as int][j] == y);
                    } else {
                        assert(closed_except(m, labels@, stack@, u as int));
                    }
                }
            }
        }
        proof {
            assert forall|v: int| 0 <= v < nv implies (#[trigger] labels@[v] != 0
                <==> (before[v] != 0 || connected(m, start as int, v))) by {
                if connected(m, start as int, v) {
                    lemma_closed_holds_connected(m, labels@, start as int, v);
                }
            }
        }
    }

    /// Counts the bodies of the mesh: the connected components of the graph
    /// whose vertices are the mesh's vertices and whose edges are shared faces.
    pub fn count_bodies(&self) -> (r: usize)
        ensures
            r == body_count(self@),
    {
        proof {
            use_type_invariant(self);
        }
        let ghost m = self@;
        let nv = self.vertices.len();
        let mut labels: Vec<usize> = vec![0usize; nv];
        let mut count: usize = 0;
        let mut i: usize = 0;
        proof {
            assert forall|v: int| 0 <= v < nv implies (#[trigger] labels@[v] != 0 <==> reached(m, 0, v)) by {
                assert(labels@[v] == 0);
            }
        }
        while i < nv
            invariant
                m == self@,
                m.well_formed(),
                nv == m.vertices.len(),
                nv <= usize::MAX,
                labels@.len() == nv,
                0 <= i <= nv,
                count <= i,
                count == leader_count(m, i as int),
                forall|v: int| 0 <= v < nv ==> (#[trigger] labels@[v] != 0 <==> reached(m, i as int, v)),
            decreases nv - i,
        {
            if labels[i] != 0 {
                proof {
                    assert(reached(m, i as int, i as int));
                    let j = choose|j: int| 0 <= j < i && #[trigger] connected(m, j, i as int);
                    assert(!is_leader(m, i as int));
                    assert forall|v: int| 0 <= v < nv implies (#[trigger] labels@[v] != 0 <==> reached(
                        m,
                        i + 1,
                        v,
                    )) by {
                        if reached(m, i + 1, v) {
                            let j2 = choose|j2: int| 0 <= j2 < i + 1 && #[trigger] connected(m, j2, v);
                            if j2 == i {
                                lemma_connected_trans(m, j, i as int, v);
                            }
                        }
                    }
                }
            } else {
                proof {
                    assert forall|j: int| 0 <= j < i implies !#[trigger] connected(m, j, i as int) by {
                        if connected(m, j, i as int) {
                            assert(reached(m, i as int, i as int));
                        }
                    }
                    assert(is_leader(m, i as int));
                    assert forall|x: int, y: int|
                        0 <= x < nv && 0 <= y < nv && #[trigger] labels@[x] != 0
                            && #[trigger] adjacent(m, x, y) && !Seq::<usize>::empty().contains(x as usize) && x != -1
                            implies labels@[y] != 0 by {
                        let j = choose|j: int| 0 <= j < i && #[trigger] connected(m, j, x);
                        lemma_connected_step(m, j, x, y);
                    }
                }
                count += 1;
                self.fill(&mut labels, i, count);
                proof {
                    assert forall|v: int| 0 <= v < nv implies (#[trigger] labels@[v] != 0 <==> reached(
                        m,
                        i + 1,
                        v,
                    )) by {
                        if reached(m, i + 1, v) {
                            let j2 = choose|j2: int| 0 <= j2 < i + 1 && #[trigger] connected(m, j2, v);
                        }
                    }
                }
            }
            i += 1;
        }
        count
    }
}


impl TriangleMesh {
    /// Gets the bounding box of the mesh as (minimum corner, maximum corner),
    /// or `None` for a mesh without vertices.
    pub fn bounds(&self) -> (r: Option<(Point, Point)>)
        ensures
            r == (if self@.vertices.len() == 0 {
                None
            } else {
                Some((lower_corner(self@.vertices), upper_corner(self@.vertices)))
            }),
    {
        point_bounds(self.vertices.as_slice())
    }

    /// The deduplicated vertex positions.
    pub fn vertices(&self) -> (r: &Vec<Point>)
        ensures
            r@ == self@.vertices,
    {
        &self.vertices
    }

    /// The faces, three vertex indexes each.
    pub fn faces(&self) -> (r: &Vec<[usize; 3]>)
        ensures
            faces_view(r@) == self@.faces,
    {
        &self.faces
    }

    /// For each vertex, the faces that name it.
    pub fn face_map(&self) -> (r: &Vec<Vec<usize>>)
        ensures
            lists_view(r@) == self@.face_map,
    {
        &self.face_map
    }
}

/// The body count of a mesh that may not be built yet: 0 while it is not,
/// its body count once it is.
pub fn count_bodies_if_ready(mesh: Option<&TriangleMesh>) -> (r: usize)
    ensures
        match mesh {
            None => r == 0,
            Some(m) => r == body_count(m@),
        },
{
    match mesh {
        None => 0,
        Some(m) => m.count_bodies(),
    }
}

} // verus!

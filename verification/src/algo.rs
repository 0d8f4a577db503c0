use vstd::prelude::*;
use vstd::set::axiom_set_insert_len;
use vstd::set_lib::lemma_int_range;
use vstd::set_lib::lemma_len_subset;
use vstd::set_lib::set_int_range;

use crate::error::Error;
use crate::graph::EdgeModel;
use crate::graph::Graph;
use crate::graph::VertexModel;
use crate::graph::has_arc;
use crate::graph::has_id;
use crate::graph::idx_of;
use crate::graph::markers_clear;
use crate::graph::wf;

verus! {

/// One complete simple route: the vertices in visiting order, each paired
/// with the weight of the arc that entered it. The first pair carries the
/// sentinel weight 0, since no arc enters the start.
///
/// A `Path` is a snapshot: it stays as it is however the store or a later
/// search moves on.
#[derive(Debug)]
pub struct Path {
    pub steps: Vec<(usize, u64)>,
}

impl View for Path {
    type V = Seq<(usize, u64)>;

    open spec fn view(&self) -> Seq<(usize, u64)> {
        self.steps@
    }
}

/// Every vertex index of the path lies inside the arena.
pub open spec fn in_bounds(gv: Seq<VertexModel>, q: Seq<(usize, u64)>) -> bool {
    forall|i: int| 0 <= i < q.len() ==> (#[trigger] q[i]).0 < gv.len()
}

/// No vertex occurs twice on the path.
pub open spec fn no_repeat(q: Seq<(usize, u64)>) -> bool {
    forall|i: int, j: int| 0 <= i < j < q.len() ==> (#[trigger] q[i]).0 != (#[trigger] q[j]).0
}

/// `q` is a simple path of `gv` that starts at vertex `s` with the sentinel
/// weight 0, follows only arcs present in the store, repeats no vertex, and
/// ends at a vertex marked as an exit.
pub open spec fn route(gv: Seq<VertexModel>, s: int, q: Seq<(usize, u64)>) -> bool {
    &&& 0 < q.len()
    &&& q[0].0 == s
    &&& q[0].1 == 0
    &&& in_bounds(gv, q)
    &&& no_repeat(q)
    &&& forall|i: int|
        1 <= i < q.len() ==> has_arc(gv, q[i - 1].0 as int, (#[trigger] q[i]).0 as int, q[i].1)
    &&& gv[q[q.len() - 1].0 as int].is_exit
}

/// Soundness of an enumeration: everything listed is a route of `gv` from
/// start vertex `s`.
pub open spec fn all_are_routes(gv: Seq<VertexModel>, s: int, paths: Seq<Path>) -> bool {
    forall|i: int| 0 <= i < paths.len() ==> route(gv, s, (#[trigger] paths[i])@)
}

/// Completeness of an enumeration: every route of `gv` from start vertex `s`
/// is listed.
pub open spec fn all_routes_listed(gv: Seq<VertexModel>, s: int, paths: Seq<Path>) -> bool {
    forall|q: Seq<(usize, u64)>| #[trigger]
        route(gv, s, q) ==> exists|i: int| 0 <= i < paths.len() && (#[trigger] paths[i])@ == q
}

/// `q` extends the unfinished path `prefix` by stepping first to vertex `v`,
/// arriving there with weight `d`, and then walking on over arcs of `gv`,
/// never repeating a vertex, until it ends at an exit.
pub open spec fn extends_to_exit(
    gv: Seq<VertexModel>,
    prefix: Seq<(usize, u64)>,
    v: usize,
    d: u64,
    q: Seq<(usize, u64)>,
) -> bool {
    &&& prefix.len() < q.len()
    &&& q.subrange(0, prefix.len() as int) == prefix
    &&& q[prefix.len() as int] == (v, d)
    &&& in_bounds(gv, q)
    &&& no_repeat(q)
    &&& forall|i: int|
        prefix.len() + 1 <= i < q.len() ==> has_arc(
            gv,
            q[i - 1].0 as int,
            (#[trigger] q[i]).0 as int,
            q[i].1,
        )
    &&& gv[q[q.len() - 1].0 as int].is_exit
}

/// The set of vertex indices that an unfinished path currently holds.
pub open spec fn path_verts(q: Seq<(usize, u64)>) -> Set<int> {
    Set::new(|x: int| exists|j: int| 0 <= j < q.len() && (#[trigger] q[j]).0 as int == x)
}

/// The set of vertex indices whose transient on-path marker is set.
pub open spec fn marked_set(gv: Seq<VertexModel>) -> Set<int> {
    Set::new(|i: int| 0 <= i < gv.len() && gv[i].on_path)
}

/// Two stores of the same shape hold the same vertices, exit flags and arcs;
/// only the transient on-path markers may differ.
pub open spec fn same_shape(a: Seq<VertexModel>, b: Seq<VertexModel>) -> bool {
    &&& a.len() == b.len()
    &&& forall|i: int|
        0 <= i < a.len() ==> (#[trigger] a[i]).id == b[i].id && a[i].is_exit == b[i].is_exit
            && a[i].edges == b[i].edges
}

/// No path is listed twice.
pub open spec fn no_duplicate_paths(paths: Seq<Path>) -> bool {
    forall|i: int, j: int|
        0 <= i < j < paths.len() ==> (#[trigger] paths[i])@ != (#[trigger] paths[j])@
}

/// A route is exactly an extension of the empty path by the start vertex.
proof fn lemma_route_is_extension(gv: Seq<VertexModel>, s: usize, q: Seq<(usize, u64)>)
    ensures
        route(gv, s as int, q) <==> extends_to_exit(gv, Seq::empty(), s, 0, q),
{
    if route(gv, s as int, q) {
        assert(q.subrange(0, 0) =~= Seq::<(usize, u64)>::empty());
        assert(q[0] == (s, 0u64));
    }
    if extends_to_exit(gv, Seq::empty(), s, 0, q) {
        assert(q[0] == (s, 0u64));
    }
}

/// Path extensions only read the shape of the store, so they carry over
/// between stores of the same shape.
proof fn lemma_shape_extends(
    a: Seq<VertexModel>,
    b: Seq<VertexModel>,
    prefix: Seq<(usize, u64)>,
    v: usize,
    d: u64,
    q: Seq<(usize, u64)>,
)
    requires
        same_shape(a, b),
        extends_to_exit(a, prefix, v, d, q),
    ensures
        extends_to_exit(b, prefix, v, d, q),
{
    assert forall|i: int| prefix.len() + 1 <= i < q.len() implies has_arc(
        b,
        q[i - 1].0 as int,
        (#[trigger] q[i]).0 as int,
        q[i].1,
    ) by {
        assert(has_arc(a, q[i - 1].0 as int, q[i].0 as int, q[i].1));
        assert(a[q[i - 1].0 as int].edges == b[q[i - 1].0 as int].edges);
    }
}

/// Well-formedness only reads the shape of the store.
proof fn lemma_shape_wf(a: Seq<VertexModel>, b: Seq<VertexModel>)
    requires
        same_shape(a, b),
        wf(a),
    ensures
        wf(b),
{
    assert forall|i: int, j: int| 0 <= i < j < b.len() implies (#[trigger] b[i].id) != (
    #[trigger] b[j].id) by {
        assert(a[i].id != a[j].id);
    }
    assert forall|i: int, k: int|
        0 <= i < b.len() && 0 <= k < b[i].edges.len() implies 0 <= (
    #[trigger] b[i].edges[k]).to < b.len() && b[i].edges[k].to != i by {
        assert(b[i].edges == a[i].edges);
        assert(0 <= a[i].edges[k].to < a.len() && a[i].edges[k].to != i);
    }
    assert forall|i: int, k1: int, k2: int|
        0 <= i < b.len() && 0 <= k1 < k2 < b[i].edges.len() implies (
    #[trigger] b[i].edges[k1]).to != (#[trigger] b[i].edges[k2]).to by {
        assert(b[i].edges == a[i].edges);
        assert(a[i].edges[k1].to != a[i].edges[k2].to);
    }
}

/// A step into an adjacent vertex folds into the extension: what extends the
/// path already grown by `(v, d)` also extends the shorter path, provided the
/// arc into the next vertex is really in the store.
proof fn lemma_extend_shift(
    gv: Seq<VertexModel>,
    prefix: Seq<(usize, u64)>,
    v: usize,
    d: u64,
    w: usize,
    dw: u64,
    q: Seq<(usize, u64)>,
)
    requires
        extends_to_exit(gv, prefix.push((v, d)), w, dw, q),
        has_arc(gv, v as int, w as int, dw),
    ensures
        extends_to_exit(gv, prefix, v, d, q),
{
    let p1 = prefix.push((v, d));
    assert(q.subrange(0, prefix.len() as int) =~= prefix);
    assert(q[prefix.len() as int] == p1[prefix.len() as int]);
    assert forall|i: int| prefix.len() + 1 <= i < q.len() implies has_arc(
        gv,
        q[i - 1].0 as int,
        (#[trigger] q[i]).0 as int,
        q[i].1,
    ) by {
        if i == prefix.len() + 1 {
            assert(q[i - 1] == (v, d));
            assert(q[i] == (w, dw));
        }
    }
}

/// The converse of `lemma_extend_shift`: an extension that walks past `v`
/// names its next hop, that hop's arc is in the store, and the extension also
/// extends the path grown by `(v, d)`.
proof fn lemma_extend_unshift(
    gv: Seq<VertexModel>,
    prefix: Seq<(usize, u64)>,
    v: usize,
    d: u64,
    q: Seq<(usize, u64)>,
)
    requires
        extends_to_exit(gv, prefix, v, d, q),
        q.len() > prefix.len() + 1,
    ensures
        extends_to_exit(
            gv,
            prefix.push((v, d)),
            q[prefix.len() + 1 as int].0,
            q[prefix.len() + 1 as int].1,
            q,
        ),
        has_arc(gv, v as int, q[prefix.len() + 1 as int].0 as int, q[prefix.len() + 1 as int].1),
{
    let p1 = prefix.push((v, d));
    assert(q.subrange(0, p1.len() as int) =~= p1);
    assert(q[p1.len() as int] == (q[prefix.len() + 1 as int].0, q[prefix.len() + 1 as int].1));
    assert(has_arc(gv, q[prefix.len() as int].0 as int, q[prefix.len() + 1 as int].0 as int, q[prefix.len() + 1 as int].1));
}

/// An extension of exactly one step is the grown path itself, and only exists
/// when the vertex stepped into is an exit.
proof fn lemma_extend_single(
    gv: Seq<VertexModel>,
    prefix: Seq<(usize, u64)>,
    v: usize,
    d: u64,
    q: Seq<(usize, u64)>,
)
    requires
        extends_to_exit(gv, prefix, v, d, q),
        q.len() == prefix.len() + 1,
    ensures
        q == prefix.push((v, d)),
        gv[v as int].is_exit,
{
    assert(q =~= prefix.push((v, d)));
    assert(q[q.len() - 1] == (v, d));
}

/// Stepping into a fresh exit vertex is itself an extension of one step.
proof fn lemma_single_extends(
    gv: Seq<VertexModel>,
    prefix: Seq<(usize, u64)>,
    v: usize,
    d: u64,
)
    requires
        in_bounds(gv, prefix),
        no_repeat(prefix),
        (v as int) < gv.len(),
        !path_verts(prefix).contains(v as int),
        gv[v as int].is_exit,
    ensures
        extends_to_exit(gv, prefix, v, d, prefix.push((v, d))),
{
    let q = prefix.push((v, d));
    assert(q.subrange(0, prefix.len() as int) =~= prefix);
    assert forall|i: int, j: int| 0 <= i < j < q.len() implies (#[trigger] q[i]).0 != (
    #[trigger] q[j]).0 by {
        if j == prefix.len() {
            assert(q[i] == prefix[i]);
            assert(!(prefix[i].0 as int == v as int));
        }
    }
    assert(q[q.len() - 1] == (v, d));
}

/// An independent copy of the shared path buffer.
fn snapshot(buf: &Vec<(usize, u64)>) -> (p: Path)
    ensures
        p@ == buf@,
{
    let n = buf.len();
    let mut steps: Vec<(usize, u64)> = Vec::new();
    let mut i: usize = 0;
    while i < n
        invariant
            n == buf@.len(),
            i <= n,
            steps@ == buf@.subrange(0, i as int),
        decreases n - i,
    {
        let s = buf[i];
        steps.push(s);
        proof {
            assert(steps@ =~= buf@.subrange(0, i + 1));
        }
        i = i + 1;
    }
    proof {
        assert(steps@ =~= buf@);
    }
    Path { steps }
}

impl Graph {
    /// One frame of the exhaustive depth-first search. Visits vertex `v`,
    /// arriving with weight `d`; `buf` is the shared path buffer and the
    /// markers of `self` record exactly the vertices on it. Appends to `out`
    /// every extension of the buffer through `v` that reaches an exit, and
    /// hands the store, the buffer and the markers back exactly as they were.
    #[verifier::loop_isolation(false)]
    fn dfs_rec(&mut self, v: usize, d: u64, buf: &mut Vec<(usize, u64)>, out: &mut Vec<Path>)
        requires
            wf(old(self)@),
            (v as int) < old(self)@.len(),
            marked_set(old(self)@) == path_verts(old(buf)@),
            in_bounds(old(self)@, old(buf)@),
            no_repeat(old(buf)@),
        ensures
            final(self)@ == old(self)@,
            final(buf)@ == old(buf)@,
            old(out)@.len() <= final(out)@.len(),
            forall|i: int| 0 <= i < old(out)@.len() ==> final(out)@[i] == old(out)@[i],
            forall|i: int|
                old(out)@.len() <= i < final(out)@.len() ==> extends_to_exit(
                    old(self)@,
                    old(buf)@,
                    v,
                    d,
                    (#[trigger] final(out)@[i])@,
                ),
            forall|q: Seq<(usize, u64)>| #[trigger]
                extends_to_exit(old(self)@, old(buf)@, v, d, q) ==> exists|i: int|
                    old(out)@.len() <= i < final(out)@.len() && (#[trigger] final(out)@[i])@ == q,
            forall|i: int, j: int|
                old(out)@.len() <= i < j < final(out)@.len() ==> (#[trigger] final(out)@[i])@ != (
                #[trigger] final(out)@[j])@,
        decreases self@.len() - marked_set(self@).len(),
    {
        let ghost g0 = self@;
        let ghost b0 = buf@;
        let ghost o0 = out@;

        // A vertex already on the current path closes a cycle: prune the
        // branch, record nothing, and leave every structure as it is.
        if self.verts[v].on_path {
            proof {
                assert(marked_set(g0).contains(v as int));
                let j = choose|j: int| 0 <= j < b0.len() && (#[trigger] b0[j]).0 as int == v as int;
                assert forall|q: Seq<(usize, u64)>| #[trigger]
                    extends_to_exit(g0, b0, v, d, q) implies false by {
                    assert(q[j] == q.subrange(0, b0.len() as int)[j]);
                    assert(q[j].0 == v);
                    assert(q[b0.len() as int].0 == v);
                }
            }
            return;
        }
        self.verts[v].on_path = true;
        buf.push((v, d));
        let ghost g1 = self@;
        let ghost b1 = buf@;
        proof {
            assert(!marked_set(g0).contains(v as int));
            assert forall|m: int| 0 <= m < g1.len() && m != v implies g1[m] == g0[m] by {
                assert(self.verts@[m] == old(self).verts@[m]);
            }
            assert(same_shape(g0, g1));
            assert(same_shape(g1, g0));
            lemma_shape_wf(g0, g1);
            assert(marked_set(g1) =~= marked_set(g0).insert(v as int));
            assert(path_verts(b1) =~= path_verts(b0).insert(v as int)) by {
                assert forall|x: int| path_verts(b1).contains(x) implies path_verts(
                    b0,
                ).insert(v as int).contains(x) by {
                    let j = choose|j: int|
                        0 <= j < b1.len() && (#[trigger] b1[j]).0 as int == x;
                    if j < b0.len() {
                        assert(b0[j].0 as int == x);
                    }
                }
                assert forall|x: int| path_verts(b0).insert(v as int).contains(x)
                    implies path_verts(b1).contains(x) by {
                    if x == v as int {
                        assert(b1[b0.len() as int].0 as int == x);
                    } else {
                        let j = choose|j: int|
                            0 <= j < b0.len() && (#[trigger] b0[j]).0 as int == x;
                        assert(b1[j].0 as int == x);
                    }
                }
            }
            assert(marked_set(g1) == path_verts(b1));
            assert forall|i: int, j: int| 0 <= i < j < b1.len() implies (#[trigger] b1[i]).0 != (
            #[trigger] b1[j]).0 by {
                if j == b0.len() {
                    assert(!path_verts(b0).contains(v as int));
                    assert(!(b0[i].0 as int == v as int));
                }
            }
            assert(no_repeat(b1));
            assert(in_bounds(g1, b1));
        }
        if self.verts[v].is_exit {
            let p = snapshot(buf);
            out.push(p);
            proof {
                lemma_single_extends(g0, b0, v, d);
            }
        }
        let ghost o1 = out@;
        proof {
            assert(o0.len() <= o1.len());
            if g0[v as int].is_exit {
                lemma_single_extends(g0, b0, v, d);
                assert(o1[o0.len() as int]@ == b0.push((v, d)));
            }
        }

        let n = self.verts[v].edges.len();
        let mut k: usize = 0;
        while k < n
            invariant
                wf(g1),
                (v as int) < g1.len(),
                same_shape(g0, g1),
                same_shape(g1, g0),
                marked_set(g1) == path_verts(b1),
                b1 == b0.push((v, d)),
                in_bounds(g1, b1),
                no_repeat(b1),
                self@ == g1,
                buf@ == b1,
                n == g1[v as int].edges.len(),
                k <= n,
                o0.len() <= o1.len() <= out@.len(),
                forall|i: int| 0 <= i < o1.len() ==> out@[i] == o1[i],
                forall|i: int| 0 <= i < o0.len() ==> out@[i] == o0[i],
                g0[v as int].is_exit ==> o1.len() == o0.len() + 1 && o1[o0.len() as int]@
                    == b0.push((v, d)),
                forall|i: int|
                    o0.len() <= i < out@.len() ==> extends_to_exit(
                        g0,
                        b0,
                        v,
                        d,
                        (#[trigger] out@[i])@,
                    ),
                forall|q: Seq<(usize, u64)>| #[trigger]
                    extends_to_exit(g0, b0, v, d, q) && q.len() == b0.len() + 1 ==> exists|i: int|
                        o0.len() <= i < out@.len() && (#[trigger] out@[i])@ == q,
                forall|q: Seq<(usize, u64)>| #[trigger]
                    extends_to_exit(g0, b0, v, d, q) && q.len() > b0.len() + 1 && (exists|j: int|
                        0 <= j < k && (#[trigger] g1[v as int].edges[j]).to == q[b0.len()
                            + 1 as int].0 as int && g1[v as int].edges[j].dist == q[b0.len()
                            + 1 as int].1) ==> exists|i: int|
                        o0.len() <= i < out@.len() && (#[trigger] out@[i])@ == q,
                forall|i: int, j: int|
                    o0.len() <= i < j < out@.len() ==> (#[trigger] out@[i])@ != (
                    #[trigger] out@[j])@,
                forall|i: int|
                    o1.len() <= i < out@.len() ==> (#[trigger] out@[i])@.len() > b0.len() + 1 && (
                    exists|j: int|
                        0 <= j < k && out@[i]@[b0.len() + 1 as int].0 as int == (
                        #[trigger] g1[v as int].edges[j]).to),
            decreases n - k,
        {
            let e = self.verts[v].edges[k];
            proof {
                assert(e@ == g1[v as int].edges[k as int]);
                assert(0 <= e@.to < g1.len() && e@.to != v as int);
                lemma_int_range(0, g1.len() as int);
                lemma_len_subset(marked_set(g1), set_int_range(0, g1.len() as int));
                lemma_len_subset(marked_set(g0), set_int_range(0, g0.len() as int));
                axiom_set_insert_len(marked_set(g0), v as int);
                assert(marked_set(g1).len() == marked_set(g0).len() + 1);
            }
            let ghost pre = out@;
            self.dfs_rec(e.to, e.dist, buf, out);
            proof {
                let w = e.to;
                let dw = e.dist;
                assert(has_arc(g1, v as int, w as int, dw)) by {
                    assert(g1[v as int].edges[k as int] == (EdgeModel { to: w as int, dist: dw }));
                }
                assert(has_arc(g0, v as int, w as int, dw)) by {
                    assert(g0[v as int].edges == g1[v as int].edges);
                }
                // Every path recorded by the recursive call extends the
                // shorter buffer as well.
                assert forall|i: int| o0.len() <= i < out@.len() implies extends_to_exit(
                    g0,
                    b0,
                    v,
                    d,
                    (#[trigger] out@[i])@,
                ) by {
                    if i >= pre.len() {
                        assert(extends_to_exit(g1, b1, w, dw, out@[i]@));
                        lemma_shape_extends(g1, g0, b1, w, dw, out@[i]@);
                        lemma_extend_shift(g0, b0, v, d, w, dw, out@[i]@);
                    } else {
                        assert(out@[i] == pre[i]);
                    }
                }
                // Every extension whose next hop uses an arc seen so far,
                // this one included, is recorded by now.
                assert forall|q: Seq<(usize, u64)>| #[trigger]
                    extends_to_exit(g0, b0, v, d, q) && q.len() > b0.len() + 1 && (exists|j: int|
                        0 <= j < k + 1 && (#[trigger] g1[v as int].edges[j]).to == q[b0.len()
                            + 1 as int].0 as int && g1[v as int].edges[j].dist == q[b0.len()
                            + 1 as int].1) implies exists|i: int|
                    o0.len() <= i < out@.len() && (#[trigger] out@[i])@ == q by {
                    let j = choose|j: int|
                        0 <= j < k + 1 && (#[trigger] g1[v as int].edges[j]).to == q[b0.len()
                            + 1 as int].0 as int && g1[v as int].edges[j].dist == q[b0.len()
                            + 1 as int].1;
                    if j < k {
                        let i = choose|i: int|
                            o0.len() <= i < pre.len() && (#[trigger] pre[i])@ == q;
                        assert(out@[i]@ == q);
                    } else {
                        lemma_extend_unshift(g0, b0, v, d, q);
                        assert(q[b0.len() + 1 as int].0 as int == w as int);
                        assert(q[b0.len() + 1 as int].0 == w);
                        assert(q[b0.len() + 1 as int].1 == dw);
                        assert(extends_to_exit(g0, b1, w, dw, q));
                        lemma_shape_extends(g0, g1, b1, w, dw, q);
                        let i = choose|i: int|
                            pre.len() <= i < out@.len() && (#[trigger] out@[i])@ == q;
                        assert(o0.len() <= i);
                    }
                }
                // The new entries carry this iteration's arc as their next
                // hop, so they repeat neither the zero-hop entry nor any
                // entry of an earlier iteration, whose hop is another arc.
                assert forall|i: int|
                    o1.len() <= i < out@.len() implies (#[trigger] out@[i])@.len() > b0.len() + 1
                    && (exists|j: int|
                    0 <= j < k + 1 && out@[i]@[b0.len() + 1 as int].0 as int == (
                    #[trigger] g1[v as int].edges[j]).to) by {
                    if i < pre.len() {
                        let j = choose|j: int|
                            0 <= j < k && out@[i]@[b0.len() + 1 as int].0 as int == (
                            #[trigger] g1[v as int].edges[j]).to;
                        assert(out@[i]@[b0.len() + 1 as int].0 as int == g1[v as int].edges[j].to);
                    } else {
                        assert(extends_to_exit(g1, b1, w, dw, out@[i]@));
                        assert(out@[i]@[b1.len() as int] == (w, dw));
                        assert(out@[i]@[b0.len() + 1 as int].0 as int == g1[v as int].edges[
                            k as int].to);
                    }
                }
                assert forall|i: int, j: int|
                    o0.len() <= i < j < out@.len() implies (#[trigger] out@[i])@ != (
                    #[trigger] out@[j])@ by {
                    if j >= pre.len() {
                        assert(extends_to_exit(g1, b1, w, dw, out@[j]@));
                        assert(out@[j]@[b1.len() as int] == (w, dw));
                        if i < o1.len() {
                            if g0[v as int].is_exit && i == o0.len() {
                                assert(out@[i]@ == b0.push((v, d)));
                                assert(out@[i]@.len() == b0.len() + 1);
                                assert(out@[j]@.len() > b0.len() + 1);
                            }
                        } else if i < pre.len() {
                            let j0 = choose|j0: int|
                                0 <= j0 < k && out@[i]@[b0.len() + 1 as int].0 as int == (
                                #[trigger] g1[v as int].edges[j0]).to;
                            assert(g1[v as int].edges[j0].to != g1[v as int].edges[k as int].to);
                            assert(out@[i]@[b0.len() + 1 as int].0 != out@[j]@[b0.len()
                                + 1 as int].0);
                        }
                    }
                }
            }
            k = k + 1;
        }

        let _ = buf.pop();
        self.verts[v].on_path = false;
        proof {
            assert(buf@ =~= b0);
            assert forall|m: int| 0 <= m < self@.len() && m != v implies self@[m] == g1[m] by {}
            assert(self@ =~~= g0);
            // Wrap-up of completeness: every extension either stops at `v`,
            // which must then be an exit, or walks on over one of its arcs.
            assert forall|q: Seq<(usize, u64)>| #[trigger]
                extends_to_exit(g0, b0, v, d, q) implies exists|i: int|
                o0.len() <= i < out@.len() && (#[trigger] out@[i])@ == q by {
                if q.len() == b0.len() + 1 {
                    lemma_extend_single(g0, b0, v, d, q);
                } else {
                    lemma_extend_unshift(g0, b0, v, d, q);
                    let hop = q[b0.len() + 1 as int];
                    assert(has_arc(g0, v as int, hop.0 as int, hop.1));
                    let j = choose|j: int|
                        0 <= j < g0[v as int].edges.len() && (#[trigger] g0[v as int].edges[j])
                            == (EdgeModel { to: hop.0 as int, dist: hop.1 });
                    assert(g1[v as int].edges[j] == g0[v as int].edges[j]);
                }
            }
        }
    }
}

impl Graph {
    /// Enumerates every simple path that begins at the vertex named `start`
    /// and ends at any exit, the zero-hop path included when the start is
    /// itself an exit. Fails with `NoVertex` exactly when the id is unknown.
    ///
    /// The transient on-path markers are the only state the search touches,
    /// and every one of them is clear again when the call returns: the store
    /// comes back exactly as it went in.
    #[verifier::rlimit(50)]
    pub fn find_all_paths(&mut self, start: &String) -> (r: Result<Vec<Path>, Error>)
        requires
            wf(old(self)@),
            markers_clear(old(self)@),
        ensures
            final(self)@ == old(self)@,
            markers_clear(final(self)@),
            r is Ok <==> has_id(old(self)@, start@),
            r is Err ==> r == Err::<Vec<Path>, Error>(Error::NoVertex),
            r matches Ok(paths) ==> all_are_routes(old(self)@, idx_of(old(self)@, start@), paths@),
            r matches Ok(paths) ==> all_routes_listed(
                old(self)@,
                idx_of(old(self)@, start@),
                paths@,
            ),
            r matches Ok(paths) ==> no_duplicate_paths(paths@),
    {
        let ghost g0 = self@;
        match self.lookup(start) {
            None => Err(Error::NoVertex),
            Some(si) => {
                proof {
                    crate::graph::lemma_idx_of_unique(g0, start@, si as int);
                }
                let mut buf: Vec<(usize, u64)> = Vec::new();
                let mut out: Vec<Path> = Vec::new();
                let ghost bpre = buf@;
                let ghost opre = out@;
                proof {
                    assert(marked_set(g0) =~= path_verts(bpre));
                }
                self.dfs_rec(si, 0, &mut buf, &mut out);
                proof {
                    let sidx = idx_of(g0, start@);
                    assert forall|i: int| 0 <= i < out@.len() implies route(
                        g0,
                        sidx,
                        (#[trigger] out@[i])@,
                    ) by {
                        assert(extends_to_exit(g0, bpre, si, 0, out@[i]@));
                        assert(bpre =~= Seq::<(usize, u64)>::empty());
                        lemma_route_is_extension(g0, si, out@[i]@);
                    }
                    assert(all_are_routes(g0, sidx, out@));
                    assert forall|q: Seq<(usize, u64)>| #[trigger]
                        route(g0, sidx, q) implies exists|i: int|
                        0 <= i < out@.len() && (#[trigger] out@[i])@ == q by {
                        lemma_route_is_extension(g0, si, q);
                        assert(bpre =~= Seq::<(usize, u64)>::empty());
                        assert(extends_to_exit(g0, bpre, si, 0, q));
                        let i = choose|i: int|
                            opre.len() <= i < out@.len() && (#[trigger] out@[i])@ == q;
                        assert(0 <= i < out@.len() && out@[i]@ == q);
                    }
                    assert(all_routes_listed(g0, sidx, out@));
                }
                Ok(out)
            },
        }
    }

    /// The search under its historical name: `DFS` and `find_all_paths` are
    /// the same enumeration.
    #[allow(non_snake_case)]
    pub fn DFS(&mut self, start: &String) -> (r: Result<Vec<Path>, Error>)
        requires
            wf(old(self)@),
            markers_clear(old(self)@),
        ensures
            final(self)@ == old(self)@,
            markers_clear(final(self)@),
            r is Ok <==> has_id(old(self)@, start@),
            r is Err ==> r == Err::<Vec<Path>, Error>(Error::NoVertex),
            r matches Ok(paths) ==> all_are_routes(old(self)@, idx_of(old(self)@, start@), paths@),
            r matches Ok(paths) ==> all_routes_listed(
                old(self)@,
                idx_of(old(self)@, start@),
                paths@,
            ),
            r matches Ok(paths) ==> no_duplicate_paths(paths@),
    {
        self.find_all_paths(start)
    }
}

/// When the start vertex is itself an exit, the zero-hop path holding just
/// the start qualifies as a route, so the completeness clause of
/// `find_all_paths` always puts it among the results.
pub proof fn lemma_exit_start_is_route(gv: Seq<VertexModel>, s: usize)
    requires
        (s as int) < gv.len(),
        gv[s as int].is_exit,
    ensures
        route(gv, s as int, seq![(s, 0u64)]),
{
    let q = seq![(s, 0u64)];
    assert(q[0] == (s, 0u64));
}

/// In a store with no exit at all there is no route, so the soundness clause
/// of `find_all_paths` forces an empty result: no reachable exit is an empty
/// answer, never an error.
pub proof fn lemma_no_exit_no_route(gv: Seq<VertexModel>, s: int, q: Seq<(usize, u64)>)
    requires
        forall|i: int| 0 <= i < gv.len() ==> !(#[trigger] gv[i]).is_exit,
    ensures
        !route(gv, s, q),
{
    if route(gv, s, q) {
        assert(q[q.len() - 1].0 < gv.len());
    }
}

/// From a start vertex with no outgoing arc the only possible route is the
/// zero-hop path, and that one only when the start is an exit: an isolated
/// non-exit start yields an empty result, an isolated exit exactly the
/// zero-hop path.
pub proof fn lemma_isolated_start_routes(gv: Seq<VertexModel>, s: usize, q: Seq<(usize, u64)>)
    requires
        (s as int) < gv.len(),
        gv[s as int].edges.len() == 0,
        route(gv, s as int, q),
    ensures
        q == seq![(s, 0u64)],
        gv[s as int].is_exit,
{
    if q.len() > 1 {
        assert(has_arc(gv, q[0].0 as int, q[1].0 as int, q[1].1));
        assert(false);
    }
    assert(q =~= seq![(s, 0u64)]) by {
        assert(q[0].0 == s && q[0].1 == 0);
    }
}


/// `w` is a walk of `gv` from vertex `s`: it starts there with the sentinel
/// weight 0, stays inside the arena and follows only arcs of the store.
/// Unlike a route it may revisit vertices and end anywhere.
pub open spec fn walk_from(gv: Seq<VertexModel>, s: int, w: Seq<(usize, u64)>) -> bool {
    &&& 0 < w.len()
    &&& w[0].0 == s
    &&& w[0].1 == 0
    &&& in_bounds(gv, w)
    &&& forall|i: int|
        1 <= i < w.len() ==> has_arc(gv, w[i - 1].0 as int, (#[trigger] w[i]).0 as int, w[i].1)
}

/// Any walk that reaches an exit shortens, cutting one cycle at a time, into
/// a simple route: wherever an exit is reachable at all, a route exists.
pub proof fn lemma_walk_to_exit_gives_route(gv: Seq<VertexModel>, s: int, w: Seq<(usize, u64)>)
    requires
        walk_from(gv, s, w),
        gv[w[w.len() - 1].0 as int].is_exit,
    ensures
        exists|q: Seq<(usize, u64)>| #[trigger] route(gv, s, q),
    decreases w.len(),
{
    if no_repeat(w) {
        assert(route(gv, s, w));
    } else {
        let (i, j) = choose|i: int, j: int|
            0 <= i < j < w.len() && (#[trigger] w[i]).0 == (#[trigger] w[j]).0;
        let w2 = w.subrange(0, i + 1) + w.subrange(j + 1, w.len() as int);
        assert(w2.len() == w.len() - (j - i) < w.len());
        assert(forall|m: int| 0 <= m <= i ==> (#[trigger] w2[m]) == w[m]);
        assert(forall|m: int| i < m < w2.len() ==> (#[trigger] w2[m]) == w[m + (j - i)]);
        assert forall|m: int| 1 <= m < w2.len() implies has_arc(
            gv,
            w2[m - 1].0 as int,
            (#[trigger] w2[m]).0 as int,
            w2[m].1,
        ) by {
            if m <= i {
                assert(has_arc(gv, w[m - 1].0 as int, w[m].0 as int, w[m].1));
            } else if m == i + 1 {
                assert(w2[m] == w[j + 1]);
                assert(has_arc(gv, w[j].0 as int, w[j + 1].0 as int, w[j + 1].1));
                assert(w2[m - 1].0 == w[i].0 == w[j].0);
            } else {
                assert(w2[m] == w[m + (j - i)]);
                assert(w2[m - 1] == w[m - 1 + (j - i)]);
                assert(has_arc(gv, w[m + (j - i) - 1].0 as int, w[m + (j - i)].0 as int, w[m + (j
                    - i)].1));
            }
        }
        if j == w.len() - 1 {
            assert(w2[w2.len() - 1].0 == w[i].0 == w[w.len() - 1].0);
        } else {
            assert(w2[w2.len() - 1] == w[w.len() - 1]);
        }
        lemma_walk_to_exit_gives_route(gv, s, w2);
    }
}

/// The enumeration's guarantee: when some walk of the store leads from the
/// start to an exit, a listing that `all_routes_listed` accepts cannot be
/// empty — `find_all_paths` finds at least one path.
pub proof fn lemma_reachable_exit_means_nonempty(
    gv: Seq<VertexModel>,
    s: int,
    w: Seq<(usize, u64)>,
    paths: Seq<Path>,
)
    requires
        all_routes_listed(gv, s, paths),
        walk_from(gv, s, w),
        gv[w[w.len() - 1].0 as int].is_exit,
    ensures
        paths.len() > 0,
{
    lemma_walk_to_exit_gives_route(gv, s, w);
    let q = choose|q: Seq<(usize, u64)>| #[trigger] route(gv, s, q);
    assert(exists|i: int| 0 <= i < paths.len() && (#[trigger] paths[i])@ == q);
}

/// The converse: every route is itself a walk to an exit, so when no walk
/// from the start reaches an exit, a listing that `all_are_routes` accepts
/// is empty — an unreachable exit is an empty result, never an error.
pub proof fn lemma_unreachable_exit_means_empty(gv: Seq<VertexModel>, s: int, paths: Seq<Path>)
    requires
        all_are_routes(gv, s, paths),
        forall|w: Seq<(usize, u64)>| #[trigger]
            walk_from(gv, s, w) ==> !gv[w[w.len() - 1].0 as int].is_exit,
    ensures
        paths.len() == 0,
{
    if paths.len() > 0 {
        let q = paths[0]@;
        assert(route(gv, s, q));
        assert(walk_from(gv, s, q));
    }
}

} // verus!

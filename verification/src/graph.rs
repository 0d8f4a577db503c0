use vstd::prelude::*;

use crate::error::Error;

verus! {

/// One directed arc: the arena index of the target vertex and the weight it
/// carries.
///
/// The weight is an opaque 64-bit payload chosen by the caller (for example
/// the bit pattern of a fractional length); the store never interprets it,
/// it only hands it back along every enumerated path.
#[derive(Clone, Copy, Debug)]
pub struct Edge {
    pub to: usize,
    pub dist: u64,
}

/// The mathematical model of an [`Edge`].
pub struct EdgeModel {
    pub to: int,
    pub dist: u64,
}

impl View for Edge {
    type V = EdgeModel;

    open spec fn view(&self) -> EdgeModel {
        EdgeModel { to: self.to as int, dist: self.dist }
    }
}

/// A named location in the graph, owned by the [`Graph`] arena.
///
/// `on_path` is transient traversal state: it is true exactly while the
/// vertex lies on the path that a running search is currently exploring.
#[derive(Debug)]
pub struct Vertex {
    pub id: String,
    pub is_exit: bool,
    pub edges: Vec<Edge>,
    pub on_path: bool,
}

/// The mathematical model of a [`Vertex`].
pub struct VertexModel {
    pub id: Seq<char>,
    pub is_exit: bool,
    pub edges: Seq<EdgeModel>,
    pub on_path: bool,
}

impl View for Vertex {
    type V = VertexModel;

    open spec fn view(&self) -> VertexModel {
        VertexModel {
            id: self.id@,
            is_exit: self.is_exit,
            edges: Seq::new(self.edges@.len(), |i: int| self.edges@[i]@),
            on_path: self.on_path,
        }
    }
}

/// The vertex arena. Vertices are only ever appended, never removed or
/// reordered, so an index, once issued, names the same vertex for the
/// store's whole lifetime.
#[derive(Debug)]
pub struct Graph {
    pub verts: Vec<Vertex>,
}

impl View for Graph {
    type V = Seq<VertexModel>;

    open spec fn view(&self) -> Seq<VertexModel> {
        Seq::new(self.verts@.len(), |i: int| self.verts@[i]@)
    }
}

/// Some vertex of `gv` carries the id `id`.
pub open spec fn has_id(gv: Seq<VertexModel>, id: Seq<char>) -> bool {
    exists|i: int| 0 <= i < gv.len() && (#[trigger] gv[i].id) == id
}

/// The index of the vertex that carries `id` (meaningful when `has_id` holds;
/// unambiguous when the ids of `gv` are distinct).
pub open spec fn idx_of(gv: Seq<VertexModel>, id: Seq<char>) -> int {
    choose|i: int| 0 <= i < gv.len() && (#[trigger] gv[i].id) == id
}

/// An arc from vertex `from` to vertex `to` with weight `dist` is present.
pub open spec fn has_arc(gv: Seq<VertexModel>, from: int, to: int, dist: u64) -> bool {
    &&& 0 <= from < gv.len()
    &&& exists|k: int|
        0 <= k < gv[from].edges.len() && (#[trigger] gv[from].edges[k]) == (EdgeModel {
            to,
            dist,
        })
}

/// An arc from vertex `from` to vertex `to` is present, whatever its weight.
pub open spec fn connected(gv: Seq<VertexModel>, from: int, to: int) -> bool {
    &&& 0 <= from < gv.len()
    &&& exists|k: int| 0 <= k < gv[from].edges.len() && (#[trigger] gv[from].edges[k]).to == to
}

/// Well-formedness of the store: ids are distinct, every arc stays inside the
/// arena, no arc is a self-loop, and no two arcs of one vertex share a target.
pub open spec fn wf(gv: Seq<VertexModel>) -> bool {
    &&& forall|i: int, j: int|
        0 <= i < j < gv.len() ==> (#[trigger] gv[i].id) != (#[trigger] gv[j].id)
    &&& forall|i: int, k: int|
        0 <= i < gv.len() && 0 <= k < gv[i].edges.len()
            ==> 0 <= (#[trigger] gv[i].edges[k]).to < gv.len() && gv[i].edges[k].to != i
    &&& forall|i: int, k1: int, k2: int|
        0 <= i < gv.len() && 0 <= k1 < k2 < gv[i].edges.len()
            ==> (#[trigger] gv[i].edges[k1]).to != (#[trigger] gv[i].edges[k2]).to
}

/// Every arc has its reverse twin with the same weight: the store describes
/// an undirected graph.
pub open spec fn symmetric(gv: Seq<VertexModel>) -> bool {
    forall|i: int, k: int|
        0 <= i < gv.len() && 0 <= k < gv[i].edges.len()
            ==> has_arc(gv, (#[trigger] gv[i].edges[k]).to, i, gv[i].edges[k].dist)
}

/// No vertex carries its transient on-path marker: no traversal is underway
/// and none has leaked its state.
pub open spec fn markers_clear(gv: Seq<VertexModel>) -> bool {
    forall|i: int| 0 <= i < gv.len() ==> !(#[trigger] gv[i]).on_path
}

/// The store after inserting a vertex: unchanged when the id is taken,
/// extended by one fresh vertex otherwise.
pub open spec fn vert_inserted(gv: Seq<VertexModel>, id: Seq<char>, is_exit: bool) -> Seq<
    VertexModel,
> {
    if has_id(gv, id) {
        gv
    } else {
        gv.push(VertexModel { id, is_exit, edges: Seq::empty(), on_path: false })
    }
}

/// The store after appending one arc from vertex `i` to vertex `j`.
pub open spec fn arc_pushed(gv: Seq<VertexModel>, i: int, j: int, dist: u64) -> Seq<VertexModel> {
    gv.update(
        i,
        VertexModel {
            id: gv[i].id,
            is_exit: gv[i].is_exit,
            edges: gv[i].edges.push(EdgeModel { to: j, dist }),
            on_path: gv[i].on_path,
        },
    )
}

impl Graph {
    /// Creates an empty store.
    pub fn new() -> (g: Graph)
        ensures
            g@ =~= Seq::<VertexModel>::empty(),
            wf(g@),
            symmetric(g@),
            markers_clear(g@),
    {
        Graph { verts: Vec::new() }
    }

    /// The index of the vertex that carries `id`, if any does.
    pub(crate) fn lookup(&self, id: &String) -> (r: Option<usize>)
        ensures
            match r {
                Some(i) => i < self@.len() && self@[i as int].id == id@,
                None => !has_id(self@, id@),
            },
    {
        let n = self.verts.len();
        let mut i: usize = 0;
        while i < n
            invariant
                n == self@.len(),
                i <= n,
                forall|j: int| 0 <= j < i ==> (#[trigger] self@[j].id) != id@,
            decreases n - i,
        {
            if self.verts[i].id == *id {
                return Some(i);
            }
            i = i + 1;
        }
        None
    }

    /// Read-only lookup of a vertex by id.
    pub fn get(&self, id: &String) -> (r: Option<&Vertex>)
        requires
            wf(self@),
        ensures
            match r {
                Some(v) => has_id(self@, id@) && v@ == self@[idx_of(self@, id@)],
                None => !has_id(self@, id@),
            },
    {
        match self.lookup(id) {
            Some(i) => {
                proof {
                    lemma_idx_of_unique(self@, id@, i as int);
                }
                Some(&self.verts[i])
            },
            None => None,
        }
    }

    /// Inserts a vertex with the given id and exit flag if the id is new;
    /// otherwise leaves the store untouched. Reports whether the id already
    /// existed, so a repeated insertion never overwrites the first definition.
    pub fn new_vert(&mut self, id: &String, is_exit: bool) -> (already: bool)
        requires
            wf(old(self)@),
        ensures
            already == has_id(old(self)@, id@),
            final(self)@ == vert_inserted(old(self)@, id@, is_exit),
            wf(final(self)@),
            symmetric(old(self)@) ==> symmetric(final(self)@),
            markers_clear(old(self)@) ==> markers_clear(final(self)@),
    {
        match self.lookup(id) {
            Some(_) => true,
            None => {
                let ghost g0 = self@;
                let v = Vertex { id: id.clone(), is_exit, edges: Vec::new(), on_path: false };
                self.verts.push(v);
                proof {
                    let gv = vert_inserted(g0, id@, is_exit);
                    assert(self@[g0.len() as int].edges =~= Seq::<EdgeModel>::empty());
                    assert(self@ =~~= gv);
                    assert forall|i: int, j: int| 0 <= i < j < gv.len() implies (#[trigger] gv[i].id)
                        != (#[trigger] gv[j].id) by {
                        if j < g0.len() {
                            assert(gv[i].id != gv[j].id);
                        } else {
                            assert(gv[j].id == id@);
                            assert(gv[i].id != id@);
                        }
                    }
                    assert(wf(gv));
                    if symmetric(g0) {
                        assert forall|i: int, k: int|
                            0 <= i < gv.len() && 0 <= k < gv[i].edges.len() implies has_arc(
                            gv,
                            (#[trigger] gv[i].edges[k]).to,
                            i,
                            gv[i].edges[k].dist,
                        ) by {
                            assert(i < g0.len());
                            assert(gv[i].edges == g0[i].edges);
                            assert(has_arc(g0, g0[i].edges[k].to, i, g0[i].edges[k].dist));
                            let to = g0[i].edges[k].to;
                            let d = g0[i].edges[k].dist;
                            let w = choose|m: int|
                                0 <= m < g0[to].edges.len() && (#[trigger] g0[to].edges[m])
                                    == (EdgeModel { to: i, dist: d });
                            assert(gv[to].edges[w] == (EdgeModel { to: i, dist: d }));
                        }
                    }
                }
                false
            },
        }
    }

    /// Whether some arc already leads from vertex `i` to vertex `j`.
    fn arc_exists(&self, i: usize, j: usize) -> (r: bool)
        requires
            i < self@.len(),
        ensures
            r == connected(self@, i as int, j as int),
    {
        let n = self.verts[i].edges.len();
        let mut k: usize = 0;
        while k < n
            invariant
                i < self@.len(),
                n == self@[i as int].edges.len(),
                k <= n,
                forall|m: int| 0 <= m < k ==> (#[trigger] self@[i as int].edges[m]).to != j,
            decreases n - k,
        {
            if self.verts[i].edges[k].to == j {
                proof {
                    assert((#[trigger] self@[i as int].edges[k as int]).to == j as int);
                }
                return true;
            }
            k = k + 1;
        }
        false
    }

    /// Appends one arc from vertex `i` to vertex `j` with weight `dist`.
    fn push_arc(&mut self, i: usize, j: usize, dist: u64)
        requires
            i < old(self)@.len(),
            j < old(self)@.len(),
        ensures
            final(self)@ == arc_pushed(old(self)@, i as int, j as int, dist),
    {
        let e = Edge { to: j, dist };
        self.verts[i].edges.push(e);
        proof {
            let g0 = old(self)@;
            assert forall|m: int| 0 <= m < self@.len() && m != i implies self@[m] == g0[m] by {
                assert(self.verts@[m] == old(self).verts@[m]);
            }
            assert(self@[i as int].edges =~= g0[i as int].edges.push(
                EdgeModel { to: j as int, dist },
            ));
            assert(self@ =~~= arc_pushed(g0, i as int, j as int, dist));
        }
    }

    /// Inserts one undirected connection between the vertices named `a` and
    /// `b`: the two directed arcs `a -> b` and `b -> a`, both of weight
    /// `dist`. Validates everything first, so on failure the store is left
    /// exactly as it was: no connection is ever half inserted.
    ///
    /// Fails with `SelfEdge` when the two ids are the same, with `NoVertex`
    /// when either id is unknown, and with `DuplicateEdge` when the pair is
    /// already connected in either direction, whatever that arc's weight.
    pub fn new_edge(&mut self, a: &String, b: &String, dist: u64) -> (r: Result<(), Error>)
        requires
            wf(old(self)@),
        ensures
            wf(final(self)@),
            markers_clear(old(self)@) ==> markers_clear(final(self)@),
            symmetric(old(self)@) ==> symmetric(final(self)@),
            a@ == b@ ==> r == Err::<(), Error>(Error::SelfEdge) && final(self)@ == old(self)@,
            a@ != b@ && (!has_id(old(self)@, a@) || !has_id(old(self)@, b@)) ==> r == Err::<
                (),
                Error,
            >(Error::NoVertex) && final(self)@ == old(self)@,
            ({
                let g0 = old(self)@;
                let ia = idx_of(g0, a@);
                let ib = idx_of(g0, b@);
                a@ != b@ && has_id(g0, a@) && has_id(g0, b@) ==> (if connected(g0, ia, ib)
                    || connected(g0, ib, ia) {
                    r == Err::<(), Error>(Error::DuplicateEdge) && final(self)@ == g0
                } else {
                    r == Ok::<(), Error>(()) && final(self)@ == arc_pushed(
                        arc_pushed(g0, ia, ib, dist),
                        ib,
                        ia,
                        dist,
                    )
                })
            }),
    {
        if *a == *b {
            return Err(Error::SelfEdge);
        }
        let oa = self.lookup(a);
        let ob = self.lookup(b);
        match (oa, ob) {
            (Some(ia), Some(ib)) => {
                proof {
                    lemma_idx_of_unique(self@, a@, ia as int);
                    lemma_idx_of_unique(self@, b@, ib as int);
                }
                if self.arc_exists(ia, ib) || self.arc_exists(ib, ia) {
                    Err(Error::DuplicateEdge)
                } else {
                    let ghost g0 = self@;
                    self.push_arc(ia, ib, dist);
                    self.push_arc(ib, ia, dist);
                    proof {
                        lemma_double_arc_ok(g0, ia as int, ib as int, dist);
                    }
                    Ok(())
                }
            },
            _ => Err(Error::NoVertex),
        }
    }
}

/// Inserting the two arcs of one fresh connection preserves well-formedness,
/// symmetry and clear markers.
proof fn lemma_double_arc_ok(g0: Seq<VertexModel>, ia: int, ib: int, dist: u64)
    requires
        wf(g0),
        0 <= ia < g0.len(),
        0 <= ib < g0.len(),
        ia != ib,
        !connected(g0, ia, ib),
        !connected(g0, ib, ia),
    ensures
        wf(arc_pushed(arc_pushed(g0, ia, ib, dist), ib, ia, dist)),
        markers_clear(g0) ==> markers_clear(arc_pushed(arc_pushed(g0, ia, ib, dist), ib, ia, dist)),
        symmetric(g0) ==> symmetric(arc_pushed(arc_pushed(g0, ia, ib, dist), ib, ia, dist)),
{
    let g2 = arc_pushed(arc_pushed(g0, ia, ib, dist), ib, ia, dist);
    let na = g0[ia].edges.len() as int;
    let nb = g0[ib].edges.len() as int;
    assert(g2.len() == g0.len());
    assert(forall|m: int| 0 <= m < g0.len() && m != ia && m != ib ==> g2[m] == g0[m]);
    assert(g2[ia].edges == g0[ia].edges.push(EdgeModel { to: ib, dist }));
    assert(g2[ib].edges == g0[ib].edges.push(EdgeModel { to: ia, dist }));

    assert forall|i: int, k: int|
        0 <= i < g2.len() && 0 <= k < g2[i].edges.len() implies 0 <= (
    #[trigger] g2[i].edges[k]).to < g2.len() && g2[i].edges[k].to != i by {
        if i == ia && k == na {
        } else if i == ib && k == nb {
        } else {
            assert(g2[i].edges[k] == g0[i].edges[k]);
        }
    }
    assert forall|i: int, k1: int, k2: int|
        0 <= i < g2.len() && 0 <= k1 < k2 < g2[i].edges.len() implies (
    #[trigger] g2[i].edges[k1]).to != (#[trigger] g2[i].edges[k2]).to by {
        if i == ia && k2 == na {
            assert(g2[i].edges[k1] == g0[i].edges[k1]);
            assert(g0[ia].edges[k1].to != ib);
        } else if i == ib && k2 == nb {
            assert(g2[i].edges[k1] == g0[i].edges[k1]);
            assert(g0[ib].edges[k1].to != ia);
        } else {
            assert(g2[i].edges[k1] == g0[i].edges[k1]);
            assert(g2[i].edges[k2] == g0[i].edges[k2]);
        }
    }
    assert(wf(g2));
    if symmetric(g0) {
        assert forall|i: int, k: int|
            0 <= i < g2.len() && 0 <= k < g2[i].edges.len() implies has_arc(
            g2,
            (#[trigger] g2[i].edges[k]).to,
            i,
            g2[i].edges[k].dist,
        ) by {
            if i == ia && k == na {
                assert(g2[ib].edges[nb] == (EdgeModel { to: ia, dist }));
                assert(has_arc(g2, ib, ia, dist));
            } else if i == ib && k == nb {
                assert(g2[ia].edges[na] == (EdgeModel { to: ib, dist }));
                assert(has_arc(g2, ia, ib, dist));
            } else {
                assert(g2[i].edges[k] == g0[i].edges[k]);
                let to = g0[i].edges[k].to;
                let d = g0[i].edges[k].dist;
                assert(has_arc(g0, to, i, d));
                let w = choose|m: int|
                    0 <= m < g0[to].edges.len() && (#[trigger] g0[to].edges[m]) == (EdgeModel {
                        to: i,
                        dist: d,
                    });
                assert(g2[to].edges[w] == (EdgeModel { to: i, dist: d }));
                assert(has_arc(g2, to, i, d));
            }
        }
    }
}

/// With distinct ids, any index whose vertex carries `id` is the one that
/// `idx_of` names.
pub proof fn lemma_idx_of_unique(gv: Seq<VertexModel>, id: Seq<char>, i: int)
    requires
        wf(gv),
        0 <= i < gv.len(),
        gv[i].id == id,
    ensures
        has_id(gv, id),
        idx_of(gv, id) == i,
{
    assert(has_id(gv, id));
    let j = idx_of(gv, id);
    assert(0 <= j < gv.len() && gv[j].id == id);
    if i < j {
        assert(gv[i].id != gv[j].id);
    } else if j < i {
        assert(gv[j].id != gv[i].id);
    }
}

} // verus!

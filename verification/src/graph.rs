use vstd::prelude::*;
use crate::hex::Hex;
use crate::label::Label;
use crate::errors::GraphError;
use crate::errors::MergeConflict;
use crate::model::{
    GraphModel, VertexModel, Persistence, edge_has, edge_idx, remove_val,
    lemma_idx_of, lemma_add_wf, lemma_bind_wf, lemma_put_wf, lemma_open_wf, lemma_commit_wf,
    lemma_discard_wf, lemma_take_wf, lemma_remove_val, edges_filter, edge_target,
    merge_add_phase, merge_payload, merge_edges, merge_apply, spec_merge,
};
use crate::{MAX_EDGES, MAX_BRANCHES, MAX_BRANCH_SIZE, BRANCH_NONE, BRANCH_STATIC};

verus! {

/// One stored vertex: its owning branch, payload, lifecycle state,
/// outgoing edges in insertion order, and the open branches holding it.
pub(crate) struct Vertex {
    pub(crate) branch: usize,
    pub(crate) data: Hex,
    pub(crate) persistence: Persistence,
    pub(crate) edges: Vec<(Label, usize)>,
    pub(crate) stack: Vec<usize>,
}

impl View for Vertex {
    type V = VertexModel;

    closed spec fn view(&self) -> VertexModel {
        VertexModel {
            branch: self.branch,
            data: self.data@,
            persistence: self.persistence,
            edges: self.edges@,
            stack: self.stack@,
        }
    }
}

/// A surging object di-graph: a vertex table keyed by unique integer
/// ids, with bounded-degree labeled edges, binary payloads, and
/// speculative-branch bookkeeping that decides when vertices die.
pub struct Sodg {
    pub(crate) vertices: Vec<(usize, Vertex)>,
    pub(crate) next_v: usize,
    pub(crate) branches: Vec<usize>,
    pub(crate) next_branch: usize,
}

impl View for Sodg {
    type V = GraphModel;

    closed spec fn view(&self) -> GraphModel {
        GraphModel {
            table: Seq::new(
                self.vertices@.len(),
                |i: int| (self.vertices@[i].0, self.vertices@[i].1@),
            ),
            next_v: self.next_v,
            branches: self.branches@,
            next_branch: self.next_branch,
        }
    }
}

impl Sodg {
    /// The model invariant, plus well-formed inline payloads.
    pub closed spec fn wf(&self) -> bool {
        &&& self@.wf()
        &&& forall|i: int|
            0 <= i < self.vertices@.len() ==> (#[trigger] self.vertices@[i]).1.data.wf()
    }

    /// An empty graph.  The argument is a capacity hint: how many
    /// vertices to pre-reserve room for.  It does not bound the graph.
    pub fn empty(hint: usize) -> (r: Sodg)
        ensures
            r.wf(),
            r@.wf(),
            r@.table == Seq::<(usize, VertexModel)>::empty(),
            r@.next_v == 0,
            r@.branches == Seq::<usize>::empty(),
            r@.next_branch == 2,
    {
        let r = Sodg {
            vertices: Vec::with_capacity(hint),
            next_v: 0,
            branches: Vec::new(),
            next_branch: 2,
        };
        proof {
            assert(r@.table =~= Seq::<(usize, VertexModel)>::empty());
        }
        r
    }

    /// Where vertex `v` sits in the table.
    fn find(&self, v: usize) -> (r: Option<usize>)
        requires
            self@.wf(),
        ensures
            match r {
                Some(i) => self@.has(v) && i == self@.idx(v) && i < self.vertices@.len()
                    && self.vertices@[i as int].0 == v,
                None => !self@.has(v),
            },
    {
        let n = self.vertices.len();
        let mut i: usize = 0;
        while i < n
            invariant
                i <= n,
                n == self.vertices@.len(),
                self@.wf(),
                forall|k: int| 0 <= k < i ==> (#[trigger] self.vertices@[k]).0 != v,
            decreases n - i,
        {
            if self.vertices[i].0 == v {
                proof {
                    assert(self@.table[i as int].0 == v);
                    lemma_idx_of(self@, v);
                }
                return Some(i);
            }
            i = i + 1;
        }
        proof {
            if self@.has(v) {
                let k = choose|k: int|
                    0 <= k < self@.table.len() && self@.table[k].0 == v;
                assert(self.vertices@[k].0 == v);
            }
        }
        None
    }

    /// Whether vertex `v` exists.
    pub fn has(&self, v: usize) -> (r: bool)
        requires
            self.wf(),
        ensures
            r == self@.has(v),
    {
        match self.find(v) {
            Some(_) => true,
            None => false,
        }
    }

    /// How many vertices the graph holds.
    pub fn len(&self) -> (r: usize)
        ensures
            r == self@.table.len(),
    {
        self.vertices.len()
    }

    /// The next vertex id never handed out yet: greater than every
    /// existing id.
    pub fn next_id(&mut self) -> (r: usize)
        requires
            old(self).wf(),
        ensures
            final(self).wf(),
            final(self)@.wf(),
            r == old(self)@.next_v,
            final(self)@.next_v == old(self)@.next_v + 1 || (old(self)@.next_v == usize::MAX - 1
                && final(self)@.next_v == old(self)@.next_v),
            final(self)@.table == old(self)@.table,
            final(self)@.branches == old(self)@.branches,
            final(self)@.next_branch == old(self)@.next_branch,
            forall|x: usize| final(self)@.has(x) ==> x < r,
    {
        let r = self.next_v;
        if self.next_v < usize::MAX - 1 {
            self.next_v = self.next_v + 1;
        }
        proof {
            assert(self@.table =~= old(self)@.table);
            assert forall|x: usize| self@.has(x) implies x < r by {
                let i = choose|i: int| 0 <= i < self@.table.len() && self@.table[i].0 == x;
                assert(old(self)@.table[i].0 < old(self)@.next_v);
            }
        }
        r
    }

    /// The innermost open branch, if any.
    fn active_branch(&self) -> (r: Option<usize>)
        ensures
            r == self@.active(),
    {
        let n = self.branches.len();
        if n == 0 {
            None
        } else {
            Some(self.branches[n - 1])
        }
    }

    /// Adds a vertex with the chosen id: a fresh tentative vertex,
    /// created under the innermost open branch if one is open.  Fails
    /// with `DuplicateVertex` when the id exists, changing nothing.
    /// Advances the next-id counter past `v`.
    pub fn add(&mut self, v: usize) -> (r: Result<(), GraphError>)
        requires
            old(self).wf(),
            v < usize::MAX - 1,
        ensures
            final(self).wf(),
            final(self)@.wf(),
            final(self)@ == old(self)@.spec_add(v).0,
            r == old(self)@.spec_add(v).1,
    {
        proof {
            lemma_add_wf(old(self)@, v);
        }
        if let Some(_) = self.find(v) {
            return Err(GraphError::DuplicateVertex(v));
        }
        let active = self.active_branch();
        let mut stack: Vec<usize> = Vec::new();
        let branch: usize = match active {
            None => BRANCH_NONE,
            Some(b) => {
                stack.push(b);
                b
            },
        };
        let vx = Vertex {
            branch,
            data: Hex::empty(),
            persistence: Persistence::Empty,
            edges: Vec::new(),
            stack,
        };
        proof {
            assert(vx@ =~= VertexModel::fresh(old(self)@.active()));
        }
        self.vertices.push((v, vx));
        if v >= self.next_v {
            self.next_v = v + 1;
        }
        proof {
            assert(self@.table =~= old(self)@.table.push(
                (v, VertexModel::fresh(old(self)@.active())),
            ));
            assert(self@ =~= old(self)@.spec_add(v).0);
        }
        Ok(())
    }

    /// Binds (or rebinds) the edge `v1 -l-> v2`.  Fails with
    /// `NoSuchVertex` when an endpoint is absent, `EdgeCapacityExceeded`
    /// when `v1` already carries the most labels it can and `l` is new,
    /// and `BranchDepthExceeded` when a touched vertex's branch stack is
    /// full.  Validation happens before any change: on failure the
    /// graph is untouched.
    #[verifier::rlimit(60)]
    pub fn bind(&mut self, v1: usize, v2: usize, l: Label) -> (r: Result<(), GraphError>)
        requires
            old(self).wf(),
        ensures
            final(self).wf(),
            final(self)@.wf(),
            final(self)@ == old(self)@.spec_bind(v1, v2, l).0,
            r == old(self)@.spec_bind(v1, v2, l).1,
    {
        let ghost g0 = self@;
        proof {
            lemma_bind_wf(g0, v1, v2, l);
        }
        let i1 = match self.find(v1) {
            None => {
                return Err(GraphError::NoSuchVertex(v1));
            },
            Some(i) => i,
        };
        let i2 = match self.find(v2) {
            None => {
                return Err(GraphError::NoSuchVertex(v2));
            },
            Some(i) => i,
        };
        let active = self.active_branch();
        proof {
            assert(self.vertices@[i1 as int].1@ == g0.vertex(v1));
            assert(self.vertices@[i2 as int].1@ == g0.vertex(v2));
        }
        let pos = edge_pos(&self.vertices[i1].1.edges, &l);
        if pos.is_none() && self.vertices[i1].1.edges.len() >= MAX_EDGES {
            return Err(GraphError::EdgeCapacityExceeded(v1));
        }
        if let Some(b) = active {
            if !stack_can_hold(&self.vertices[i1].1.stack, b) {
                return Err(GraphError::BranchDepthExceeded(v1));
            }
            if !stack_can_hold(&self.vertices[i2].1.stack, b) {
                return Err(GraphError::BranchDepthExceeded(v2));
            }
        }
        // Touch the target first, then the source, then insert the edge.
        let (id2, mut vx2) = self.vertices.remove(i2);
        touch_vertex(&mut vx2, active);
        self.vertices.insert(i2, (id2, vx2));
        proof {
            assert(self.vertices@ =~= old(self).vertices@.update(
                i2 as int,
                (v2, self.vertices@[i2 as int].1),
            ));
            assert(self@.table =~= g0.set_vertex(v2, g0.vertex(v2).touch(g0.active())).table);
            assert(self@ =~= g0.set_vertex(v2, g0.vertex(v2).touch(g0.active())));
        }
        let ghost g1 = self@;
        proof {
            crate::model::lemma_set_vertex(g0, v2, g0.vertex(v2).touch(g0.active()));
            assert(g1.idx(v1) == g0.idx(v1));
            assert(self.vertices@[i1 as int].1@ == g1.vertex(v1));
        }
        let (id1, mut vx1) = self.vertices.remove(i1);
        touch_vertex(&mut vx1, active);
        match pos {
            Some(p) => {
                let ghost es0 = g1.vertex(v1).edges;
                let (_, old_to) = vx1.edges.remove(p);
                vx1.edges.insert(p, (l, v2));
                proof {
                    assert(vx1.edges@ =~= es0.update(p as int, (l, v2)));
                    assert(es0[p as int].0 == l);
                    assert(edge_has(es0, l));
                    assert(edge_idx(es0, l) == p) by {
                        let q = edge_idx(es0, l);
                        assert(0 <= q < es0.len() && es0[q].0 == l);
                        if q != p {
                            assert(g0.vertex(v1).vertex_wf(g0));
                            assert(es0[q].0 != es0[p as int].0 || q == p);
                        }
                    }
                    assert(vx1.edges@ =~= crate::model::edges_insert(es0, l, v2));
                }
            },
            None => {
                vx1.edges.push((l, v2));
                proof {
                    assert(vx1.edges@ =~= crate::model::edges_insert(g1.vertex(v1).edges, l, v2));
                }
            },
        }
        self.vertices.insert(i1, (id1, vx1));
        proof {
            let vm1 = g1.vertex(v1).touch(g1.active());
            let target = g1.set_vertex(
                v1,
                VertexModel { edges: crate::model::edges_insert(g1.vertex(v1).edges, l, v2), ..vm1 },
            );
            assert(self@.table =~= target.table);
            assert(self@ =~= target);
            assert(self@ =~= g0.spec_bind(v1, v2, l).0);
        }
        Ok(())
    }

    /// Writes `d` as the payload of vertex `v`, touching it under the
    /// innermost open branch; a still-tentative vertex becomes `Stored`
    /// (committing a value commits the vertex).  Fails with
    /// `NoSuchVertex` or `BranchDepthExceeded`, changing nothing.
    pub fn put(&mut self, v: usize, d: Hex) -> (r: Result<(), GraphError>)
        requires
            old(self).wf(),
            d.wf(),
        ensures
            final(self).wf(),
            final(self)@.wf(),
            final(self)@ == old(self)@.spec_put(v, d@).0,
            r == old(self)@.spec_put(v, d@).1,
    {
        let ghost g0 = self@;
        proof {
            lemma_put_wf(g0, v, d@);
        }
        let i = match self.find(v) {
            None => {
                return Err(GraphError::NoSuchVertex(v));
            },
            Some(i) => i,
        };
        let active = self.active_branch();
        proof {
            assert(self.vertices@[i as int].1@ == g0.vertex(v));
        }
        if let Some(b) = active {
            if !stack_can_hold(&self.vertices[i].1.stack, b) {
                return Err(GraphError::BranchDepthExceeded(v));
            }
        }
        let (id, mut vx) = self.vertices.remove(i);
        touch_vertex(&mut vx, active);
        vx.data = d;
        vx.persistence = match vx.persistence {
            Persistence::Empty => Persistence::Stored,
            p => p,
        };
        self.vertices.insert(i, (id, vx));
        proof {
            let vm = g0.vertex(v).touch(g0.active());
            let target = g0.set_vertex(
                v,
                VertexModel {
                    data: d@,
                    persistence: if vm.persistence is Empty {
                        Persistence::Stored
                    } else {
                        vm.persistence
                    },
                    ..vm
                },
            );
            assert(self@.table =~= target.table);
            assert(self@ =~= target);
        }
        Ok(())
    }

    /// The payload of vertex `v`, or `NoSuchVertex`.
    pub fn data(&self, v: usize) -> (r: Result<Hex, GraphError>)
        requires
            self.wf(),
        ensures
            self@.has(v) ==> r is Ok && r.unwrap()@ == self@.vertex(v).data && r.unwrap().wf(),
            !self@.has(v) ==> r == Err::<Hex, GraphError>(GraphError::NoSuchVertex(v)),
    {
        match self.find(v) {
            None => Err(GraphError::NoSuchVertex(v)),
            Some(i) => {
                proof {
                    assert(self.vertices@[i as int].1@ == self@.vertex(v));
                }
                Ok(self.vertices[i].1.data.dup())
            },
        }
    }

    /// Whether vertex `v` holds no data, or `NoSuchVertex`.
    pub fn is_empty(&self, v: usize) -> (r: Result<bool, GraphError>)
        requires
            self.wf(),
        ensures
            self@.has(v) ==> r == Ok::<bool, GraphError>(self@.vertex(v).data.len() == 0),
            !self@.has(v) ==> r == Err::<bool, GraphError>(GraphError::NoSuchVertex(v)),
    {
        match self.find(v) {
            None => Err(GraphError::NoSuchVertex(v)),
            Some(i) => {
                proof {
                    assert(self.vertices@[i as int].1@ == self@.vertex(v));
                }
                Ok(self.vertices[i].1.data.is_empty())
            },
        }
    }

    /// The lifecycle state of vertex `v`, or `NoSuchVertex`.
    pub fn persistence(&self, v: usize) -> (r: Result<Persistence, GraphError>)
        requires
            self.wf(),
        ensures
            self@.has(v) ==> r == Ok::<Persistence, GraphError>(self@.vertex(v).persistence),
            !self@.has(v) ==> r == Err::<Persistence, GraphError>(GraphError::NoSuchVertex(v)),
    {
        match self.find(v) {
            None => Err(GraphError::NoSuchVertex(v)),
            Some(i) => {
                proof {
                    assert(self.vertices@[i as int].1@ == self@.vertex(v));
                }
                Ok(self.vertices[i].1.persistence)
            },
        }
    }

    /// The outgoing edges of vertex `v` as `(label, target)` pairs in
    /// insertion order, or `NoSuchVertex`.  A leaf gives the empty
    /// vector.
    pub fn kids(&self, v: usize) -> (r: Result<Vec<(Label, usize)>, GraphError>)
        requires
            self.wf(),
        ensures
            self@.has(v) ==> r is Ok && r.unwrap()@ == self@.vertex(v).edges,
            !self@.has(v) ==> r == Err::<Vec<(Label, usize)>, GraphError>(
                GraphError::NoSuchVertex(v),
            ),
    {
        match self.find(v) {
            None => Err(GraphError::NoSuchVertex(v)),
            Some(i) => {
                proof {
                    assert(self.vertices@[i as int].1@ == self@.vertex(v));
                }
                let es = &self.vertices[i].1.edges;
                let n = es.len();
                let mut out: Vec<(Label, usize)> = Vec::new();
                let mut k: usize = 0;
                while k < n
                    invariant
                        k <= n,
                        n == es@.len(),
                        out@ == es@.take(k as int),
                    decreases n - k,
                {
                    out.push(es[k]);
                    k = k + 1;
                    proof {
                        assert(out@ =~= es@.take(k as int));
                    }
                }
                proof {
                    assert(out@ =~= es@);
                }
                Ok(out)
            },
        }
    }
}

/// Whether two labels are the same value.
#[verifier::loop_isolation(false)]
pub fn label_eq(a: Label, b: Label) -> (r: bool)
    ensures
        r == (a == b),
{
    match a {
        Label::Greek(c1) => match b {
            Label::Greek(c2) => c1 == c2,
            _ => false,
        },
        Label::Alpha(i1) => match b {
            Label::Alpha(i2) => i1 == i2,
            _ => false,
        },
        Label::Str(a1) => match b {
            Label::Str(a2) => {
                let mut i: usize = 0;
                while i < crate::MAX_LABEL
                    invariant
                        i <= crate::MAX_LABEL,
                        a1@.len() == crate::MAX_LABEL,
                        a2@.len() == crate::MAX_LABEL,
                        forall|k: int| 0 <= k < i ==> a1@[k] == a2@[k],
                    decreases crate::MAX_LABEL - i,
                {
                    if a1[i] != a2[i] {
                        proof {
                            assert(a1@[i as int] != a2@[i as int]);
                            if a == b {
                                assert(a1@ == a2@);
                            }
                        }
                        return false;
                    }
                    i = i + 1;
                }
                proof {
                    assert(a1 =~= a2);
                }
                true
            },
            _ => false,
        },
    }
}

/// Where `es` binds the label `l`, if anywhere.
fn edge_pos(es: &Vec<(Label, usize)>, l: &Label) -> (r: Option<usize>)
    ensures
        match r {
            Some(p) => p < es@.len() && es@[p as int].0 == l,
            None => !edge_has(es@, *l),
        },
{
    let n = es.len();
    let mut i: usize = 0;
    while i < n
        invariant
            i <= n,
            n == es@.len(),
            forall|k: int| 0 <= k < i ==> (#[trigger] es@[k]).0 != l,
        decreases n - i,
    {
        if label_eq(es[i].0, *l) {
            return Some(i);
        }
        i = i + 1;
    }
    proof {
        if edge_has(es@, *l) {
            let k = choose|k: int| 0 <= k < es@.len() && es@[k].0 == l;
        }
    }
    None
}

/// Whether `st` holds `b`.
pub(crate) fn stack_contains(st: &Vec<usize>, b: usize) -> (r: bool)
    ensures
        r == st@.contains(b),
{
    let n = st.len();
    let mut i: usize = 0;
    while i < n
        invariant
            i <= n,
            n == st@.len(),
            forall|k: int| 0 <= k < i ==> st@[k] != b,
        decreases n - i,
    {
        if st[i] == b {
            proof {
                assert(st@[i as int] == b);
            }
            return true;
        }
        i = i + 1;
    }
    proof {
        if st@.contains(b) {
            let k = choose|k: int| 0 <= k < st@.len() && st@[k] == b;
        }
    }
    false
}

/// Whether `st` already holds `b` or has room for it.
fn stack_can_hold(st: &Vec<usize>, b: usize) -> (r: bool)
    ensures
        r == crate::model::can_hold(st@, b),
{
    stack_contains(st, b) || st.len() < MAX_BRANCH_SIZE
}

/// Pushes the active branch onto the vertex's stack, once.
fn touch_vertex(vx: &mut Vertex, active: Option<usize>)
    ensures
        final(vx)@ == old(vx)@.touch(active),
        final(vx).data == old(vx).data,
{
    if let Some(b) = active {
        if !stack_contains(&vx.stack, b) {
            vx.stack.push(b);
        }
    }
}


impl Sodg {
    /// Opens a speculative branch and gives its fresh id.  Vertices
    /// created or touched while it is the innermost open branch are
    /// held by it until it is committed or discarded.  Fails with
    /// `BranchLimitExceeded` when the bound on concurrently open
    /// branches is reached, changing nothing.
    pub fn branch_open(&mut self) -> (r: Result<usize, GraphError>)
        requires
            old(self).wf(),
        ensures
            final(self).wf(),
            final(self)@.wf(),
            final(self)@ == old(self)@.spec_open().0,
            r == old(self)@.spec_open().1,
    {
        proof {
            lemma_open_wf(old(self)@);
        }
        if self.branches.len() >= MAX_BRANCHES || self.next_branch >= usize::MAX - 1 {
            return Err(GraphError::BranchLimitExceeded);
        }
        let b = self.next_branch;
        self.branches.push(b);
        self.next_branch = b + 1;
        proof {
            assert(self@.table =~= old(self)@.table);
            assert(self@ =~= old(self)@.spec_open().0);
        }
        Ok(b)
    }

    /// Closes branch `b` and keeps its work: `b` leaves every vertex's
    /// branch stack, and every still-tentative vertex it held becomes
    /// `Stored`.  No vertex is deleted.  Closing a branch that is not
    /// open changes nothing.
    #[verifier::loop_isolation(false)]
    pub fn branch_commit(&mut self, b: usize)
        requires
            old(self).wf(),
        ensures
            final(self).wf(),
            final(self)@.wf(),
            final(self)@ == old(self)@.spec_commit(b),
    {
        proof {
            lemma_commit_wf(old(self)@, b);
        }
        let n = self.vertices.len();
        let mut i: usize = 0;
        while i < n
            invariant
                i <= n,
                n == self.vertices@.len(),
                self.vertices@.len() == old(self).vertices@.len(),
                forall|k: int| i <= k < n ==> self.vertices@[k] == old(self).vertices@[k],
                forall|k: int|
                    0 <= k < i ==> (#[trigger] self.vertices@[k]).0 == old(self)@.table[k].0
                        && self.vertices@[k].1@ == old(self)@.table[k].1.close(b, true)
                        && self.vertices@[k].1.data.wf(),
                self.branches@ == old(self).branches@,
                self.next_branch == old(self).next_branch,
                self.next_v == old(self).next_v,
            decreases n - i,
        {
            let ghost before = self.vertices@;
            if stack_contains(&self.vertices[i].1.stack, b) {
                let (id, mut vx) = self.vertices.remove(i);
                vx.stack = stack_without(&vx.stack, b);
                vx.persistence = match vx.persistence {
                    Persistence::Empty => Persistence::Stored,
                    p => p,
                };
                self.vertices.insert(i, (id, vx));
                proof {
                    assert(self.vertices@ =~= before.update(i as int, (id, vx)));
                    assert(vx@ =~= old(self)@.table[i as int].1.close(b, true));
                }
            } else {
                proof {
                    assert(self.vertices@[i as int].1@.close(b, true) == self.vertices@[
                        i as int
                    ].1@);
                }
            }
            i = i + 1;
        }
        self.branches = stack_without(&self.branches, b);
        proof {
            assert(self@.table =~= old(self)@.close_table(b, true));
            assert(self@ =~= old(self)@.spec_commit(b));
        }
    }
}

/// A copy of `st` without every occurrence of `b`, order kept.
fn stack_without(st: &Vec<usize>, b: usize) -> (r: Vec<usize>)
    ensures
        r@ == remove_val(st@, b),
{
    let n = st.len();
    let mut out: Vec<usize> = Vec::new();
    let mut i: usize = 0;
    proof {
        assert(st@.take(0) =~= Seq::<usize>::empty());
    }
    while i < n
        invariant
            i <= n,
            n == st@.len(),
            out@ == remove_val(st@.take(i as int), b),
        decreases n - i,
    {
        let x = st[i];
        proof {
            assert(st@.take(i + 1).drop_last() =~= st@.take(i as int));
            assert(st@.take(i + 1).last() == st@[i as int]);
        }
        if x != b {
            out.push(x);
        }
        i = i + 1;
    }
    proof {
        assert(st@.take(n as int) =~= st@);
    }
    out
}


impl Sodg {
    /// Consumes the payload of vertex `v`: hands the data out and moves
    /// the vertex to `Taken`, the final lifecycle state, from which it
    /// never reverts and is never reclaimed.  Fails with `NoSuchVertex`,
    /// changing nothing.
    pub fn take(&mut self, v: usize) -> (r: Result<Hex, GraphError>)
        requires
            old(self).wf(),
        ensures
            final(self).wf(),
            final(self)@.wf(),
            final(self)@ == old(self)@.spec_take(v).0,
            r is Ok <==> old(self)@.has(v),
            r is Ok ==> r.unwrap()@ == old(self)@.vertex(v).data && r.unwrap().wf(),
            r is Err ==> r == Err::<Hex, GraphError>(GraphError::NoSuchVertex(v)),
    {
        let ghost g0 = self@;
        proof {
            lemma_take_wf(g0, v);
        }
        let i = match self.find(v) {
            None => {
                return Err(GraphError::NoSuchVertex(v));
            },
            Some(i) => i,
        };
        proof {
            assert(self.vertices@[i as int].1@ == g0.vertex(v));
        }
        let d = self.vertices[i].1.data.dup();
        let (id, mut vx) = self.vertices.remove(i);
        vx.persistence = Persistence::Taken;
        self.vertices.insert(i, (id, vx));
        proof {
            let target = g0.set_vertex(
                v,
                VertexModel { persistence: Persistence::Taken, ..g0.vertex(v) },
            );
            assert(self@.table =~= target.table);
            assert(self@ =~= target);
        }
        Ok(d)
    }

    /// Closes branch `b` and throws its work away: `b` leaves every
    /// vertex's branch stack; every vertex that is still tentative, is
    /// owned by a real branch, and is left with an empty stack is
    /// deleted, and every edge pointing into a deleted vertex leaves
    /// its surviving source.  Committed (`Stored` or `Taken`) vertices
    /// and permanent roots are never deleted.
    #[verifier::loop_isolation(false)]
    #[verifier::rlimit(100)]
    pub fn branch_discard(&mut self, b: usize)
        requires
            old(self).wf(),
        ensures
            final(self).wf(),
            final(self)@.wf(),
            final(self)@ == old(self)@.spec_discard(b),
    {
        let ghost g0 = old(self)@;
        let ghost dead = g0.dead_set(b);
        proof {
            lemma_discard_wf(g0, b);
        }
        let n = self.vertices.len();
        // First pass: find the doomed vertices.
        let mut dead_vec: Vec<usize> = Vec::new();
        let mut i: usize = 0;
        while i < n
            invariant
                i <= n,
                n == self.vertices@.len(),
                self.vertices@ == old(self).vertices@,
                forall|k: int|
                    0 <= k < i && (#[trigger] g0.table[k]).1.doomed(b) ==> dead_vec@.contains(
                        g0.table[k].0,
                    ),
                forall|x: usize|
                    dead_vec@.contains(x) ==> exists|k: int|
                        0 <= k < i && g0.table[k].0 == x && (#[trigger] g0.table[k]).1.doomed(b),
            decreases n - i,
        {
            let ghost dv0 = dead_vec@;
            let vx = &self.vertices[i].1;
            proof {
                assert(vx@ == g0.table[i as int].1);
                lemma_remove_val(vx.stack@, b);
            }
            let doomed = stack_contains(&vx.stack, b) && stack_without(&vx.stack, b).len() == 0
                && (match vx.persistence {
                Persistence::Empty => true,
                _ => false,
            }) && vx.branch != BRANCH_NONE && vx.branch != BRANCH_STATIC;
            proof {
                assert(doomed == g0.table[i as int].1.doomed(b));
            }
            if doomed {
                let id = self.vertices[i].0;
                dead_vec.push(id);
                proof {
                    assert forall|x: usize|
                        dead_vec@.contains(x) implies (dv0.contains(x) || x == id) by {
                        let k = choose|k: int| 0 <= k < dead_vec@.len() && dead_vec@[k] == x;
                        if k < dv0.len() {
                            assert(dv0[k] == x);
                        }
                    }
                    assert(dead_vec@[dead_vec@.len() - 1] == id);
                    assert forall|x: usize| dv0.contains(x) implies dead_vec@.contains(x) by {
                        let k = choose|k: int| 0 <= k < dv0.len() && dv0[k] == x;
                        assert(dead_vec@[k] == x);
                    }
                    assert(g0.table[i as int].0 == id);
                    assert forall|x: usize| dead_vec@.contains(x) implies exists|k: int|
                        0 <= k < i + 1 && g0.table[k].0 == x && (#[trigger] g0.table[k]).1.doomed(
                        b,
                    ) by {
                        if dv0.contains(x) {
                            let k = choose|k: int|
                                0 <= k < i && g0.table[k].0 == x && (#[trigger] g0.table[
                                k]).1.doomed(b);
                            assert(0 <= k < i + 1 && g0.table[k].0 == x && g0.table[k].1.doomed(
                                b,
                            ));
                        } else {
                            assert(x == id);
                            assert(g0.table[i as int].0 == x && g0.table[i as int].1.doomed(b));
                        }
                    }
                }
            }
            i = i + 1;
        }
        proof {
            assert forall|x: usize| dead_vec@.contains(x) <==> dead.contains(x) by {
                if dead_vec@.contains(x) {
                    let k = choose|k: int|
                        0 <= k < n && g0.table[k].0 == x && g0.table[k].1.doomed(b);
                    assert(g0.has(x));
                    lemma_idx_of(g0, x);
                    assert(g0.idx(x) == k);
                }
                if dead.contains(x) {
                    lemma_idx_of(g0, x);
                    assert(g0.table[g0.idx(x)].1.doomed(b));
                }
            }
        }
        // Second pass: drop the doomed vertices, pop the stacks, and
        // filter the edges of the survivors.
        let mut out: Vec<(usize, Vertex)> = Vec::new();
        let mut k: usize = 0;
        proof {
            assert(g0.table.take(0) =~= Seq::<(usize, VertexModel)>::empty());
        }
        while k < n
            invariant
                k <= n,
                n == old(self).vertices@.len(),
                self.vertices@.len() == n - k,
                forall|t: int|
                    0 <= t < n - k ==> self.vertices@[t] == old(self).vertices@[k + t],
                out@.len() == crate::model::keep_filter(g0.table.take(k as int), b).len(),
                forall|t: int|
                    0 <= t < out@.len() ==> (#[trigger] out@[t]).0 == crate::model::keep_filter(
                        g0.table.take(k as int),
                        b,
                    )[t].0 && out@[t].1@ == (VertexModel {
                        edges: edges_filter(
                            crate::model::keep_filter(g0.table.take(k as int), b)[t].1.edges,
                            dead,
                        ),
                        ..crate::model::keep_filter(g0.table.take(k as int), b)[t].1
                    }) && out@[t].1.data.wf(),
                forall|x: usize| dead_vec@.contains(x) <==> dead.contains(x),
                self.branches@ == old(self).branches@,
                self.next_branch == old(self).next_branch,
                self.next_v == old(self).next_v,
            decreases n - k,
        {
            let ghost kf0 = crate::model::keep_filter(g0.table.take(k as int), b);
            let ghost out0 = out@;
            proof {
                assert(g0.table.take(k + 1).drop_last() =~= g0.table.take(k as int));
                assert(g0.table.take(k + 1).last() == g0.table[k as int]);
            }
            let (id, mut vx) = self.vertices.remove(0);
            proof {
                assert(vx@ == g0.table[k as int].1 && id == g0.table[k as int].0);
                lemma_remove_val(vx.stack@, b);
            }
            let doomed = stack_contains(&vx.stack, b) && stack_without(&vx.stack, b).len() == 0
                && (match vx.persistence {
                Persistence::Empty => true,
                _ => false,
            }) && vx.branch != BRANCH_NONE && vx.branch != BRANCH_STATIC;
            proof {
                assert(doomed == g0.table[k as int].1.doomed(b));
            }
            if !doomed {
                let ghost vm = g0.table[k as int].1;
                vx.stack = stack_without(&vx.stack, b);
                vx.edges = edges_without(&vx.edges, &dead_vec, Ghost(dead));
                proof {
                    assert(vx@.stack == vm.close(b, false).stack);
                    assert(vx@ =~= (VertexModel {
                        edges: edges_filter(vm.close(b, false).edges, dead),
                        ..vm.close(b, false)
                    }));
                    assert(crate::model::keep_filter(g0.table.take(k + 1), b) == kf0.push(
                        (id, vm.close(b, false)),
                    ));
                }
                out.push((id, vx));
                proof {
                    assert(forall|t: int| 0 <= t < out0.len() ==> out@[t] == out0[t]);
                    assert(out@[out@.len() - 1] == (id, vx));
                }
            } else {
                proof {
                    assert(crate::model::keep_filter(g0.table.take(k + 1), b) == kf0);
                }
            }
            k = k + 1;
        }
        proof {
            assert(g0.table.take(n as int) =~= g0.table);
        }
        self.vertices = out;
        self.branches = stack_without(&self.branches, b);
        proof {
            assert(self@.table =~= g0.spec_discard(b).table);
            assert(self@ =~= g0.spec_discard(b));
        }
    }
}

/// A copy of `es` without the edges whose targets are dead.
#[verifier::loop_isolation(false)]
fn edges_without(
    es: &Vec<(Label, usize)>,
    dead_vec: &Vec<usize>,
    Ghost(dead): Ghost<Set<usize>>,
) -> (r: Vec<(Label, usize)>)
    requires
        forall|x: usize| dead_vec@.contains(x) <==> dead.contains(x),
    ensures
        r@ == edges_filter(es@, dead),
{
    let n = es.len();
    let mut out: Vec<(Label, usize)> = Vec::new();
    let mut i: usize = 0;
    proof {
        assert(es@.take(0) =~= Seq::<(Label, usize)>::empty());
    }
    while i < n
        invariant
            i <= n,
            n == es@.len(),
            out@ == edges_filter(es@.take(i as int), dead),
        decreases n - i,
    {
        proof {
            assert(es@.take(i + 1).drop_last() =~= es@.take(i as int));
            assert(es@.take(i + 1).last() == es@[i as int]);
        }
        let e = es[i];
        if !stack_contains(dead_vec, e.1) {
            out.push(e);
        }
        i = i + 1;
    }
    proof {
        assert(es@.take(n as int) =~= es@);
    }
    out
}


impl Sodg {
    /// The target that vertex `v` binds the label `l` to, if any.
    fn edge_lookup(&self, v: usize, l: Label) -> (r: Option<usize>)
        requires
            self.wf(),
        ensures
            match r {
                Some(t) => self@.has(v) && edge_has(self@.vertex(v).edges, l) && edge_target(
                    self@.vertex(v).edges,
                    l,
                ) == t,
                None => !self@.has(v) || !edge_has(self@.vertex(v).edges, l),
            },
    {
        let i = match self.find(v) {
            None => {
                return None;
            },
            Some(i) => i,
        };
        proof {
            assert(self.vertices@[i as int].1@ == self@.vertex(v));
        }
        match edge_pos(&self.vertices[i].1.edges, &l) {
            None => None,
            Some(p) => {
                let ghost es = self@.vertex(v).edges;
                proof {
                    assert(es[p as int].0 == l);
                    assert(edge_idx(es, l) == p) by {
                        let q = edge_idx(es, l);
                        assert(0 <= q < es.len() && es[q].0 == l);
                        assert(self@.vertex(v).vertex_wf(self@));
                        if q != p {
                            assert(es[q].0 != es[p as int].0 || q == p);
                        }
                    }
                }
                Some(self.vertices[i].1.edges[p].1)
            },
        }
    }

    /// Merges the incoming graph into this one, in place: a monotone
    /// union that never deletes.  Incoming vertices enter under their
    /// own ids (an id present in both graphs names the same vertex);
    /// payloads and edges are replayed, and where the two graphs
    /// disagree the base side is kept and the disagreement reported.  A
    /// replayed primitive that fails (edge capacity, branch depth)
    /// aborts with that failure; what was merged before it stays, as in
    /// a best-effort batch.
    #[verifier::loop_isolation(false)]
    #[verifier::rlimit(100)]
    pub fn merge(&mut self, other: &Sodg) -> (r: Result<Vec<MergeConflict>, GraphError>)
        requires
            old(self).wf(),
            other.wf(),
        ensures
            final(self).wf(),
            final(self)@.wf(),
            final(self)@ == spec_merge(old(self)@, other@).0,
            (r is Ok) == (spec_merge(old(self)@, other@).2 is Ok),
            r is Ok ==> r.unwrap()@ == spec_merge(old(self)@, other@).1,
            r is Err ==> r == Err::<Vec<MergeConflict>, GraphError>(
                spec_merge(old(self)@, other@).2->Err_0,
            ),
    {
        let ghost g0 = old(self)@;
        let ghost tab = other@.table;
        let n = other.vertices.len();
        // First phase: make every incoming id present.
        let mut k: usize = 0;
        while k < n
            invariant
                k <= n,
                n == tab.len(),
                self.wf(),
                self@.wf(),
                merge_add_phase(g0, tab, 0) == merge_add_phase(self@, tab, k as int),
            decreases n - k,
        {
            let id = other.vertices[k].0;
            proof {
                assert(id == tab[k as int].0);
                assert(tab[k as int].0 < other@.next_v);
            }
            if !self.has(id) {
                let _ = self.add(id);
            }
            k = k + 1;
        }
        let ghost g1v = self@;
        let ghost full = merge_apply(g1v, tab, 0);
        proof {
            assert(merge_add_phase(g0, tab, 0) == g1v);
            assert(full == spec_merge(g0, other@));
        }
        // Second phase: payloads and edges under the keep-base policy.
        let mut conflicts: Vec<MergeConflict> = Vec::new();
        proof {
            let cur = merge_apply(g1v, tab, 0);
            assert(conflicts@ + cur.1 =~= cur.1);
            assert(full == (cur.0, conflicts@ + cur.1, cur.2));
        }
        let mut j: usize = 0;
        while j < n
            invariant
                j <= n,
                n == tab.len(),
                self.wf(),
                self@.wf(),
                ({
                    let cur = merge_apply(self@, tab, j as int);
                    full == (cur.0, conflicts@ + cur.1, cur.2)
                }),
            decreases n - j,
        {
            let ghost gpre = self@;
            let ghost ctop = conflicts@;
            let ghost vmj = tab[j as int].1;
            let v = other.vertices[j].0;
            proof {
                assert(v == tab[j as int].0);
                assert(other.vertices@[j as int].1@ == vmj);
                assert(other.vertices@[j as int].1.data.wf());
            }
            // Payload.
            let od = &other.vertices[j].1.data;
            proof {
                assert(od@ == vmj.data);
            }
            if od.len() > 0 {
                match self.data(v) {
                    Err(e) => {
                        proof {
                            assert(!gpre.has(v));
                            let cur = merge_apply(gpre, tab, j as int);
                            assert(cur.0 == gpre && cur.2 == Err::<(), GraphError>(
                                GraphError::NoSuchVertex(v),
                            ));
                            assert(full.0 == self@ && full.2 is Err);
                        }
                        return Err(e);
                    },
                    Ok(bd) => {
                        if bd.len() == 0 {
                            let d2 = od.dup();
                            match self.put(v, d2) {
                                Err(e) => {
                                    proof {
                                        let cur = merge_apply(gpre, tab, j as int);
                                        assert(cur.0 == self@ && cur.2 == Err::<(), GraphError>(
                                            e,
                                        ));
                                        assert(full.0 == self@ && full.2 is Err);
                                        assert(full.2->Err_0 == e);
                                    }
                                    return Err(e);
                                },
                                Ok(()) => {},
                            }
                        } else if bd.same(od) {
                        } else {
                            conflicts.push(MergeConflict::Payload(v));
                        }
                    },
                }
            }
            let ghost p = merge_payload(gpre, v, vmj.data);
            proof {
                assert(p.2 is Ok);
                assert(self@ == p.0);
                assert(conflicts@ =~= ctop + p.1);
            }
            // Edges.
            let ghost es = vmj.edges;
            let ghost me = merge_edges(p.0, v, es, 0);
            let ghost mut acc = Seq::<MergeConflict>::empty();
            proof {
                let cur = merge_edges(self@, v, es, 0);
                assert(acc + cur.1 =~= cur.1);
                assert(me == (cur.0, acc + cur.1, cur.2));
            }
            let ne = other.vertices[j].1.edges.len();
            proof {
                assert(other.vertices@[j as int].1.edges@ == es);
            }
            let mut e: usize = 0;
            while e < ne
                invariant
                    e <= ne,
                    ne == es.len(),
                    self.wf(),
                    self@.wf(),
                    conflicts@ == ctop + p.1 + acc,
                    ({
                        let cur = merge_edges(self@, v, es, e as int);
                        me == (cur.0, acc + cur.1, cur.2)
                    }),
                decreases ne - e,
            {
                let ghost g_e = self@;
                let le = other.vertices[j].1.edges[e];
                proof {
                    assert(le == es[e as int]);
                }
                match self.edge_lookup(v, le.0) {
                    Some(bt) => {
                        if bt != le.1 {
                            let ghost c0 = conflicts@;
                            let cf = MergeConflict::Edge(v, le.0, bt, le.1);
                            conflicts.push(cf);
                            proof {
                                let rest = merge_edges(g_e, v, es, e + 1);
                                assert(conflicts@ =~= (ctop + p.1) + (acc + seq![cf]));
                                assert((acc + seq![cf]) + rest.1 =~= acc + (seq![cf] + rest.1));
                                acc = acc + seq![cf];
                            }
                        }
                    },
                    None => {
                        match self.bind(v, le.1, le.0) {
                            Err(err) => {
                                proof {
                                    let cur = merge_edges(g_e, v, es, e as int);
                                    assert(cur.0 == self@ && cur.2 == Err::<(), GraphError>(err));
                                    assert(me.0 == self@ && me.2 == Err::<(), GraphError>(err));
                                    let curj = merge_apply(gpre, tab, j as int);
                                    assert(curj.0 == self@ && curj.2 == Err::<(), GraphError>(
                                        err,
                                    ));
                                    assert(full.0 == self@ && full.2 is Err);
                                    assert(full.2->Err_0 == err);
                                }
                                return Err(err);
                            },
                            Ok(()) => {},
                        }
                    },
                }
                e = e + 1;
            }
            proof {
                let cur = merge_edges(self@, v, es, ne as int);
                assert(cur == (self@, Seq::<MergeConflict>::empty(), Ok::<(), GraphError>(())));
                assert(acc + cur.1 =~= acc);
                assert(me.0 == self@ && me.1 == acc && me.2 is Ok);
                let rest = merge_apply(self@, tab, j + 1);
                let curj = merge_apply(gpre, tab, j as int);
                assert(curj == (rest.0, p.1 + me.1 + rest.1, rest.2));
                assert(ctop + (p.1 + acc + rest.1) =~= (ctop + p.1 + acc) + rest.1);
                assert(ctop + curj.1 =~= conflicts@ + rest.1);
                assert(full == (rest.0, conflicts@ + rest.1, rest.2));
            }
            j = j + 1;
        }
        proof {
            let cur = merge_apply(self@, tab, n as int);
            assert(cur == (self@, Seq::<MergeConflict>::empty(), Ok::<(), GraphError>(())));
            assert(conflicts@ + cur.1 =~= conflicts@);
            assert(full == (self@, conflicts@, Ok::<(), GraphError>(())));
        }
        Ok(conflicts)
    }
}


/// The next-id counter is not part of persisted state.  On reload a
/// host recomputes it from the persisted vertex ids: one greater than
/// the largest id, or zero when the graph is empty.
pub fn recovered_next_id(ids: &Vec<usize>) -> (r: usize)
    requires
        forall|i: int| 0 <= i < ids@.len() ==> #[trigger] ids@[i] < usize::MAX,
    ensures
        ids@.len() == 0 ==> r == 0,
        forall|i: int| 0 <= i < ids@.len() ==> #[trigger] ids@[i] < r,
        ids@.len() > 0 ==> exists|i: int| 0 <= i < ids@.len() && #[trigger] ids@[i] + 1 == r,
{
    let n = ids.len();
    if n == 0 {
        return 0;
    }
    let mut best: usize = ids[0];
    let mut i: usize = 1;
    while i < n
        invariant
            1 <= i <= n,
            n == ids@.len(),
            forall|k: int| 0 <= k < n ==> #[trigger] ids@[k] < usize::MAX,
            forall|k: int| 0 <= k < i ==> #[trigger] ids@[k] <= best,
            exists|k: int| 0 <= k < i && #[trigger] ids@[k] == best,
        decreases n - i,
    {
        if ids[i] > best {
            best = ids[i];
        }
        i = i + 1;
    }
    best + 1
}

} // verus!

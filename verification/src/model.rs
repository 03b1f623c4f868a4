use vstd::prelude::*;
use crate::label::Label;
use crate::errors::GraphError;
use crate::errors::MergeConflict;
use crate::{MAX_EDGES, MAX_BRANCHES, MAX_BRANCH_SIZE, BRANCH_NONE, BRANCH_STATIC};

verus! {

/// Whether a vertex's data is still tentative (`Empty`), committed for
/// the session (`Stored`), or committed and already consumed (`Taken`).
/// Transitions are monotonic: once `Stored` or `Taken`, never back.
#[derive(Debug, Clone, Copy, PartialEq, Eq, Structural)]
pub enum Persistence {
    /// Speculative: not yet committed, a reclaim candidate.
    Empty,
    /// Committed: permanent for the session.
    Stored,
    /// Committed and consumed by the host.
    Taken,
}

/// The mathematical value of one vertex.
#[verifier::ext_equal]
pub ghost struct VertexModel {
    /// The branch that created the vertex, or a reserved root value.
    pub branch: usize,
    /// The payload bytes.
    pub data: Seq<u8>,
    /// Lifecycle state.
    pub persistence: Persistence,
    /// Outgoing edges in insertion order; labels are unique.
    pub edges: Seq<(Label, usize)>,
    /// The open branches currently holding this vertex, oldest first.
    pub stack: Seq<usize>,
}

/// The mathematical value of a whole graph.
#[verifier::ext_equal]
pub ghost struct GraphModel {
    /// The vertices in insertion order, keyed by unique id.
    pub table: Seq<(usize, VertexModel)>,
    /// Always greater than every existing id.
    pub next_v: usize,
    /// The branches open right now, oldest first.
    pub branches: Seq<usize>,
    /// Branch ids already handed out are all below this.
    pub next_branch: usize,
}

/// No value occurs twice.
pub open spec fn unique_seq(s: Seq<usize>) -> bool {
    forall|i: int, j: int| 0 <= i < j < s.len() ==> s[i] != s[j]
}

/// `s` without every occurrence of `b`, order kept.
pub open spec fn remove_val(s: Seq<usize>, b: usize) -> Seq<usize>
    decreases s.len(),
{
    if s.len() == 0 {
        s
    } else if s.last() == b {
        remove_val(s.drop_last(), b)
    } else {
        remove_val(s.drop_last(), b).push(s.last())
    }
}

pub proof fn lemma_remove_val(s: Seq<usize>, b: usize)
    ensures
        remove_val(s, b).len() <= s.len(),
        forall|x: usize| remove_val(s, b).contains(x) <==> (s.contains(x) && x != b),
        unique_seq(s) ==> unique_seq(remove_val(s, b)),
        !s.contains(b) ==> remove_val(s, b) == s,
    decreases s.len(),
{
    if s.len() == 0 {
        assert forall|x: usize| remove_val(s, b).contains(x) <==> (s.contains(x) && x != b) by {
            if s.contains(x) {
                let i = choose|i: int| 0 <= i < s.len() && s[i] == x;
            }
        }
    } else {
        lemma_remove_val(s.drop_last(), b);
        assert(unique_seq(s) ==> unique_seq(s.drop_last()));
        assert forall|x: usize| s.contains(x) <==> (s.drop_last().contains(x) || x
            == s.last()) by {
            if s.contains(x) {
                let i = choose|i: int| 0 <= i < s.len() && s[i] == x;
                if i < s.len() - 1 {
                    assert(s.drop_last()[i] == x);
                }
            }
            if s.drop_last().contains(x) {
                let i = choose|i: int| 0 <= i < s.drop_last().len() && s.drop_last()[i] == x;
                assert(s[i] == x);
            }
            if x == s.last() {
                assert(s[s.len() - 1] == x);
            }
        }
        let r = remove_val(s, b);
        let rd = remove_val(s.drop_last(), b);
        if s.last() == b {
            assert(r == rd);
        } else {
            assert(r == rd.push(s.last()));
            assert forall|x: usize| r.contains(x) <==> (rd.contains(x) || x == s.last()) by {
                if r.contains(x) {
                    let i = choose|i: int| 0 <= i < r.len() && r[i] == x;
                    if i < r.len() - 1 {
                        assert(rd[i] == x);
                    }
                }
                if rd.contains(x) {
                    let i = choose|i: int| 0 <= i < rd.len() && rd[i] == x;
                    assert(r[i] == x);
                }
                if x == s.last() {
                    assert(r[r.len() - 1] == x);
                }
            }
            if unique_seq(s) {
                assert(!s.drop_last().contains(s.last())) by {
                    if s.drop_last().contains(s.last()) {
                        let i = choose|i: int|
                            0 <= i < s.drop_last().len() && s.drop_last()[i] == s.last();
                        assert(s[i] == s[s.len() - 1]);
                    }
                }
                assert(unique_seq(r)) by {
                    assert(forall|i: int| 0 <= i < rd.len() ==> r[i] == rd[i]);
                    assert(!rd.contains(s.last()));
                    assert forall|i: int, j: int| 0 <= i < j < r.len() implies r[i] != r[j] by {
                        if j == r.len() - 1 {
                            if r[i] == s.last() {
                                assert(rd[i] == s.last());
                                assert(rd.contains(s.last()));
                            }
                        }
                    }
                }
            }
        }
        if !s.contains(b) {
            assert(!s.drop_last().contains(b));
            assert(s.last() != b);
            assert(r =~= s.drop_last().push(s.last()));
            assert(r =~= s);
        }
    }
}

/// Whether `es` binds the label `l`.
pub open spec fn edge_has(es: Seq<(Label, usize)>, l: Label) -> bool {
    exists|i: int| 0 <= i < es.len() && es[i].0 == l
}

/// Where `es` binds the label `l`.
pub open spec fn edge_idx(es: Seq<(Label, usize)>, l: Label) -> int {
    choose|i: int| 0 <= i < es.len() && es[i].0 == l
}

/// The target `es` binds the label `l` to.
pub open spec fn edge_target(es: Seq<(Label, usize)>, l: Label) -> usize {
    es[edge_idx(es, l)].1
}

/// `es` with `l` bound to `to`: overwrites an existing binding in
/// place, else appends.
pub open spec fn edges_insert(es: Seq<(Label, usize)>, l: Label, to: usize) -> Seq<
    (Label, usize),
> {
    if edge_has(es, l) {
        es.update(edge_idx(es, l), (l, to))
    } else {
        es.push((l, to))
    }
}

/// A branch stack holds each branch at most once.
pub open spec fn stack_push(st: Seq<usize>, b: usize) -> Seq<usize> {
    if st.contains(b) {
        st
    } else {
        st.push(b)
    }
}

/// Whether the stack can take (or already holds) the branch.
pub open spec fn can_hold(st: Seq<usize>, b: usize) -> bool {
    st.contains(b) || st.len() < MAX_BRANCH_SIZE
}

impl VertexModel {
    /// A fresh vertex, as `add` creates it under the active branch.
    pub open spec fn fresh(active: Option<usize>) -> VertexModel {
        VertexModel {
            branch: match active {
                None => BRANCH_NONE,
                Some(b) => b,
            },
            data: Seq::<u8>::empty(),
            persistence: Persistence::Empty,
            edges: Seq::<(Label, usize)>::empty(),
            stack: match active {
                None => Seq::<usize>::empty(),
                Some(b) => seq![b],
            },
        }
    }

    /// The vertex with the active branch pushed onto its stack.
    pub open spec fn touch(self, active: Option<usize>) -> VertexModel {
        match active {
            None => self,
            Some(b) => VertexModel { stack: stack_push(self.stack, b), ..self },
        }
    }

    /// Whether touching under the active branch respects the depth bound.
    pub open spec fn can_touch(self, active: Option<usize>) -> bool {
        match active {
            None => true,
            Some(b) => can_hold(self.stack, b),
        }
    }

    /// A well-formed vertex of a graph: bounded edges with unique
    /// labels and live targets, a bounded unique stack of open
    /// branches, and a branch field that was really handed out.
    pub open spec fn vertex_wf(self, g: GraphModel) -> bool {
        &&& self.edges.len() <= MAX_EDGES
        &&& forall|i: int, j: int|
            0 <= i < j < self.edges.len() ==> self.edges[i].0 != self.edges[j].0
        &&& forall|i: int| 0 <= i < self.edges.len() ==> g.has((#[trigger] self.edges[i]).1)
        &&& self.stack.len() <= MAX_BRANCH_SIZE
        &&& unique_seq(self.stack)
        &&& forall|i: int|
            0 <= i < self.stack.len() ==> g.branches.contains(#[trigger] self.stack[i])
        &&& (self.branch == BRANCH_NONE || self.branch == BRANCH_STATIC || (2 <= self.branch
            < g.next_branch))
    }

    /// Reclaim happens only for vertices that are still tentative, are
    /// owned by a real branch, and whose stack empties when `b` leaves.
    pub open spec fn doomed(self, b: usize) -> bool {
        &&& self.stack.contains(b)
        &&& remove_val(self.stack, b).len() == 0
        &&& self.persistence is Empty
        &&& self.branch != BRANCH_NONE
        &&& self.branch != BRANCH_STATIC
    }

    /// The vertex after branch `b` closes: `b` leaves the stack, and on
    /// a commit a still-tentative held vertex becomes `Stored`.
    pub open spec fn close(self, b: usize, commit: bool) -> VertexModel {
        if self.stack.contains(b) {
            VertexModel {
                stack: remove_val(self.stack, b),
                persistence: if commit && self.persistence is Empty {
                    Persistence::Stored
                } else {
                    self.persistence
                },
                ..self
            }
        } else {
            self
        }
    }
}

/// Edges whose targets survive; order kept.
pub open spec fn edges_filter(es: Seq<(Label, usize)>, dead: Set<usize>) -> Seq<(Label, usize)>
    decreases es.len(),
{
    if es.len() == 0 {
        es
    } else if dead.contains(es.last().1) {
        edges_filter(es.drop_last(), dead)
    } else {
        edges_filter(es.drop_last(), dead).push(es.last())
    }
}

impl GraphModel {
    pub open spec fn has(self, v: usize) -> bool {
        exists|i: int| 0 <= i < self.table.len() && self.table[i].0 == v
    }

    pub open spec fn idx(self, v: usize) -> int {
        choose|i: int| 0 <= i < self.table.len() && self.table[i].0 == v
    }

    pub open spec fn vertex(self, v: usize) -> VertexModel {
        self.table[self.idx(v)].1
    }

    /// The branch new work is tagged with: the innermost open one.
    pub open spec fn active(self) -> Option<usize> {
        if self.branches.len() == 0 {
            None
        } else {
            Some(self.branches.last())
        }
    }

    pub open spec fn set_vertex(self, v: usize, vm: VertexModel) -> GraphModel {
        GraphModel { table: self.table.update(self.idx(v), (v, vm)), ..self }
    }

    /// Everything the engine promises to maintain: unique ids below the
    /// id counter, bounded unique edge labels, edge targets that exist,
    /// bounded unique branch stacks holding only open branches, and
    /// bounded unique open branches below the branch counter.
    pub open spec fn wf(self) -> bool {
        &&& forall|i: int, j: int|
            0 <= i < j < self.table.len() ==> self.table[i].0 != self.table[j].0
        &&& forall|i: int| 0 <= i < self.table.len() ==> (#[trigger] self.table[i]).0 < self.next_v
        &&& self.next_v < usize::MAX
        &&& forall|i: int| 0 <= i < self.table.len() ==> (#[trigger] self.table[i]).1.vertex_wf(self)
        &&& unique_seq(self.branches)
        &&& self.branches.len() <= MAX_BRANCHES
        &&& forall|i: int|
            0 <= i < self.branches.len() ==> 2 <= #[trigger] self.branches[i] < self.next_branch
        &&& 2 <= self.next_branch < usize::MAX
    }

    /// The ids, in insertion order.
    pub open spec fn ids(self) -> Seq<usize> {
        self.table.map_values(|p: (usize, VertexModel)| p.0)
    }

    /// The ids that discarding `b` reclaims.
    pub open spec fn dead_set(self, b: usize) -> Set<usize> {
        Set::new(|v: usize| self.has(v) && self.vertex(v).doomed(b))
    }

    /// The table after branch `b` closes, before any reclaim.
    pub open spec fn close_table(self, b: usize, commit: bool) -> Seq<(usize, VertexModel)> {
        Seq::new(self.table.len(), |i: int| (self.table[i].0, self.table[i].1.close(b, commit)))
    }

    /// Commit: `b` leaves every stack; held tentative vertices become
    /// `Stored`; nothing is reclaimed.
    pub open spec fn spec_commit(self, b: usize) -> GraphModel {
        GraphModel {
            table: self.close_table(b, true),
            branches: remove_val(self.branches, b),
            ..self
        }
    }

    /// Discard: `b` leaves every stack; doomed vertices disappear, and
    /// surviving vertices lose the edges that pointed into them.
    pub open spec fn spec_discard(self, b: usize) -> GraphModel {
        let dead = self.dead_set(b);
        let kept = keep_filter(self.table, b);
        GraphModel {
            table: Seq::new(
                kept.len(),
                |i: int|
                    (kept[i].0, VertexModel { edges: edges_filter(kept[i].1.edges, dead), ..kept[i].1 }),
            ),
            branches: remove_val(self.branches, b),
            ..self
        }
    }

    /// Adding a vertex: a fresh tentative vertex under the active
    /// branch, or `DuplicateVertex`.
    pub open spec fn spec_add(self, v: usize) -> (GraphModel, Result<(), GraphError>) {
        if self.has(v) {
            (self, Err(GraphError::DuplicateVertex(v)))
        } else {
            (
                GraphModel {
                    table: self.table.push((v, VertexModel::fresh(self.active()))),
                    next_v: if v >= self.next_v {
                        (v + 1) as usize
                    } else {
                        self.next_v
                    },
                    ..self
                },
                Ok(()),
            )
        }
    }

    /// Binding an edge: validates both endpoints, the capacity bound
    /// and the depth bound, then touches both vertices and inserts or
    /// overwrites the edge.  Nothing changes on failure.
    pub open spec fn spec_bind(self, v1: usize, v2: usize, l: Label) -> (
        GraphModel,
        Result<(), GraphError>,
    ) {
        if !self.has(v1) {
            (self, Err(GraphError::NoSuchVertex(v1)))
        } else if !self.has(v2) {
            (self, Err(GraphError::NoSuchVertex(v2)))
        } else if !(edge_has(self.vertex(v1).edges, l) || self.vertex(v1).edges.len()
            < MAX_EDGES) {
            (self, Err(GraphError::EdgeCapacityExceeded(v1)))
        } else if !self.vertex(v1).can_touch(self.active()) {
            (self, Err(GraphError::BranchDepthExceeded(v1)))
        } else if !self.vertex(v2).can_touch(self.active()) {
            (self, Err(GraphError::BranchDepthExceeded(v2)))
        } else {
            let g1 = self.set_vertex(v2, self.vertex(v2).touch(self.active()));
            let vm1 = g1.vertex(v1).touch(self.active());
            (
                g1.set_vertex(
                    v1,
                    VertexModel { edges: edges_insert(g1.vertex(v1).edges, l, v2), ..vm1 },
                ),
                Ok(()),
            )
        }
    }

    /// Writing data: validates the vertex and the depth bound, touches
    /// the vertex, overwrites its payload, and commits a tentative
    /// vertex (committing a value commits the vertex).
    pub open spec fn spec_put(self, v: usize, d: Seq<u8>) -> (
        GraphModel,
        Result<(), GraphError>,
    ) {
        if !self.has(v) {
            (self, Err(GraphError::NoSuchVertex(v)))
        } else if !self.vertex(v).can_touch(self.active()) {
            (self, Err(GraphError::BranchDepthExceeded(v)))
        } else {
            let vm = self.vertex(v).touch(self.active());
            (
                self.set_vertex(
                    v,
                    VertexModel {
                        data: d,
                        persistence: if vm.persistence is Empty {
                            Persistence::Stored
                        } else {
                            vm.persistence
                        },
                        ..vm
                    },
                ),
                Ok(()),
            )
        }
    }

    /// Opening a branch: a fresh branch id, or `BranchLimitExceeded`
    /// when the bound on concurrently open branches is reached.
    pub open spec fn spec_open(self) -> (GraphModel, Result<usize, GraphError>) {
        if self.branches.len() >= MAX_BRANCHES || self.next_branch >= usize::MAX - 1 {
            (self, Err(GraphError::BranchLimitExceeded))
        } else {
            (
                GraphModel {
                    branches: self.branches.push(self.next_branch),
                    next_branch: (self.next_branch + 1) as usize,
                    ..self
                },
                Ok(self.next_branch),
            )
        }
    }
}

/// The entries that survive a discard of `b`, stacks already popped.
pub open spec fn keep_filter(table: Seq<(usize, VertexModel)>, b: usize) -> Seq<
    (usize, VertexModel),
>
    decreases table.len(),
{
    if table.len() == 0 {
        table
    } else if table.last().1.doomed(b) {
        keep_filter(table.drop_last(), b)
    } else {
        keep_filter(table.drop_last(), b).push(
            (table.last().0, table.last().1.close(b, false)),
        )
    }
}


/// The index of an existing vertex is the one place its id stands.
pub proof fn lemma_idx_of(g: GraphModel, v: usize)
    requires
        g.wf(),
        g.has(v),
    ensures
        0 <= g.idx(v) < g.table.len(),
        g.table[g.idx(v)].0 == v,
        forall|i: int| 0 <= i < g.table.len() && g.table[i].0 == v ==> i == g.idx(v),
{
    let i0 = choose|i: int| 0 <= i < g.table.len() && g.table[i].0 == v;
    assert(g.table[i0].0 == v);
    assert forall|i: int| 0 <= i < g.table.len() && g.table[i].0 == v implies i == g.idx(v) by {
        if i != g.idx(v) {
            if i < g.idx(v) {
                assert(g.table[i].0 != g.table[g.idx(v)].0);
            } else {
                assert(g.table[g.idx(v)].0 != g.table[i].0);
            }
        }
    }
}

/// Replacing one vertex's value keeps the graph well formed and leaves
/// every other vertex in place.
pub proof fn lemma_set_vertex(g: GraphModel, v: usize, vm: VertexModel)
    requires
        g.wf(),
        g.has(v),
        vm.vertex_wf(g),
    ensures
        g.set_vertex(v, vm).wf(),
        g.set_vertex(v, vm).table.len() == g.table.len(),
        forall|x: usize| g.set_vertex(v, vm).has(x) <==> g.has(x),
        forall|x: usize| g.has(x) ==> g.set_vertex(v, vm).idx(x) == g.idx(x),
        g.set_vertex(v, vm).vertex(v) == vm,
        forall|x: usize|
            x != v && g.has(x) ==> g.set_vertex(v, vm).vertex(x) == g.vertex(x),
        g.set_vertex(v, vm).branches == g.branches,
        g.set_vertex(v, vm).next_v == g.next_v,
        g.set_vertex(v, vm).next_branch == g.next_branch,
        g.set_vertex(v, vm).active() == g.active(),
{
    lemma_idx_of(g, v);
    let g2 = g.set_vertex(v, vm);
    assert(forall|i: int| 0 <= i < g.table.len() ==> (#[trigger] g2.table[i]).0 == g.table[i].0);
    assert forall|x: usize| g2.has(x) <==> g.has(x) by {
        if g2.has(x) {
            let i = choose|i: int| 0 <= i < g2.table.len() && g2.table[i].0 == x;
            assert(g.table[i].0 == x);
        }
        if g.has(x) {
            let i = choose|i: int| 0 <= i < g.table.len() && g.table[i].0 == x;
            assert(g2.table[i].0 == x);
        }
    }
    assert forall|x: usize| g.has(x) implies g2.idx(x) == g.idx(x) by {
        lemma_idx_of(g, x);
        let i = g.idx(x);
        assert(g2.table[i].0 == x);
        let j = g2.idx(x);
        assert(0 <= j < g2.table.len() && g2.table[j].0 == x);
        assert(g.table[j].0 == x);
    }
    assert forall|i: int| 0 <= i < g2.table.len() implies (#[trigger] g2.table[i]).1.vertex_wf(
        g2,
    ) by {
        let w = g2.table[i].1;
        if i == g.idx(v) {
            assert(w == vm);
        } else {
            assert(w == g.table[i].1);
            assert(w.vertex_wf(g));
        }
        assert forall|k: int| 0 <= k < w.edges.len() implies g2.has((#[trigger] w.edges[k]).1) by {
            assert(g.has(w.edges[k].1));
        }
    }
}

/// Touching a vertex under the active branch keeps it well formed and
/// changes nothing but its stack.
pub proof fn lemma_touch(g: GraphModel, vm: VertexModel)
    requires
        g.wf(),
        vm.vertex_wf(g),
        vm.can_touch(g.active()),
    ensures
        vm.touch(g.active()).vertex_wf(g),
        vm.touch(g.active()).edges == vm.edges,
        vm.touch(g.active()).data == vm.data,
        vm.touch(g.active()).persistence == vm.persistence,
        vm.touch(g.active()).branch == vm.branch,
        g.active() is Some ==> vm.touch(g.active()).stack.contains(g.active()->Some_0),
{
    match g.active() {
        None => {},
        Some(b) => {
            assert(g.branches[g.branches.len() - 1] == b);
            assert(g.branches.contains(b));
            let st = vm.stack;
            if st.contains(b) {
            } else {
                let st2 = st.push(b);
                assert(st2[st2.len() - 1] == b);
                assert(forall|i: int| 0 <= i < st.len() ==> st2[i] == st[i]);
                assert(unique_seq(st2)) by {
                    assert forall|i: int, j: int| 0 <= i < j < st2.len() implies st2[i]
                        != st2[j] by {
                        if j == st2.len() - 1 {
                            if st2[i] == b {
                                assert(st.contains(b));
                            }
                        }
                    }
                }
            }
        },
    }
}

/// Adding a fresh vertex keeps the graph well formed.
pub proof fn lemma_add_wf(g: GraphModel, v: usize)
    requires
        g.wf(),
        v < usize::MAX - 1,
    ensures
        g.spec_add(v).0.wf(),
        g.spec_add(v).1 is Ok ==> g.spec_add(v).0.has(v),
{
    if !g.has(v) {
        let g2 = g.spec_add(v).0;
        let vm = VertexModel::fresh(g.active());
        assert(g2.table.last() == (v, vm));
        assert(forall|i: int| 0 <= i < g.table.len() ==> g2.table[i] == g.table[i]);
        assert(g2.table[g2.table.len() - 1].0 == v);
        assert forall|x: usize| g.has(x) implies g2.has(x) by {
            let i = choose|i: int| 0 <= i < g.table.len() && g.table[i].0 == x;
            assert(g2.table[i].0 == x);
        }
        assert forall|i: int, j: int| 0 <= i < j < g2.table.len() implies g2.table[i].0
            != g2.table[j].0 by {
            if j == g2.table.len() - 1 {
                if g2.table[i].0 == v {
                    assert(g.has(v));
                }
            }
        }
        assert(vm.vertex_wf(g2)) by {
            match g.active() {
                None => {},
                Some(b) => {
                    assert(g.branches[g.branches.len() - 1] == b);
                    assert(g.branches.contains(b));
                    assert(vm.stack == seq![b]);
                    assert(vm.stack[0] == b);
                    let i = choose|i: int| 0 <= i < g.branches.len() && g.branches[i] == b;
                    assert(2 <= g.branches[i] < g.next_branch);
                },
            }
        }
        assert forall|i: int| 0 <= i < g2.table.len() implies (#[trigger] g2.table[i]).1.vertex_wf(
            g2,
        ) by {
            if i < g.table.len() {
                let w = g.table[i].1;
                assert(w.vertex_wf(g));
                assert forall|k: int| 0 <= k < w.edges.len() implies g2.has(
                    (#[trigger] w.edges[k]).1,
                ) by {
                    assert(g.has(w.edges[k].1));
                }
            }
        }
    }
}

/// Binding an edge keeps the graph well formed.
pub proof fn lemma_bind_wf(g: GraphModel, v1: usize, v2: usize, l: Label)
    requires
        g.wf(),
    ensures
        g.spec_bind(v1, v2, l).0.wf(),
{
    if g.has(v1) && g.has(v2) && (edge_has(g.vertex(v1).edges, l) || g.vertex(v1).edges.len()
        < MAX_EDGES) && g.vertex(v1).can_touch(g.active()) && g.vertex(v2).can_touch(
        g.active(),
    ) {
        lemma_idx_of(g, v1);
        lemma_idx_of(g, v2);
        assert(g.vertex(v1).vertex_wf(g));
        assert(g.vertex(v2).vertex_wf(g));
        lemma_touch(g, g.vertex(v2));
        let g1 = g.set_vertex(v2, g.vertex(v2).touch(g.active()));
        lemma_set_vertex(g, v2, g.vertex(v2).touch(g.active()));
        let w = g1.vertex(v1);
        assert(w.vertex_wf(g1));
        assert(w.edges == g.vertex(v1).edges);
        assert(w.can_touch(g1.active())) by {
            if v1 == v2 {
                match g.active() {
                    None => {},
                    Some(b) => {
                        assert(g.branches[g.branches.len() - 1] == b);
                        if !g.vertex(v2).stack.contains(b) {
                            assert(w.stack == g.vertex(v2).stack.push(b));
                            assert(w.stack[w.stack.len() - 1] == b);
                            assert(w.stack.contains(b));
                        }
                    },
                }
            }
        }
        lemma_touch(g1, w);
        let vm1 = w.touch(g1.active());
        let es = edges_insert(w.edges, l, v2);
        let vm2 = VertexModel { edges: es, ..vm1 };
        assert(vm2.vertex_wf(g1)) by {
            if edge_has(w.edges, l) {
                let p = edge_idx(w.edges, l);
                assert(0 <= p < w.edges.len() && w.edges[p].0 == l);
                assert(es.len() == w.edges.len());
                assert(forall|i: int| 0 <= i < es.len() && i != p ==> es[i] == w.edges[i]);
                assert(es[p] == (l, v2));
                assert forall|i: int, j: int| 0 <= i < j < es.len() implies es[i].0 != es[j].0 by {
                    if i == p || j == p {
                        assert(w.edges[i].0 == es[i].0 || i == p);
                    }
                }
                assert forall|k: int| 0 <= k < es.len() implies g1.has((#[trigger] es[k]).1) by {
                    if k != p {
                        assert(g1.has(w.edges[k].1));
                    }
                }
            } else {
                assert(es == w.edges.push((l, v2)));
                assert(es[es.len() - 1] == (l, v2));
                assert(forall|i: int| 0 <= i < w.edges.len() ==> es[i] == w.edges[i]);
                assert forall|i: int, j: int| 0 <= i < j < es.len() implies es[i].0 != es[j].0 by {
                    if j == es.len() - 1 {
                        if es[i].0 == l {
                            assert(w.edges[i].0 == l);
                            assert(edge_has(w.edges, l));
                        }
                    }
                }
                assert forall|k: int| 0 <= k < es.len() implies g1.has((#[trigger] es[k]).1) by {
                    if k < w.edges.len() {
                        assert(g1.has(w.edges[k].1));
                    }
                }
            }
        }
        lemma_set_vertex(g1, v1, vm2);
    }
}

/// Writing data keeps the graph well formed.
pub proof fn lemma_put_wf(g: GraphModel, v: usize, d: Seq<u8>)
    requires
        g.wf(),
    ensures
        g.spec_put(v, d).0.wf(),
{
    if g.has(v) && g.vertex(v).can_touch(g.active()) {
        lemma_idx_of(g, v);
        assert(g.vertex(v).vertex_wf(g));
        lemma_touch(g, g.vertex(v));
        let vm = g.vertex(v).touch(g.active());
        let vm2 = VertexModel {
            data: d,
            persistence: if vm.persistence is Empty {
                Persistence::Stored
            } else {
                vm.persistence
            },
            ..vm
        };
        assert(vm2.vertex_wf(g)) by {
            assert forall|k: int| 0 <= k < vm2.edges.len() implies g.has(
                (#[trigger] vm2.edges[k]).1,
            ) by {
                assert(g.has(vm.edges[k].1));
            }
        }
        lemma_set_vertex(g, v, vm2);
    }
}

/// Opening a branch keeps the graph well formed.
pub proof fn lemma_open_wf(g: GraphModel)
    requires
        g.wf(),
    ensures
        g.spec_open().0.wf(),
{
    if !(g.branches.len() >= MAX_BRANCHES || g.next_branch >= usize::MAX - 1) {
        let g2 = g.spec_open().0;
        let b = g.next_branch;
        assert(g2.branches == g.branches.push(b));
        assert(g2.branches[g2.branches.len() - 1] == b);
        assert(forall|i: int| 0 <= i < g.branches.len() ==> g2.branches[i] == g.branches[i]);
        assert(unique_seq(g2.branches)) by {
            assert forall|i: int, j: int| 0 <= i < j < g2.branches.len() implies g2.branches[i]
                != g2.branches[j] by {
                if j == g2.branches.len() - 1 {
                    assert(g.branches[i] < g.next_branch);
                }
            }
        }
        assert forall|i: int| 0 <= i < g2.table.len() implies (#[trigger] g2.table[i]).1.vertex_wf(
            g2,
        ) by {
            let w = g.table[i].1;
            assert(w.vertex_wf(g));
            assert forall|k: int| 0 <= k < w.stack.len() implies g2.branches.contains(
                #[trigger] w.stack[k],
            ) by {
                assert(g.branches.contains(w.stack[k]));
                let p = choose|p: int| 0 <= p < g.branches.len() && g.branches[p] == w.stack[k];
                assert(g2.branches[p] == w.stack[k]);
            }
            assert forall|k: int| 0 <= k < w.edges.len() implies g2.has(
                (#[trigger] w.edges[k]).1,
            ) by {
                assert(g.has(w.edges[k].1));
            }
        }
    }
}


/// What closing a branch does to one vertex: nothing but popping `b`
/// and, on a commit, storing a held tentative vertex.
pub proof fn lemma_close_vertex(g: GraphModel, w: VertexModel, b: usize, commit: bool)
    requires
        g.wf(),
        w.vertex_wf(g),
    ensures
        w.close(b, commit).edges == w.edges,
        w.close(b, commit).data == w.data,
        w.close(b, commit).branch == w.branch,
        w.close(b, commit).stack.len() <= w.stack.len(),
        unique_seq(w.close(b, commit).stack),
        forall|x: usize|
            w.close(b, commit).stack.contains(x) ==> remove_val(g.branches, b).contains(x),
        !w.stack.contains(b) ==> w.close(b, commit) == w,
{
    lemma_remove_val(w.stack, b);
    lemma_remove_val(g.branches, b);
    assert forall|x: usize| w.close(b, commit).stack.contains(x) implies remove_val(
        g.branches,
        b,
    ).contains(x) by {
        if w.stack.contains(b) {
            assert(w.stack.contains(x) && x != b);
            let i = choose|i: int| 0 <= i < w.stack.len() && w.stack[i] == x;
            assert(g.branches.contains(w.stack[i]));
        } else {
            let i = choose|i: int| 0 <= i < w.stack.len() && w.stack[i] == x;
            assert(g.branches.contains(w.stack[i]));
            if x == b {
                assert(w.stack.contains(b));
            }
        }
    }
}

/// Branch ids that survive a close still lie in the valid range.
proof fn lemma_branches_after(g: GraphModel, b: usize)
    requires
        g.wf(),
    ensures
        unique_seq(remove_val(g.branches, b)),
        remove_val(g.branches, b).len() <= g.branches.len(),
        forall|i: int|
            0 <= i < remove_val(g.branches, b).len() ==> 2 <= #[trigger] remove_val(
                g.branches,
                b,
            )[i] < g.next_branch,
{
    lemma_remove_val(g.branches, b);
    let r = remove_val(g.branches, b);
    assert forall|i: int| 0 <= i < r.len() implies 2 <= #[trigger] r[i] < g.next_branch by {
        assert(r.contains(r[i]));
        assert(g.branches.contains(r[i]));
        let k = choose|k: int| 0 <= k < g.branches.len() && g.branches[k] == r[i];
        assert(2 <= g.branches[k] < g.next_branch);
    }
}

/// Committing a branch keeps the graph well formed, deletes nothing,
/// and changes each vertex exactly as `close` says.
pub proof fn lemma_commit_wf(g: GraphModel, b: usize)
    requires
        g.wf(),
    ensures
        g.spec_commit(b).wf(),
        g.spec_commit(b).table.len() == g.table.len(),
        forall|x: usize| g.spec_commit(b).has(x) <==> g.has(x),
        forall|x: usize| g.has(x) ==> g.spec_commit(b).idx(x) == g.idx(x),
        forall|x: usize|
            g.has(x) ==> g.spec_commit(b).vertex(x) == g.vertex(x).close(b, true),
        g.spec_commit(b).branches == remove_val(g.branches, b),
        g.spec_commit(b).next_v == g.next_v,
        g.spec_commit(b).next_branch == g.next_branch,
{
    let g2 = g.spec_commit(b);
    lemma_branches_after(g, b);
    assert(forall|i: int| 0 <= i < g.table.len() ==> (#[trigger] g2.table[i]).0 == g.table[i].0);
    assert forall|x: usize| g2.has(x) <==> g.has(x) by {
        if g2.has(x) {
            let i = choose|i: int| 0 <= i < g2.table.len() && g2.table[i].0 == x;
            assert(g.table[i].0 == x);
        }
        if g.has(x) {
            let i = choose|i: int| 0 <= i < g.table.len() && g.table[i].0 == x;
            assert(g2.table[i].0 == x);
        }
    }
    assert forall|x: usize| g.has(x) implies g2.idx(x) == g.idx(x)
        && g2.vertex(x) == g.vertex(x).close(b, true) by {
        lemma_idx_of(g, x);
        let i = g.idx(x);
        assert(g2.table[i].0 == x);
        let j = g2.idx(x);
        assert(0 <= j < g2.table.len() && g2.table[j].0 == x);
        assert(g.table[j].0 == x);
        assert(j == i);
    }
    assert forall|i: int| 0 <= i < g2.table.len() implies (#[trigger] g2.table[i]).1.vertex_wf(
        g2,
    ) by {
        let w = g.table[i].1;
        assert(w.vertex_wf(g));
        lemma_close_vertex(g, w, b, true);
        assert forall|k: int| 0 <= k < w.close(b, true).stack.len() implies g2.branches.contains(
            #[trigger] w.close(b, true).stack[k],
        ) by {
            assert(w.close(b, true).stack.contains(w.close(b, true).stack[k]));
        }
        assert forall|k: int| 0 <= k < w.edges.len() implies g2.has(
            (#[trigger] w.edges[k]).1,
        ) by {
            assert(g.has(w.edges[k].1));
        }
    }
}


/// Which ids survive a discard: exactly those of entries that were
/// not doomed.
#[verifier::rlimit(100)]
#[verifier::spinoff_prover]
pub proof fn lemma_keep_filter(table: Seq<(usize, VertexModel)>, b: usize)
    ensures
        keep_filter(table, b).len() <= table.len(),
        forall|j: int| #![trigger keep_filter(table, b)[j]]
            0 <= j < keep_filter(table, b).len() ==> exists|i: int|
                0 <= i < table.len() && keep_filter(table, b)[j].0 == table[i].0
                    && !table[i].1.doomed(b),
        forall|i: int|
            0 <= i < table.len() && !(#[trigger] table[i]).1.doomed(b) ==> exists|j: int|
                0 <= j < keep_filter(table, b).len() && keep_filter(table, b)[j].0 == table[i].0,
    decreases table.len(),
{
    if table.len() > 0 {
        lemma_keep_filter(table.drop_last(), b);
        assert(forall|i: int| 0 <= i < table.len() - 1 ==> table.drop_last()[i] == table[i]);
        let n = keep_filter(table, b).len();
        if table.last().1.doomed(b) {
            assert(keep_filter(table, b) == keep_filter(table.drop_last(), b));
            assert forall|j: int| #![trigger keep_filter(table, b)[j]]
                0 <= j < n implies exists|i: int|
                0 <= i < table.len() && keep_filter(table, b)[j].0 == table[i].0
                    && !table[i].1.doomed(b) by {
                let i = choose|i: int|
                    0 <= i < table.drop_last().len() && keep_filter(table.drop_last(), b)[j].0
                        == table.drop_last()[i].0 && !table.drop_last()[i].1.doomed(b);
                assert(keep_filter(table, b)[j].0 == table[i].0 && !table[i].1.doomed(b));
            }
            assert forall|i: int|
                0 <= i < table.len() && !(#[trigger] table[i]).1.doomed(b) implies exists|j: int|
                0 <= j < n && keep_filter(table, b)[j].0 == table[i].0 by {
                assert(i < table.len() - 1);
                assert(table.drop_last()[i] == table[i]);
                let j = choose|j: int|
                    0 <= j < keep_filter(table.drop_last(), b).len() && keep_filter(
                        table.drop_last(),
                        b,
                    )[j].0 == table.drop_last()[i].0;
                assert(keep_filter(table, b)[j].0 == table[i].0);
            }
        } else {
            let last = (table.last().0, table.last().1.close(b, false));
            assert(keep_filter(table, b) == keep_filter(table.drop_last(), b).push(last));
            assert(forall|j: int|
                0 <= j < n - 1 ==> keep_filter(table, b)[j] == keep_filter(
                    table.drop_last(),
                    b,
                )[j]);
            assert(keep_filter(table, b)[n - 1] == last);
            assert(table[table.len() - 1] == table.last());
            assert forall|j: int| #![trigger keep_filter(table, b)[j]]
                0 <= j < n implies exists|i: int|
                0 <= i < table.len() && keep_filter(table, b)[j].0 == table[i].0
                    && !table[i].1.doomed(b) by {
                if j < n - 1 {
                    let i = choose|i: int|
                        0 <= i < table.drop_last().len() && keep_filter(table.drop_last(), b)[j].0
                            == table.drop_last()[i].0 && !table.drop_last()[i].1.doomed(b);
                    assert(keep_filter(table, b)[j].0 == table[i].0 && !table[i].1.doomed(b));
                } else {
                    assert(keep_filter(table, b)[j].0 == table[table.len() - 1].0
                        && !table[table.len() - 1].1.doomed(b));
                }
            }
            assert forall|i: int|
                0 <= i < table.len() && !(#[trigger] table[i]).1.doomed(b) implies exists|j: int|
                0 <= j < n && keep_filter(table, b)[j].0 == table[i].0 by {
                if i < table.len() - 1 {
                    assert(table.drop_last()[i] == table[i]);
                    let j = choose|j: int|
                        0 <= j < keep_filter(table.drop_last(), b).len() && keep_filter(
                            table.drop_last(),
                            b,
                        )[j].0 == table.drop_last()[i].0;
                    assert(keep_filter(table, b)[j].0 == table[i].0);
                } else {
                    assert(keep_filter(table, b)[n - 1].0 == table[i].0);
                }
            }
        }
    }
}

/// Discarding a branch deletes exactly the doomed vertices: the
/// still-tentative ones, owned by a real branch, whose stack empties
/// when `b` leaves; every other vertex survives, and the branch itself
/// stops being open.
#[verifier::rlimit(100)]
#[verifier::spinoff_prover]
pub proof fn lemma_discard_exact(g: GraphModel, b: usize)
    requires
        g.wf(),
    ensures
        forall|x: usize|
            g.spec_discard(b).has(x) <==> (g.has(x) && !(#[trigger] g.vertex(x)).doomed(b)),
        g.spec_discard(b).branches == remove_val(g.branches, b),
        g.spec_discard(b).next_v == g.next_v,
        g.spec_discard(b).next_branch == g.next_branch,
{
    let g2 = g.spec_discard(b);
    lemma_keep_filter(g.table, b);
    assert(g2.table.len() == keep_filter(g.table, b).len());
    assert(forall|j: int|
        0 <= j < g2.table.len() ==> (#[trigger] g2.table[j]).0 == keep_filter(g.table, b)[j].0);
    assert forall|x: usize| g2.has(x) implies (g.has(x) && !g.vertex(x).doomed(b)) by {
        let j = choose|j: int| 0 <= j < g2.table.len() && g2.table[j].0 == x;
        assert(keep_filter(g.table, b)[j].0 == x);
        let i = choose|i: int|
            0 <= i < g.table.len() && keep_filter(g.table, b)[j].0 == g.table[i].0
                && !g.table[i].1.doomed(b);
        assert(g.table[i].0 == x);
        lemma_idx_of(g, x);
        assert(g.idx(x) == i);
    }
    assert forall|x: usize| g.has(x) && !(#[trigger] g.vertex(x)).doomed(b) implies g2.has(x) by {
        lemma_idx_of(g, x);
        let i = g.idx(x);
        assert(!g.table[i].1.doomed(b));
        let j = choose|j: int|
            0 <= j < keep_filter(g.table, b).len() && keep_filter(g.table, b)[j].0 == g.table[i].0;
        assert(g2.table[j].0 == x);
    }
}


/// Each survivor of a discard is some non-doomed entry with its stack
/// popped.
#[verifier::rlimit(100)]
#[verifier::spinoff_prover]
pub proof fn lemma_keep_filter_content(table: Seq<(usize, VertexModel)>, b: usize)
    ensures
        forall|j: int| #![trigger keep_filter(table, b)[j]]
            0 <= j < keep_filter(table, b).len() ==> exists|i: int|
                0 <= i < table.len() && keep_filter(table, b)[j] == (
                table[i].0,
                table[i].1.close(b, false),
                ) && !table[i].1.doomed(b),
    decreases table.len(),
{
    if table.len() > 0 {
        lemma_keep_filter_content(table.drop_last(), b);
        assert(forall|i: int| 0 <= i < table.len() - 1 ==> table.drop_last()[i] == table[i]);
        let n = keep_filter(table, b).len();
        if table.last().1.doomed(b) {
            assert(keep_filter(table, b) == keep_filter(table.drop_last(), b));
            assert forall|j: int| #![trigger keep_filter(table, b)[j]]
                0 <= j < n implies exists|i: int|
                0 <= i < table.len() && keep_filter(table, b)[j] == (
                table[i].0,
                table[i].1.close(b, false),
                ) && !table[i].1.doomed(b) by {
                let i = choose|i: int|
                    0 <= i < table.drop_last().len() && keep_filter(table.drop_last(), b)[j] == (
                    table.drop_last()[i].0,
                    table.drop_last()[i].1.close(b, false),
                    ) && !table.drop_last()[i].1.doomed(b);
                assert(keep_filter(table, b)[j] == (table[i].0, table[i].1.close(b, false))
                    && !table[i].1.doomed(b));
            }
        } else {
            assert(keep_filter(table, b) == keep_filter(table.drop_last(), b).push(
                (table.last().0, table.last().1.close(b, false)),
            ));
            assert(forall|j: int|
                0 <= j < n - 1 ==> keep_filter(table, b)[j] == keep_filter(
                    table.drop_last(),
                    b,
                )[j]);
            assert(table[table.len() - 1] == table.last());
            assert forall|j: int| #![trigger keep_filter(table, b)[j]]
                0 <= j < n implies exists|i: int|
                0 <= i < table.len() && keep_filter(table, b)[j] == (
                table[i].0,
                table[i].1.close(b, false),
                ) && !table[i].1.doomed(b) by {
                if j < n - 1 {
                    let i = choose|i: int|
                        0 <= i < table.drop_last().len() && keep_filter(table.drop_last(), b)[j]
                            == (
                        table.drop_last()[i].0,
                        table.drop_last()[i].1.close(b, false),
                        ) && !table.drop_last()[i].1.doomed(b);
                    assert(keep_filter(table, b)[j] == (table[i].0, table[i].1.close(b, false))
                        && !table[i].1.doomed(b));
                } else {
                    assert(keep_filter(table, b)[j] == (
                    table[table.len() - 1].0,
                    table[table.len() - 1].1.close(b, false),
                    ) && !table[table.len() - 1].1.doomed(b));
                }
            }
        }
    }
}

/// Survivor ids stay unique.
#[verifier::rlimit(100)]
#[verifier::spinoff_prover]
pub proof fn lemma_keep_filter_unique(table: Seq<(usize, VertexModel)>, b: usize)
    requires
        forall|i: int, j: int| 0 <= i < j < table.len() ==> table[i].0 != table[j].0,
    ensures
        forall|i: int, j: int|
            0 <= i < j < keep_filter(table, b).len() ==> keep_filter(table, b)[i].0
                != keep_filter(table, b)[j].0,
    decreases table.len(),
{
    if table.len() > 0 {
        assert(forall|i: int| 0 <= i < table.len() - 1 ==> table.drop_last()[i] == table[i]);
        lemma_keep_filter_unique(table.drop_last(), b);
        lemma_keep_filter(table.drop_last(), b);
        if !table.last().1.doomed(b) {
            let n = keep_filter(table, b).len();
            assert(keep_filter(table, b) == keep_filter(table.drop_last(), b).push(
                (table.last().0, table.last().1.close(b, false)),
            ));
            assert(forall|j: int|
                0 <= j < n - 1 ==> keep_filter(table, b)[j] == keep_filter(
                    table.drop_last(),
                    b,
                )[j]);
            assert forall|i: int, j: int|
                0 <= i < j < n implies keep_filter(table, b)[i].0 != keep_filter(
                table,
                b,
            )[j].0 by {
                if j == n - 1 {
                    let i0 = choose|i0: int|
                        0 <= i0 < table.drop_last().len() && keep_filter(table.drop_last(), b)[
                        i].0 == table.drop_last()[i0].0 && !table.drop_last()[i0].1.doomed(b);
                    assert(keep_filter(table, b)[i].0 == table[i0].0);
                    assert(table[i0].0 != table[table.len() - 1].0);
                }
            }
        }
    }
}

/// Each surviving edge is an original edge whose target lives.
#[verifier::rlimit(100)]
#[verifier::spinoff_prover]
pub proof fn lemma_edges_filter(es: Seq<(Label, usize)>, dead: Set<usize>)
    ensures
        edges_filter(es, dead).len() <= es.len(),
        forall|k: int| #![trigger edges_filter(es, dead)[k]]
            0 <= k < edges_filter(es, dead).len() ==> exists|i: int|
                0 <= i < es.len() && edges_filter(es, dead)[k] == es[i] && !dead.contains(
                es[i].1,
                ),
    decreases es.len(),
{
    if es.len() > 0 {
        lemma_edges_filter(es.drop_last(), dead);
        assert(forall|i: int| 0 <= i < es.len() - 1 ==> es.drop_last()[i] == es[i]);
        let n = edges_filter(es, dead).len();
        if dead.contains(es.last().1) {
            assert(edges_filter(es, dead) == edges_filter(es.drop_last(), dead));
            assert forall|k: int| #![trigger edges_filter(es, dead)[k]]
                0 <= k < n implies exists|i: int|
                0 <= i < es.len() && edges_filter(es, dead)[k] == es[i] && !dead.contains(
                es[i].1,
            ) by {
                let i = choose|i: int|
                    0 <= i < es.drop_last().len() && edges_filter(es.drop_last(), dead)[k]
                        == es.drop_last()[i] && !dead.contains(es.drop_last()[i].1);
                assert(edges_filter(es, dead)[k] == es[i] && !dead.contains(es[i].1));
            }
        } else {
            assert(edges_filter(es, dead) == edges_filter(es.drop_last(), dead).push(es.last()));
            assert(forall|k: int|
                0 <= k < n - 1 ==> edges_filter(es, dead)[k] == edges_filter(
                    es.drop_last(),
                    dead,
                )[k]);
            assert(es[es.len() - 1] == es.last());
            assert forall|k: int| #![trigger edges_filter(es, dead)[k]]
                0 <= k < n implies exists|i: int|
                0 <= i < es.len() && edges_filter(es, dead)[k] == es[i] && !dead.contains(
                es[i].1,
            ) by {
                if k < n - 1 {
                    let i = choose|i: int|
                        0 <= i < es.drop_last().len() && edges_filter(es.drop_last(), dead)[k]
                            == es.drop_last()[i] && !dead.contains(es.drop_last()[i].1);
                    assert(edges_filter(es, dead)[k] == es[i] && !dead.contains(es[i].1));
                } else {
                    assert(edges_filter(es, dead)[k] == es[es.len() - 1] && !dead.contains(
                        es[es.len() - 1].1,
                    ));
                }
            }
        }
    }
}

/// Surviving edge labels stay unique.
#[verifier::rlimit(100)]
#[verifier::spinoff_prover]
pub proof fn lemma_edges_filter_unique(es: Seq<(Label, usize)>, dead: Set<usize>)
    requires
        forall|i: int, j: int| 0 <= i < j < es.len() ==> es[i].0 != es[j].0,
    ensures
        forall|i: int, j: int|
            0 <= i < j < edges_filter(es, dead).len() ==> edges_filter(es, dead)[i].0
                != edges_filter(es, dead)[j].0,
    decreases es.len(),
{
    if es.len() > 0 {
        assert(forall|i: int| 0 <= i < es.len() - 1 ==> es.drop_last()[i] == es[i]);
        lemma_edges_filter_unique(es.drop_last(), dead);
        lemma_edges_filter(es.drop_last(), dead);
        if !dead.contains(es.last().1) {
            let n = edges_filter(es, dead).len();
            assert(edges_filter(es, dead) == edges_filter(es.drop_last(), dead).push(es.last()));
            assert(forall|k: int|
                0 <= k < n - 1 ==> edges_filter(es, dead)[k] == edges_filter(
                    es.drop_last(),
                    dead,
                )[k]);
            assert forall|i: int, j: int|
                0 <= i < j < n implies edges_filter(es, dead)[i].0 != edges_filter(
                es,
                dead,
            )[j].0 by {
                if j == n - 1 {
                    let i0 = choose|i0: int|
                        0 <= i0 < es.drop_last().len() && edges_filter(es.drop_last(), dead)[i]
                            == es.drop_last()[i0] && !dead.contains(es.drop_last()[i0].1);
                    assert(edges_filter(es, dead)[i].0 == es[i0].0);
                    assert(es[i0].0 != es[es.len() - 1].0);
                }
            }
        }
    }
}


/// One survivor of a discard is well formed in the new graph.
#[verifier::rlimit(100)]
#[verifier::spinoff_prover]
proof fn lemma_discard_vertex_wf(g: GraphModel, b: usize, j: int)
    requires
        g.wf(),
        0 <= j < g.spec_discard(b).table.len(),
    ensures
        g.spec_discard(b).table[j].0 < g.spec_discard(b).next_v,
        g.spec_discard(b).table[j].1.vertex_wf(g.spec_discard(b)),
{
    let g2 = g.spec_discard(b);
    let dead = g.dead_set(b);
    lemma_keep_filter_content(g.table, b);
    lemma_discard_exact(g, b);
    lemma_branches_after(g, b);
    let i = choose|i: int|
        0 <= i < g.table.len() && keep_filter(g.table, b)[j] == (
        g.table[i].0,
        g.table[i].1.close(b, false),
        ) && !g.table[i].1.doomed(b);
    let w = g.table[i].1;
    assert(w.vertex_wf(g));
    assert(g.table[i].0 < g.next_v);
    lemma_close_vertex(g, w, b, false);
    lemma_edges_filter(w.edges, dead);
    lemma_edges_filter_unique(w.edges, dead);
    let w2 = g2.table[j].1;
    assert(w2 == VertexModel {
        edges: edges_filter(w.close(b, false).edges, dead),
        ..w.close(b, false)
    });
    assert(w.close(b, false).edges == w.edges);
    assert forall|k: int| 0 <= k < w2.edges.len() implies g2.has((#[trigger] w2.edges[k]).1) by {
        let e = choose|e: int|
            0 <= e < w.edges.len() && edges_filter(w.edges, dead)[k] == w.edges[e]
                && !dead.contains(w.edges[e].1);
        assert(g.has(w.edges[e].1));
        assert(!g.vertex(w.edges[e].1).doomed(b));
        assert(g2.has(w.edges[e].1));
    }
    assert forall|k: int| 0 <= k < w2.stack.len() implies g2.branches.contains(
        #[trigger] w2.stack[k],
    ) by {
        assert(w.close(b, false).stack.contains(w2.stack[k]));
    }
}

/// Discarding a branch keeps the graph well formed.
#[verifier::rlimit(100)]
#[verifier::spinoff_prover]
pub proof fn lemma_discard_wf(g: GraphModel, b: usize)
    requires
        g.wf(),
    ensures
        g.spec_discard(b).wf(),
{
    let g2 = g.spec_discard(b);
    lemma_keep_filter_unique(g.table, b);
    lemma_branches_after(g, b);
    assert(g2.table.len() == keep_filter(g.table, b).len());
    assert(forall|j: int|
        0 <= j < g2.table.len() ==> (#[trigger] g2.table[j]).0 == keep_filter(g.table, b)[j].0);
    assert forall|j: int|
        0 <= j < g2.table.len() implies (#[trigger] g2.table[j]).0 < g2.next_v
            && g2.table[j].1.vertex_wf(g2) by {
        lemma_discard_vertex_wf(g, b, j);
    }
}


impl GraphModel {
    /// Consuming a vertex's data: the vertex becomes `Taken`, the final
    /// lifecycle state, or `NoSuchVertex`.
    pub open spec fn spec_take(self, v: usize) -> (GraphModel, Result<(), GraphError>) {
        if !self.has(v) {
            (self, Err(GraphError::NoSuchVertex(v)))
        } else {
            (
                self.set_vertex(
                    v,
                    VertexModel { persistence: Persistence::Taken, ..self.vertex(v) },
                ),
                Ok(()),
            )
        }
    }
}

/// Consuming a vertex keeps the graph well formed.
pub proof fn lemma_take_wf(g: GraphModel, v: usize)
    requires
        g.wf(),
    ensures
        g.spec_take(v).0.wf(),
{
    if g.has(v) {
        lemma_idx_of(g, v);
        assert(g.vertex(v).vertex_wf(g));
        let vm = VertexModel { persistence: Persistence::Taken, ..g.vertex(v) };
        assert(vm.vertex_wf(g));
        lemma_set_vertex(g, v, vm);
    }
}


/// First merge phase: every incoming id missing from the base is added.
pub open spec fn merge_add_phase(g: GraphModel, table: Seq<(usize, VertexModel)>, k: int) -> GraphModel
    decreases table.len() - k,
{
    if k < 0 || k >= table.len() {
        g
    } else {
        let g1 = if g.has(table[k].0) {
            g
        } else {
            g.spec_add(table[k].0).0
        };
        merge_add_phase(g1, table, k + 1)
    }
}

/// One incoming payload: adopted where the base holds nothing, kept
/// where it is equal, reported (base kept) where both are non-empty and
/// differ.
pub open spec fn merge_payload(g: GraphModel, v: usize, d: Seq<u8>) -> (
    GraphModel,
    Seq<MergeConflict>,
    Result<(), GraphError>,
) {
    if d.len() == 0 {
        (g, Seq::<MergeConflict>::empty(), Ok(()))
    } else if !g.has(v) {
        (g, Seq::<MergeConflict>::empty(), Err(GraphError::NoSuchVertex(v)))
    } else if g.vertex(v).data.len() == 0 {
        let s = g.spec_put(v, d);
        if s.1 is Ok {
            (s.0, Seq::<MergeConflict>::empty(), Ok(()))
        } else {
            (s.0, Seq::<MergeConflict>::empty(), Err(s.1->Err_0))
        }
    } else if g.vertex(v).data == d {
        (g, Seq::<MergeConflict>::empty(), Ok(()))
    } else {
        (g, seq![MergeConflict::Payload(v)], Ok(()))
    }
}

/// Incoming edges of one vertex, replayed in order: a base edge with
/// the same label and a different target is kept and the disagreement
/// reported; anything else is bound.  A failing bind aborts.
pub open spec fn merge_edges(g: GraphModel, v: usize, es: Seq<(Label, usize)>, k: int) -> (
    GraphModel,
    Seq<MergeConflict>,
    Result<(), GraphError>,
)
    decreases es.len() - k,
{
    if k < 0 || k >= es.len() {
        (g, Seq::<MergeConflict>::empty(), Ok(()))
    } else {
        let l = es[k].0;
        let t = es[k].1;
        if g.has(v) && edge_has(g.vertex(v).edges, l) {
            let bt = edge_target(g.vertex(v).edges, l);
            let rest = merge_edges(g, v, es, k + 1);
            if bt == t {
                rest
            } else {
                (rest.0, seq![MergeConflict::Edge(v, l, bt, t)] + rest.1, rest.2)
            }
        } else {
            let step = g.spec_bind(v, t, l);
            if step.1 is Ok {
                merge_edges(step.0, v, es, k + 1)
            } else {
                (step.0, Seq::<MergeConflict>::empty(), Err(step.1->Err_0))
            }
        }
    }
}

/// Second merge phase: payloads and edges of every incoming vertex.
pub open spec fn merge_apply(g: GraphModel, table: Seq<(usize, VertexModel)>, k: int) -> (
    GraphModel,
    Seq<MergeConflict>,
    Result<(), GraphError>,
)
    decreases table.len() - k,
{
    if k < 0 || k >= table.len() {
        (g, Seq::<MergeConflict>::empty(), Ok(()))
    } else {
        let p = merge_payload(g, table[k].0, table[k].1.data);
        if p.2 is Err {
            (p.0, Seq::<MergeConflict>::empty(), p.2)
        } else {
            let e = merge_edges(p.0, table[k].0, table[k].1.edges, 0);
            if e.2 is Err {
                (e.0, Seq::<MergeConflict>::empty(), e.2)
            } else {
                let rest = merge_apply(e.0, table, k + 1);
                (rest.0, p.1 + e.1 + rest.1, rest.2)
            }
        }
    }
}

/// Merging an incoming graph into a base graph: a monotone union.
/// Every incoming vertex is ensured present under its own id (the
/// identity mapping: an id present in both graphs names the same
/// vertex), then payloads and edges are replayed under the keep-base
/// conflict policy.  No vertex is ever deleted.
pub open spec fn spec_merge(g: GraphModel, other: GraphModel) -> (
    GraphModel,
    Seq<MergeConflict>,
    Result<(), GraphError>,
) {
    merge_apply(merge_add_phase(g, other.table, 0), other.table, 0)
}

/// Binding the same edge twice is the same as binding it once: the
/// second identical bind changes nothing and also succeeds.
pub proof fn lemma_bind_idempotent(g: GraphModel, v1: usize, v2: usize, l: Label)
    requires
        g.wf(),
        g.spec_bind(v1, v2, l).1 is Ok,
    ensures
        g.spec_bind(v1, v2, l).0.spec_bind(v1, v2, l).0 == g.spec_bind(v1, v2, l).0,
        g.spec_bind(v1, v2, l).0.spec_bind(v1, v2, l).1 is Ok,
{
    lemma_bind_wf(g, v1, v2, l);
    lemma_idx_of(g, v1);
    lemma_idx_of(g, v2);
    let a = g.active();
    lemma_touch(g, g.vertex(v2));
    let g1a = g.set_vertex(v2, g.vertex(v2).touch(a));
    lemma_set_vertex(g, v2, g.vertex(v2).touch(a));
    let w = g1a.vertex(v1);
    let vm1 = w.touch(a);
    let es1 = edges_insert(g1a.vertex(v1).edges, l, v2);
    let h = g.spec_bind(v1, v2, l).0;
    assert(h == g1a.set_vertex(v1, VertexModel { edges: es1, ..vm1 }));
    assert(w.vertex_wf(g1a));
    assert(w.can_touch(a)) by {
        if v1 == v2 {
            match a {
                None => {},
                Some(bb) => {
                    if !g.vertex(v2).stack.contains(bb) {
                        assert(w.stack == g.vertex(v2).stack.push(bb));
                        assert(w.stack[w.stack.len() - 1] == bb);
                        assert(w.stack.contains(bb));
                    }
                },
            }
        }
    }
    lemma_touch(g1a, w);
    let wm = VertexModel { edges: es1, ..vm1 };
    assert(wm.vertex_wf(g1a)) by {
        lemma_bind_wf(g, v1, v2, l);
        assert(h.wf());
        lemma_set_vertex(g1a, v1, VertexModel { edges: es1, ..vm1 });
    }
    lemma_set_vertex(g1a, v1, wm);
    // Second bind: the edge already exists with the same target, and
    // both stacks already hold the active branch.
    assert(h.active() == a);
    assert(h.has(v1) && h.has(v2));
    assert(h.vertex(v1) == wm);
    assert(edge_has(es1, l)) by {
        if edge_has(g1a.vertex(v1).edges, l) {
            let p = edge_idx(g1a.vertex(v1).edges, l);
            assert(es1[p] == (l, v2));
        } else {
            assert(es1[es1.len() - 1] == (l, v2));
        }
    }
    assert(h.vertex(v1).can_touch(a) && h.vertex(v2).can_touch(a)) by {
        match a {
            None => {},
            Some(bb) => {
                assert(wm.stack == vm1.stack);
                assert(vm1.stack.contains(bb)) by {
                    if !w.stack.contains(bb) {
                        assert(vm1.stack == w.stack.push(bb));
                        assert(vm1.stack[vm1.stack.len() - 1] == bb);
                    }
                }
                if v1 != v2 {
                    assert(h.vertex(v2) == g.vertex(v2).touch(a));
                    let w2 = g.vertex(v2);
                    if !w2.stack.contains(bb) {
                        assert(w2.touch(a).stack == w2.stack.push(bb));
                        assert(w2.touch(a).stack[w2.touch(a).stack.len() - 1] == bb);
                    }
                    assert(h.vertex(v2).stack.contains(bb));
                }
            },
        }
    }
    let h1a = h.set_vertex(v2, h.vertex(v2).touch(a));
    assert(h.vertex(v2).touch(a) == h.vertex(v2)) by {
        match a {
            None => {},
            Some(bb) => {
                assert(h.vertex(v2).stack.contains(bb)) by {
                    if v1 == v2 {
                        assert(h.vertex(v2) == wm);
                    }
                }
            },
        }
    }
    lemma_set_vertex(h, v2, h.vertex(v2).touch(a));
    assert(h1a =~= h) by {
        lemma_idx_of(h, v2);
        assert(h1a.table =~= h.table);
    }
    let wmm = h1a.vertex(v1).touch(a);
    assert(wmm == wm) by {
        match a {
            None => {},
            Some(bb) => {
                assert(wm.stack.contains(bb));
            },
        }
    }
    let es2 = edges_insert(h1a.vertex(v1).edges, l, v2);
    assert(es2 =~= es1) by {
        assert(edge_has(es1, l));
        let p = edge_idx(es1, l);
        assert(0 <= p < es1.len() && es1[p].0 == l);
        assert(es1[p].1 == v2) by {
            if edge_has(g1a.vertex(v1).edges, l) {
                let p0 = edge_idx(g1a.vertex(v1).edges, l);
                assert(es1[p0] == (l, v2));
                assert(h.wf());
                lemma_idx_of(h, v1);
                assert(h.vertex(v1).vertex_wf(h));
                if p != p0 {
                    assert(es1[p].0 != es1[p0].0 || p == p0);
                }
            } else {
                assert(es1[es1.len() - 1] == (l, v2));
                assert(h.vertex(v1).vertex_wf(h));
                if p != es1.len() - 1 {
                    assert(es1[p].0 != es1[es1.len() - 1].0 || p == es1.len() - 1);
                }
            }
        }
        assert(es2 == es1.update(p, (l, v2)));
        assert(forall|k: int| 0 <= k < es1.len() && k != p ==> es2[k] == es1[k]);
        assert(es2[p] == (l, v2) && es1[p] == (l, v2));
    }
    let hfinal = h1a.set_vertex(v1, VertexModel { edges: es2, ..wmm });
    lemma_set_vertex(h, v1, VertexModel { edges: es2, ..wmm });
    assert(VertexModel { edges: es2, ..wmm } =~= wm);
    assert(hfinal.table =~= h.table) by {
        lemma_idx_of(h, v1);
        assert(h.table[h.idx(v1)] == (v1, wm));
    }
    assert(hfinal =~= h);
}

/// Committing stores what the branch held: a vertex the branch touched
/// that is still tentative comes out `Stored`; nothing is deleted and
/// no payload changes.
pub proof fn lemma_commit_stores(g: GraphModel, b: usize, v: usize)
    requires
        g.wf(),
        g.has(v),
    ensures
        g.spec_commit(b).has(v),
        g.spec_commit(b).vertex(v).data == g.vertex(v).data,
        g.vertex(v).stack.contains(b) && g.vertex(v).persistence is Empty ==> (g.spec_commit(
            b,
        ).vertex(v).persistence is Stored),
        !(g.vertex(v).persistence is Empty) ==> g.spec_commit(b).vertex(v).persistence == g.vertex(
            v,
        ).persistence,
{
    lemma_commit_wf(g, b);
}

} // verus!

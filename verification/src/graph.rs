//! The dependency graph between cells.
//!
//! Two inverse adjacency tables are kept in step: `dep` maps a cell to the
//! cells it consulted, `req` maps a cell to the cells that consulted it.
//! The invariant `b in dep[a] <=> a in req[b]` holds through every
//! mutation. Reachability and cycles are defined over paths.

use vstd::prelude::*;

use crate::map::AddrMap;
use crate::map::AddrSet;

verus! {

/// Traversal state of one cell during the cycle check.
#[derive(Clone, Copy, Debug, PartialEq, Eq, Structural)]
enum Color {
    /// On the current walk.
    Gray,
    /// Fully explored.
    Black,
}

/// One step of the walk: a cell and how many of its successors were
/// examined already.
#[derive(Clone, Copy)]
struct Frame {
    node: u64,
    idx: usize,
}

/// Edge relation of one adjacency table.
pub open spec fn adj(m: Map<u64, AddrSet>, a: u64, b: u64) -> bool {
    m.dom().contains(a) && m[a]@.contains(b)
}

/// A nonempty walk along the table's edges.
pub open spec fn is_path(m: Map<u64, AddrSet>, p: Seq<u64>) -> bool {
    p.len() >= 1 && forall|i: int| 0 <= i < p.len() - 1 ==> adj(m, #[trigger] p[i], p[i + 1])
}

/// `b` can be reached from `a` (in zero or more steps).
pub open spec fn reach(m: Map<u64, AddrSet>, a: u64, b: u64) -> bool {
    exists|p: Seq<u64>| is_path(m, p) && p.first() == a && p.last() == b
}

/// `b` lies on a cycle: a walk of at least one edge returns to it.
pub open spec fn on_cycle(m: Map<u64, AddrSet>, b: u64) -> bool {
    exists|p: Seq<u64>| is_path(m, p) && p.len() >= 2 && p.first() == b && p.last() == b
}

/// Some cycle is reachable from `a`.
pub open spec fn has_reachable_cycle(m: Map<u64, AddrSet>, a: u64) -> bool {
    exists|b: u64| reach(m, a, b) && on_cycle(m, b)
}

pub proof fn lemma_reach_self(m: Map<u64, AddrSet>, a: u64)
    ensures
        reach(m, a, a),
{
    let p = seq![a];
    assert(is_path(m, p) && p.first() == a && p.last() == a);
}

pub proof fn lemma_reach_step(m: Map<u64, AddrSet>, a: u64, b: u64, c: u64)
    requires
        reach(m, a, b),
        adj(m, b, c),
    ensures
        reach(m, a, c),
{
    let p = choose|p: Seq<u64>| is_path(m, p) && p.first() == a && p.last() == b;
    let q = p.push(c);
    assert forall|i: int| 0 <= i < q.len() - 1 implies adj(m, #[trigger] q[i], q[i + 1]) by {
        if i < p.len() - 1 {
            assert(adj(m, p[i], p[i + 1]));
        }
    }
    assert(is_path(m, q) && q.first() == a && q.last() == c);
}

/// A set that contains `a` and is closed under the edges contains all that
/// `a` reaches.
pub proof fn lemma_reach_in_closed_set(m: Map<u64, AddrSet>, s: Set<u64>, a: u64, b: u64)
    requires
        s.contains(a),
        forall|x: u64, y: u64| s.contains(x) && adj(m, x, y) ==> s.contains(y),
        reach(m, a, b),
    ensures
        s.contains(b),
{
    let p = choose|p: Seq<u64>| is_path(m, p) && p.first() == a && p.last() == b;
    lemma_path_stays_in_closed_set(m, s, p);
}

proof fn lemma_path_stays_in_closed_set(m: Map<u64, AddrSet>, s: Set<u64>, p: Seq<u64>)
    requires
        is_path(m, p),
        s.contains(p.first()),
        forall|x: u64, y: u64| s.contains(x) && adj(m, x, y) ==> s.contains(y),
    ensures
        s.contains(p.last()),
    decreases p.len(),
{
    if p.len() >= 2 {
        assert(adj(m, p[0], p[1]));
        let q = p.drop_first();
        assert(is_path(m, q)) by {
            assert forall|i: int| 0 <= i < q.len() - 1 implies adj(m, #[trigger] q[i], q[i + 1]) by {
                assert(adj(m, p[i + 1], p[i + 2]));
            }
        }
        lemma_path_stays_in_closed_set(m, s, q);
    }
}

/// Cutting the first step off a path keeps it a path.
pub proof fn lemma_path_drop_first(m: Map<u64, AddrSet>, p: Seq<u64>)
    requires
        is_path(m, p),
        p.len() >= 2,
    ensures
        is_path(m, p.drop_first()),
        reach(m, p[1], p.last()),
{
    let q = p.drop_first();
    assert forall|i: int| 0 <= i < q.len() - 1 implies adj(m, #[trigger] q[i], q[i + 1]) by {
        assert(adj(m, p[i + 1], p[i + 2]));
    }
    assert(q.first() == p[1] && q.last() == p.last());
}

/// What holds of the coloring and the walk stack between steps of the
/// cycle check: gray cells are exactly the stack, the stack is an edge
/// path from the origin, every examined successor is black or the next
/// stack entry, black cells are closed under edges, reach no gray cell,
/// and lie on no cycle.
spec fn dfs_inv(g: DepGraph, origin: u64, c: Map<u64, Color>, st: Seq<Frame>) -> bool {
    &&& forall|i: int| 0 <= i < st.len() ==> is_gray(c, (#[trigger] st[i]).node)
    &&& forall|x: u64| is_gray(c, x) ==> stack_has(st, x)
    &&& forall|i: int, j: int|
        0 <= i < j < st.len() ==> (#[trigger] st[i]).node != (#[trigger] st[j]).node
    &&& forall|i: int| 0 <= i < st.len() - 1 ==> g.dep_edge((#[trigger] st[i]).node, st[i + 1].node)
    &&& (st.len() > 0 ==> st[0].node == origin)
    &&& forall|i: int| 0 <= i < st.len() ==> (#[trigger] st[i]).idx <= g.succ_seq(st[i].node).len()
    &&& forall|i: int, j: int|
        #![trigger g.succ_seq(st[i].node)[j]]
        0 <= i < st.len() && 0 <= j < st[i].idx ==> is_black(c, g.succ_seq(st[i].node)[j]) || (i + 1
            < st.len() && g.succ_seq(st[i].node)[j] == st[i + 1].node)
    &&& forall|b: u64, y: u64|
        is_black(c, b) && #[trigger] g.dep_edge(b, y) ==> is_black(c, y)
    &&& forall|b: u64, x: u64|
        #![trigger is_black(c, b), is_gray(c, x)]
        is_black(c, b) && is_gray(c, x) ==> !reach(g.dep_map(), b, x)
    &&& forall|b: u64| #[trigger] is_black(c, b) ==> !on_cycle(g.dep_map(), b)
    &&& forall|i: int| 0 <= i < st.len() ==> reach(g.dep_map(), origin, (#[trigger] st[i]).node)
    &&& (st.len() == 0 ==> is_black(c, origin))
}

/// Unexamined successors of the top frame, for termination.
spec fn frame_rem(g: DepGraph, st: Seq<Frame>) -> int {
    if st.len() > 0 {
        g.succ_seq(st.last().node).len() + 1 - st.last().idx
    } else {
        0
    }
}

spec fn is_gray(c: Map<u64, Color>, x: u64) -> bool {
    c.dom().contains(x) && c[x] == Color::Gray
}

spec fn is_black(c: Map<u64, Color>, x: u64) -> bool {
    c.dom().contains(x) && c[x] == Color::Black
}

spec fn black_set(c: Map<u64, Color>) -> Set<u64> {
    Set::new(|x: u64| is_black(c, x))
}

spec fn stack_has(st: Seq<Frame>, x: u64) -> bool {
    exists|i: int| 0 <= i < st.len() && (#[trigger] st[i]).node == x
}

/// The two inverse adjacency tables.
pub struct DepGraph {
    dep: AddrMap<AddrSet>,
    req: AddrMap<AddrSet>,
}

impl DepGraph {
    /// Forward storage (cell -> cells it consulted).
    pub closed spec fn dep_tbl(self) -> AddrMap<AddrSet> {
        self.dep
    }

    /// Inverse storage (cell -> cells that consulted it).
    pub closed spec fn req_tbl(self) -> AddrMap<AddrSet> {
        self.req
    }

    /// Raw forward table (cell -> cells it consulted).
    pub open spec fn dep_map(self) -> Map<u64, AddrSet> {
        self.dep_tbl()@
    }

    /// Raw inverse table (cell -> cells that consulted it).
    pub open spec fn req_map(self) -> Map<u64, AddrSet> {
        self.req_tbl()@
    }

    /// Cells that `a` consulted.
    pub open spec fn dep_set(self, a: u64) -> Set<u64> {
        if self.dep_map().dom().contains(a) {
            self.dep_map()[a]@
        } else {
            Set::empty()
        }
    }

    /// Cells that consulted `a`.
    pub open spec fn req_set(self, a: u64) -> Set<u64> {
        if self.req_map().dom().contains(a) {
            self.req_map()[a]@
        } else {
            Set::empty()
        }
    }

    pub open spec fn dep_edge(self, a: u64, b: u64) -> bool {
        adj(self.dep_map(), a, b)
    }

    pub open spec fn req_edge(self, a: u64, b: u64) -> bool {
        adj(self.req_map(), a, b)
    }

    /// One side's stored sets are well-formed and never empty.
    pub open spec fn side_wf(m: AddrMap<AddrSet>) -> bool {
        &&& m.wf()
        &&& forall|k: u64|
            m@.dom().contains(k) ==> (#[trigger] m@[k]).wf() && m@[k]@ != Set::<u64>::empty()
    }

    /// Both tables well-formed and exactly inverse to each other.
    pub open spec fn wf(self) -> bool {
        &&& Self::side_wf(self.dep_tbl())
        &&& Self::side_wf(self.req_tbl())
        &&& forall|a: u64, b: u64| #[trigger] self.dep_edge(a, b) <==> #[trigger] self.req_edge(b, a)
    }

    pub fn new() -> (r: DepGraph)
        ensures
            r.wf(),
            forall|a: u64| #[trigger] r.dep_set(a) == Set::<u64>::empty(),
            forall|a: u64| #[trigger] r.req_set(a) == Set::<u64>::empty(),
    {
        let r = DepGraph { dep: AddrMap::new(), req: AddrMap::new() };
        proof {
            assert(forall|a: u64| !r.dep_map().dom().contains(a));
            assert(forall|a: u64| !r.req_map().dom().contains(a));
        }
        r
    }

    /// The cells `from` consulted, as a sorted vector.
    pub fn successors(&self, from: u64) -> (r: Vec<u64>)
        requires
            self.wf(),
        ensures
            forall|j: int| 0 <= j < r@.len() ==> self.dep_set(from).contains(#[trigger] r@[j]),
            forall|b: u64| #[trigger] self.dep_set(from).contains(b) ==> r@.contains(b),
            crate::map::sorted_keys(r@),
    {
        match self.dep.get(from) {
            Some(s) => s.to_vec(),
            None => Vec::new(),
        }
    }

    /// The cells that consulted `to`, as a sorted vector.
    pub fn predecessors(&self, to: u64) -> (r: Vec<u64>)
        requires
            self.wf(),
        ensures
            forall|j: int| 0 <= j < r@.len() ==> self.req_set(to).contains(#[trigger] r@[j]),
            forall|b: u64| #[trigger] self.req_set(to).contains(b) ==> r@.contains(b),
            crate::map::sorted_keys(r@),
    {
        match self.req.get(to) {
            Some(s) => s.to_vec(),
            None => Vec::new(),
        }
    }

    /// Records that `from` consulted `to`, in both tables at once.
    pub fn add_edge(&mut self, from: u64, to: u64)
        requires
            old(self).wf(),
        ensures
            final(self).wf(),
            final(self).dep_set(from) == old(self).dep_set(from).insert(to),
            forall|x: u64| x != from ==> final(self).dep_set(x) == old(self).dep_set(x),
            final(self).req_set(to) == old(self).req_set(to).insert(from),
            forall|y: u64| y != to ==> final(self).req_set(y) == old(self).req_set(y),
    {
        let mut ds: AddrSet = match self.dep.remove(from) {
            Some(s) => s,
            None => AddrSet::new(),
        };
        ds.insert(to);
        self.dep.insert(from, ds);
        let mut rs: AddrSet = match self.req.remove(to) {
            Some(s) => s,
            None => AddrSet::new(),
        };
        rs.insert(from);
        self.req.insert(to, rs);
        proof {
            assert(self.dep_tbl().wf());
            assert forall|k: u64| self.dep_tbl()@.dom().contains(k) implies (#[trigger] self
                .dep_tbl()@[k]).wf() && self.dep_tbl()@[k]@ != Set::<u64>::empty() by {
                if k == from {
                    assert(self.dep_tbl()@[k]@.contains(to));
                    assert(Set::<u64>::empty().contains(to) == false);
                } else {
                    assert(self.dep_tbl()@[k] == old(self).dep_tbl()@[k]);
                }
            }
            assert(Self::side_wf(self.dep_tbl()));
            assert(self.req_tbl().wf());
            assert forall|k: u64| self.req_tbl()@.dom().contains(k) implies (#[trigger] self
                .req_tbl()@[k]).wf() && self.req_tbl()@[k]@ != Set::<u64>::empty() by {
                if k == to {
                    assert(self.req_tbl()@[k]@.contains(from));
                    assert(Set::<u64>::empty().contains(from) == false);
                } else {
                    assert(self.req_tbl()@[k] == old(self).req_tbl()@[k]);
                }
            }
            assert(Self::side_wf(self.req_tbl()));
            assert(final(self).dep_set(from) =~= old(self).dep_set(from).insert(to));
            assert(final(self).req_set(to) =~= old(self).req_set(to).insert(from));
            assert forall|x: u64| x != from implies final(self).dep_set(x) == old(self).dep_set(
                x,
            ) by {
                assert(final(self).dep_set(x) =~= old(self).dep_set(x));
            }
            assert forall|y: u64| y != to implies final(self).req_set(y) == old(self).req_set(
                y,
            ) by {
                assert(final(self).req_set(y) =~= old(self).req_set(y));
            }
            assert forall|a: u64, b: u64| #[trigger]
                final(self).dep_edge(a, b) <==> #[trigger] final(self).req_edge(b, a) by {
                if a == from && b == to {
                } else {
                    assert(old(self).dep_edge(a, b) <==> old(self).req_edge(b, a));
                    if a == from {
                        assert(final(self).dep_edge(a, b) == old(self).dep_edge(a, b));
                    }
                    if b == to {
                        assert(final(self).req_edge(b, a) == old(self).req_edge(b, a));
                    }
                }
            }
        }
    }

    /// The sorted successor list the check walks through.
    pub open spec fn succ_seq(self, x: u64) -> Seq<u64> {
        if self.dep_map().dom().contains(x) {
            self.dep_map()[x].key_seq()
        } else {
            Seq::empty()
        }
    }

    /// Successor list and successor set carry the same cells.
    pub proof fn lemma_succ_seq(self, x: u64)
        requires
            self.wf(),
        ensures
            forall|b: u64| #[trigger] self.succ_seq(x).contains(b) <==> self.dep_set(x).contains(b),
            forall|j: int|
                0 <= j < self.succ_seq(x).len() ==> self.dep_set(x).contains(
                    #[trigger] self.succ_seq(x)[j],
                ),
    {
        if self.dep_map().dom().contains(x) {
            self.dep_map()[x].lemma_dom();
        }
    }

    /// Forgets every cell that `from` consulted: clears its forward row
    /// and removes it from each inverse entry.
    pub fn drop_outgoing(&mut self, from: u64)
        requires
            old(self).wf(),
        ensures
            final(self).wf(),
            final(self).dep_set(from) == Set::<u64>::empty(),
            forall|x: u64| x != from ==> #[trigger] final(self).dep_set(x) == old(self).dep_set(x),
            forall|y: u64| #[trigger] final(self).req_set(y) == old(self).req_set(y).remove(from),
    {
        let outs: Option<AddrSet> = self.dep.remove(from);
        proof {
            assert(self.dep_tbl()@ == old(self).dep_tbl()@.remove(from));
        }
        match outs {
            None => {
                proof {
                    assert(final(self).dep_set(from) =~= Set::<u64>::empty());
                    assert forall|x: u64| x != from implies #[trigger] final(self).dep_set(x)
                        == old(self).dep_set(x) by {
                        assert(final(self).dep_set(x) =~= old(self).dep_set(x));
                    }
                    assert forall|y: u64| #[trigger] final(self).req_set(y) == old(self).req_set(
                        y,
                    ).remove(from) by {
                        assert(!old(self).dep_edge(from, y));
                        assert(!old(self).req_edge(y, from));
                        assert(final(self).req_set(y) =~= old(self).req_set(y).remove(from));
                    }
                    assert(Self::side_wf(self.dep_tbl())) by {
                        assert forall|k: u64| self.dep_tbl()@.dom().contains(k) implies (
                        #[trigger] self.dep_tbl()@[k]).wf() && self.dep_tbl()@[k]@ != Set::<
                            u64,
                        >::empty() by {
                            assert(self.dep_tbl()@[k] == old(self).dep_tbl()@[k]);
                        }
                    }
                    assert forall|a: u64, b: u64| #[trigger]
                        final(self).dep_edge(a, b) <==> #[trigger] final(self).req_edge(
                        b,
                        a,
                    ) by {
                        assert(old(self).dep_edge(a, b) <==> old(self).req_edge(b, a));
                        if a != from {
                            assert(final(self).dep_edge(a, b) == old(self).dep_edge(a, b));
                        } else {
                            assert(!old(self).dep_edge(from, b));
                        }
                    }
                }
            },
            Some(s) => {
                let ov: Vec<u64> = s.to_vec();
                let n: usize = ov.len();
                let mut i: usize = 0;
                proof {
                    s.lemma_dom();
                }
                while i < n
                    invariant
                        n == ov@.len(),
                        i <= n,
                        crate::map::sorted_keys(ov@),
                        forall|j: int| 0 <= j < n ==> old(self).dep_set(from).contains(
                            #[trigger] ov@[j],
                        ),
                        forall|b: u64| #[trigger]
                            old(self).dep_set(from).contains(b) ==> ov@.contains(b),
                        self.dep_tbl()@ == old(self).dep_tbl()@.remove(from),
                        Self::side_wf(self.dep_tbl()),
                        Self::side_wf(self.req_tbl()),
                        forall|y: u64| ov@.subrange(0, i as int).contains(y) ==> #[trigger] self
                            .req_set(y) == old(self).req_set(y).remove(from),
                        forall|y: u64| !ov@.subrange(0, i as int).contains(y) ==> #[trigger] self
                            .req_set(y) == old(self).req_set(y),
                    decreases n - i,
                {
                    let ghost pre = *self;
                    let y: u64 = ov[i];
                    let mut rs: AddrSet = match self.req.remove(y) {
                        Some(r) => r,
                        None => AddrSet::new(),
                    };
                    rs.remove(from);
                    let keep: bool = !rs.is_empty();
                    if keep {
                        self.req.insert(y, rs);
                    }
                    proof {
                        assert(!ov@.subrange(0, i as int).contains(y)) by {
                            if ov@.subrange(0, i as int).contains(y) {
                                let j = choose|j: int|
                                    0 <= j < i && #[trigger] ov@.subrange(0, i as int)[j] == y;
                                assert(ov@[j] == y && j < i);
                            }
                        }
                        assert(pre.req_set(y) == old(self).req_set(y));
                        assert(self.req_set(y) =~= pre.req_set(y).remove(from));
                        assert forall|z: u64| z != y implies #[trigger] self.req_set(z)
                            == pre.req_set(z) by {
                            assert(self.req_set(z) =~= pre.req_set(z));
                        }
                        assert(ov@.subrange(0, i + 1 as int).drop_last() =~= ov@.subrange(
                            0,
                            i as int,
                        ));
                        assert forall|z: u64|
                            ov@.subrange(0, i + 1 as int).contains(z) implies #[trigger] self
                            .req_set(z) == old(self).req_set(z).remove(from) by {
                            if z != y {
                                let j = choose|j: int|
                                    0 <= j < i + 1 && #[trigger] ov@.subrange(0, i + 1 as int)[j]
                                        == z;
                                assert(ov@.subrange(0, i as int)[j] == z);
                            }
                        }
                        assert forall|z: u64|
                            !ov@.subrange(0, i + 1 as int).contains(z) implies #[trigger] self
                            .req_set(z) == old(self).req_set(z) by {
                            assert(ov@.subrange(0, i + 1 as int)[i as int] == y);
                            assert(z != y);
                            if ov@.subrange(0, i as int).contains(z) {
                                let j = choose|j: int|
                                    0 <= j < i && #[trigger] ov@.subrange(0, i as int)[j] == z;
                                assert(ov@.subrange(0, i + 1 as int)[j] == z);
                            }
                        }
                        assert(Self::side_wf(self.req_tbl())) by {
                            assert forall|k: u64| self.req_tbl()@.dom().contains(k) implies (
                            #[trigger] self.req_tbl()@[k]).wf() && self.req_tbl()@[k]@ != Set::<
                                u64,
                            >::empty() by {
                                if k == y {
                                    assert(keep);
                                } else {
                                    assert(self.req_tbl()@[k] == pre.req_tbl()@[k]);
                                }
                            }
                        }
                    }
                    i = i + 1;
                }
                proof {
                    assert(final(self).dep_set(from) =~= Set::<u64>::empty());
                    assert forall|x: u64| x != from implies #[trigger] final(self).dep_set(x)
                        == old(self).dep_set(x) by {
                        assert(final(self).dep_set(x) =~= old(self).dep_set(x));
                    }
                    assert(ov@.subrange(0, n as int) =~= ov@);
                    assert forall|y: u64| #[trigger] final(self).req_set(y) == old(self).req_set(
                        y,
                    ).remove(from) by {
                        if ov@.contains(y) {
                        } else {
                            assert(!old(self).dep_set(from).contains(y));
                            assert(!old(self).dep_edge(from, y));
                            assert(!old(self).req_edge(y, from));
                            assert(!old(self).req_set(y).contains(from));
                            assert(final(self).req_set(y) =~= old(self).req_set(y).remove(from));
                        }
                    }
                    assert forall|a: u64, b: u64| #[trigger]
                        final(self).dep_edge(a, b) <==> #[trigger] final(self).req_edge(
                        b,
                        a,
                    ) by {
                        assert(old(self).dep_edge(a, b) <==> old(self).req_edge(b, a));
                        assert(final(self).req_set(b) == old(self).req_set(b).remove(from));
                        assert(final(self).req_edge(b, a) <==> final(self).req_set(b).contains(a))
                            by {
                            if final(self).req_map().dom().contains(b) {
                            } else {
                                assert(final(self).req_set(b) =~= Set::<u64>::empty());
                            }
                        }
                        assert(old(self).req_edge(b, a) <==> old(self).req_set(b).contains(a)) by {
                            if old(self).req_map().dom().contains(b) {
                            } else {
                                assert(old(self).req_set(b) =~= Set::<u64>::empty());
                            }
                        }
                        if a != from {
                            assert(final(self).dep_edge(a, b) == old(self).dep_edge(a, b));
                        } else {
                            assert(!final(self).dep_edge(from, b));
                        }
                    }
                }
            },
        }
    }

    /// Depth-first search with gray/black coloring over the `dep` edges:
    /// reports whether a walk from `origin` can run into a cycle.
    #[verifier::rlimit(100)]
    pub fn has_cycle_from(&self, origin: u64) -> (r: bool)
        requires
            self.wf(),
        ensures
            r == has_reachable_cycle(self.dep_map(), origin),
    {
        let ghost m = self.dep_map();
        let mut colors: AddrMap<Color> = AddrMap::new();
        let mut stack: Vec<Frame> = Vec::new();
        colors.insert(origin, Color::Gray);
        stack.push(Frame { node: origin, idx: 0 });
        proof {
            lemma_reach_self(m, origin);
            assert(stack@[0].node == origin);
            assert forall|x: u64| is_gray(colors@, x) implies stack_has(stack@, x) by {
                assert(x == origin);
                assert(stack@[0].node == x);
            }
            colors.lemma_len_bound();
        }
        while stack.len() > 0
            invariant
                self.wf(),
                m == self.dep_map(),
                colors.wf(),
                colors.key_seq().len() <= usize::MAX,
                dfs_inv(*self, origin, colors@, stack@),
            decreases
                    usize::MAX - colors.key_seq().len(),
                    stack@.len(),
                    frame_rem(*self, stack@),
        {
            let ghost c0 = colors@;
            let ghost st0 = stack@;
            let top: usize = stack.len() - 1;
            let fr: Frame = stack[top];
            let node: u64 = fr.node;
            let cnt: usize = match self.dep.get(node) {
                Some(s) => s.len(),
                None => 0,
            };
            proof {
                assert(cnt == self.succ_seq(node).len());
                self.lemma_succ_seq(node);
            }
            if fr.idx >= cnt {
                // every successor examined: retire the cell
                stack.pop();
                proof {
                    colors.lemma_no_dup();
                    colors.lemma_dom();
                }
                colors.insert(node, Color::Black);
                proof {
                    colors.lemma_no_dup();
                    colors.lemma_dom();
                    colors.lemma_len_bound();
                    assert(colors@.dom() =~= c0.dom());
                    assert(colors.key_seq().len() == c0.dom().len());
                    assert(fr.idx == cnt);
                    assert forall|y: u64| #[trigger] self.dep_edge(node, y) implies is_black(
                        c0,
                        y,
                    ) by {
                        assert(self.dep_set(node).contains(y));
                        assert(self.succ_seq(node).contains(y));
                        let j = choose|j: int|
                            0 <= j < self.succ_seq(node).len() && #[trigger] self.succ_seq(node)[j]
                                == y;
                        assert(st0[top as int].idx == cnt);
                        assert(is_black(c0, self.succ_seq(node)[j]) || (top as int + 1 < st0.len()
                            && self.succ_seq(node)[j] == st0[top as int + 1].node));
                    }
                    assert forall|i: int| 0 <= i < stack@.len() implies is_gray(
                        colors@,
                        (#[trigger] stack@[i]).node,
                    ) by {
                        assert(stack@[i] == st0[i]);
                        assert(st0[i].node != node);
                    }
                    assert forall|x: u64| is_gray(colors@, x) implies stack_has(stack@, x) by {
                        assert(x != node);
                        assert(is_gray(c0, x));
                        let i = choose|i: int|
                            0 <= i < st0.len() && (#[trigger] st0[i]).node == x;
                        assert(i != top as int);
                        assert(stack@[i].node == x);
                    }
                    assert forall|i: int, j: int|
                        #![trigger self.succ_seq(stack@[i].node)[j]]
                        0 <= i < stack@.len() && 0 <= j < stack@[i].idx implies is_black(
                        colors@, self.succ_seq(stack@[i].node)[j]) || (i + 1
                            < stack@.len() && self.succ_seq(stack@[i].node)[j] == stack@[i
                            + 1].node) by {
                        assert(stack@[i] == st0[i]);
                        assert(is_black(c0, self.succ_seq(st0[i].node)[j]) || (i + 1 < st0.len()
                            && self.succ_seq(st0[i].node)[j] == st0[i + 1].node));
                        if !is_black(c0, self.succ_seq(st0[i].node)[j]) {
                            if i + 1 < stack@.len() {
                                assert(stack@[i + 1] == st0[i + 1]);
                            } else {
                                // the frame above was the retired cell
                                assert(st0[i + 1].node == node);
                                assert(is_black(colors@, self.succ_seq(st0[i].node)[j]));
                            }
                        }
                    }
                    assert forall|b: u64, y: u64|
                        is_black(colors@, b) && #[trigger] self.dep_edge(b, y) implies is_black(
                        colors@,
                        y,
                    ) by {
                        if b == node {
                            assert(is_black(c0, y));
                        } else {
                            assert(is_black(c0, b));
                            assert(is_black(c0, y));
                        }
                    }
                    assert forall|b: u64, x: u64|
                        is_black(colors@, b) && is_gray(colors@, x) implies !reach(m, b, x) by {
                        assert(x != node);
                        assert(is_gray(c0, x));
                        if b == node {
                            if reach(m, node, x) {
                                let p = choose|p: Seq<u64>|
                                    is_path(m, p) && p.first() == node && p.last() == x;
                                assert(p.len() >= 2);
                                assert(adj(m, p[0], p[1]));
                                assert(self.dep_edge(node, p[1]));
                                assert(is_black(c0, p[1]));
                                lemma_path_drop_first(m, p);
                                assert(reach(m, p[1], x));
                                assert(false);
                            }
                        } else {
                            assert(is_black(c0, b));
                        }
                    }
                    assert forall|b: u64| #[trigger] is_black(colors@, b) implies !on_cycle(
                        m,
                        b,
                    ) by {
                        if b == node {
                            if on_cycle(m, node) {
                                let p = choose|p: Seq<u64>|
                                    is_path(m, p) && p.len() >= 2 && p.first() == node && p.last()
                                        == node;
                                assert(adj(m, p[0], p[1]));
                                assert(self.dep_edge(node, p[1]));
                                assert(is_black(c0, p[1]));
                                lemma_path_drop_first(m, p);
                                assert(reach(m, p[1], node));
                                assert(is_gray(c0, node));
                                assert(false);
                            }
                        } else {
                            assert(is_black(c0, b));
                        }
                    }
                    if stack@.len() == 0 {
                        assert(st0[0].node == origin);
                        assert(node == origin);
                    }
                    assert(dfs_inv(*self, origin, colors@, stack@));
                }
            } else {
                let s_val: u64 = match self.dep.get(node) {
                    Some(s) => s.key_at(fr.idx),
                    None => 0,
                };
                proof {
                    assert(s_val == self.succ_seq(node)[fr.idx as int]);
                    assert(self.dep_set(node).contains(s_val));
                    assert(self.dep_edge(node, s_val));
                }
                stack.pop();
                stack.push(Frame { node, idx: fr.idx + 1 });
                proof {
                    assert(stack@ =~= st0.update(top as int, Frame { node, idx: (fr.idx + 1) as usize }));
                    assert(stack@.len() == st0.len());
                }
                let sc: Option<Color> = match colors.get(s_val) {
                    Some(c) => Some(*c),
                    None => None,
                };
                match sc {
                    Some(Color::Gray) => {
                        proof {
                            // the gray hit closes a cycle through s_val
                            assert(is_gray(c0, s_val));
                            let i = choose|i: int|
                                0 <= i < st0.len() && (#[trigger] st0[i]).node == s_val;
                            let q0 = Seq::new(
                                (st0.len() - i) as nat,
                                |j: int| st0[i + j].node,
                            );
                            let q = q0.push(s_val);
                            assert forall|k: int| 0 <= k < q.len() - 1 implies adj(
                                m,
                                #[trigger] q[k],
                                q[k + 1],
                            ) by {
                                if k < q.len() - 2 {
                                    assert(q[k] == st0[i + k].node);
                                    assert(q[k + 1] == st0[i + k + 1].node);
                                    assert(self.dep_edge(st0[i + k].node, st0[i + k + 1].node));
                                } else {
                                    assert(q[k] == st0[st0.len() - 1].node);
                                    assert(q[k] == node);
                                    assert(q[k + 1] == s_val);
                                }
                            }
                            assert(q.len() >= 2);
                            assert(q.first() == st0[i].node);
                            assert(q.last() == s_val);
                            assert(is_path(m, q));
                            assert(on_cycle(m, s_val));
                            assert(reach(m, origin, s_val));
                            assert(has_reachable_cycle(m, origin));
                        }
                        return true;
                    },
                    Some(Color::Black) => {
                        proof {
                            assert forall|i: int, j: int|
                                #![trigger self.succ_seq(stack@[i].node)[j]]
                                0 <= i < stack@.len() && 0 <= j < stack@[i].idx
                                    implies is_black(colors@, self.succ_seq(stack@[i].node)[j]) || (
                            i + 1 < stack@.len() && self.succ_seq(stack@[i].node)[j] == stack@[i
                                + 1].node) by {
                                if i < top as int {
                                    assert(stack@[i] == st0[i]);
                                    assert(stack@[i + 1].node == st0[i + 1].node);
                                } else {
                                    assert(stack@[i].node == node && stack@[i].idx == fr.idx + 1);
                                    if j < fr.idx {
                                        assert(is_black(c0, self.succ_seq(node)[j]) || (top as int
                                            + 1 < st0.len() && self.succ_seq(node)[j] == st0[top
                                            as int + 1].node));
                                    } else {
                                        assert(j == fr.idx);
                                        assert(self.succ_seq(node)[j] == s_val);
                                    }
                                }
                            }
                            assert forall|i: int| 0 <= i < stack@.len() implies is_gray(
                                colors@,
                                (#[trigger] stack@[i]).node,
                            ) by {
                                assert(stack@[i].node == st0[i].node);
                            }
                            assert forall|x: u64| is_gray(colors@, x) implies stack_has(
                                stack@,
                                x,
                            ) by {
                                let i = choose|i: int|
                                    0 <= i < st0.len() && (#[trigger] st0[i]).node == x;
                                assert(stack@[i].node == x);
                            }
                            assert forall|i: int| 0 <= i < stack@.len() implies (
                            #[trigger] stack@[i]).idx <= self.succ_seq(stack@[i].node).len() by {
                                if i != top as int {
                                    assert(stack@[i] == st0[i]);
                                } else {
                                    assert(stack@[i].node == node && stack@[i].idx == fr.idx + 1);
                                }
                            }
                            assert forall|i: int| 0 <= i < stack@.len() - 1 implies self.dep_edge(
                                (#[trigger] stack@[i]).node,
                                stack@[i + 1].node,
                            ) by {
                                assert(stack@[i].node == st0[i].node);
                                assert(stack@[i + 1].node == st0[i + 1].node);
                            }
                            assert forall|i: int| 0 <= i < stack@.len() implies reach(
                                m,
                                origin,
                                (#[trigger] stack@[i]).node,
                            ) by {
                                assert(stack@[i].node == st0[i].node);
                            }
                            assert(stack@[0].node == st0[0].node);
                            assert(dfs_inv(*self, origin, colors@, stack@));
                        }
                    },
                    None => {
                        proof {
                            colors.lemma_no_dup();
                            colors.lemma_dom();
                            colors.lemma_finite();
                        }
                        colors.insert(s_val, Color::Gray);
                        stack.push(Frame { node: s_val, idx: 0 });
                        proof {
                            colors.lemma_no_dup();
                            colors.lemma_dom();
                            colors.lemma_len_bound();
                            assert(!c0.dom().contains(s_val));
                            assert(colors@.dom() =~= c0.dom().insert(s_val));
                            colors.lemma_finite();
                            assert(colors.key_seq().len() == c0.dom().len() + 1) by {
                                broadcast use vstd::set::group_set_axioms;

                            }
                            let ghost st1 = st0.update(
                                top as int,
                                Frame { node, idx: (fr.idx + 1) as usize },
                            );
                            assert(stack@ =~= st1.push(Frame { node: s_val, idx: 0 }));
                            assert forall|i: int| 0 <= i < stack@.len() implies is_gray(
                                colors@,
                                (#[trigger] stack@[i]).node,
                            ) by {
                                if i < stack@.len() - 1 {
                                    assert(stack@[i].node == st0[i].node);
                                    assert(is_gray(c0, st0[i].node));
                                } else {
                                    assert(stack@[i].node == s_val);
                                }
                            }
                            assert forall|x: u64| is_gray(colors@, x) implies stack_has(
                                stack@,
                                x,
                            ) by {
                                if x == s_val {
                                    assert(stack@[stack@.len() - 1].node == x);
                                } else {
                                    assert(is_gray(c0, x));
                                    let i = choose|i: int|
                                        0 <= i < st0.len() && (#[trigger] st0[i]).node == x;
                                    assert(stack@[i].node == x);
                                }
                            }
                            assert forall|i: int, j: int|
                                0 <= i < j < stack@.len() implies (#[trigger] stack@[i]).node != (
                            #[trigger] stack@[j]).node by {
                                if j < stack@.len() - 1 {
                                    assert(stack@[i].node == st0[i].node);
                                    assert(stack@[j].node == st0[j].node);
                                } else {
                                    assert(stack@[j].node == s_val);
                                    assert(stack@[i].node == st0[i].node);
                                    assert(is_gray(c0, st0[i].node));
                                }
                            }
                            assert forall|i: int| 0 <= i < stack@.len() - 1 implies self.dep_edge(
                                (#[trigger] stack@[i]).node,
                                stack@[i + 1].node,
                            ) by {
                                if i < stack@.len() - 2 {
                                    assert(stack@[i].node == st0[i].node);
                                    assert(stack@[i + 1].node == st0[i + 1].node);
                                } else {
                                    assert(stack@[i].node == node);
                                    assert(stack@[i + 1].node == s_val);
                                }
                            }
                            assert forall|i: int, j: int|
                                #![trigger self.succ_seq(stack@[i].node)[j]]
                                0 <= i < stack@.len() && 0 <= j < stack@[i].idx
                                    implies is_black(colors@, self.succ_seq(stack@[i].node)[j]) || (
                            i + 1 < stack@.len() && self.succ_seq(stack@[i].node)[j] == stack@[i
                                + 1].node) by {
                                if i < top as int {
                                    assert(stack@[i] == st0[i]);
                                    assert(stack@[i + 1].node == st0[i + 1].node);
                                    assert(is_black(c0, self.succ_seq(st0[i].node)[j]) || (i + 1
                                        < st0.len() && self.succ_seq(st0[i].node)[j] == st0[i
                                        + 1].node));
                                } else if i == top as int {
                                    assert(stack@[i].node == node && stack@[i].idx == fr.idx + 1);
                                    if j < fr.idx {
                                        assert(is_black(c0, self.succ_seq(node)[j]) || (top as int
                                            + 1 < st0.len() && self.succ_seq(node)[j] == st0[top
                                            as int + 1].node));
                                    } else {
                                        assert(j == fr.idx);
                                        assert(self.succ_seq(node)[j] == s_val);
                                        assert(stack@[i + 1].node == s_val);
                                    }
                                } else {
                                    assert(stack@[i].idx == 0);
                                }
                            }
                            assert forall|b: u64, y: u64|
                                is_black(colors@, b) && #[trigger] self.dep_edge(
                                    b,
                                    y,
                                ) implies is_black(colors@, y) by {
                                assert(is_black(c0, b));
                                assert(is_black(c0, y));
                            }
                            assert forall|b: u64, x: u64|
                                is_black(colors@, b) && is_gray(colors@, x) implies !reach(
                                m,
                                b,
                                x,
                            ) by {
                                assert(is_black(c0, b));
                                if x == s_val {
                                    if reach(m, b, s_val) {
                                        assert forall|u: u64, v: u64|
                                            black_set(c0).contains(u) && adj(m, u, v) implies
                                            black_set(c0).contains(v) by {
                                            assert(is_black(c0, u));
                                            assert(self.dep_edge(u, v));
                                        }
                                        lemma_reach_in_closed_set(m, black_set(c0), b, s_val);
                                        assert(is_black(c0, s_val));
                                        assert(false);
                                    }
                                } else {
                                    assert(is_gray(c0, x));
                                }
                            }
                            assert forall|i: int| 0 <= i < stack@.len() implies reach(
                                m,
                                origin,
                                (#[trigger] stack@[i]).node,
                            ) by {
                                if i < stack@.len() - 1 {
                                    assert(stack@[i].node == st0[i].node);
                                } else {
                                    assert(reach(m, origin, node));
                                    lemma_reach_step(m, origin, node, s_val);
                                }
                            }
                            assert forall|i: int| 0 <= i < stack@.len() implies (
                            #[trigger] stack@[i]).idx <= self.succ_seq(stack@[i].node).len() by {
                                if i < top as int {
                                    assert(stack@[i] == st0[i]);
                                } else if i == top as int {
                                    assert(stack@[i].node == node && stack@[i].idx == fr.idx + 1);
                                } else {
                                    assert(stack@[i].idx == 0);
                                }
                            }
                            assert forall|b: u64| #[trigger] is_black(colors@, b) implies
                                !on_cycle(m, b) by {
                                assert(is_black(c0, b));
                            }
                            assert(stack@[0].node == st0[0].node);
                            assert(dfs_inv(*self, origin, colors@, stack@));
                        }
                    },
                }
            }
        }
        proof {
            if has_reachable_cycle(m, origin) {
                let b = choose|b: u64| reach(m, b, b) && on_cycle(m, b) && reach(m, origin, b);
                let b2 = choose|b: u64| reach(m, origin, b) && on_cycle(m, b);
                assert(black_set(colors@).contains(origin));
                assert forall|x: u64, y: u64|
                    black_set(colors@).contains(x) && adj(m, x, y) implies black_set(
                    colors@,
                ).contains(y) by {
                    assert(is_black(colors@, x));
                    assert(self.dep_edge(x, y));
                    assert(is_black(colors@, y));
                }
                assert(black_set(colors@).contains(origin));
                lemma_reach_in_closed_set(m, black_set(colors@), origin, b2);
                assert(is_black(colors@, b2));
                assert(false);
            }
        }
        false
    }
}

} // verus!

//! Linkage-table construction over the package dependency graph. The
//! graph itself is petgraph's directed graph, kept behind trusted
//! declarations that name its contents; the traversal order comes from
//! petgraph's topological sort, and everything computed from it — table
//! merging, conflict detection, override collection — is verified.

use vstd::prelude::*;
use crate::package::{AddressInfo, EnvironmentName, Package, PackageName};
use petgraph::visit::EdgeRef;

verus! {

#[verifier::external_type_specification]
#[verifier::external_body]
#[verifier::reject_recursive_types(N)]
#[verifier::reject_recursive_types(E)]
#[verifier::reject_recursive_types(Ty)]
#[verifier::reject_recursive_types(Ix)]
pub struct ExGraph<N, E, Ty, Ix>(petgraph::graph::Graph<N, E, Ty, Ix>);

#[verifier::external_type_specification]
#[verifier::external_body]
pub struct ExDirected(petgraph::Directed);

/// Whether node index `v` appears in an order.
pub open spec fn appears(order: Seq<usize>, v: int) -> bool {
    exists|i: int| 0 <= i < order.len() && #[trigger] order[i] as int == v
}

/// What the graph's nodes hold, in index order: node `i` carries the
/// weight `graph_nodes(g)[i]`.
pub uninterp spec fn graph_nodes(g: petgraph::graph::DiGraph<u32, u32>) -> Seq<u32>;

/// The graph's edges: source index, target index, edge weight. Parallel
/// equal edges collapse; the count below keeps the tally exact.
pub uninterp spec fn graph_edges(g: petgraph::graph::DiGraph<u32, u32>) -> Set<(int, int, u32)>;

/// How many edges the graph holds, parallel edges included.
pub uninterp spec fn graph_edge_count(g: petgraph::graph::DiGraph<u32, u32>) -> nat;

/// Reachability over an edge set within `fuel` steps.
pub open spec fn graph_reach(edges: Set<(int, int, u32)>, src: int, dst: int, fuel: nat) -> bool
    decreases fuel,
{
    if src == dst {
        true
    } else if fuel == 0 {
        false
    } else {
        exists|m: int, w: u32| #[trigger] edges.contains((src, m, w))
            && graph_reach(edges, m, dst, (fuel - 1) as nat)
    }
}

/// Some node below `n` sits on a directed cycle of the edge set.
pub open spec fn edges_have_cycle(edges: Set<(int, int, u32)>, n: int) -> bool {
    exists|v: int, m: int, w: u32| 0 <= v < n && #[trigger] edges.contains((v, m, w))
        && graph_reach(edges, m, v, n as nat)
}

/// More fuel never loses a path.
pub proof fn lemma_graph_reach_mono(
    edges: Set<(int, int, u32)>,
    src: int,
    dst: int,
    f1: nat,
    f2: nat,
)
    requires
        f1 <= f2,
        graph_reach(edges, src, dst, f1),
    ensures
        graph_reach(edges, src, dst, f2),
    decreases f1,
{
    if src != dst && f1 > 0 {
        let (m, w) = choose|m: int, w: u32| #[trigger] edges.contains((src, m, w))
            && graph_reach(edges, m, dst, (f1 - 1) as nat);
        lemma_graph_reach_mono(edges, m, dst, (f1 - 1) as nat, (f2 - 1) as nat);
    }
}

/// Position of node `v` in an order that lists it.
pub open spec fn pos_in(order: Seq<usize>, v: int) -> int {
    choose|i: int| 0 <= i < order.len() && #[trigger] order[i] as int == v
}

/// Along a topological order (every edge pointing forward, every node
/// listed), any path from `u` fits in the positions after `u`, so that
/// much fuel decides reachability from `u`.
pub proof fn lemma_graph_reach_cap(
    edges: Set<(int, int, u32)>,
    order: Seq<usize>,
    u: int,
    v: int,
    fuel: nat,
)
    requires
        forall|e: (int, int, u32)| #[trigger] edges.contains(e)
            ==> 0 <= e.0 < order.len() && 0 <= e.1 < order.len(),
        forall|i: int, j: int, w2: u32| 0 <= i < order.len() && 0 <= j < order.len()
            && #[trigger] edges.contains((order[i] as int, order[j] as int, w2)) ==> i < j,
        forall|x2: int| 0 <= x2 < order.len() ==> #[trigger] appears(order, x2),
        graph_reach(edges, u, v, fuel),
        0 <= u < order.len(),
    ensures
        graph_reach(edges, u, v, (order.len() - 1 - pos_in(order, u)) as nat),
    decreases fuel,
{
    let n = order.len() as int;
    assert(appears(order, u));
    let pu = pos_in(order, u);
    assert(0 <= pu < n && order[pu] as int == u);
    if u != v {
        assert(fuel > 0);
        let (m, w) = choose|m: int, w: u32| #[trigger] edges.contains((u, m, w))
            && graph_reach(edges, m, v, (fuel - 1) as nat);
        assert(0 <= m < n);
        assert(appears(order, m));
        let pm = pos_in(order, m);
        assert(0 <= pm < n && order[pm] as int == m);
        assert(edges.contains((order[pu] as int, order[pm] as int, w)));
        assert(pu < pm);
        lemma_graph_reach_cap(edges, order, m, v, (fuel - 1) as nat);
        lemma_graph_reach_mono(edges, m, v, (n - 1 - pm) as nat, (n - 1 - pu - 1) as nat);
        assert(graph_reach(edges, u, v, (n - 1 - pu) as nat));
    }
}

/// Stepping back across one edge keeps a node in the closure, with the
/// full node count as fuel, given a topological order of the edges.
proof fn lemma_graph_reach_step(
    edges: Set<(int, int, u32)>,
    order: Seq<usize>,
    u: int,
    t: int,
    w: u32,
    x: int,
)
    requires
        forall|e: (int, int, u32)| #[trigger] edges.contains(e)
            ==> 0 <= e.0 < order.len() && 0 <= e.1 < order.len(),
        forall|i: int, j: int, w2: u32| 0 <= i < order.len() && 0 <= j < order.len()
            && #[trigger] edges.contains((order[i] as int, order[j] as int, w2)) ==> i < j,
        forall|x2: int| 0 <= x2 < order.len() ==> #[trigger] appears(order, x2),
        edges.contains((u, t, w)),
        graph_reach(edges, t, x, order.len() as nat),
    ensures
        graph_reach(edges, u, x, order.len() as nat),
{
    let n = order.len() as int;
    assert(0 <= t < n && 0 <= u < n);
    lemma_graph_reach_cap(edges, order, t, x, order.len() as nat);
    let pt = pos_in(order, t);
    assert(appears(order, t));
    assert(0 <= pt < n);
    lemma_graph_reach_mono(edges, t, x, (n - 1 - pt) as nat, (n - 1) as nat);
    assert(graph_reach(edges, u, x, n as nat));
}

/// Relies on petgraph `Graph::new`: an empty graph.
#[verifier::external_body]
fn graph_new() -> (g: petgraph::graph::DiGraph<u32, u32>)
    ensures
        graph_nodes(g).len() == 0,
        graph_edges(g) == Set::<(int, int, u32)>::empty(),
        graph_edge_count(g) == 0,
{
    petgraph::graph::DiGraph::new()
}

/// Relies on petgraph `Graph::add_node`: appends one node and returns
/// its index; node indices are contiguous from zero. The call aborts at
/// the index-type limit, so that many nodes are excluded here.
#[verifier::external_body]
fn graph_add_node(g: &mut petgraph::graph::DiGraph<u32, u32>, weight: u32) -> (ix: usize)
    requires
        graph_nodes(*old(g)).len() < u32::MAX,
    ensures
        graph_nodes(*final(g)) == graph_nodes(*old(g)).push(weight),
        graph_edges(*final(g)) == graph_edges(*old(g)),
        graph_edge_count(*final(g)) == graph_edge_count(*old(g)),
        ix == graph_nodes(*old(g)).len(),
{
    g.add_node(weight).index()
}

/// Relies on petgraph `Graph::add_edge`: records one directed edge.
/// Out-of-bounds endpoints and the index-type limit on the edge count
/// would abort, so both are excluded here.
#[verifier::external_body]
fn graph_add_edge(g: &mut petgraph::graph::DiGraph<u32, u32>, a: usize, b: usize, weight: u32)
    requires
        a < graph_nodes(*old(g)).len(),
        b < graph_nodes(*old(g)).len(),
        graph_edge_count(*old(g)) < u32::MAX,
    ensures
        graph_nodes(*final(g)) == graph_nodes(*old(g)),
        graph_edges(*final(g)) == graph_edges(*old(g)).insert((a as int, b as int, weight)),
        graph_edge_count(*final(g)) == graph_edge_count(*old(g)) + 1,
{
    g.add_edge(
        petgraph::graph::NodeIndex::new(a),
        petgraph::graph::NodeIndex::new(b),
        weight,
    );
}

/// Relies on petgraph `algo::toposort`: on success the order lists every
/// node exactly once, every edge points forward in it, and the graph has
/// no cycle; on failure the graph has a cycle and the returned index
/// lies on one.
#[verifier::external_body]
fn graph_toposort(g: &petgraph::graph::DiGraph<u32, u32>) -> (r: Result<Vec<usize>, usize>)
    ensures
        r is Ok ==> r->Ok_0@.len() == graph_nodes(*g).len(),
        r is Ok ==> forall|i: int| 0 <= i < r->Ok_0@.len()
            ==> 0 <= #[trigger] r->Ok_0@[i] < graph_nodes(*g).len(),
        r is Ok ==> forall|i: int, j: int| 0 <= i < j < r->Ok_0@.len()
            ==> #[trigger] r->Ok_0@[i] != #[trigger] r->Ok_0@[j],
        r is Ok ==> forall|i: int, j: int, w: u32|
            0 <= i < r->Ok_0@.len() && 0 <= j < r->Ok_0@.len()
                && #[trigger] graph_edges(*g).contains((r->Ok_0@[i] as int,
                    r->Ok_0@[j] as int, w))
                ==> i < j,
        r is Ok ==> forall|v: int| 0 <= v < graph_nodes(*g).len()
            ==> #[trigger] appears(r->Ok_0@, v),
        r is Ok ==> !edges_have_cycle(graph_edges(*g), graph_nodes(*g).len() as int),
        r is Err ==> r->Err_0 < graph_nodes(*g).len(),
        r is Err ==> exists|m: int, w: u32|
            #[trigger] graph_edges(*g).contains((r->Err_0 as int, m, w))
            && graph_reach(graph_edges(*g), m, r->Err_0 as int, graph_nodes(*g).len() as nat),
    {
    match petgraph::algo::toposort(g, None) {
        Ok(order) => Ok(order.into_iter().map(|n| n.index()).collect()),
        Err(cycle) => Err(cycle.node_id().index()),
    }
}

/// Relies on petgraph `Graph::edges`: the outgoing edges of `a`, as
/// (target, weight) pairs. Only membership is promised; petgraph yields
/// them in reverse insertion order.
#[verifier::external_body]
fn graph_out_edges(g: &petgraph::graph::DiGraph<u32, u32>, a: usize) -> (r: Vec<(usize, u32)>)
    ensures
        forall|b: usize, w: u32| #[trigger] r@.contains((b, w))
            <==> graph_edges(*g).contains((a as int, b as int, w)),
{
    g.edges(petgraph::graph::NodeIndex::new(a))
        .map(|e| (e.target().index(), *e.weight()))
        .collect()
}

/// Mapping from original package address to the package (by index) to
/// use for that address, with unique keys.
pub type LinkageTable = Vec<(AddressInfo, u32)>;

#[derive(Clone, Copy, PartialEq, Eq, Structural, Debug)]
pub enum LinkageError {
    /// Two packages claim the same original address with different
    /// versions: the table entries disagree.
    InconsistentLinkage,
    /// The dependency graph has a cycle through the reported node.
    CyclicDependencies(usize),
}

pub open spec fn table_wf(t: Seq<(AddressInfo, u32)>) -> bool {
    forall|i: int, j: int| 0 <= i < j < t.len() ==> (#[trigger] t[i]).0 != (#[trigger] t[j]).0
}

pub open spec fn table_has(t: Seq<(AddressInfo, u32)>, addr: AddressInfo) -> bool {
    exists|i: int| 0 <= i < t.len() && (#[trigger] t[i]).0 == addr
}

/// Updates `parent` with every entry of `child`. Succeeds exactly when
/// the two tables agree on every shared address; then the result holds
/// exactly the union of the entries. On conflict the parent is left
/// unchanged.
#[verifier::loop_isolation(false)]
pub fn merge_linkage(parent: &mut LinkageTable, child: &LinkageTable) -> (ok: bool)
    requires
        table_wf(old(parent)@),
        table_wf(child@),
    ensures
        table_wf(final(parent)@),
        ok <==> (forall|e1: (AddressInfo, u32), e2: (AddressInfo, u32)|
            old(parent)@.contains(e1) && child@.contains(e2) && e1.0 == e2.0 ==> e1.1 == e2.1),
        ok ==> (forall|e: (AddressInfo, u32)| #[trigger] final(parent)@.contains(e)
            <==> (old(parent)@.contains(e) || child@.contains(e))),
        !ok ==> final(parent)@ == old(parent)@,
{
    // first pass: detect conflicts without touching the parent
    let mut i: usize = 0;
    while i < child.len()
        invariant
            0 <= i <= child@.len(),
            forall|e1: (AddressInfo, u32), e2: (AddressInfo, u32), k: int|
                parent@.contains(e1) && 0 <= k < i && child@[k] == e2 && e1.0 == e2.0
                    ==> e1.1 == e2.1,
        decreases child@.len() - i,
    {
        let (addr, pkg) = child[i];
        let mut j: usize = 0;
        while j < parent.len()
            invariant
                0 <= j <= parent@.len(),
                addr == child@[i as int].0,
                pkg == child@[i as int].1,
                forall|k: int| 0 <= k < j
                    ==> ((#[trigger] parent@[k]).0 == addr ==> parent@[k].1 == pkg),
            decreases parent@.len() - j,
        {
            if parent[j].0 == addr && parent[j].1 != pkg {
                proof {
                    assert(parent@.contains(parent@[j as int]));
                    assert(child@.contains(child@[i as int]));
                }
                return false;
            }
            j = j + 1;
        }
        proof {
            assert forall|e1: (AddressInfo, u32)| parent@.contains(e1)
                && e1.0 == child@[i as int].0 implies e1.1 == child@[i as int].1 by {
                let k = choose|k: int| 0 <= k < parent@.len() && parent@[k] == e1;
            }
        }
        i = i + 1;
    }
    proof {
        assert forall|e1: (AddressInfo, u32), e2: (AddressInfo, u32)|
            old(parent)@.contains(e1) && child@.contains(e2) && e1.0 == e2.0
            implies e1.1 == e2.1 by {
            let k = choose|k: int| 0 <= k < child@.len() && child@[k] == e2;
        }
    }
    // second pass: insert the entries the parent lacks
    let ghost base = parent@;
    let mut i2: usize = 0;
    while i2 < child.len()
        invariant
            0 <= i2 <= child@.len(),
            table_wf(parent@),
            forall|e: (AddressInfo, u32)| #[trigger] parent@.contains(e)
                <==> (base.contains(e)
                    || (exists|k: int| 0 <= k < i2 && child@[k] == e
                        && !table_has(base, e.0))),
            forall|e1: (AddressInfo, u32), e2: (AddressInfo, u32)|
                base.contains(e1) && child@.contains(e2) && e1.0 == e2.0 ==> e1.1 == e2.1,
            forall|a: AddressInfo| table_has(parent@, a)
                ==> table_has(base, a) || (exists|k: int|
                    0 <= k < i2 && (#[trigger] child@[k]).0 == a),
        decreases child@.len() - i2,
    {
        let (addr, pkg) = child[i2];
        if !table_contains_addr(parent, addr) {
            let ghost pre = parent@;
            parent.push((addr, pkg));
            proof {
                assert(parent@[pre.len() as int] == (addr, pkg));
                if table_has(base, addr) {
                    let m = choose|m: int| 0 <= m < base.len()
                        && (#[trigger] base[m]).0 == addr;
                    assert(base.contains(base[m]));
                    assert(pre.contains(base[m]));
                    let w = choose|w: int| 0 <= w < pre.len() && pre[w] == base[m];
                    assert(table_has(pre, addr)) by {
                        assert(pre[w].0 == addr);
                    }
                    assert(false);
                }
                assert forall|e: (AddressInfo, u32)| #[trigger] parent@.contains(e)
                    implies pre.contains(e) || e == (addr, pkg) by {
                    let k = choose|k: int| 0 <= k < parent@.len() && parent@[k] == e;
                    if k < pre.len() {
                        assert(pre[k] == e);
                    }
                }
                assert forall|e: (AddressInfo, u32)| pre.contains(e)
                    implies #[trigger] parent@.contains(e) by {
                    let k = choose|k: int| 0 <= k < pre.len() && pre[k] == e;
                    assert(parent@[k] == e);
                }
                assert(parent@.contains((addr, pkg)));
                assert(child@.contains(child@[i2 as int]));
                assert forall|p: int, q: int| 0 <= p < q < parent@.len()
                    implies (#[trigger] parent@[p]).0 != (#[trigger] parent@[q]).0 by {
                    if q == parent@.len() - 1 {
                        assert(pre.contains(parent@[p])) by {
                            assert(pre[p] == parent@[p]);
                        }
                        if parent@[p].0 == addr {
                            assert(table_has(pre, addr)) by {
                                let k = choose|k: int| 0 <= k < pre.len()
                                    && pre[k] == parent@[p];
                                assert(pre[k].0 == addr);
                            }
                            if !table_has(base, addr) {
                            }
                        }
                    } else {
                        assert(pre[p] == parent@[p] && pre[q] == parent@[q]);
                    }
                }
            }
        } else {
            proof {
                assert(child@.contains(child@[i2 as int]));
                if !table_has(base, addr) {
                    let k = choose|k: int| 0 <= k < i2
                        && (#[trigger] child@[k]).0 == addr;
                    assert(child@[k].0 == child@[i2 as int].0);
                    assert(child@[k].1 == child@[i2 as int].1) by {
                        assert(child@.contains(child@[k]));
                        if k < i2 {
                            assert(table_wf(child@));
                        }
                    }
                    assert(table_has(parent@, addr));
                    let m = choose|m: int| 0 <= m < parent@.len()
                        && (#[trigger] parent@[m]).0 == addr;
                    assert(parent@.contains(parent@[m]));
                    assert(parent@[m].1 == pkg);
                    assert(parent@.contains((addr, pkg)));
                }
            }
        }
        i2 = i2 + 1;
    }
    proof {
        assert forall|e: (AddressInfo, u32)| (base.contains(e) || child@.contains(e))
            implies #[trigger] parent@.contains(e) by {
            if child@.contains(e) && !base.contains(e) {
                let k = choose|k: int| 0 <= k < child@.len() && child@[k] == e;
                if table_has(base, e.0) {
                    let m = choose|m: int| 0 <= m < base.len()
                        && (#[trigger] base[m]).0 == e.0;
                    assert(base.contains(base[m]));
                    assert(base[m].1 == e.1);
                    assert(base[m] == e);
                }
            }
        }
    }
    true
}

/// Linear scan of a linkage table for an address.
fn table_contains_addr(t: &LinkageTable, addr: AddressInfo) -> (found: bool)
    ensures
        found == table_has(t@, addr),
{
    let mut i: usize = 0;
    while i < t.len()
        invariant
            0 <= i <= t@.len(),
            forall|k: int| 0 <= k < i ==> (#[trigger] t@[k]).0 != addr,
        decreases t@.len() - i,
    {
        if t[i].0 == addr {
            proof {
                assert(table_has(t@, addr)) by {
                    assert(t@[i as int].0 == addr);
                }
            }
            return true;
        }
        i = i + 1;
    }
    false
}

/// The package dependency graph: petgraph holds the shape (node `i`
/// carries weight `i`, pointing into `packages`; an edge weight points
/// into `names`, the dependency name on that edge).
pub struct PackageGraph {
    pub inner: petgraph::graph::DiGraph<u32, u32>,
    pub packages: Vec<Package>,
    pub names: Vec<PackageName>,
}

impl PackageGraph {
    pub open spec fn wf(self) -> bool {
        &&& graph_nodes(self.inner).len() == self.packages@.len()
        &&& self.packages@.len() <= u32::MAX
        &&& graph_edge_count(self.inner) <= self.names@.len()
        &&& forall|e: (int, int, u32)| #[trigger] graph_edges(self.inner).contains(e)
            ==> 0 <= e.0 < self.packages@.len() && 0 <= e.1 < self.packages@.len()
                && e.2 < self.names@.len()
        &&& forall|i: int| 0 <= i < self.packages@.len()
            ==> (#[trigger] self.packages@[i]).wf()
    }

    /// Package `dst` lies in the dependency closure of `src`.
    pub open spec fn reaches(self, src: int, dst: int) -> bool {
        graph_reach(graph_edges(self.inner), src, dst, self.packages@.len() as nat)
    }

    /// The dependency graph has a cycle.
    pub open spec fn has_cycle(self) -> bool {
        edges_have_cycle(graph_edges(self.inner), self.packages@.len() as int)
    }

    /// Package `v` is published under `addr` in `env`.
    pub open spec fn publishes(self, v: int, env: Seq<char>, addr: AddressInfo) -> bool {
        &&& 0 <= v < self.packages@.len()
        &&& self.packages@[v].spec_has_publication(env)
        &&& self.packages@[v].publications@[
            self.packages@[v].spec_publication_index(env)].1.original_id == addr
    }

    /// The entry `(addr, pkg)` belongs to the linkage closure of `src`:
    /// the package is reachable from `src` and published under `addr`.
    pub open spec fn linkage_entry(self, src: int, env: Seq<char>, addr: AddressInfo, pkg: u32) -> bool {
        self.reaches(src, pkg as int) && self.publishes(pkg as int, env, addr)
    }

    /// Node `v` has an outgoing edge that leads back to it: it lies on
    /// a cycle.
    pub open spec fn on_cycle(self, v: int) -> bool {
        exists|m: int, w: u32| #[trigger] graph_edges(self.inner).contains((v, m, w))
            && graph_reach(graph_edges(self.inner), m, v, self.packages@.len() as nat)
    }

    /// Two packages in the closure of one node dispute one address.
    pub open spec fn linkage_conflict(self, env: Seq<char>) -> bool {
        exists|u: int, v1: int, v2: int, addr: AddressInfo|
            #![trigger self.reaches(u, v1), self.reaches(u, v2), self.publishes(v1, env, addr)]
            0 <= u < self.packages@.len()
                && self.reaches(u, v1) && self.reaches(u, v2)
                && self.publishes(v1, env, addr) && self.publishes(v2, env, addr)
                && v1 != v2
    }

    pub fn new() -> (r: PackageGraph)
        ensures
            r.wf(),
            r.packages@.len() == 0,
    {
        PackageGraph { inner: graph_new(), packages: Vec::new(), names: Vec::new() }
    }

    /// Adds a package as a new graph node; returns its index.
    pub fn add_package(&mut self, p: Package) -> (ix: usize)
        requires
            old(self).wf(),
            old(self).packages@.len() < u32::MAX,
            p.wf(),
        ensures
            final(self).wf(),
            final(self).packages@ == old(self).packages@.push(p),
            final(self).packages@.len() == old(self).packages@.len() + 1,
            ix == old(self).packages@.len(),
            graph_edges(final(self).inner) == graph_edges(old(self).inner),
            final(self).names@ == old(self).names@,
    {
        let ix = self.packages.len();
        graph_add_node(&mut self.inner, ix as u32);
        self.packages.push(p);
        ix
    }

    /// Records that package `a` depends on package `b` under `name`.
    pub fn add_dependency(&mut self, a: usize, b: usize, name: PackageName)
        requires
            old(self).wf(),
            a < old(self).packages@.len(),
            b < old(self).packages@.len(),
            old(self).names@.len() < u32::MAX,
        ensures
            final(self).wf(),
            final(self).packages@ == old(self).packages@,
            final(self).names@ == old(self).names@.push(name),
            graph_edges(final(self).inner) == graph_edges(old(self).inner).insert(
                (a as int, b as int, old(self).names@.len() as u32)),
    {
        let w = self.names.len();
        self.names.push(name);
        graph_add_edge(&mut self.inner, a, b, w as u32);
    }

    /// Constructs the linkage table for the root package (node zero,
    /// the first package added): in reverse topological order, each
    /// node's table is its own publication entry for `env` merged with
    /// its dependencies' tables. The result, ordered by address, binds
    /// exactly the addresses published in `env` by the packages in the
    /// root's dependency closure; being pinned by that contract, it is
    /// the same on every replica that holds the same graph. The cycle
    /// error arises exactly on a cyclic graph, with a node on a cycle;
    /// the inconsistency error only when two packages reachable from one
    /// node publish a single address with different targets — and on an
    /// acyclic, conflict-free graph the call succeeds.
    #[verifier::loop_isolation(false)]
    pub fn linkage(&self, env: &EnvironmentName) -> (r: Result<LinkageTable, LinkageError>)
        requires
            self.wf(),
            self.packages@.len() > 0,
        ensures
            r is Ok ==> table_wf(r->Ok_0@),
            r is Ok ==> forall|i: int, j: int| 0 <= i < j < r->Ok_0@.len()
                ==> (#[trigger] r->Ok_0@[i]).0 < (#[trigger] r->Ok_0@[j]).0,
            r is Ok ==> forall|addr: AddressInfo, pkg: u32|
                #[trigger] r->Ok_0@.contains((addr, pkg))
                    <==> self.linkage_entry(0, env@, addr, pkg),
            (r is Err && r->Err_0 is CyclicDependencies) <==> self.has_cycle(),
            r is Err && r->Err_0 is CyclicDependencies
                ==> r->Err_0->CyclicDependencies_0 < self.packages@.len()
                    && self.on_cycle(r->Err_0->CyclicDependencies_0 as int),
            r is Err && r->Err_0 is InconsistentLinkage
                ==> !self.has_cycle() && self.linkage_conflict(env@),
    {
        let ghost edges = graph_edges(self.inner);
        let order = match graph_toposort(&self.inner) {
            Ok(order) => order,
            Err(node) => {
                proof {
                    assert(graph_nodes(self.inner).len() as nat
                        == self.packages@.len() as nat);
                    let (m, w) = choose|m: int, w: u32|
                        #[trigger] graph_edges(self.inner).contains((node as int, m, w))
                        && graph_reach(graph_edges(self.inner), m, node as int,
                            graph_nodes(self.inner).len() as nat);
                    assert(graph_edges(self.inner).contains((node as int, m, w))
                        && graph_reach(graph_edges(self.inner), m, node as int,
                            self.packages@.len() as nat));
                    assert(self.on_cycle(node as int));
                    assert(self.has_cycle());
                }
                return Err(LinkageError::CyclicDependencies(node));
            },
        };
        let n = self.packages.len();
        proof {
            // the order hypotheses the reachability lemmas need
            assert(order@.len() == n);
            assert forall|e: (int, int, u32)| #[trigger] edges.contains(e)
                implies 0 <= e.0 < order@.len() && 0 <= e.1 < order@.len() by {
            }
            assert(!self.has_cycle());
        }
        // tables[v] is built once every successor of v is done; walking the
        // topological order backward guarantees that.
        let mut tables: Vec<LinkageTable> = Vec::new();
        let mut filled: Vec<bool> = Vec::new();
        let mut v: usize = 0;
        while v < n
            invariant
                tables@.len() == v <= n,
                filled@.len() == v,
                forall|k: int| 0 <= k < v ==> !(#[trigger] filled@[k]),
            decreases n - v,
        {
            tables.push(Vec::new());
            filled.push(false);
            v = v + 1;
        }
        let mut pos: usize = order.len();
        while pos > 0
            invariant
                0 <= pos <= order@.len(),
                order@.len() == n,
                tables@.len() == n,
                filled@.len() == n,
                forall|q: int| pos <= q < n ==> #[trigger] filled@[order@[q] as int],
                forall|u: int| 0 <= u < n && #[trigger] filled@[u] ==> table_wf(tables@[u]@),
                forall|u: int, addr: AddressInfo, pkg: u32|
                    #![trigger tables@[u]@.contains((addr, pkg))]
                    0 <= u < n && filled@[u]
                        ==> (tables@[u]@.contains((addr, pkg))
                            <==> self.linkage_entry(u, env@, addr, pkg)),
            decreases pos,
        {
            pos = pos - 1;
            let node = order[pos];
            let mut table: LinkageTable = Vec::new();
            match self.packages[node].publication(env) {
                Some(publication) => {
                    table.push((publication.original_id, node as u32));
                    proof {
                        assert(table@[0] == (publication.original_id, node as u32));
                        assert(table_wf(table@));
                    }
                },
                None => {},
            }
            let ghost own_addr = if self.packages@[node as int].spec_has_publication(env@) {
                self.packages@[node as int].publications@[
                    self.packages@[node as int].spec_publication_index(env@)].1.original_id
            } else {
                0
            };
            proof {
                assert forall|addr: AddressInfo, pkg: u32|
                    #![trigger table@.contains((addr, pkg))]
                    table@.contains((addr, pkg))
                        <==> (pkg as int == node as int
                            && self.publishes(node as int, env@, addr)) by {
                    if table@.contains((addr, pkg)) {
                        let k = choose|k: int| 0 <= k < table@.len() && table@[k] == (addr, pkg);
                        assert(k == 0);
                    }
                    if pkg as int == node as int && self.publishes(node as int, env@, addr) {
                        assert(addr == own_addr);
                        assert(table@[0] == (addr, pkg));
                    }
                }
            }
            let succs = graph_out_edges(&self.inner, node);
            proof {
                assert forall|p2: int| 0 <= p2 < succs@.len()
                    implies edges.contains(
                        (node as int, (#[trigger] succs@[p2]).0 as int, succs@[p2].1)) by {
                    assert(succs@.contains(succs@[p2]));
                }
            }
            let mut s: usize = 0;
            while s < succs.len()
                invariant
                    0 <= s <= succs@.len(),
                    node == order@[pos as int],
                    0 <= node < n,
                    forall|p2: int| 0 <= p2 < succs@.len()
                        ==> edges.contains(
                            (node as int, (#[trigger] succs@[p2]).0 as int, succs@[p2].1)),
                    table_wf(table@),
                    forall|addr: AddressInfo, pkg: u32|
                        #![trigger table@.contains((addr, pkg))]
                        table@.contains((addr, pkg)) <==>
                            ((pkg as int == node as int
                                && self.publishes(node as int, env@, addr))
                            || (exists|p2: int| 0 <= p2 < s
                                && #[trigger] self.linkage_entry(succs@[p2].0 as int,
                                    env@, addr, pkg))),
                decreases succs@.len() - s,
            {
                let (target, _weight) = succs[s];
                proof {
                    assert(succs@.contains(succs@[s as int]));
                    assert(edges.contains((node as int, target as int, succs@[s as int].1)));
                    assert(appears(order@, target as int));
                    let q = choose|q: int| 0 <= q < order@.len()
                        && #[trigger] order@[q] as int == target as int;
                    assert(edges.contains(
                        (order@[pos as int] as int, order@[q] as int, succs@[s as int].1)));
                    assert(pos < q);
                    assert(filled@[order@[q] as int]);
                }
                let child = &tables[target];
                let ghost pre_table = table@;
                if !merge_linkage(&mut table, child) {
                    proof {
                        let (e1, e2) = choose|e1: (AddressInfo, u32), e2: (AddressInfo, u32)|
                            pre_table.contains(e1) && child@.contains(e2) && e1.0 == e2.0
                                && e1.1 != e2.1;
                        // both disputed packages lie in this node's closure
                        assert(self.reaches(node as int, e1.1 as int)
                            && self.publishes(e1.1 as int, env@, e1.0)) by {
                            assert(pre_table.contains((e1.0, e1.1)));
                            if e1.1 as int == node as int
                                && self.publishes(node as int, env@, e1.0) {
                                assert(graph_reach(edges, node as int, node as int,
                                    self.packages@.len() as nat));
                            } else {
                                let p2 = choose|p2: int| 0 <= p2 < s
                                    && #[trigger] self.linkage_entry(succs@[p2].0 as int,
                                        env@, e1.0, e1.1);
                                lemma_graph_reach_step(edges, order@, node as int,
                                    succs@[p2].0 as int, succs@[p2].1, e1.1 as int);
                            }
                        }
                        assert(self.reaches(node as int, e2.1 as int)
                            && self.publishes(e2.1 as int, env@, e2.0)) by {
                            assert(tables@[target as int]@.contains((e2.0, e2.1)));
                            assert(self.linkage_entry(target as int, env@, e2.0, e2.1));
                            lemma_graph_reach_step(edges, order@, node as int,
                                target as int, succs@[s as int].1, e2.1 as int);
                        }
                        assert(e1.1 as int != e2.1 as int);
                        assert(self.linkage_conflict(env@)) by {
                            assert(0 <= (node as int) && (node as int) < self.packages@.len()
                                && self.reaches(node as int, e1.1 as int)
                                && self.reaches(node as int, e2.1 as int)
                                && self.publishes(e1.1 as int, env@, e1.0)
                                && self.publishes(e2.1 as int, env@, e2.0)
                                && e1.1 as int != e2.1 as int);
                        }
                    }
                    return Err(LinkageError::InconsistentLinkage);
                }
                proof {
                    let ghost t = target as int;
                    assert forall|addr: AddressInfo, pkg: u32|
                        #![trigger table@.contains((addr, pkg))]
                        table@.contains((addr, pkg)) <==>
                            ((pkg as int == node as int
                                && self.publishes(node as int, env@, addr))
                            || (exists|p2: int| 0 <= p2 < s + 1
                                && #[trigger] self.linkage_entry(succs@[p2].0 as int,
                                    env@, addr, pkg))) by {
                        if table@.contains((addr, pkg)) {
                            if !pre_table.contains((addr, pkg)) {
                                assert(tables@[t]@.contains((addr, pkg)));
                                assert(self.linkage_entry(succs@[s as int].0 as int,
                                    env@, addr, pkg));
                            }
                        }
                        if exists|p2: int| 0 <= p2 < s + 1
                            && #[trigger] self.linkage_entry(succs@[p2].0 as int,
                                env@, addr, pkg) {
                            let p2 = choose|p2: int| 0 <= p2 < s + 1
                                && #[trigger] self.linkage_entry(succs@[p2].0 as int,
                                    env@, addr, pkg);
                            if p2 == s {
                                assert(tables@[t]@.contains((addr, pkg)));
                                assert(table@.contains((addr, pkg)));
                            } else {
                                assert(pre_table.contains((addr, pkg)));
                            }
                        }
                        if pkg as int == node as int
                            && self.publishes(node as int, env@, addr) {
                            assert(pre_table.contains((addr, pkg)));
                        }
                    }
                }
                s = s + 1;
            }
            let ghost pre_tables = tables@;
            let ghost pre_filled = filled@;
            let ghost final_table = table@;
            tables.set(node, table);
            filled.set(node, true);
            proof {
                assert forall|q: int| pos <= q < n
                    implies #[trigger] filled@[order@[q] as int] by {
                    if q > pos {
                        assert(order@[q as int] != order@[pos as int]);
                        assert(pre_filled[order@[q] as int]);
                    }
                }
                assert forall|u: int| 0 <= u < n && #[trigger] filled@[u]
                    implies table_wf(tables@[u]@) by {
                    if u != node as int {
                        assert(tables@[u] == pre_tables[u]);
                        assert(pre_filled[u]);
                    }
                }
                // the freshly built table is exactly this node's closure
                assert forall|addr: AddressInfo, pkg: u32|
                    #![trigger final_table.contains((addr, pkg))]
                    final_table.contains((addr, pkg))
                        <==> self.linkage_entry(node as int, env@, addr, pkg) by {
                    if final_table.contains((addr, pkg)) {
                        if pkg as int == node as int
                            && self.publishes(node as int, env@, addr) {
                            assert(graph_reach(edges, node as int, node as int,
                                self.packages@.len() as nat));
                        } else {
                            let p2 = choose|p2: int| 0 <= p2 < succs@.len()
                                && #[trigger] self.linkage_entry(succs@[p2].0 as int,
                                    env@, addr, pkg);
                            lemma_graph_reach_step(edges, order@, node as int,
                                succs@[p2].0 as int, succs@[p2].1, pkg as int);
                        }
                    }
                    if self.linkage_entry(node as int, env@, addr, pkg) {
                        if pkg as int == node as int {
                            assert(final_table.contains((addr, pkg)));
                        } else {
                            let (m, w) = choose|m: int, w: u32|
                                #[trigger] edges.contains((node as int, m, w))
                                && graph_reach(edges, m, pkg as int,
                                    (self.packages@.len() - 1) as nat);
                            lemma_graph_reach_mono(edges, m, pkg as int,
                                (self.packages@.len() - 1) as nat,
                                self.packages@.len() as nat);
                            assert(0 <= m < self.packages@.len());
                            assert(succs@.contains((m as usize, w)));
                            let p2 = choose|p2: int| 0 <= p2 < succs@.len()
                                && succs@[p2] == (m as usize, w);
                            assert(self.linkage_entry(succs@[p2].0 as int,
                                env@, addr, pkg));
                            assert(final_table.contains((addr, pkg)));
                        }
                    }
                }
                assert forall|u: int, addr: AddressInfo, pkg: u32|
                    #![trigger tables@[u]@.contains((addr, pkg))]
                    0 <= u < n && filled@[u]
                    implies (tables@[u]@.contains((addr, pkg))
                        <==> self.linkage_entry(u, env@, addr, pkg)) by {
                    if u != node as int {
                        assert(tables@[u] == pre_tables[u]);
                        assert(pre_filled[u]);
                    } else {
                        assert(tables@[u]@ == final_table);
                    }
                }
            }
        }
        proof {
            assert(appears(order@, 0));
            let q = choose|q: int| 0 <= q < order@.len() && #[trigger] order@[q] as int == 0;
            assert(filled@[order@[q] as int]);
            assert(filled@[0]);
        }
        let sorted = sort_table(&tables[0]);
        proof {
            assert forall|addr: AddressInfo, pkg: u32|
                #[trigger] sorted@.contains((addr, pkg))
                implies self.linkage_entry(0, env@, addr, pkg) by {
                assert(tables@[0]@.contains((addr, pkg)));
            }
            assert forall|addr: AddressInfo, pkg: u32|
                self.linkage_entry(0, env@, addr, pkg)
                implies #[trigger] sorted@.contains((addr, pkg)) by {
                assert(tables@[0]@.contains((addr, pkg)));
            }
            assert forall|i: int, j: int| 0 <= i < j < sorted@.len()
                implies (#[trigger] sorted@[i]).0 != (#[trigger] sorted@[j]).0 by {
            }
        }
        Ok(sorted)
    }
}

/// Orders a linkage table by ascending address; same entries.
#[verifier::loop_isolation(false)]
fn sort_table(t: &LinkageTable) -> (r: LinkageTable)
    requires
        table_wf(t@),
    ensures
        forall|i: int, j: int| 0 <= i < j < r@.len()
            ==> (#[trigger] r@[i]).0 < (#[trigger] r@[j]).0,
        forall|e: (AddressInfo, u32)| #[trigger] r@.contains(e) <==> t@.contains(e),
{
    let mut out: LinkageTable = Vec::new();
    let mut i: usize = 0;
    while i < t.len()
        invariant
            0 <= i <= t@.len(),
            forall|p: int, q: int| 0 <= p < q < out@.len()
                ==> (#[trigger] out@[p]).0 < (#[trigger] out@[q]).0,
            forall|e: (AddressInfo, u32)| #[trigger] out@.contains(e)
                <==> t@.subrange(0, i as int).contains(e),
        decreases t@.len() - i,
    {
        let (addr, pkg) = t[i];
        let mut p: usize = 0;
        while p < out.len() && out[p].0 < addr
            invariant
                0 <= p <= out@.len(),
                forall|q: int| 0 <= q < p ==> (#[trigger] out@[q]).0 < addr,
            decreases out@.len() - p,
        {
            p = p + 1;
        }
        let ghost pre = out@;
        proof {
            assert forall|q: int| 0 <= q < pre.len()
                implies (#[trigger] pre[q]).0 != addr by {
                if pre[q].0 == addr {
                    assert(pre.contains(pre[q]));
                    assert(t@.subrange(0, i as int).contains(pre[q]));
                    let k = choose|k: int| 0 <= k < i
                        && t@.subrange(0, i as int)[k] == pre[q];
                    assert(t@[k] == pre[q]);
                }
            }
        }
        out.insert(p, (addr, pkg));
        proof {
            assert(out@ =~= pre.subrange(0, p as int).push((addr, pkg))
                + pre.subrange(p as int, pre.len() as int));
            assert(forall|q: int| 0 <= q < p ==> out@[q] == pre[q]);
            assert(out@[p as int] == (addr, pkg));
            assert(forall|q: int| p < q < out@.len() ==> out@[q] == pre[q - 1]);
            assert forall|p2: int, q2: int| 0 <= p2 < q2 < out@.len()
                implies (#[trigger] out@[p2]).0 < (#[trigger] out@[q2]).0 by {
                if q2 == p {
                    assert(out@[p2] == pre[p2]);
                } else if p2 == p {
                    assert(out@[q2] == pre[q2 - 1]);
                    assert(!(pre[p as int].0 < addr) || p >= pre.len());
                    if q2 - 1 > p {
                        assert(pre[p as int].0 < pre[q2 - 1].0);
                    }
                } else if p2 < p && q2 > p {
                    assert(out@[p2] == pre[p2] && out@[q2] == pre[q2 - 1]);
                    if q2 - 1 == p {
                        assert(pre[p2].0 < addr);
                        assert(!(pre[p as int].0 < addr));
                    }
                } else if q2 < p {
                    assert(out@[p2] == pre[p2] && out@[q2] == pre[q2]);
                } else {
                    assert(out@[p2] == pre[p2 - 1] && out@[q2] == pre[q2 - 1]);
                }
            }
            assert(t@.subrange(0, i + 1) =~= t@.subrange(0, i as int).push(t@[i as int]));
            assert forall|e: (AddressInfo, u32)| #[trigger] out@.contains(e)
                implies t@.subrange(0, i + 1).contains(e) by {
                let k = choose|k: int| 0 <= k < out@.len() && out@[k] == e;
                if k < p {
                    assert(pre[k] == e);
                    assert(pre.contains(e));
                    assert(t@.subrange(0, i as int).contains(e));
                    let k2 = choose|k2: int| 0 <= k2 < i
                        && t@.subrange(0, i as int)[k2] == e;
                    assert(t@.subrange(0, i + 1)[k2] == e);
                } else if k > p {
                    assert(pre[k - 1] == e);
                    assert(pre.contains(e));
                    assert(t@.subrange(0, i as int).contains(e));
                    let k2 = choose|k2: int| 0 <= k2 < i
                        && t@.subrange(0, i as int)[k2] == e;
                    assert(t@.subrange(0, i + 1)[k2] == e);
                } else {
                    assert(e == (addr, pkg));
                    assert(t@.subrange(0, i + 1)[i as int] == e);
                }
            }
            assert forall|e: (AddressInfo, u32)| t@.subrange(0, i + 1).contains(e)
                implies #[trigger] out@.contains(e) by {
                let k = choose|k: int| 0 <= k < i + 1
                    && #[trigger] t@.subrange(0, i + 1)[k] == e;
                if k < i {
                    assert(t@.subrange(0, i as int)[k] == e);
                    assert(t@.subrange(0, i as int).contains(e));
                    assert(pre.contains(e));
                    let k2 = choose|k2: int| 0 <= k2 < pre.len() && pre[k2] == e;
                    if k2 < p {
                        assert(out@[k2] == e);
                    } else {
                        assert(out@[k2 + 1] == e);
                    }
                } else {
                    assert(e == (addr, pkg));
                    assert(out@[p as int] == e);
                }
            }
        }
        i = i + 1;
    }
    proof {
        assert(t@.subrange(0, t@.len() as int) =~= t@);
    }
    out
}

/// Strictly address-ordered tables with the same entries are identical:
/// the linkage table is a function of the graph and environment alone,
/// so replicas that built the same dependency graph agree on it.
pub proof fn lemma_linkage_table_determinism(
    t1: Seq<(AddressInfo, u32)>,
    t2: Seq<(AddressInfo, u32)>,
)
    requires
        forall|i: int, j: int| 0 <= i < j < t1.len()
            ==> (#[trigger] t1[i]).0 < (#[trigger] t1[j]).0,
        forall|i: int, j: int| 0 <= i < j < t2.len()
            ==> (#[trigger] t2[i]).0 < (#[trigger] t2[j]).0,
        forall|e: (AddressInfo, u32)| t1.contains(e) <==> t2.contains(e),
    ensures
        t1 == t2,
    decreases t1.len(),
{
    if t1.len() == 0 {
        if t2.len() > 0 {
            assert(t2.contains(t2[0]));
            assert(t1.contains(t2[0]));
        }
        assert(t1 =~= t2);
    } else {
        assert(t1.contains(t1[0]));
        assert(t2.contains(t1[0]));
        assert(t2.len() > 0);
        let j = choose|j: int| 0 <= j < t2.len() && t2[j] == t1[0];
        assert(t2.contains(t2[0]));
        let i = choose|i: int| 0 <= i < t1.len() && t1[i] == t2[0];
        if j > 0 && i > 0 {
            assert(t2[0].0 < t2[j].0);
            assert(t1[0].0 < t1[i].0);
            assert(false);
        }
        assert(t1[0] == t2[0]);
        let s1 = t1.subrange(1, t1.len() as int);
        let s2 = t2.subrange(1, t2.len() as int);
        assert forall|e: (AddressInfo, u32)| s1.contains(e) implies s2.contains(e) by {
            let p = choose|p: int| 0 <= p < s1.len() && s1[p] == e;
            assert(t1[p + 1] == e);
            assert(t1[0].0 < e.0);
            assert(t1.contains(e));
            assert(t2.contains(e));
            let q = choose|q: int| 0 <= q < t2.len() && t2[q] == e;
            if q == 0 {
                assert(false);
            }
            assert(s2[q - 1] == e);
        }
        assert forall|e: (AddressInfo, u32)| s2.contains(e) implies s1.contains(e) by {
            let p = choose|p: int| 0 <= p < s2.len() && s2[p] == e;
            assert(t2[p + 1] == e);
            assert(t2[0].0 < e.0);
            assert(t2.contains(e));
            assert(t1.contains(e));
            let q = choose|q: int| 0 <= q < t1.len() && t1[q] == e;
            if q == 0 {
                assert(false);
            }
            assert(s1[q - 1] == e);
        }
        assert forall|p: int, q: int| 0 <= p < q < s1.len()
            implies (#[trigger] s1[p]).0 < (#[trigger] s1[q]).0 by {
            assert(s1[p] == t1[p + 1] && s1[q] == t1[q + 1]);
        }
        assert forall|p: int, q: int| 0 <= p < q < s2.len()
            implies (#[trigger] s2[p]).0 < (#[trigger] s2[q]).0 by {
            assert(s2[p] == t2[p + 1] && s2[q] == t2[q + 1]);
        }
        lemma_linkage_table_determinism(s1, s2);
        assert(t1.len() == t2.len());
        assert forall|q: int| 0 <= q < t1.len() implies t1[q] == t2[q] by {
            if q > 0 {
                assert(s1[q - 1] == t1[q]);
                assert(s2[q - 1] == t2[q]);
            }
        }
        assert(t1 =~= t2);
    }
}

/// The dependency called `name` in `p`'s pinned table for `env` is
/// flagged as an override.
pub open spec fn override_dep(p: Package, env: Seq<char>, name: Seq<char>) -> bool {
    p.spec_has_deps(env) && exists|k: int|
        0 <= k < p.deps@[p.spec_deps_index(env)].1@.len()
            && (#[trigger] p.deps@[p.spec_deps_index(env)].1@[k]).name@ == name
            && p.deps@[p.spec_deps_index(env)].1@[k].is_override
}

/// Scan of one package's pinned table for an override entry of `name`.
#[verifier::loop_isolation(false)]
fn dep_is_override(p: &Package, env: &EnvironmentName, name: &PackageName) -> (r: bool)
    requires
        p.wf(),
    ensures
        r == override_dep(*p, env@, name@),
{
    let mut i: usize = 0;
    while i < p.deps.len()
        invariant
            0 <= i <= p.deps@.len(),
            forall|k: int| 0 <= k < i ==> (#[trigger] p.deps@[k]).0@ != env@,
        decreases p.deps@.len() - i,
    {
        if p.deps[i].0.eq(env) {
            proof {
                assert(p.deps@[i as int].0@ == env@);
                assert(p.spec_has_deps(env@));
                assert(p.spec_deps_index(env@) == i) by {
                    let j = p.spec_deps_index(env@);
                    assert(0 <= j < p.deps@.len() && p.deps@[j].0@ == env@);
                    if j < i {
                        assert(p.deps@[j].0@ != env@);
                    } else if j > i {
                        assert(p.deps@[i as int].0@ != p.deps@[j].0@);
                    }
                }
            }
            let list = &p.deps[i].1;
            let mut k: usize = 0;
            while k < list.len()
                invariant
                    0 <= k <= list@.len(),
                    list@ == p.deps@[p.spec_deps_index(env@)].1@,
                    forall|q: int| 0 <= q < k
                        ==> !((#[trigger] list@[q]).name@ == name@ && list@[q].is_override),
                decreases list@.len() - k,
            {
                if list[k].is_override && list[k].name.eq(name) {
                    proof {
                        assert(list@[k as int].name@ == name@ && list@[k as int].is_override);
                    }
                    return true;
                }
                k = k + 1;
            }
            return false;
        }
        i = i + 1;
    }
    false
}

impl PackageGraph {
    /// An outgoing dependency edge of `node` whose name is overridden in
    /// `node`'s pinned table for `env`, pointing at a package published
    /// in `env` under `addr`.
    pub open spec fn override_target(self, env: Seq<char>, node: int, b: int, w: u32, addr: AddressInfo) -> bool {
        &&& graph_edges(self.inner).contains((node, b, w))
        &&& 0 <= w < self.names@.len()
        &&& 0 <= b < self.packages@.len()
        &&& override_dep(self.packages@[node], env, self.names@[w as int]@)
        &&& self.packages@[b].spec_has_publication(env)
        &&& self.packages@[b].publications@[
            self.packages@[b].spec_publication_index(env)].1.original_id == addr
    }

    /// The original addresses of the packages that are overridden in
    /// `node`: one per override edge whose target is published in `env`,
    /// without repeats.
    #[verifier::loop_isolation(false)]
    pub fn overrides(&self, env: &EnvironmentName, node: usize) -> (r: Vec<AddressInfo>)
        requires
            self.wf(),
            node < self.packages@.len(),
        ensures
            forall|i: int, j: int| 0 <= i < j < r@.len() ==> r@[i] != r@[j],
            forall|addr: AddressInfo| #[trigger] r@.contains(addr)
                <==> exists|b: int, w: u32|
                    self.override_target(env@, node as int, b, w, addr),
    {
        let mut out: Vec<AddressInfo> = Vec::new();
        let edges = graph_out_edges(&self.inner, node);
        proof {
            assert forall|p2: int| 0 <= p2 < edges@.len()
                implies graph_edges(self.inner).contains(
                    (node as int, (#[trigger] edges@[p2]).0 as int, edges@[p2].1)) by {
                assert(edges@.contains(edges@[p2]));
            }
        }
        let mut s: usize = 0;
        while s < edges.len()
            invariant
                0 <= s <= edges@.len(),
                forall|i: int, j: int| 0 <= i < j < out@.len() ==> out@[i] != out@[j],
                forall|addr: AddressInfo| #[trigger] out@.contains(addr)
                    ==> exists|b: int, w: u32|
                        self.override_target(env@, node as int, b, w, addr),
                forall|p2: int, addr: AddressInfo| 0 <= p2 < s
                    && #[trigger] self.override_target(env@, node as int,
                        edges@[p2].0 as int, edges@[p2].1, addr)
                    ==> out@.contains(addr),
            decreases edges@.len() - s,
        {
            let (target, w) = edges[s];
            proof {
                assert(edges@.contains(edges@[s as int]));
            }
            let is_override = dep_is_override(&self.packages[node], env, &self.names[w as usize]);
            if is_override {
                match self.packages[target].publication(env) {
                    Some(publication) => {
                        let addr = publication.original_id;
                        proof {
                            assert(self.override_target(env@, node as int, target as int,
                                edges@[s as int].1, addr));
                        }
                        if !contains_addr(&out, addr) {
                            let ghost pre = out@;
                            out.push(addr);
                            proof {
                                assert(out@[pre.len() as int] == addr);
                                assert forall|a2: AddressInfo| #[trigger] out@.contains(a2)
                                    implies pre.contains(a2) || a2 == addr by {
                                    let k = choose|k: int| 0 <= k < out@.len()
                                        && out@[k] == a2;
                                    if k < pre.len() {
                                        assert(pre[k] == a2);
                                    }
                                }
                                assert forall|a2: AddressInfo| pre.contains(a2)
                                    implies #[trigger] out@.contains(a2) by {
                                    let k = choose|k: int| 0 <= k < pre.len() && pre[k] == a2;
                                    assert(out@[k] == a2);
                                }
                                assert forall|p: int, q: int| 0 <= p < q < out@.len()
                                    implies out@[p] != out@[q] by {
                                    if q == out@.len() - 1 {
                                        assert(pre.contains(out@[p])) by {
                                            assert(pre[p] == out@[p]);
                                        }
                                    } else {
                                        assert(pre[p] == out@[p] && pre[q] == out@[q]);
                                    }
                                }
                            }
                        }
                    },
                    None => {},
                }
            }
            proof {
                assert forall|p2: int, addr: AddressInfo| 0 <= p2 < s + 1
                    && #[trigger] self.override_target(env@, node as int,
                        edges@[p2].0 as int, edges@[p2].1, addr)
                    implies out@.contains(addr) by {
                    if p2 == s {
                        let e = edges@[s as int];
                        assert(e.0 == target && e.1 == w);
                        assert(override_dep(self.packages@[node as int], env@,
                            self.names@[w as int]@));
                        assert(self.packages@[target as int].spec_has_publication(env@));
                    }
                }
            }
            s = s + 1;
        }
        proof {
            assert forall|addr: AddressInfo|
                (exists|b: int, w: u32| self.override_target(env@, node as int, b, w, addr))
                implies #[trigger] out@.contains(addr) by {
                let (b, w) = choose|b: int, w: u32|
                    self.override_target(env@, node as int, b, w, addr);
                assert(graph_edges(self.inner).contains((node as int, b, w)));
                assert(edges@.contains((b as usize, w)));
                let p2 = choose|p2: int| 0 <= p2 < edges@.len()
                    && edges@[p2] == (b as usize, w);
                assert(self.override_target(env@, node as int,
                    edges@[p2].0 as int, edges@[p2].1, addr));
            }
        }
        out
    }
}

/// Linear scan of an address list.
fn contains_addr(v: &Vec<AddressInfo>, addr: AddressInfo) -> (found: bool)
    ensures
        found == v@.contains(addr),
{
    let mut i: usize = 0;
    while i < v.len()
        invariant
            0 <= i <= v@.len(),
            forall|k: int| 0 <= k < i ==> v@[k] != addr,
        decreases v@.len() - i,
    {
        if v[i] == addr {
            proof {
                assert(v@.contains(addr)) by {
                    assert(v@[i as int] == addr);
                }
            }
            return true;
        }
        i = i + 1;
    }
    false
}

} // verus!

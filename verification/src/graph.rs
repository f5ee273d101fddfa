//! The dependency graph engine.
//!
//! A `Graph` owns a set of nodes and a set of directed edges, each
//! edge running from a dependent to one of its direct dependencies.
//! Mutations keep the graph a DAG: self-loops and cycle-closing edges
//! are rejected, and a node can be removed only while nothing depends
//! on it.

use vstd::prelude::*;

use crate::id::NodeId;
use crate::reach::edges_without;
use crate::reach::lemma_acyclic_insert;
use crate::reach::lemma_closed_complete;
use crate::reach::lemma_empty_acyclic;
use crate::reach::lemma_links_flip;
use crate::reach::lemma_links_mono;
use crate::reach::lemma_links_trans;
use crate::reach::lemma_step_links;
use crate::reach::links;
use crate::reach::reaches;
use crate::reach::step;

verus! {

/// Why a mutation was refused.
#[derive(Debug, PartialEq, Eq)]
pub enum Error {
    /// The requested edge would close a cycle.
    CircularDependency,
    /// The node still has dependents and cannot be removed.
    DependencyExists,
    /// A node may not depend on itself.
    DependsOnSelf,
    /// No direct edge joins the two nodes, so none can be removed.
    NoSuchDirectDependency,
    /// The node to remove is not in the graph.
    NoSuchNode,
}

impl Error {
    /// A short description of the failure.
    pub fn message(&self) -> (r: &'static str)
        ensures
            r@ == self.message_spec(),
    {
        match self {
            Error::CircularDependency => "circular dependency",
            Error::DependencyExists => "dependencies exist",
            Error::DependsOnSelf => "depends on self",
            Error::NoSuchDirectDependency => "no such direct dependency relationship",
            Error::NoSuchNode => "no such node",
        }
    }

    /// The description each failure carries.
    pub open spec fn message_spec(self) -> Seq<char> {
        match self {
            Error::CircularDependency => "circular dependency"@,
            Error::DependencyExists => "dependencies exist"@,
            Error::DependsOnSelf => "depends on self"@,
            Error::NoSuchDirectDependency => "no such direct dependency relationship"@,
            Error::NoSuchNode => "no such node"@,
        }
    }
}

/// The identities of a sequence of identifiers.
pub open spec fn ids<T: NodeId>(s: Seq<T>) -> Seq<T::Id> {
    s.map_values(|t: T| t.id())
}

/// The identity pairs of a sequence of edges.
pub open spec fn edge_ids<T: NodeId>(s: Seq<(T, T)>) -> Seq<(T::Id, T::Id)> {
    s.map_values(|e: (T, T)| (e.0.id(), e.1.id()))
}

/// A dependency graph over identifiers of type `T`.
#[derive(Debug)]
pub struct Graph<T: NodeId> {
    nodes: Vec<T>,
    edges: Vec<(T, T)>,
}

impl<T: NodeId> Graph<T> {
    /// The identities of the nodes the graph knows.
    pub closed spec fn node_set(self) -> Set<T::Id> {
        ids(self.nodes@).to_set()
    }

    /// The direct edges, each from a dependent to a dependency.
    pub closed spec fn edge_set(self) -> Set<(T::Id, T::Id)> {
        edge_ids(self.edges@).to_set()
    }

    /// Well-formedness: nodes and edges are free of duplicates, every
    /// edge joins known nodes, and no node reaches itself.
    pub closed spec fn wf(self) -> bool {
        &&& ids(self.nodes@).no_duplicates()
        &&& edge_ids(self.edges@).no_duplicates()
        &&& forall|p: (T::Id, T::Id)| #[trigger]
            self.edge_set().contains(p) ==> self.node_set().contains(p.0)
                && self.node_set().contains(p.1)
        &&& forall|x: T::Id| !reaches(self.edge_set(), x, x)
    }

    /// A well-formed graph never lets a node reach itself: the graph
    /// is a DAG at all times.
    pub proof fn lemma_acyclic(self)
        requires
            self.wf(),
        ensures
            forall|x: T::Id| !reaches(self.edge_set(), x, x),
    {
    }

    /// Every edge of a well-formed graph joins known nodes.
    pub proof fn lemma_edges_in_nodes(self)
        requires
            self.wf(),
        ensures
            forall|p: (T::Id, T::Id)| #[trigger]
                self.edge_set().contains(p) ==> self.node_set().contains(p.0)
                    && self.node_set().contains(p.1),
    {
    }

    /// An empty graph.
    pub fn new() -> (g: Self)
        ensures
            g.wf(),
            g.node_set() == Set::<T::Id>::empty(),
            g.edge_set() == Set::<(T::Id, T::Id)>::empty(),
    {
        let g = Graph { nodes: Vec::new(), edges: Vec::new() };
        proof {
            assert(g.node_set() =~= Set::<T::Id>::empty());
            assert(g.edge_set() =~= Set::<(T::Id, T::Id)>::empty());
            lemma_empty_acyclic(g.edge_set());
        }
        g
    }

    /// Record the node if it is new; the edges stay as they are.
    fn add_node(&mut self, t: &T)
        requires
            old(self).wf(),
        ensures
            final(self).wf(),
            final(self).node_set() == old(self).node_set().insert(t.id()),
            final(self).edge_set() == old(self).edge_set(),
    {
        if !contains_id(&self.nodes, t) {
            let ghost n0 = self.nodes@;
            self.nodes.push(t.dup());
            proof {
                lemma_ids_push(n0, self.nodes@.last());
                lemma_to_set_push(ids(n0), t.id());
                lemma_contains_push(ids(n0), t.id());
                lemma_no_dup_push(ids(n0), t.id());
                assert forall|p: (T::Id, T::Id)| #[trigger]
                    self.edge_set().contains(p) implies self.node_set().contains(p.0)
                    && self.node_set().contains(p.1) by {
                    assert(old(self).edge_set().contains(p));
                    assert(old(self).node_set().contains(p.0));
                    assert(old(self).node_set().contains(p.1));
                }
            }
        } else {
            proof {
                assert(self.node_set().insert(t.id()) =~= self.node_set());
            }
        }
        proof {
            assert(self.edge_set() == old(self).edge_set());
            assert forall|x: T::Id| !reaches(self.edge_set(), x, x) by {
                assert(!reaches(old(self).edge_set(), x, x));
            }
        }
    }

    /// Make `dependent` depend directly on `dependency`.
    ///
    /// Rejects a self-loop with `DependsOnSelf` and an edge that would
    /// close a cycle with `CircularDependency`; on rejection the graph
    /// is unchanged.  On success both nodes are recorded and the edge
    /// is present; adding an edge that already exists changes nothing
    /// but may still record the nodes.
    pub fn depend(&mut self, dependent: T, dependency: T) -> (r: Result<(), Error>)
        requires
            old(self).wf(),
        ensures
            final(self).wf(),
            match r {
                Ok(()) => {
                    &&& dependent.id() != dependency.id()
                    &&& !reaches(old(self).edge_set(), dependency.id(), dependent.id())
                    &&& final(self).node_set() == old(self).node_set().insert(
                        dependent.id(),
                    ).insert(dependency.id())
                    &&& final(self).edge_set() == old(self).edge_set().insert(
                        (dependent.id(), dependency.id()),
                    )
                },
                Err(Error::DependsOnSelf) => dependent.id() == dependency.id() && *final(self)
                    == *old(self),
                Err(Error::CircularDependency) => dependent.id() != dependency.id() && reaches(
                    old(self).edge_set(),
                    dependency.id(),
                    dependent.id(),
                ) && *final(self) == *old(self),
                Err(_) => false,
            },
    {
        if dependent.same_id(&dependency) {
            return Err(Error::DependsOnSelf);
        }
        if self.depends_on(&dependency, &dependent) {
            return Err(Error::CircularDependency);
        }
        let ghost a = dependent.id();
        let ghost b = dependency.id();
        let ghost es0 = self.edge_set();
        self.add_node(&dependent);
        self.add_node(&dependency);
        if find_edge(&self.edges, &dependent, &dependency).is_none() {
            let ghost e0 = self.edges@;
            self.edges.push((dependent, dependency));
            proof {
                lemma_edge_ids_push(e0, self.edges@.last());
                lemma_to_set_push(edge_ids(e0), (a, b));
                lemma_contains_push(edge_ids(e0), (a, b));
                lemma_no_dup_push(edge_ids(e0), (a, b));
            }
        } else {
            proof {
                assert(self.edge_set().insert((a, b)) =~= self.edge_set());
            }
        }
        proof {
            lemma_acyclic_insert(es0, a, b);
            assert forall|p: (T::Id, T::Id)| #[trigger]
                self.edge_set().contains(p) implies self.node_set().contains(p.0)
                && self.node_set().contains(p.1) by {
                if p == (a, b) {
                    assert(self.node_set().contains(a));
                    assert(self.node_set().contains(b));
                } else {
                    assert(es0.contains(p));
                    assert(old(self).node_set().contains(p.0));
                    assert(old(self).node_set().contains(p.1));
                }
            }
        }
        Ok(())
    }

    /// Remove the direct edge from `dependent` to `dependency`.
    ///
    /// Rejects with `NoSuchDirectDependency` when no such direct edge
    /// exists — a transitive relationship offers no single edge to
    /// remove — and the graph is unchanged.  On success only that edge
    /// goes; both nodes stay.
    pub fn undepend(&mut self, dependent: &T, dependency: &T) -> (r: Result<(), Error>)
        requires
            old(self).wf(),
        ensures
            final(self).wf(),
            match r {
                Ok(()) => {
                    &&& old(self).edge_set().contains((dependent.id(), dependency.id()))
                    &&& final(self).edge_set() == old(self).edge_set().remove(
                        (dependent.id(), dependency.id()),
                    )
                    &&& final(self).node_set() == old(self).node_set()
                },
                Err(Error::NoSuchDirectDependency) => !old(self).edge_set().contains(
                    (dependent.id(), dependency.id()),
                ) && *final(self) == *old(self),
                Err(_) => false,
            },
    {
        match find_edge(&self.edges, dependent, dependency) {
            None => Err(Error::NoSuchDirectDependency),
            Some(j) => {
                let ghost e0 = self.edges@;
                let ghost es0 = self.edge_set();
                self.edges.remove(j);
                proof {
                    assert(edge_ids(e0).contains(edge_ids(e0)[j as int]));
                    lemma_edge_ids_remove(e0, j as int);
                    lemma_remove_to_set(edge_ids(e0), j as int);
                    assert(self.edge_set().subset_of(es0));
                    assert forall|x: T::Id| !reaches(self.edge_set(), x, x) by {
                        if reaches(self.edge_set(), x, x) {
                            lemma_links_mono(self.edge_set(), es0, true, x, x);
                            assert(reaches(es0, x, x));
                            assert(false);
                        }
                    }
                }
                Ok(())
            },
        }
    }

    /// Detach `target` from every edge and forget the node.
    fn delete(&mut self, target: &T)
        requires
            old(self).wf(),
        ensures
            final(self).wf(),
            final(self).node_set() == old(self).node_set().remove(target.id()),
            final(self).edge_set() == edges_without(old(self).edge_set(), target.id()),
    {
        let ghost tid = target.id();
        let ghost e0 = self.edges@;
        let ghost n0 = self.nodes@;
        let ghost es0 = self.edge_set();
        let ghost ns0 = self.node_set();
        let mut kept: Vec<(T, T)> = Vec::new();
        let mut i: usize = 0;
        while i < self.edges.len()
            invariant
                old(self) == self,
                self.wf(),
                tid == target.id(),
                e0 == self.edges@,
                i <= self.edges.len(),
                edge_ids(kept@).no_duplicates(),
                forall|p: (T::Id, T::Id)| #[trigger]
                    edge_ids(kept@).contains(p) ==> edge_ids(e0).contains(p) && p.0 != tid && p.1
                        != tid,
                forall|p: (T::Id, T::Id)| #[trigger]
                    edge_ids(kept@).contains(p) ==> exists|j: int|
                        0 <= j < i && edge_ids(e0)[j] == p,
                forall|j: int|
                    0 <= j < i && (#[trigger] edge_ids(e0)[j]).0 != tid && edge_ids(e0)[j].1 != tid
                        ==> edge_ids(kept@).contains(edge_ids(e0)[j]),
            decreases self.edges.len() - i,
        {
            let e = &self.edges[i];
            if !e.0.same_id(target) && !e.1.same_id(target) {
                let ghost k0 = kept@;
                kept.push((e.0.dup(), e.1.dup()));
                proof {
                    assert(edge_ids(e0)[i as int] == (e.0.id(), e.1.id()));
                    lemma_edge_ids_push(k0, kept@.last());
                    lemma_contains_push(edge_ids(k0), (e.0.id(), e.1.id()));
                    if edge_ids(k0).contains((e.0.id(), e.1.id())) {
                        let j = choose|j: int|
                            0 <= j < i && edge_ids(e0)[j] == (e.0.id(), e.1.id());
                        assert(edge_ids(e0)[j] == edge_ids(e0)[i as int]);
                        assert(false);
                    }
                    lemma_no_dup_push(edge_ids(k0), (e.0.id(), e.1.id()));
                }
            }
            i += 1;
        }
        self.edges = kept;
        let mut kn: Vec<T> = Vec::new();
        let mut k: usize = 0;
        while k < self.nodes.len()
            invariant
                n0 == self.nodes@,
                ids(n0).no_duplicates(),
                tid == target.id(),
                k <= self.nodes.len(),
                ids(kn@).no_duplicates(),
                forall|y: T::Id| #[trigger]
                    ids(kn@).contains(y) ==> ids(n0).contains(y) && y != tid,
                forall|y: T::Id| #[trigger]
                    ids(kn@).contains(y) ==> exists|j: int| 0 <= j < k && ids(n0)[j] == y,
                forall|j: int|
                    0 <= j < k && (#[trigger] ids(n0)[j]) != tid ==> ids(kn@).contains(ids(n0)[j]),
            decreases self.nodes.len() - k,
        {
            let nd = &self.nodes[k];
            if !nd.same_id(target) {
                let ghost kn0 = kn@;
                kn.push(nd.dup());
                proof {
                    assert(ids(n0)[k as int] == nd.id());
                    lemma_ids_push(kn0, kn@.last());
                    lemma_contains_push(ids(kn0), nd.id());
                    if ids(kn0).contains(nd.id()) {
                        let j = choose|j: int| 0 <= j < k && ids(n0)[j] == nd.id();
                        assert(ids(n0)[j] == ids(n0)[k as int]);
                        assert(false);
                    }
                    lemma_no_dup_push(ids(kn0), nd.id());
                }
            }
            k += 1;
        }
        self.nodes = kn;
        proof {
            assert(self.edge_set() =~= edges_without(es0, tid));
            assert(self.node_set() =~= ns0.remove(tid));
            assert forall|p: (T::Id, T::Id)| #[trigger]
                self.edge_set().contains(p) implies self.node_set().contains(p.0)
                && self.node_set().contains(p.1) by {
                assert(es0.contains(p));
                assert(ns0.contains(p.0));
                assert(ns0.contains(p.1));
            }
            assert(self.edge_set().subset_of(es0));
            assert forall|x: T::Id| !reaches(self.edge_set(), x, x) by {
                if reaches(self.edge_set(), x, x) {
                    lemma_links_mono(self.edge_set(), es0, true, x, x);
                    assert(reaches(es0, x, x));
                    assert(false);
                }
            }
        }
    }

    /// Remove `target` from the graph entirely.
    ///
    /// Rejects with `NoSuchNode` when the graph does not know the
    /// node, and with `DependencyExists` while some other node still
    /// depends on it; either way the graph is unchanged.  On success
    /// the node and every edge touching it are gone.
    pub fn remove(&mut self, target: &T) -> (r: Result<(), Error>)
        requires
            old(self).wf(),
        ensures
            final(self).wf(),
            match r {
                Ok(()) => {
                    &&& old(self).node_set().contains(target.id())
                    &&& forall|x: T::Id|
                        !(#[trigger] old(self).edge_set().contains((x, target.id())))
                    &&& final(self).node_set() == old(self).node_set().remove(target.id())
                    &&& final(self).edge_set() == edges_without(
                        old(self).edge_set(),
                        target.id(),
                    )
                },
                Err(Error::NoSuchNode) => !old(self).node_set().contains(target.id())
                    && *final(self) == *old(self),
                Err(Error::DependencyExists) => old(self).node_set().contains(target.id()) && (
                exists|x: T::Id| #[trigger]
                    old(self).edge_set().contains((x, target.id()))) && *final(self)
                    == *old(self),
                Err(_) => false,
            },
    {
        if !self.contains(target) {
            return Err(Error::NoSuchNode);
        }
        if self.is_dependend(target) {
            return Err(Error::DependencyExists);
        }
        self.delete(target);
        Ok(())
    }

    /// Whether the graph knows this node.
    pub fn contains(&self, node: &T) -> (b: bool)
        ensures
            b == self.node_set().contains(node.id()),
    {
        contains_id(&self.nodes, node)
    }

    /// Whether `dependent` depends directly on `dependency`.
    pub fn depends_on_directly(&self, dependent: &T, dependency: &T) -> (b: bool)
        ensures
            b == self.edge_set().contains((dependent.id(), dependency.id())),
    {
        find_edge(&self.edges, dependent, dependency).is_some()
    }

    /// Every direct or transitive dependency of `node`.  Unknown and
    /// leaf nodes alike yield nothing.
    pub fn dependencies(&self, node: &T) -> (r: Vec<T>)
        requires
            self.wf(),
        ensures
            ids(r@).no_duplicates(),
            forall|y: T::Id| #[trigger]
                ids(r@).contains(y) <==> reaches(self.edge_set(), node.id(), y),
    {
        self.dig_deep(node, true)
    }

    /// Every node that depends on `node`, directly or transitively.
    pub fn dependents(&self, node: &T) -> (r: Vec<T>)
        requires
            self.wf(),
        ensures
            ids(r@).no_duplicates(),
            forall|y: T::Id| #[trigger]
                ids(r@).contains(y) <==> reaches(self.edge_set(), y, node.id()),
    {
        let r = self.dig_deep(node, false);
        proof {
            assert forall|y: T::Id| #[trigger]
                ids(r@).contains(y) <==> reaches(self.edge_set(), y, node.id()) by {
                if ids(r@).contains(y) {
                    lemma_links_flip(self.edge_set(), false, node.id(), y);
                }
                if reaches(self.edge_set(), y, node.id()) {
                    lemma_links_flip(self.edge_set(), true, y, node.id());
                }
            }
        }
        r
    }

    /// Whether `dependent` depends on `dependency` in some way,
    /// directly or through other nodes.
    pub fn depends_on(&self, dependent: &T, dependency: &T) -> (b: bool)
        requires
            self.wf(),
        ensures
            b == reaches(self.edge_set(), dependent.id(), dependency.id()),
    {
        let deps = self.dependencies(dependent);
        contains_id(&deps, dependency)
    }

    /// Whether some other node depends directly on `node`.
    pub fn is_dependend(&self, node: &T) -> (b: bool)
        ensures
            b == exists|x: T::Id| #[trigger] self.edge_set().contains((x, node.id())),
    {
        let mut i: usize = 0;
        while i < self.edges.len()
            invariant
                i <= self.edges.len(),
                forall|j: int| 0 <= j < i ==> #[trigger] edge_ids(self.edges@)[j].1 != node.id(),
            decreases self.edges.len() - i,
        {
            if self.edges[i].1.same_id(node) {
                proof {
                    let p = edge_ids(self.edges@)[i as int];
                    assert(edge_ids(self.edges@).contains(p));
                    assert(self.edge_set().contains((p.0, node.id())));
                }
                return true;
            }
            i += 1;
        }
        proof {
            if exists|x: T::Id| #[trigger] self.edge_set().contains((x, node.id())) {
                let x = choose|x: T::Id| #[trigger] self.edge_set().contains((x, node.id()));
                let j = choose|j: int|
                    0 <= j < edge_ids(self.edges@).len() && edge_ids(self.edges@)[j] == (
                    x,
                    node.id(),
                );
                assert(edge_ids(self.edges@)[j].1 == node.id());
            }
        }
        false
    }
}

impl<T: NodeId> Graph<T> {
    /// Visit every direct neighbour of `cur`, in the direction given,
    /// and record the ones not seen before in `result` and
    /// `discovered`.  `root` is the node the whole search started
    /// from; everything recorded stays connected to it.
    fn expand(
        &self,
        cur: &T,
        forward: bool,
        result: &mut Vec<T>,
        discovered: &mut Vec<T>,
        Ghost(root): Ghost<T::Id>,
    )
        requires
            self.wf(),
            cur.id() == root || links(self.edge_set(), forward, root, cur.id()),
            ids(old(result)@).no_duplicates(),
            forall|y: T::Id| #[trigger]
                ids(old(result)@).contains(y) ==> links(self.edge_set(), forward, root, y)
                    && self.node_set().contains(y),
            forall|c: T::Id| #[trigger]
                ids(old(discovered)@).contains(c) ==> ids(old(result)@).contains(c),
        ensures
            ids(final(result)@).no_duplicates(),
            forall|y: T::Id|
                ids(old(result)@).contains(y) ==> #[trigger] ids(final(result)@).contains(y),
            forall|y: T::Id| #[trigger]
                ids(final(result)@).contains(y) ==> ids(old(result)@).contains(y) || step(
                    self.edge_set(),
                    forward,
                    cur.id(),
                    y,
                ),
            forall|y: T::Id| #[trigger]
                ids(final(result)@).contains(y) ==> links(self.edge_set(), forward, root, y)
                    && self.node_set().contains(y),
            forall|y: T::Id| #[trigger]
                step(self.edge_set(), forward, cur.id(), y) ==> ids(final(result)@).contains(y),
            forall|c: T::Id| #[trigger]
                ids(final(discovered)@).contains(c) ==> ids(final(result)@).contains(c),
            forall|c: T::Id|
                ids(old(discovered)@).contains(c) ==> #[trigger] ids(
                    final(discovered)@,
                ).contains(c),
            forall|y: T::Id| #[trigger]
                ids(final(result)@).contains(y) ==> ids(old(result)@).contains(y) || ids(
                    final(discovered)@,
                ).contains(y),
            final(result)@.len() - old(result)@.len() == final(discovered)@.len() - old(
                discovered,
            )@.len(),
    {
        let ghost es = self.edge_set();
        let mut ei: usize = 0;
        while ei < self.edges.len()
            invariant
                self.wf(),
                es == self.edge_set(),
                ei <= self.edges.len(),
                cur.id() == root || links(es, forward, root, cur.id()),
                ids(result@).no_duplicates(),
                forall|y: T::Id|
                    ids(old(result)@).contains(y) ==> #[trigger] ids(result@).contains(y),
                forall|y: T::Id| #[trigger]
                    ids(result@).contains(y) ==> ids(old(result)@).contains(y) || step(
                        es,
                        forward,
                        cur.id(),
                        y,
                    ),
                forall|y: T::Id| #[trigger]
                    ids(result@).contains(y) ==> links(es, forward, root, y)
                        && self.node_set().contains(y),
                forall|j: int|
                    0 <= j < ei ==> {
                        let p = #[trigger] edge_ids(self.edges@)[j];
                        (forward && p.0 == cur.id() ==> ids(result@).contains(p.1)) && (!forward
                            && p.1 == cur.id() ==> ids(result@).contains(p.0))
                    },
                forall|c: T::Id| #[trigger]
                    ids(discovered@).contains(c) ==> ids(result@).contains(c),
                forall|c: T::Id|
                    ids(old(discovered)@).contains(c) ==> #[trigger] ids(discovered@).contains(c),
                forall|y: T::Id| #[trigger]
                    ids(result@).contains(y) ==> ids(old(result)@).contains(y) || ids(
                        discovered@,
                    ).contains(y),
                result@.len() - old(result)@.len() == discovered@.len() - old(discovered)@.len(),
            decreases self.edges.len() - ei,
        {
            let e = &self.edges[ei];
            let hit = if forward {
                e.0.same_id(cur)
            } else {
                e.1.same_id(cur)
            };
            if hit {
                let nb = if forward {
                    &e.1
                } else {
                    &e.0
                };
                proof {
                    assert(edge_ids(self.edges@)[ei as int] == (e.0.id(), e.1.id()));
                    assert(edge_ids(self.edges@).contains((e.0.id(), e.1.id())));
                    assert(es.contains((e.0.id(), e.1.id())));
                    assert(step(es, forward, cur.id(), nb.id()));
                }
                if !contains_id(result, nb) {
                    let ghost r0 = result@;
                    let ghost d0 = discovered@;
                    result.push(nb.dup());
                    discovered.push(nb.dup());
                    proof {
                        lemma_ids_push(r0, result@.last());
                        lemma_ids_push(d0, discovered@.last());
                        lemma_contains_push(ids(r0), nb.id());
                        lemma_contains_push(ids(d0), nb.id());
                        lemma_no_dup_push(ids(r0), nb.id());
                        if cur.id() == root {
                            lemma_step_links(es, forward, root, nb.id());
                        } else {
                            lemma_step_links(es, forward, cur.id(), nb.id());
                            lemma_links_trans(es, forward, root, cur.id(), nb.id());
                        }
                        assert(self.node_set().contains(nb.id()));
                    }
                }
            }
            ei += 1;
        }
        proof {
            assert forall|y: T::Id| #[trigger]
                step(es, forward, cur.id(), y) implies ids(result@).contains(y) by {
                let p: (T::Id, T::Id) = if forward {
                    (cur.id(), y)
                } else {
                    (y, cur.id())
                };
                assert(es.contains(p));
                let j = choose|j: int|
                    0 <= j < edge_ids(self.edges@).len() && edge_ids(self.edges@)[j] == p;
                assert(edge_ids(self.edges@)[j] == p);
            }
        }
    }

    /// Collect every node a walk from `node` attains, following edges
    /// forward (dependencies) or backward (dependents), by repeatedly
    /// expanding a frontier of freshly found nodes.
    fn dig_deep(&self, node: &T, forward: bool) -> (r: Vec<T>)
        requires
            self.wf(),
        ensures
            ids(r@).no_duplicates(),
            forall|y: T::Id| #[trigger]
                ids(r@).contains(y) <==> links(self.edge_set(), forward, node.id(), y),
    {
        let ghost es = self.edge_set();
        let ghost root = node.id();
        let mut result: Vec<T> = Vec::new();
        let mut search_next: Vec<T> = Vec::new();
        search_next.push(node.dup());
        proof {
            lemma_ids_push(Seq::<T>::empty(), search_next@.last());
            assert(ids(search_next@) == Seq::<T::Id>::empty().push(root));
            assert forall|c: T::Id| #[trigger] ids(search_next@).contains(c) implies c == root by {
                let i = choose|i: int|
                    0 <= i < ids(search_next@).len() && ids(search_next@)[i] == c;
                assert(i == 0);
            }
            assert(ids(search_next@)[0] == root);
            assert(ids(search_next@).contains(root));
        }
        while search_next.len() > 0
            invariant
                self.wf(),
                es == self.edge_set(),
                root == node.id(),
                ids(result@).no_duplicates(),
                forall|y: T::Id| #[trigger]
                    ids(result@).contains(y) ==> links(es, forward, root, y)
                        && self.node_set().contains(y),
                forall|c: T::Id| #[trigger]
                    ids(search_next@).contains(c) ==> c == root || links(es, forward, root, c),
                forall|x: T::Id, y: T::Id|
                    ((x == root || ids(result@).contains(x)) && !ids(search_next@).contains(x)
                        && #[trigger] step(es, forward, x, y)) ==> ids(result@).contains(y),
                result@.len() <= self.node_set().len(),
            decreases self.node_set().len() - result@.len() + (if search_next@.len() == 0 {
                0int
            } else {
                1int
            }),
        {
            let ghost round0 = result@;
            let mut discovered: Vec<T> = Vec::new();
            let mut fi: usize = 0;
            while fi < search_next.len()
                invariant
                    self.wf(),
                    es == self.edge_set(),
                    root == node.id(),
                    fi <= search_next.len(),
                    ids(result@).no_duplicates(),
                    forall|y: T::Id| #[trigger]
                        ids(result@).contains(y) ==> links(es, forward, root, y)
                            && self.node_set().contains(y),
                    forall|c: T::Id| #[trigger]
                        ids(search_next@).contains(c) ==> c == root || links(es, forward, root, c),
                    forall|c: T::Id| #[trigger]
                        ids(discovered@).contains(c) ==> ids(result@).contains(c),
                    forall|y: T::Id| ids(round0).contains(y) ==> #[trigger] ids(result@).contains(y),
                    forall|y: T::Id| #[trigger]
                        ids(result@).contains(y) ==> ids(round0).contains(y) || ids(
                            discovered@,
                        ).contains(y),
                    forall|x: T::Id, y: T::Id|
                        ((x == root || ids(result@).contains(x)) && !(exists|j: int|
                            fi <= j < search_next@.len() && ids(search_next@)[j] == x) && !ids(
                            discovered@,
                        ).contains(x) && #[trigger] step(es, forward, x, y)) ==> ids(
                            result@,
                        ).contains(y),
                    result@.len() == round0.len() + discovered@.len(),
                decreases search_next.len() - fi,
            {
                let cur = &search_next[fi];
                proof {
                    assert(ids(search_next@)[fi as int] == cur.id());
                    assert(ids(search_next@).contains(cur.id()));
                }
                let ghost rbefore = result@;
                let ghost dbefore = discovered@;
                self.expand(cur, forward, &mut result, &mut discovered, Ghost(root));
                fi += 1;
                proof {
                    assert forall|x: T::Id, y: T::Id|
                        ((x == root || ids(result@).contains(x)) && !(exists|j: int|
                            fi <= j < search_next@.len() && ids(search_next@)[j] == x) && !ids(
                            discovered@,
                        ).contains(x) && #[trigger] step(es, forward, x, y)) implies ids(
                        result@,
                    ).contains(y) by {
                        if x == cur.id() {
                            assert(ids(result@).contains(y));
                        } else {
                            if ids(result@).contains(x) && !ids(rbefore).contains(x) {
                                assert(ids(discovered@).contains(x));
                            }
                            assert(x == root || ids(rbefore).contains(x));
                            assert(!(exists|j: int|
                                fi - 1 <= j < search_next@.len() && ids(search_next@)[j] == x));
                            assert(ids(rbefore).contains(y));
                        }
                    }
                }
            }
            search_next = discovered;
            proof {
                broadcast use vstd::seq_lib::seq_to_set_is_finite;

                assert(self.node_set().finite());
                lemma_distinct_in_set_len(ids(result@), self.node_set());
            }
        }
        proof {
            let rs = ids(result@).to_set();
            lemma_closed_complete(es, forward, root, rs);
            assert forall|y: T::Id| #[trigger]
                ids(result@).contains(y) <==> links(es, forward, root, y) by {
                if links(es, forward, root, y) {
                    assert(rs.contains(y));
                }
            }
        }
        result
    }
}

impl<T: NodeId> Default for Graph<T> {
    /// An empty graph.
    fn default() -> (g: Self)
        ensures
            g.wf(),
            g.node_set() == Set::<T::Id>::empty(),
            g.edge_set() == Set::<(T::Id, T::Id)>::empty(),
    {
        Graph::new()
    }
}

/// Appending an identifier appends its identity.
proof fn lemma_ids_push<T: NodeId>(s: Seq<T>, t: T)
    ensures
        ids(s.push(t)) == ids(s).push(t.id()),
{
    assert(ids(s.push(t)) =~= ids(s).push(t.id()));
}

/// What a sequence holds after a push.
proof fn lemma_contains_push<A>(s: Seq<A>, e: A)
    ensures
        forall|x: A| #[trigger] s.push(e).contains(x) <==> s.contains(x) || x == e,
{
    assert forall|x: A| #[trigger] s.push(e).contains(x) <==> s.contains(x) || x == e by {
        if s.contains(x) {
            let i = choose|i: int| 0 <= i < s.len() && s[i] == x;
            assert(s.push(e)[i] == x);
        }
        if x == e {
            assert(s.push(e)[s.len() as int] == x);
        }
        if s.push(e).contains(x) {
            let i = choose|i: int| 0 <= i < s.push(e).len() && s.push(e)[i] == x;
            if i < s.len() {
                assert(s[i] == x);
            }
        }
    }
}

/// Pushing a fresh element keeps a sequence free of duplicates.
proof fn lemma_no_dup_push<A>(s: Seq<A>, e: A)
    requires
        s.no_duplicates(),
        !s.contains(e),
    ensures
        s.push(e).no_duplicates(),
{
    let t = s.push(e);
    assert forall|i: int, j: int|
        0 <= i < t.len() && 0 <= j < t.len() && i != j implies t[i] != t[j] by {
        if i < s.len() && j < s.len() {
            assert(s[i] != s[j]);
        } else if i < s.len() && j == s.len() {
            assert(t[j] == e);
            if s[i] == e {
                assert(s.contains(e));
            }
        } else if j < s.len() && i == s.len() {
            assert(t[i] == e);
            if s[j] == e {
                assert(s.contains(e));
            }
        }
    }
}

/// Appending an edge appends its identity pair.
proof fn lemma_edge_ids_push<T: NodeId>(s: Seq<(T, T)>, e: (T, T))
    ensures
        edge_ids(s.push(e)) == edge_ids(s).push((e.0.id(), e.1.id())),
{
    assert(edge_ids(s.push(e)) =~= edge_ids(s).push((e.0.id(), e.1.id())));
}

/// Pushing an element inserts it into the sequence's set.
proof fn lemma_to_set_push<A>(s: Seq<A>, e: A)
    ensures
        s.push(e).to_set() == s.to_set().insert(e),
{
    lemma_contains_push(s, e);
    assert(s.push(e).to_set() =~= s.to_set().insert(e));
}

/// Removing an edge removes its identity pair.
proof fn lemma_edge_ids_remove<T: NodeId>(s: Seq<(T, T)>, j: int)
    requires
        0 <= j < s.len(),
    ensures
        edge_ids(s.remove(j)) == edge_ids(s).remove(j),
{
    s.remove_ensures(j);
    edge_ids(s).remove_ensures(j);
    assert forall|i: int|
        0 <= i < s.len() - 1 implies edge_ids(s.remove(j))[i] == edge_ids(s).remove(j)[i] by {
        if i < j {
            assert(s.remove(j)[i] == s[i]);
            assert(edge_ids(s).remove(j)[i] == edge_ids(s)[i]);
        } else {
            assert(s.remove(j)[i] == s[i + 1]);
            assert(edge_ids(s).remove(j)[i] == edge_ids(s)[i + 1]);
        }
    }
    assert(edge_ids(s.remove(j)) =~= edge_ids(s).remove(j));
}

/// Removing one position of a duplicate-free sequence removes exactly
/// its element from the sequence's set.
proof fn lemma_remove_to_set<A>(s: Seq<A>, j: int)
    requires
        0 <= j < s.len(),
        s.no_duplicates(),
    ensures
        s.remove(j).no_duplicates(),
        s.remove(j).to_set() == s.to_set().remove(s[j]),
{
    s.remove_ensures(j);
    assert forall|x: A| #[trigger]
        s.remove(j).contains(x) <==> (s.contains(x) && x != s[j]) by {
        if s.remove(j).contains(x) {
            let i = choose|i: int| 0 <= i < s.remove(j).len() && s.remove(j)[i] == x;
            if i < j {
                assert(s[i] == x);
                assert(s[i] != s[j]);
            } else {
                assert(s[i + 1] == x);
                assert(s[i + 1] != s[j]);
            }
        }
        if s.contains(x) && x != s[j] {
            let i = choose|i: int| 0 <= i < s.len() && s[i] == x;
            if i < j {
                assert(s.remove(j)[i] == x);
            } else {
                assert(i != j);
                assert(s.remove(j)[i - 1] == x);
            }
        }
    }
    assert(s.remove(j).to_set() =~= s.to_set().remove(s[j]));
    assert forall|i1: int, i2: int|
        0 <= i1 < s.remove(j).len() && 0 <= i2 < s.remove(j).len() && i1 != i2 implies s.remove(
        j,
    )[i1] != s.remove(j)[i2] by {
        let k1: int = if i1 < j {
            i1
        } else {
            i1 + 1
        };
        let k2: int = if i2 < j {
            i2
        } else {
            i2 + 1
        };
        assert(s.remove(j)[i1] == s[k1]);
        assert(s.remove(j)[i2] == s[k2]);
        assert(s[k1] != s[k2]);
    }
}

/// A duplicate-free sequence drawn from a finite set is no longer
/// than the set.
proof fn lemma_distinct_in_set_len<A>(s: Seq<A>, t: Set<A>)
    requires
        s.no_duplicates(),
        t.finite(),
        forall|y: A| #[trigger] s.contains(y) ==> t.contains(y),
    ensures
        s.len() <= t.len(),
{
    broadcast use vstd::seq_lib::seq_to_set_is_finite;

    s.unique_seq_to_set();
    assert(s.to_set().subset_of(t));
    vstd::set_lib::lemma_len_subset(s.to_set(), t);
}

/// Whether some identifier of `v` has the identity of `x`.
fn contains_id<T: NodeId>(v: &Vec<T>, x: &T) -> (b: bool)
    ensures
        b == ids(v@).contains(x.id()),
{
    let mut i: usize = 0;
    while i < v.len()
        invariant
            i <= v.len(),
            forall|j: int| 0 <= j < i ==> #[trigger] ids(v@)[j] != x.id(),
        decreases v.len() - i,
    {
        if v[i].same_id(x) {
            proof {
                assert(ids(v@)[i as int] == x.id());
            }
            return true;
        }
        i += 1;
    }
    false
}

/// The position of the edge `(a, b)`, if the graph holds it.
fn find_edge<T: NodeId>(es: &Vec<(T, T)>, a: &T, b: &T) -> (r: Option<usize>)
    ensures
        match r {
            Some(j) => j < es@.len() && edge_ids(es@)[j as int] == (a.id(), b.id()),
            None => !edge_ids(es@).contains((a.id(), b.id())),
        },
{
    let mut i: usize = 0;
    while i < es.len()
        invariant
            i <= es.len(),
            forall|j: int| 0 <= j < i ==> #[trigger] edge_ids(es@)[j] != (a.id(), b.id()),
        decreases es.len() - i,
    {
        if es[i].0.same_id(a) && es[i].1.same_id(b) {
            proof {
                assert(edge_ids(es@)[i as int] == (a.id(), b.id()));
            }
            return Some(i);
        }
        i += 1;
    }
    None
}

} // verus!

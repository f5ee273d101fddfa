//! Laws the engine obeys, stated over its public model.

use vstd::prelude::*;

use crate::graph::Graph;
use crate::id::NodeId;
use crate::reach::chain_ok;
use crate::reach::edges_without;
use crate::reach::lemma_isolated;
use crate::reach::lemma_links_insert;
use crate::reach::lemma_links_trans;
use crate::reach::lemma_step_links;
use crate::reach::links;
use crate::reach::reaches;
use crate::reach::step;

verus! {

/// The identities a node depends on directly.
pub open spec fn direct_dependencies_of<A>(es: Set<(A, A)>, x: A) -> Set<A> {
    Set::new(|y: A| es.contains((x, y)))
}

/// The identities that depend on a node directly.
pub open spec fn direct_dependents_of<A>(es: Set<(A, A)>, y: A) -> Set<A> {
    Set::new(|x: A| es.contains((x, y)))
}

/// Symmetry: `y` is a direct dependency of `x` exactly when `x` is a
/// direct dependent of `y`.  Both views read the one set of edges, so
/// no sequence of mutations can drive them apart.
pub proof fn lemma_edge_symmetry<A>(es: Set<(A, A)>)
    ensures
        forall|x: A, y: A|
            direct_dependencies_of(es, x).contains(y) <==> #[trigger] direct_dependents_of(
                es,
                y,
            ).contains(x),
{
}

/// Idempotent edges: where `depend(a, b)` succeeds on `g`, a second
/// `depend(a, b)` on the outcome succeeds as well and leaves both the
/// nodes and the edges exactly as the first call left them.
pub proof fn lemma_depend_idempotent<T: NodeId>(g: Graph<T>, a: T::Id, b: T::Id)
    requires
        g.wf(),
        a != b,
        !reaches(g.edge_set(), b, a),
    ensures
        ({
            let es1 = g.edge_set().insert((a, b));
            let ns1 = g.node_set().insert(a).insert(b);
            &&& !reaches(es1, b, a)
            &&& es1.insert((a, b)) == es1
            &&& ns1.insert(a).insert(b) == ns1
        }),
{
    let es = g.edge_set();
    let es1 = es.insert((a, b));
    let ns1 = g.node_set().insert(a).insert(b);
    if reaches(es1, b, a) {
        lemma_links_insert(es, a, b, b, a);
        assert(links(es, true, b, a) || b == a);
        assert(reaches(es, b, a));
    }
    assert(es1.insert((a, b)) =~= es1);
    assert(ns1.insert(a).insert(b) =~= ns1);
}

/// Transitive closure of a chain: with exactly the edges `a -> b`,
/// `b -> c` and `c -> d`, the transitive dependencies of `a` are `b`,
/// `c` and `d`, and the transitive dependents of `d` are `a`, `b` and
/// `c`.
pub proof fn lemma_chain_closure<A>(a: A, b: A, c: A, d: A)
    ensures
        ({
            let es = Set::<(A, A)>::empty().insert((a, b)).insert((b, c)).insert((c, d));
            &&& forall|y: A| #[trigger] reaches(es, a, y) <==> (y == b || y == c || y == d)
            &&& forall|x: A| #[trigger] reaches(es, x, d) <==> (x == a || x == b || x == c)
        }),
{
    let es = Set::<(A, A)>::empty().insert((a, b)).insert((b, c)).insert((c, d));
    assert(es.contains((a, b)));
    assert(es.contains((b, c)));
    assert(es.contains((c, d)));
    assert forall|y: A| #[trigger] reaches(es, a, y) <==> (y == b || y == c || y == d) by {
        if reaches(es, a, y) {
            let p = choose|p: Seq<A>|
                p.len() >= 2 && p.first() == a && p.last() == y && #[trigger] chain_ok(
                    es,
                    true,
                    p,
                );
            let n = p.len() as int;
            assert(step(es, true, p[n - 2], p[n - 1]));
            assert(es.contains((p[n - 2], y)));
        }
        if y == b || y == c || y == d {
            lemma_step_links(es, true, a, b);
            lemma_step_links(es, true, b, c);
            lemma_step_links(es, true, c, d);
            lemma_links_trans(es, true, a, b, c);
            lemma_links_trans(es, true, a, c, d);
        }
    }
    assert forall|x: A| #[trigger] reaches(es, x, d) <==> (x == a || x == b || x == c) by {
        if reaches(es, x, d) {
            let p = choose|p: Seq<A>|
                p.len() >= 2 && p.first() == x && p.last() == d && #[trigger] chain_ok(
                    es,
                    true,
                    p,
                );
            assert(step(es, true, p[0], p[1]));
            assert(es.contains((x, p[1])));
        }
        if x == a || x == b || x == c {
            lemma_step_links(es, true, a, b);
            lemma_step_links(es, true, b, c);
            lemma_step_links(es, true, c, d);
            lemma_links_trans(es, true, b, c, d);
            lemma_links_trans(es, true, a, b, d);
        }
    }
}

/// A removed node is isolated: once no edge touches `t`, nothing
/// depends on `t` and `t` depends on nothing, directly or transitively.
pub proof fn lemma_removed_isolated<A>(es: Set<(A, A)>, t: A)
    ensures
        forall|y: A|
            !reaches(edges_without(es, t), t, y) && !(#[trigger] reaches(
                edges_without(es, t),
                y,
                t,
            )),
{
    let es1 = edges_without(es, t);
    lemma_isolated(es1, t);
}

} // verus!

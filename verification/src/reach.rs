//! Reachability over a set of directed edges.
//!
//! An edge is a pair `(dependent, dependency)` of node identities.  A
//! node `y` is a transitive dependency of `x` when a walk of one or
//! more edges leads from `x` to `y`.  Walks are modelled as sequences
//! of nodes whose consecutive members are joined by an edge, either
//! followed forward (towards dependencies) or backward (towards
//! dependents).

use vstd::prelude::*;

verus! {

/// One step along an edge: forward follows `(x, y)`, backward `(y, x)`.
pub open spec fn step<A>(es: Set<(A, A)>, forward: bool, x: A, y: A) -> bool {
    if forward {
        es.contains((x, y))
    } else {
        es.contains((y, x))
    }
}

/// Every pair of consecutive members of `p` is joined by a step.
pub open spec fn chain_ok<A>(es: Set<(A, A)>, forward: bool, p: Seq<A>) -> bool {
    forall|i: int| 0 <= i < p.len() - 1 ==> step(es, forward, #[trigger] p[i], p[i + 1])
}

/// A walk of at least one step leads from `x` to `y`.
pub open spec fn links<A>(es: Set<(A, A)>, forward: bool, x: A, y: A) -> bool {
    exists|p: Seq<A>|
        p.len() >= 2 && p.first() == x && p.last() == y && #[trigger] chain_ok(es, forward, p)
}

/// `y` is a direct or transitive dependency of `x`.
pub open spec fn reaches<A>(es: Set<(A, A)>, x: A, y: A) -> bool {
    links(es, true, x, y)
}

/// The edges of `es` that do not touch `t` on either side.
pub open spec fn edges_without<A>(es: Set<(A, A)>, t: A) -> Set<(A, A)> {
    Set::new(|p: (A, A)| es.contains(p) && p.0 != t && p.1 != t)
}

/// No walk exists in a graph without edges.
pub proof fn lemma_empty_acyclic<A>(es: Set<(A, A)>)
    requires
        es == Set::<(A, A)>::empty(),
    ensures
        forall|x: A, y: A| !links(es, true, x, y),
{
    assert forall|x: A, y: A| !links(es, true, x, y) by {
        if links(es, true, x, y) {
            let p = choose|p: Seq<A>|
                p.len() >= 2 && p.first() == x && p.last() == y && #[trigger] chain_ok(
                    es,
                    true,
                    p,
                );
            assert(step(es, true, p[0], p[1]));
            assert(es.contains((p[0], p[1])));
        }
    }
}

/// A single step is already a walk.
pub proof fn lemma_step_links<A>(es: Set<(A, A)>, forward: bool, x: A, y: A)
    requires
        step(es, forward, x, y),
    ensures
        links(es, forward, x, y),
{
    let p = seq![x, y];
    assert(p.first() == x);
    assert(p.last() == y);
    assert(chain_ok(es, forward, p)) by {
        assert forall|i: int| 0 <= i < p.len() - 1 implies step(es, forward, #[trigger] p[i], p[i + 1]) by {
            assert(i == 0);
            assert(p[0] == x && p[1] == y);
        }
    }
}

/// Walks compose: one from `x` to `y` and one from `y` to `z` join
/// into one from `x` to `z`.
pub proof fn lemma_links_trans<A>(es: Set<(A, A)>, forward: bool, x: A, y: A, z: A)
    requires
        links(es, forward, x, y),
        links(es, forward, y, z),
    ensures
        links(es, forward, x, z),
{
    let p1 = choose|p: Seq<A>|
        p.len() >= 2 && p.first() == x && p.last() == y && #[trigger] chain_ok(es, forward, p);
    let p2 = choose|p: Seq<A>|
        p.len() >= 2 && p.first() == y && p.last() == z && #[trigger] chain_ok(es, forward, p);
    let n1 = p1.len() as int;
    let n2 = p2.len() as int;
    let q = p1 + p2.subrange(1, n2);
    assert(q.len() == n1 + n2 - 1);
    assert(q.first() == x);
    assert(q.last() == p2[n2 - 1]);
    assert(chain_ok(es, forward, q)) by {
        assert forall|i: int| 0 <= i < q.len() - 1 implies step(es, forward, #[trigger] q[i], q[i + 1]) by {
            if i + 1 < n1 {
                assert(q[i] == p1[i]);
                assert(q[i + 1] == p1[i + 1]);
                assert(step(es, forward, p1[i], p1[i + 1]));
            } else if i + 1 == n1 {
                assert(q[i] == p1[n1 - 1]);
                assert(p1[n1 - 1] == y);
                assert(q[i + 1] == p2[1]);
                assert(step(es, forward, p2[0], p2[1]));
                assert(p2[0] == y);
            } else {
                let j = i - n1 + 1;
                assert(q[i] == p2[j]);
                assert(q[i + 1] == p2[j + 1]);
                assert(step(es, forward, p2[j], p2[j + 1]));
            }
        }
    }
}

/// A walk in a smaller edge set is a walk in a larger one.
pub proof fn lemma_links_mono<A>(es1: Set<(A, A)>, es2: Set<(A, A)>, forward: bool, x: A, y: A)
    requires
        links(es1, forward, x, y),
        es1.subset_of(es2),
    ensures
        links(es2, forward, x, y),
{
    let p = choose|p: Seq<A>|
        p.len() >= 2 && p.first() == x && p.last() == y && #[trigger] chain_ok(es1, forward, p);
    assert(chain_ok(es2, forward, p)) by {
        assert forall|i: int| 0 <= i < p.len() - 1 implies step(es2, forward, #[trigger] p[i], p[i + 1]) by {
            assert(step(es1, forward, p[i], p[i + 1]));
        }
    }
}

/// Reversing a walk swaps its direction and its endpoints.
pub proof fn lemma_links_flip<A>(es: Set<(A, A)>, forward: bool, x: A, y: A)
    requires
        links(es, forward, x, y),
    ensures
        links(es, !forward, y, x),
{
    let p = choose|p: Seq<A>|
        p.len() >= 2 && p.first() == x && p.last() == y && #[trigger] chain_ok(es, forward, p);
    let n = p.len() as int;
    let q = Seq::new(p.len(), |i: int| p[n - 1 - i]);
    assert(q.first() == y);
    assert(q.last() == x);
    assert(chain_ok(es, !forward, q)) by {
        assert forall|i: int| 0 <= i < q.len() - 1 implies step(es, !forward, #[trigger] q[i], q[i + 1]) by {
            let j = n - 2 - i;
            assert(step(es, forward, p[j], p[j + 1]));
            assert(q[i] == p[j + 1]);
            assert(q[i + 1] == p[j]);
        }
    }
}

/// Every walk in `es` with the edge `(a, b)` added either avoids the
/// new edge, or passes through it: it walks from its start to `a`,
/// over the new edge, and from `b` to its end.
proof fn lemma_chain_insert<A>(es: Set<(A, A)>, a: A, b: A, p: Seq<A>)
    requires
        p.len() >= 2,
        chain_ok(es.insert((a, b)), true, p),
    ensures
        links(es, true, p.first(), p.last()) || ((p.first() == a || links(es, true, p.first(), a))
            && (b == p.last() || links(es, true, b, p.last()))),
    decreases p.len(),
{
    let x = p.first();
    let y = p.last();
    assert(step(es.insert((a, b)), true, p[0], p[1]));
    if p.len() == 2 {
        if es.contains((x, y)) {
            lemma_step_links(es, true, x, y);
        } else {
            assert(x == a && y == b);
        }
    } else {
        let q = p.subrange(1, p.len() as int);
        assert(q.first() == p[1]);
        assert(q.last() == y);
        assert(chain_ok(es.insert((a, b)), true, q)) by {
            assert forall|i: int| 0 <= i < q.len() - 1 implies step(
                es.insert((a, b)),
                true,
                #[trigger] q[i],
                q[i + 1],
            ) by {
                assert(q[i] == p[i + 1]);
                assert(q[i + 1] == p[i + 2]);
                assert(step(es.insert((a, b)), true, p[i + 1], p[i + 2]));
            }
        }
        lemma_chain_insert(es, a, b, q);
        if es.contains((p[0], p[1])) {
            lemma_step_links(es, true, x, p[1]);
            if links(es, true, p[1], y) {
                lemma_links_trans(es, true, x, p[1], y);
            } else {
                assert(p[1] == a || links(es, true, p[1], a));
                if p[1] != a {
                    lemma_links_trans(es, true, x, p[1], a);
                }
            }
        } else {
            assert(p[0] == a && p[1] == b);
            if links(es, true, p[1], y) {
            } else {
                assert(b == y || links(es, true, b, y));
            }
        }
    }
}

/// A connection in `es` with `(a, b)` added either existed before or
/// routes through the new edge.
pub proof fn lemma_links_insert<A>(es: Set<(A, A)>, a: A, b: A, x: A, y: A)
    requires
        links(es.insert((a, b)), true, x, y),
    ensures
        links(es, true, x, y) || ((x == a || links(es, true, x, a)) && (b == y || links(
            es,
            true,
            b,
            y,
        ))),
{
    let p = choose|p: Seq<A>|
        p.len() >= 2 && p.first() == x && p.last() == y && #[trigger] chain_ok(
            es.insert((a, b)),
            true,
            p,
        );
    lemma_chain_insert(es, a, b, p);
}

/// Adding the edge `(a, b)` to an acyclic edge set keeps it acyclic,
/// provided `b` did not already reach `a` and the edge is no self-loop.
pub proof fn lemma_acyclic_insert<A>(es: Set<(A, A)>, a: A, b: A)
    requires
        a != b,
        !reaches(es, b, a),
        forall|x: A| !reaches(es, x, x),
    ensures
        forall|x: A| !reaches(es.insert((a, b)), x, x),
{
    assert forall|x: A| !reaches(es.insert((a, b)), x, x) by {
        if reaches(es.insert((a, b)), x, x) {
            lemma_links_insert(es, a, b, x, x);
            assert(!reaches(es, x, x));
            if x == a {
                assert(b != x);
                assert(links(es, true, b, x));
                assert(reaches(es, b, a));
            } else {
                assert(links(es, true, x, a));
                if b == x {
                    assert(reaches(es, b, a));
                } else {
                    lemma_links_trans(es, true, b, x, a);
                    assert(reaches(es, b, a));
                }
            }
        }
    }
}

/// A node no edge touches joins no walk at either end.
pub proof fn lemma_isolated<A>(es: Set<(A, A)>, t: A)
    requires
        forall|y: A| !(#[trigger] es.contains((t, y))),
        forall|y: A| !(#[trigger] es.contains((y, t))),
    ensures
        forall|y: A| !links(es, true, t, y) && !links(es, true, y, t),
{
    assert forall|y: A| !links(es, true, t, y) && !links(es, true, y, t) by {
        if links(es, true, t, y) {
            let p = choose|p: Seq<A>|
                p.len() >= 2 && p.first() == t && p.last() == y && #[trigger] chain_ok(
                    es,
                    true,
                    p,
                );
            assert(step(es, true, p[0], p[1]));
            assert(es.contains((t, p[1])));
        }
        if links(es, true, y, t) {
            let p = choose|p: Seq<A>|
                p.len() >= 2 && p.first() == y && p.last() == t && #[trigger] chain_ok(
                    es,
                    true,
                    p,
                );
            let n = p.len() as int;
            assert(step(es, true, p[n - 2], p[n - 1]));
            assert(es.contains((p[n - 2], t)));
        }
    }
}

/// Along a walk out of `base`, a set that contains every step
/// neighbour of `base` and of its own members picks up the walk's end.
proof fn lemma_chain_closed<A>(es: Set<(A, A)>, forward: bool, base: A, rs: Set<A>, p: Seq<A>)
    requires
        forall|x: A, y: A|
            ((x == base || rs.contains(x)) && #[trigger] step(es, forward, x, y)) ==> rs.contains(
                y,
            ),
        p.len() >= 2,
        p.first() == base,
        chain_ok(es, forward, p),
    ensures
        rs.contains(p.last()),
    decreases p.len(),
{
    let n = p.len() as int;
    if p.len() == 2 {
        assert(step(es, forward, p[0], p[1]));
    } else {
        let q = p.drop_last();
        assert(q.first() == base);
        assert(chain_ok(es, forward, q)) by {
            assert forall|i: int| 0 <= i < q.len() - 1 implies step(es, forward, #[trigger] q[i], q[i + 1]) by {
                assert(q[i] == p[i]);
                assert(q[i + 1] == p[i + 1]);
                assert(step(es, forward, p[i], p[i + 1]));
            }
        }
        lemma_chain_closed(es, forward, base, rs, q);
        assert(rs.contains(p[n - 2]));
        assert(step(es, forward, p[n - 2], p[n - 1]));
    }
}

/// A set closed under steps out of `base` and out of its own members
/// contains everything a walk from `base` can attain.
pub proof fn lemma_closed_complete<A>(es: Set<(A, A)>, forward: bool, base: A, rs: Set<A>)
    requires
        forall|x: A, y: A|
            ((x == base || rs.contains(x)) && #[trigger] step(es, forward, x, y)) ==> rs.contains(
                y,
            ),
    ensures
        forall|y: A| #[trigger] links(es, forward, base, y) ==> rs.contains(y),
{
    assert forall|y: A| #[trigger] links(es, forward, base, y) implies rs.contains(y) by {
        let p = choose|p: Seq<A>|
            p.len() >= 2 && p.first() == base && p.last() == y && #[trigger] chain_ok(
                es,
                forward,
                p,
            );
        lemma_chain_closed(es, forward, base, rs, p);
    }
}

} // verus!

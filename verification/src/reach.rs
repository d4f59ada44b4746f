//! Reachability along the edges of a table's map: the specification that the
//! breadth-first closure queries are proved against.

use crate::edge_table::EdgeEntry;
use crate::edge_table::EdgeV;
use vstd::prelude::*;

verus! {

/// One breadth-first discovery step in the forward direction: scanning the
/// rows in order, the destination of each reference edge leaving `cur` is
/// appended unless it is already present.
pub open spec fn discover_forward(rows: Seq<EdgeEntry>, out: Seq<int>, cur: int) -> Seq<int>
    decreases rows.len(),
{
    if rows.len() == 0 {
        out
    } else {
        let prior = discover_forward(rows.drop_last(), out, cur);
        let e = rows.last();
        if e.src as int == cur && !prior.contains(e.dst as int) {
            prior.push(e.dst as int)
        } else {
            prior
        }
    }
}

/// One breadth-first discovery step in the backward direction: scanning the
/// rows in order, the source of each reference edge arriving at `cur` is
/// appended unless it is already present.
pub open spec fn discover_backward(rows: Seq<EdgeEntry>, out: Seq<int>, cur: int) -> Seq<int>
    decreases rows.len(),
{
    if rows.len() == 0 {
        out
    } else {
        let prior = discover_backward(rows.drop_last(), out, cur);
        let e = rows.last();
        if e.dst as int == cur && !prior.contains(e.src as int) {
            prior.push(e.src as int)
        } else {
            prior
        }
    }
}

/// Breadth-first order, forward: the node at position `k` is processed by
/// appending its undiscovered successors, then the next position, until
/// every appended node has been processed. The fuel is any upper bound on
/// the number of nodes ever appended.
pub open spec fn bfs_forward(rows: Seq<EdgeEntry>, out: Seq<int>, k: int, fuel: nat) -> Seq<int>
    decreases fuel,
{
    if k >= out.len() || fuel == 0 {
        out
    } else {
        bfs_forward(rows, discover_forward(rows, out, out[k]), k + 1, (fuel - 1) as nat)
    }
}

/// Breadth-first order, backward: as `bfs_forward`, following edges against
/// their direction.
pub open spec fn bfs_backward(rows: Seq<EdgeEntry>, out: Seq<int>, k: int, fuel: nat) -> Seq<int>
    decreases fuel,
{
    if k >= out.len() || fuel == 0 {
        out
    } else {
        bfs_backward(rows, discover_backward(rows, out, out[k]), k + 1, (fuel - 1) as nat)
    }
}

/// `p` is a chain of consecutive edges of `m`.
pub open spec fn is_edge_path(m: Map<(int, int), EdgeV>, p: Seq<int>) -> bool {
    &&& p.len() >= 1
    &&& forall|i: int| 0 <= i < p.len() - 1 ==> m.contains_key(((#[trigger] p[i]), p[i + 1]))
}

/// Some chain of edges of `m` leads from `from` to `to` (in particular every
/// index reaches itself, by the chain of one node and no edge).
pub open spec fn reaches(m: Map<(int, int), EdgeV>, from: int, to: int) -> bool {
    exists|p: Seq<int>| is_edge_path(m, p) && p.first() == from && p.last() == to
}

pub proof fn lemma_reaches_self(m: Map<(int, int), EdgeV>, a: int)
    ensures
        reaches(m, a, a),
{
    let p = seq![a];
    assert(is_edge_path(m, p) && p.first() == a && p.last() == a);
}

/// Reaching `b` and stepping along an edge (b, c) reaches `c`.
pub proof fn lemma_reaches_step(m: Map<(int, int), EdgeV>, a: int, b: int, c: int)
    requires
        reaches(m, a, b),
        m.contains_key((b, c)),
    ensures
        reaches(m, a, c),
{
    let p = choose|p: Seq<int>| is_edge_path(m, p) && p.first() == a && p.last() == b;
    let q = p.push(c);
    assert(is_edge_path(m, q)) by {
        assert forall|i: int| 0 <= i < q.len() - 1 implies m.contains_key(
            ((#[trigger] q[i]), q[i + 1]),
        ) by {
            if i < p.len() - 1 {
                assert(q[i] == p[i] && q[i + 1] == p[i + 1]);
            } else {
                assert(q[i] == p.last() && q[i + 1] == c);
            }
        }
    }
    assert(q.first() == a && q.last() == c);
}

/// An edge (a, b) followed by a chain from `b` is a chain from `a`.
pub proof fn lemma_reaches_prepend(m: Map<(int, int), EdgeV>, a: int, b: int, c: int)
    requires
        m.contains_key((a, b)),
        reaches(m, b, c),
    ensures
        reaches(m, a, c),
{
    let p = choose|p: Seq<int>| is_edge_path(m, p) && p.first() == b && p.last() == c;
    let q = seq![a] + p;
    assert(is_edge_path(m, q)) by {
        assert forall|i: int| 0 <= i < q.len() - 1 implies m.contains_key(
            ((#[trigger] q[i]), q[i + 1]),
        ) by {
            if i == 0 {
                assert(q[0] == a && q[1] == p[0]);
            } else {
                assert(q[i] == p[i - 1] && q[i + 1] == p[i]);
            }
        }
    }
    assert(q.first() == a && q.last() == c);
}

proof fn lemma_path_into_closed(m: Map<(int, int), EdgeV>, s: Seq<int>, p: Seq<int>)
    requires
        is_edge_path(m, p),
        s.contains(p.first()),
        forall|x: int, y: int|
            #![trigger s.contains(x), m.contains_key((x, y))]
            s.contains(x) && m.contains_key((x, y)) ==> s.contains(y),
    ensures
        s.contains(p.last()),
    decreases p.len(),
{
    if p.len() > 1 {
        let q = p.drop_last();
        assert(is_edge_path(m, q)) by {
            assert(forall|i: int|
                0 <= i < q.len() - 1 ==> m.contains_key(((#[trigger] q[i]), q[i + 1])) && q[i] == p[i]
                    && q[i + 1] == p[i + 1]);
        }
        assert(q.first() == p.first());
        lemma_path_into_closed(m, s, q);
        assert(m.contains_key((p[p.len() - 2], p[p.len() - 1])));
        assert(s.contains(p[p.len() - 2]));
    }
}

/// A collection that holds `from` and is closed under following edges
/// forward holds everything `from` reaches.
pub proof fn lemma_closed_reaches(m: Map<(int, int), EdgeV>, s: Seq<int>, from: int, to: int)
    requires
        s.contains(from),
        forall|x: int, y: int|
            #![trigger s.contains(x), m.contains_key((x, y))]
            s.contains(x) && m.contains_key((x, y)) ==> s.contains(y),
        reaches(m, from, to),
    ensures
        s.contains(to),
{
    let p = choose|p: Seq<int>| is_edge_path(m, p) && p.first() == from && p.last() == to;
    lemma_path_into_closed(m, s, p);
}

proof fn lemma_path_into_coclosed(m: Map<(int, int), EdgeV>, s: Seq<int>, p: Seq<int>)
    requires
        is_edge_path(m, p),
        s.contains(p.last()),
        forall|x: int, y: int|
            #![trigger s.contains(y), m.contains_key((x, y))]
            s.contains(y) && m.contains_key((x, y)) ==> s.contains(x),
    ensures
        s.contains(p.first()),
    decreases p.len(),
{
    if p.len() > 1 {
        let q = p.drop_last();
        assert(is_edge_path(m, q)) by {
            assert(forall|i: int|
                0 <= i < q.len() - 1 ==> m.contains_key(((#[trigger] q[i]), q[i + 1])) && q[i] == p[i]
                    && q[i + 1] == p[i + 1]);
        }
        assert(m.contains_key((p[p.len() - 2], p[p.len() - 1])));
        assert(s.contains(q.last()));
        lemma_path_into_coclosed(m, s, q);
    }
}

/// A collection that holds `to` and is closed under following edges
/// backward holds everything that reaches `to`.
pub proof fn lemma_coclosed_reaches(m: Map<(int, int), EdgeV>, s: Seq<int>, from: int, to: int)
    requires
        s.contains(to),
        forall|x: int, y: int|
            #![trigger s.contains(y), m.contains_key((x, y))]
            s.contains(y) && m.contains_key((x, y)) ==> s.contains(x),
        reaches(m, from, to),
    ensures
        s.contains(from),
{
    let p = choose|p: Seq<int>| is_edge_path(m, p) && p.first() == from && p.last() == to;
    lemma_path_into_coclosed(m, s, p);
}

} // verus!

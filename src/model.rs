//! The mathematical model of border graphs and of chains through them.
use vstd::prelude::*;

use crate::graph::BorderCountryRow;

verus! {

/// The abstract adjacency structure: each country code maps to the codes of
/// its neighbours, in the order in which they were added.
pub type Adjacency = Map<Seq<char>, Seq<Seq<char>>>;

/// `g` with `a` present, mapped to no neighbours if it was absent.
pub open spec fn with_key(g: Adjacency, a: Seq<char>) -> Adjacency {
    if g.contains_key(a) {
        g
    } else {
        g.insert(a, Seq::empty())
    }
}

/// `g` with `b` appended to the neighbour list of `a`.
pub open spec fn add_neighbour(g: Adjacency, a: Seq<char>, b: Seq<char>) -> Adjacency {
    with_key(g, a).insert(a, with_key(g, a)[a].push(b))
}

/// The (code, border code) pair that a row contributes.
pub open spec fn pair_of(row: BorderCountryRow) -> (Seq<char>, Seq<char>) {
    (row.country_code@, row.country_border_code@)
}

/// The adjacency built from `rows` in order: each pair `(a, b)` appends `b`
/// to the neighbours of `a`, then `a` to the neighbours of `b`.
pub open spec fn graph_of(rows: Seq<BorderCountryRow>) -> Adjacency
    decreases rows.len(),
{
    if rows.len() == 0 {
        Map::empty()
    } else {
        let (a, b) = pair_of(rows.last());
        add_neighbour(add_neighbour(graph_of(rows.drop_last()), a, b), b, a)
    }
}

/// What `add_neighbour` keeps and what it adds.
proof fn lemma_add_neighbour(g: Adjacency, a: Seq<char>, b: Seq<char>)
    ensures
        ({
            let r = add_neighbour(g, a, b);
            &&& r.contains_key(a)
            &&& r[a].contains(b)
            &&& forall|k: Seq<char>, v: Seq<char>|
                g.contains_key(k) && g[k].contains(v) ==> r.contains_key(k) && #[trigger] r[k].contains(v)
            &&& forall|k: Seq<char>, v: Seq<char>|
                r.contains_key(k) && #[trigger] r[k].contains(v) ==> (g.contains_key(k) && g[k].contains(v))
                    || (k == a && v == b)
        }),
{
    let r = add_neighbour(g, a, b);
    let w = with_key(g, a);
    assert(r[a] == w[a].push(b));
    assert(r[a][w[a].len() as int] == b);
    assert forall|k: Seq<char>, v: Seq<char>|
        g.contains_key(k) && g[k].contains(v) implies r.contains_key(k) && #[trigger] r[k].contains(v) by {
        let i = choose|i: int| 0 <= i < g[k].len() && g[k][i] == v;
        if k == a {
            assert(r[k][i] == v);
        }
    }
    assert forall|k: Seq<char>, v: Seq<char>|
        r.contains_key(k) && #[trigger] r[k].contains(v) implies (g.contains_key(k) && g[k].contains(v))
            || (k == a && v == b) by {
        let i = choose|i: int| 0 <= i < r[k].len() && r[k][i] == v;
        if k == a && i < w[a].len() {
            assert(w[a][i] == v);
        }
    }
}

/// The adjacency built from any rows is symmetric: whenever `b` is a
/// neighbour of `a`, `a` is a neighbour of `b`.
pub proof fn lemma_graph_of_symmetric(rows: Seq<BorderCountryRow>, a: Seq<char>, b: Seq<char>)
    requires
        graph_of(rows).contains_key(a),
        graph_of(rows)[a].contains(b),
    ensures
        graph_of(rows).contains_key(b),
        graph_of(rows)[b].contains(a),
    decreases rows.len(),
{
    let g0 = graph_of(rows.drop_last());
    let (x, y) = pair_of(rows.last());
    let g1 = add_neighbour(g0, x, y);
    lemma_add_neighbour(g0, x, y);
    lemma_add_neighbour(g1, y, x);
    if g0.contains_key(a) && g0[a].contains(b) {
        lemma_graph_of_symmetric(rows.drop_last(), a, b);
    }
}

/// The codes held by a list of strings.
pub open spec fn codes(p: Seq<String>) -> Seq<Seq<char>> {
    p.map_values(|c: String| c@)
}

/// `p` is a chain from `a` to `b` in `g`: it starts at `a`, ends at `b`, and
/// each code after the first is a neighbour of the one before it.
pub open spec fn is_path(g: Adjacency, p: Seq<Seq<char>>, a: Seq<char>, b: Seq<char>) -> bool {
    &&& p.len() >= 1
    &&& p[0] == a
    &&& p.last() == b
    &&& forall|i: int| 0 < i < p.len() ==> g.contains_key(p[i - 1]) && g[p[i - 1]].contains(#[trigger] p[i])
}

/// `p` is a chain from `a` to `b` in `g` and no chain between them is shorter.
pub open spec fn is_shortest_path(g: Adjacency, p: Seq<Seq<char>>, a: Seq<char>, b: Seq<char>) -> bool {
    &&& is_path(g, p, a, b)
    &&& forall|q: Seq<Seq<char>>| is_path(g, q, a, b) ==> p.len() <= q.len()
}

/// Some chain leads from `a` to `b` in `g`.
pub open spec fn reachable(g: Adjacency, a: Seq<char>, b: Seq<char>) -> bool {
    exists|q: Seq<Seq<char>>| is_path(g, q, a, b)
}

/// Every neighbour of a code in `g` has that code among its neighbours.
pub open spec fn symmetric(g: Adjacency) -> bool {
    forall|k: Seq<char>, v: Seq<char>|
        g.contains_key(k) && #[trigger] g[k].contains(v) ==> g.contains_key(v) && g[v].contains(k)
}

/// In a symmetric adjacency a chain read backwards is a chain.
proof fn lemma_reverse_in_symmetric(g: Adjacency, q: Seq<Seq<char>>, a: Seq<char>, b: Seq<char>)
    requires
        symmetric(g),
        is_path(g, q, a, b),
    ensures
        is_path(g, q.reverse(), b, a),
{
    let r = q.reverse();
    let n = q.len() as int;
    assert forall|i: int| 0 < i < r.len() implies g.contains_key(r[i - 1]) && g[r[i - 1]].contains(
        #[trigger] r[i],
    ) by {
        let j = n - i;
        assert(r[i - 1] == q[j] && r[i] == q[j - 1]);
        assert(g.contains_key(q[j - 1]) && g[q[j - 1]].contains(q[j]));
    }
    assert(r[0] == q[n - 1]);
    assert(r.last() == q[0]);
}

/// A chain through the adjacency built from any rows, read backwards, is a
/// chain in the other direction.
pub proof fn lemma_path_reversed(rows: Seq<BorderCountryRow>, q: Seq<Seq<char>>, a: Seq<char>, b: Seq<char>)
    requires
        is_path(graph_of(rows), q, a, b),
    ensures
        is_path(graph_of(rows), q.reverse(), b, a),
{
    let g = graph_of(rows);
    assert forall|k: Seq<char>, v: Seq<char>|
        g.contains_key(k) && #[trigger] g[k].contains(v) implies g.contains_key(v) && g[v].contains(k) by {
        lemma_graph_of_symmetric(rows, k, v);
    }
    lemma_reverse_in_symmetric(g, q, a, b);
}

} // verus!

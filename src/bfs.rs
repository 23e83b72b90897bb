use vstd::prelude::*;
use vstd::set_lib::{lemma_int_range, lemma_len_subset, set_int_range};

verus! {

/// Every neighbour position in `adj` is a position of `adj`.
pub open spec fn edges_in_range(adj: Seq<Vec<usize>>) -> bool {
    forall|i: int, k: int|
        0 <= i < adj.len() && 0 <= k < adj[i]@.len() ==> (adj[i]@[k] as int) < adj.len()
}

/// `p` is a walk from `s` to `t` in `adj`: it starts at `s`, ends at `t`, and
/// each position is followed by one of its neighbours.
pub open spec fn is_walk(adj: Seq<Vec<usize>>, p: Seq<usize>, s: usize, t: usize) -> bool {
    &&& p.len() >= 1
    &&& p[0] == s
    &&& p.last() == t
    &&& forall|i: int| 0 <= i < p.len() ==> (p[i] as int) < adj.len()
    &&& forall|i: int| 0 < i < p.len() ==> adj[p[i - 1] as int]@.contains(#[trigger] p[i])
}

/// The state of the search that holds at every step: `order` lists the
/// discovered positions, each once, in order of discovery, with distances
/// that never decrease along it; each discovered position but `s` has a
/// discovered parent one step nearer to `s` that has it as a neighbour.
pub open spec fn search_state(
    adj: Seq<Vec<usize>>,
    s: usize,
    visited: Seq<bool>,
    parent: Seq<usize>,
    order: Seq<usize>,
    dist: Seq<int>,
    pos: Seq<int>,
) -> bool {
    let n = adj.len();
    &&& edges_in_range(adj)
    &&& visited.len() == n
    &&& parent.len() == n
    &&& dist.len() == n
    &&& pos.len() == n
    &&& 1 <= order.len() <= n
    &&& order[0] == s
    &&& dist[s as int] == 0
    &&& forall|i: int|
        0 <= i < order.len() ==> (order[i] as int) < n && visited[order[i] as int] && pos[order[i] as int]
            == i
    &&& forall|v: int|
        0 <= v < n && #[trigger] visited[v] ==> 0 <= pos[v] < order.len() && order[pos[v]] == v
    &&& forall|i: int, j: int|
        0 <= i <= j < order.len() ==> dist[order[i] as int] <= dist[order[j] as int]
    &&& forall|v: int|
        0 <= v < n && #[trigger] visited[v] && v != s ==> {
            let u = parent[v] as int;
            &&& 0 <= u < n
            &&& visited[u]
            &&& dist[v] == dist[u] + 1
            &&& adj[u]@.contains(v as usize)
        }
}

/// The neighbours of `order[i]` are discovered, at most one step further.
pub open spec fn expanded(
    adj: Seq<Vec<usize>>,
    visited: Seq<bool>,
    order: Seq<usize>,
    dist: Seq<int>,
    i: int,
) -> bool {
    forall|k: int|
        0 <= k < adj[order[i] as int]@.len() ==> {
            let w = #[trigger] adj[order[i] as int]@[k] as int;
            visited[w] && dist[w] <= dist[order[i] as int] + 1
        }
}

/// A sequence of distinct positions below `n` that leaves out `w` is shorter than `n`.
proof fn lemma_room_left(order: Seq<usize>, pos: Seq<int>, n: int, w: usize)
    requires
        0 <= w < n,
        forall|i: int| 0 <= i < order.len() ==> (order[i] as int) < n && order[i] != w,
        forall|i: int| 0 <= i < order.len() ==> pos[order[i] as int] == i,
    ensures
        order.len() < n,
{
    let o = order.map_values(|x: usize| x as int);
    assert(o.no_duplicates()) by {
        assert forall|i: int, j: int|
            0 <= i < o.len() && 0 <= j < o.len() && i != j implies o[i] != o[j] by {
            assert(pos[order[i] as int] == i && pos[order[j] as int] == j);
        }
    }
    o.unique_seq_to_set();
    let r = set_int_range(0, n).remove(w as int);
    lemma_int_range(0, n);
    assert(o.to_set().subset_of(r));
    lemma_len_subset(o.to_set(), r);
}

/// Once `order[head]` is `t`, the first `i + 1` positions of a walk from `s`
/// to `t`, for `i` up to the distance of `t`, are discovered no further
/// than `i` from `s`.
proof fn lemma_walk_prefix(
    adj: Seq<Vec<usize>>,
    s: usize,
    t: usize,
    visited: Seq<bool>,
    parent: Seq<usize>,
    order: Seq<usize>,
    dist: Seq<int>,
    pos: Seq<int>,
    head: int,
    q: Seq<usize>,
    i: int,
)
    requires
        search_state(adj, s, visited, parent, order, dist, pos),
        0 <= head < order.len(),
        order[head] == t,
        forall|j: int| 0 <= j < head ==> expanded(adj, visited, order, dist, j),
        is_walk(adj, q, s, t),
        0 <= i < q.len(),
        i <= dist[t as int],
    ensures
        visited[q[i] as int],
        dist[q[i] as int] <= i,
    decreases i,
{
    if i > 0 {
        lemma_walk_prefix(adj, s, t, visited, parent, order, dist, pos, head, q, i - 1);
        let u = q[i - 1] as int;
        let p = pos[u];
        if p >= head {
            assert(dist[order[head] as int] <= dist[order[p] as int]);
        }
        assert(expanded(adj, visited, order, dist, p));
        assert(adj[u]@.contains(q[i]));
        let k = choose|k: int| 0 <= k < adj[u]@.len() && adj[u]@[k] == q[i];
        assert(adj[order[p] as int]@[k] == q[i]);
    }
}

/// Once the search has expanded every discovered position, every position
/// of a walk from `s` is discovered.
proof fn lemma_walk_closed(
    adj: Seq<Vec<usize>>,
    s: usize,
    t: usize,
    visited: Seq<bool>,
    parent: Seq<usize>,
    order: Seq<usize>,
    dist: Seq<int>,
    pos: Seq<int>,
    q: Seq<usize>,
    i: int,
)
    requires
        search_state(adj, s, visited, parent, order, dist, pos),
        forall|j: int| 0 <= j < order.len() ==> expanded(adj, visited, order, dist, j),
        is_walk(adj, q, s, t),
        0 <= i < q.len(),
    ensures
        visited[q[i] as int],
    decreases i,
{
    if i > 0 {
        lemma_walk_closed(adj, s, t, visited, parent, order, dist, pos, q, i - 1);
        let u = q[i - 1] as int;
        let p = pos[u];
        assert(expanded(adj, visited, order, dist, p));
        assert(adj[u]@.contains(q[i]));
        let k = choose|k: int| 0 <= k < adj[u]@.len() && adj[u]@[k] == q[i];
        assert(adj[order[p] as int]@[k] == q[i]);
    }
}

/// Follows parents from `t` back to `s` and returns the positions passed, from
/// `s` to `t`.
fn walk_back(
    adj: &Vec<Vec<usize>>,
    parent: &Vec<usize>,
    s: usize,
    t: usize,
    Ghost(visited): Ghost<Seq<bool>>,
    Ghost(order): Ghost<Seq<usize>>,
    Ghost(dist): Ghost<Seq<int>>,
    Ghost(pos): Ghost<Seq<int>>,
) -> (p: Vec<usize>)
    requires
        search_state(adj@, s, visited, parent@, order, dist, pos),
        (t as int) < adj@.len(),
        visited[t as int],
    ensures
        is_walk(adj@, p@, s, t),
        p@.len() == dist[t as int] + 1,
{
    let ghost n = adj@.len();
    assert forall|v: int| 0 <= v < n && #[trigger] visited[v] implies dist[v] >= 0 by {
        assert(dist[order[0] as int] <= dist[order[pos[v]] as int]);
    }
    let mut rev: Vec<usize> = Vec::new();
    rev.push(t);
    let mut cur = t;
    while cur != s
        invariant
            search_state(adj@, s, visited, parent@, order, dist, pos),
            forall|v: int| 0 <= v < n && #[trigger] visited[v] ==> dist[v] >= 0,
            n == adj@.len(),
            (cur as int) < n,
            visited[cur as int],
            rev@.len() >= 1,
            rev@[0] == t,
            rev@.last() == cur,
            rev@.len() == dist[t as int] - dist[cur as int] + 1,
            forall|i: int| 0 <= i < rev@.len() ==> (rev@[i] as int) < n,
            forall|i: int| 0 < i < rev@.len() ==> adj@[#[trigger] rev@[i] as int]@.contains(rev@[i - 1]),
        decreases dist[cur as int],
    {
        let ghost c = cur as int;
        cur = parent[cur];
        assert(dist[c] == dist[cur as int] + 1);
        rev.push(cur);
    }
    let mut p: Vec<usize> = Vec::new();
    let mut i: usize = rev.len();
    while i > 0
        invariant
            0 <= i <= rev@.len(),
            p@.len() == rev@.len() - i,
            forall|j: int| 0 <= j < p@.len() ==> p@[j] == rev@[rev@.len() - 1 - j],
        decreases i,
    {
        i -= 1;
        p.push(rev[i]);
    }
    proof {
        let l = rev@.len() as int;
        assert forall|j: int| 0 < j < p@.len() implies adj@[p@[j - 1] as int]@.contains(
            #[trigger] p@[j],
        ) by {
            assert(p@[j - 1] == rev@[l - j]);
            assert(p@[j] == rev@[l - j - 1]);
            assert(0 < l - j < l);
        }
    }
    p
}

/// A shortest walk from `s` to `t`, found by breadth-first search, or `None`
/// when there is no walk.
pub(crate) fn shortest_walk(adj: &Vec<Vec<usize>>, s: usize, t: usize) -> (r: Option<Vec<usize>>)
    requires
        edges_in_range(adj@),
        (s as int) < adj@.len(),
        (t as int) < adj@.len(),
    ensures
        match r {
            Some(p) => is_walk(adj@, p@, s, t) && forall|q: Seq<usize>|
                is_walk(adj@, q, s, t) ==> p@.len() <= q.len(),
            None => forall|q: Seq<usize>| !is_walk(adj@, q, s, t),
        },
{
    let n = adj.len();
    let mut visited: Vec<bool> = vec![false; n];
    let mut parent: Vec<usize> = vec![0; n];
    let mut order: Vec<usize> = Vec::new();
    let ghost mut dist: Seq<int> = Seq::new(n as nat, |v: int| 0);
    let ghost mut pos: Seq<int> = Seq::new(n as nat, |v: int| 0);
    visited.set(s, true);
    order.push(s);
    let mut head: usize = 0;
    while head < order.len()
        invariant
            n == adj@.len(),
            (t as int) < n,
            search_state(adj@, s, visited@, parent@, order@, dist, pos),
            head <= order@.len(),
            forall|j: int| 0 <= j < head ==> expanded(adj@, visited@, order@, dist, j),
            forall|j: int| 0 <= j < head ==> order@[j] != t,
            head < order@.len() ==> forall|j: int|
                0 <= j < order@.len() ==> dist[order@[j] as int] <= dist[order@[head as int] as int]
                    + 1,
        decreases n - head,
    {
        let u = order[head];
        if u == t {
            let p = walk_back(adj, &parent, s, t, Ghost(visited@), Ghost(order@), Ghost(dist), Ghost(pos));
            proof {
                assert forall|q: Seq<usize>| is_walk(adj@, q, s, t) implies p@.len() <= q.len() by {
                    if q.len() - 1 < dist[t as int] {
                        lemma_walk_prefix(
                            adj@, s, t, visited@, parent@, order@, dist, pos, head as int, q,
                            q.len() - 1,
                        );
                    }
                }
            }
            return Some(p);
        }
        let mut k: usize = 0;
        while k < adj[u].len()
            invariant
                n == adj@.len(),
                (t as int) < n,
                u != t,
                search_state(adj@, s, visited@, parent@, order@, dist, pos),
                head < order@.len(),
                order@[head as int] == u,
                0 <= k <= adj@[u as int]@.len(),
                forall|j: int| 0 <= j < head ==> expanded(adj@, visited@, order@, dist, j),
                forall|j: int| 0 <= j < head ==> order@[j] != t,
                forall|j: int| 0 <= j < order@.len() ==> dist[order@[j] as int] <= dist[u as int] + 1,
                forall|m: int|
                    0 <= m < k ==> {
                        let w = #[trigger] adj@[u as int]@[m] as int;
                        visited@[w] && dist[w] <= dist[u as int] + 1
                    },
            decreases adj@[u as int]@.len() - k,
        {
            let w = adj[u][k];
            if !visited[w] {
                proof {
                    lemma_room_left(order@, pos, n as int, w);
                }
                let ghost len = order@.len() as int;
                let ghost (v0, o0, d0) = (visited@, order@, dist);
                visited.set(w, true);
                parent.set(w, u);
                proof {
                    dist = dist.update(w as int, dist[u as int] + 1);
                    pos = pos.update(w as int, len);
                }
                order.push(w);
                proof {
                    assert forall|j: int| 0 <= j < head implies expanded(
                        adj@,
                        visited@,
                        order@,
                        dist,
                        j,
                    ) by {
                        assert(expanded(adj@, v0, o0, d0, j));
                        assert(order@[j] == o0[j]);
                        assert forall|m: int| 0 <= m < adj@[order@[j] as int]@.len() implies {
                            let x = #[trigger] adj@[order@[j] as int]@[m] as int;
                            visited@[x] && dist[x] <= dist[order@[j] as int] + 1
                        } by {
                            let x = adj@[o0[j] as int]@[m] as int;
                            assert(v0[x] && d0[x] <= d0[o0[j] as int] + 1);
                        }
                    }
                }
            }
            k += 1;
        }
        proof {
            assert(expanded(adj@, visited@, order@, dist, head as int));
        }
        head += 1;
    }
    proof {
        assert forall|q: Seq<usize>| !is_walk(adj@, q, s, t) by {
            if is_walk(adj@, q, s, t) {
                lemma_walk_closed(adj@, s, t, visited@, parent@, order@, dist, pos, q, q.len() - 1);
            }
        }
    }
    None
}

} // verus!

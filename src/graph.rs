use vstd::prelude::*;

use crate::bfs::{edges_in_range, is_walk, shortest_walk};
use crate::model::{add_neighbour, codes, graph_of, is_path, is_shortest_path, reachable, with_key, Adjacency};

verus! {

/// One row of the border table: a country and one of its land neighbours.
pub struct BorderCountryRow {
    pub country_code: String,
    pub country_name: String,
    pub country_border_code: String,
    pub country_border_name: String,
}

/// An undirected border graph. Each country code is held once in `names`;
/// `adj[i]` lists the positions in `names` of the neighbours of `names[i]`.
pub struct Graph {
    names: Vec<String>,
    adj: Vec<Vec<usize>>,
}

impl Graph {
    /// Number of countries in the graph.
    pub closed spec fn size(&self) -> int {
        self.names@.len() as int
    }

    /// The code of the country at position `i`.
    pub closed spec fn code(&self, i: int) -> Seq<char> {
        self.names@[i]@
    }

    /// The neighbour positions of the country at position `i`.
    pub closed spec fn nbr_ids(&self, i: int) -> Seq<usize> {
        self.adj@[i]@
    }

    /// The neighbour codes of the country at position `i`.
    pub closed spec fn nbrs(&self, i: int) -> Seq<Seq<char>> {
        self.nbr_ids(i).map_values(|j: usize| self.code(j as int))
    }

    /// Codes are distinct and every neighbour position is in range.
    pub closed spec fn wf(&self) -> bool {
        &&& self.adj@.len() == self.names@.len()
        &&& forall|i: int, j: int|
            0 <= i < self.size() && 0 <= j < self.size() && i != j ==> self.code(i) != self.code(j)
        &&& forall|i: int, k: int|
            0 <= i < self.size() && 0 <= k < self.nbr_ids(i).len() ==> self.nbr_ids(i)[k] < self.size()
    }

    /// Whether `c` is the code of some country of the graph.
    pub closed spec fn has_code(&self, c: Seq<char>) -> bool {
        exists|i: int| 0 <= i < self.size() && self.code(i) == c
    }

    /// The position of code `c`.
    pub closed spec fn pos_of(&self, c: Seq<char>) -> int {
        choose|i: int| 0 <= i < self.size() && self.code(i) == c
    }

    /// The position of each code is the one that holds it.
    pub proof fn lemma_pos_of(&self, i: int)
        requires
            self.wf(),
            0 <= i < self.size(),
        ensures
            self.has_code(self.code(i)),
            self.pos_of(self.code(i)) == i,
            self@.contains_key(self.code(i)),
            self@[self.code(i)] == self.nbrs(i),
    {
        let p = self.pos_of(self.code(i));
        assert(0 <= p < self.size() && self.code(p) == self.code(i));
    }
}

/// Adding both neighbours of a pair in one step, after both keys are
/// present, gives the same adjacency as adding them one after the other.
proof fn lemma_add_pair(g: Adjacency, a: Seq<char>, b: Seq<char>)
    ensures
        ({
            let v2 = with_key(with_key(g, a), b);
            let v3 = v2.insert(a, v2[a].push(b));
            v3.insert(b, v3[b].push(a))
        }) == add_neighbour(add_neighbour(g, a, b), b, a),
{
    let v2 = with_key(with_key(g, a), b);
    let v3 = v2.insert(a, v2[a].push(b));
    let v4 = v3.insert(b, v3[b].push(a));
    let t = add_neighbour(add_neighbour(g, a, b), b, a);
    assert(v4 =~= t);
}

impl Graph {
    /// A graph with no countries.
    fn empty() -> (g: Graph)
        ensures
            g.wf(),
            g.size() == 0,
            g@ == Adjacency::empty(),
    {
        let g = Graph { names: Vec::new(), adj: Vec::new() };
        assert(g@ =~= Adjacency::empty());
        g
    }

    /// The position of `code`, if it is a country of the graph.
    fn find(&self, code: &String) -> (r: Option<usize>)
        requires
            self.wf(),
        ensures
            match r {
                Some(i) => i < self.size() && self.code(i as int) == code@,
                None => !self.has_code(code@),
            },
    {
        let mut i: usize = 0;
        while i < self.names.len()
            invariant
                self.wf(),
                i <= self.size(),
                forall|j: int| 0 <= j < i ==> self.code(j) != code@,
            decreases self.size() - i,
        {
            if self.names[i] == *code {
                return Some(i);
            }
            i += 1;
        }
        None
    }

    /// The position of `code`, added with no neighbours if it was absent.
    fn intern(&mut self, code: &String) -> (i: usize)
        requires
            old(self).wf(),
        ensures
            final(self).wf(),
            i < final(self).size(),
            final(self).code(i as int) == code@,
            old(self).size() <= final(self).size(),
            forall|j: int|
                0 <= j < old(self).size() ==> final(self).code(j) == old(self).code(j),
            final(self)@ == with_key(old(self)@, code@),
    {
        match self.find(code) {
            Some(i) => {
                proof {
                    self.lemma_pos_of(i as int);
                }
                i
            },
            None => {
                let ghost prev = *self;
                let i = self.names.len();
                self.names.push(code.clone());
                self.adj.push(Vec::new());
                proof {
                    assert forall|j: int| 0 <= j < prev.size() implies prev.code(j) != code@ by {
                        if prev.code(j) == code@ {
                            assert(prev.has_code(code@));
                        }
                    }
                    assert forall|j: int| 0 <= j < prev.size() implies self.code(j) == prev.code(j)
                        && self.nbr_ids(j) == prev.nbr_ids(j) by {}
                    assert(self.nbr_ids(i as int) =~= Seq::empty());
                    assert forall|a: int, b: int|
                        0 <= a < self.size() && 0 <= b < self.size() && a != b implies self.code(a)
                        != self.code(b) by {
                        assert(self.code(i as int) == code@);
                        if a < prev.size() && b < prev.size() {
                            assert(prev.code(a) != prev.code(b));
                        } else if a < prev.size() {
                            assert(prev.code(a) != code@);
                        } else {
                            assert(prev.code(b) != code@);
                        }
                    }
                    assert forall|a: int, k: int|
                        0 <= a < self.size() && 0 <= k < self.nbr_ids(a).len() implies self.nbr_ids(
                        a,
                    )[k] < self.size() by {
                        if a < prev.size() {
                            assert(prev.nbr_ids(a)[k] < prev.size());
                        }
                    }
                    assert(self.wf());
                    assert forall|j: int| 0 <= j < prev.size() implies self.nbrs(j) =~= prev.nbrs(
                        j,
                    ) by {
                        assert(self.nbr_ids(j) == prev.nbr_ids(j));
                    }
                    assert forall|c: Seq<char>| self.has_code(c) <==> (prev.has_code(c) || c
                        == code@) by {
                        if c == code@ {
                            assert(self.code(i as int) == c);
                        }
                        if prev.has_code(c) {
                            let p = prev.pos_of(c);
                            assert(self.code(p) == c);
                        }
                        if self.has_code(c) && c != code@ {
                            let p = self.pos_of(c);
                            assert(prev.code(p) == c);
                        }
                    }
                    assert forall|c: Seq<char>| #[trigger]
                        self@.contains_key(c) implies self@[c] == with_key(prev@, code@)[c] by {
                        if c == code@ {
                            self.lemma_pos_of(i as int);
                            assert(self.nbrs(i as int) =~= Seq::empty());
                        } else {
                            assert(self.has_code(c));
                            assert(prev.has_code(c));
                            let p = prev.pos_of(c);
                            self.lemma_pos_of(p);
                            prev.lemma_pos_of(p);
                        }
                    }
                    assert(self@ =~= with_key(prev@, code@));
                }
                i
            },
        }
    }

    /// Appends the country at `j` to the neighbours of the one at `i`.
    fn push_neighbour(&mut self, i: usize, j: usize)
        requires
            old(self).wf(),
            i < old(self).size(),
            j < old(self).size(),
        ensures
            final(self).wf(),
            final(self).size() == old(self).size(),
            forall|k: int|
                0 <= k < old(self).size() ==> final(self).code(k) == old(self).code(k),
            final(self)@ == old(self)@.insert(
                old(self).code(i as int),
                old(self)@[old(self).code(i as int)].push(old(self).code(j as int)),
            ),
    {
        let ghost prev = *self;
        self.adj[i].push(j);
        proof {
            assert forall|k: int| 0 <= k < prev.size() implies #[trigger] self.nbr_ids(k) == if k
                == i {
                prev.nbr_ids(k).push(j)
            } else {
                prev.nbr_ids(k)
            } by {}
            assert forall|a: int, b: int|
                0 <= a < self.size() && 0 <= b < self.size() && a != b implies self.code(a)
                != self.code(b) by {
                assert(prev.code(a) != prev.code(b));
            }
            assert forall|a: int, k: int|
                0 <= a < self.size() && 0 <= k < self.nbr_ids(a).len() implies self.nbr_ids(a)[k]
                < self.size() by {
                if a != i || k < prev.nbr_ids(a).len() {
                    assert(prev.nbr_ids(a)[k] < prev.size());
                }
            }
            assert(self.wf());
            prev.lemma_pos_of(i as int);
            assert(self.nbrs(i as int) =~= prev.nbrs(i as int).push(prev.code(j as int)));
            assert forall|k: int| 0 <= k < prev.size() && k != i implies self.nbrs(k) =~= prev.nbrs(
                k,
            ) by {
                assert(self.nbr_ids(k) == prev.nbr_ids(k));
            }
            let t = prev@.insert(prev.code(i as int), prev@[prev.code(i as int)].push(prev.code(j as int)));
            assert forall|c: Seq<char>| self.has_code(c) <==> prev.has_code(c) by {
                if self.has_code(c) {
                    let p = self.pos_of(c);
                    assert(prev.code(p) == c);
                }
                if prev.has_code(c) {
                    let p = prev.pos_of(c);
                    assert(self.code(p) == c);
                }
            }
            assert forall|c: Seq<char>| #[trigger] self@.contains_key(c) implies self@[c] == t[c] by {
                assert(self.has_code(c));
                assert(prev.has_code(c));
                let p = prev.pos_of(c);
                self.lemma_pos_of(p);
                prev.lemma_pos_of(p);
            }
            assert(self@ =~= t);
        }
    }
    /// A neighbour in the adjacency is a neighbour position in the graph.
    proof fn lemma_step(&self, u: Seq<char>, v: Seq<char>)
        requires
            self.wf(),
            self@.contains_key(u),
            self@[u].contains(v),
        ensures
            self.has_code(u),
            self.has_code(v),
            self.adj@[self.pos_of(u)]@.contains(self.pos_of(v) as usize),
    {
        assert(self.has_code(u));
        let p = self.pos_of(u);
        self.lemma_pos_of(p);
        let k = choose|k: int| 0 <= k < self.nbrs(p).len() && self.nbrs(p)[k] == v;
        let x = self.nbr_ids(p)[k] as int;
        assert(self.code(x) == v);
        self.lemma_pos_of(x);
        assert(self.adj@[p]@[k] == x);
    }

    /// A chain of two or more codes in the graph is a walk over positions.
    proof fn lemma_walk_of_path(&self, q: Seq<Seq<char>>, a: Seq<char>, b: Seq<char>) -> (ip: Seq<
        usize,
    >)
        requires
            self.wf(),
            is_path(self@, q, a, b),
            q.len() >= 2,
        ensures
            self.has_code(a),
            self.has_code(b),
            ip.len() == q.len(),
            is_walk(self.adj@, ip, self.pos_of(a) as usize, self.pos_of(b) as usize),
    {
        assert(self.size() <= usize::MAX) by {
            assert(self.names.len() as int == self.size());
        }
        let ip = Seq::new(q.len(), |i: int| self.pos_of(q[i]) as usize);
        assert forall|i: int| 0 < i < q.len() implies self.has_code(q[i - 1]) && self.has_code(
            #[trigger] q[i],
        ) && self.adj@[ip[i - 1] as int]@.contains(ip[i]) by {
            self.lemma_step(q[i - 1], q[i]);
            let (u, v) = (self.pos_of(q[i - 1]), self.pos_of(q[i]));
            assert(0 <= u < self.size() && self.code(u) == q[i - 1]);
            assert(0 <= v < self.size() && self.code(v) == q[i]);
            assert(ip[i - 1] as int == u && ip[i] == v as usize);
        }
        assert(self.has_code(q[1]));
        assert(self.has_code(q[q.len() - 1]));
        assert forall|i: int| 0 <= i < ip.len() implies (#[trigger] ip[i] as int) < self.adj@.len() by {
            if i == 0 {
                assert(self.has_code(q[1]));
            } else {
                assert(self.has_code(q[i]));
            }
            let u = self.pos_of(q[i]);
            assert(0 <= u < self.size() && self.code(u) == q[i]);
        }
        ip
    }

    /// The codes along a walk over positions form a chain in the graph.
    proof fn lemma_path_of_walk(&self, p: Seq<usize>, s: usize, t: usize)
        requires
            self.wf(),
            is_walk(self.adj@, p, s, t),
        ensures
            is_path(self@, p.map_values(|i: usize| self.code(i as int)), self.code(s as int), self.code(t as int)),
    {
        let c = p.map_values(|i: usize| self.code(i as int));
        assert forall|i: int| 0 < i < c.len() implies self@.contains_key(c[i - 1]) && self@[c[i
            - 1]].contains(#[trigger] c[i]) by {
            let u = p[i - 1] as int;
            assert(self.adj@[u]@.contains(p[i]));
            let k = choose|k: int| 0 <= k < self.nbr_ids(u).len() && self.nbr_ids(u)[k] == p[i];
            self.lemma_pos_of(u);
            assert(self.nbrs(u)[k] == c[i]);
        }
    }

    /// The neighbours of `code`, in the order they were added, or `None`
    /// when `code` is not a country of the graph.
    pub fn neighbours(&self, code: &str) -> (r: Option<Vec<String>>)
        requires
            self.wf(),
        ensures
            match r {
                Some(v) => self@.contains_key(code@) && codes(v@) == self@[code@],
                None => !self@.contains_key(code@),
            },
    {
        let c = code.to_owned();
        match self.find(&c) {
            Some(i) => {
                proof {
                    self.lemma_pos_of(i as int);
                }
                Some(self.codes_of(&self.adj[i]))
            },
            None => None,
        }
    }

    /// The codes at the positions `ids`, in order.
    fn codes_of(&self, ids: &Vec<usize>) -> (r: Vec<String>)
        requires
            self.wf(),
            forall|i: int| 0 <= i < ids@.len() ==> (ids@[i] as int) < self.size(),
        ensures
            codes(r@) == ids@.map_values(|i: usize| self.code(i as int)),
    {
        let mut r: Vec<String> = Vec::new();
        let mut i: usize = 0;
        while i < ids.len()
            invariant
                self.wf(),
                forall|j: int| 0 <= j < ids@.len() ==> (ids@[j] as int) < self.size(),
                i <= ids@.len(),
                r@.len() == i,
                forall|j: int| 0 <= j < i ==> r@[j]@ == self.code(ids@[j] as int),
            decreases ids@.len() - i,
        {
            r.push(self.names[ids[i]].clone());
            i += 1;
        }
        assert(codes(r@) =~= ids@.map_values(|i: usize| self.code(i as int)));
        r
    }
}

/// Finds a shortest chain of neighbouring countries from `start_country` to
/// `end_country` by breadth-first search, or `None` when no chain joins them.
/// A country is joined to itself by the chain holding it alone, whether or
/// not it is in the graph.
pub fn breadth_first_search(graph: &Graph, start_country: &str, end_country: &str) -> (r: Option<
    Vec<String>,
>)
    requires
        graph.wf(),
    ensures
        match r {
            Some(p) => is_shortest_path(graph@, codes(p@), start_country@, end_country@),
            None => !reachable(graph@, start_country@, end_country@),
        },
{
    let start = start_country.to_owned();
    let end = end_country.to_owned();
    if start == end {
        let mut p: Vec<String> = Vec::new();
        p.push(end);
        assert(codes(p@) =~= seq![end_country@]);
        return Some(p);
    }
    proof {
        assert forall|i: int, k: int|
            0 <= i < graph.adj@.len() && 0 <= k < graph.adj@[i]@.len() implies (graph.adj@[i]@[k] as int)
            < graph.adj@.len() by {
            assert(graph.nbr_ids(i)[k] < graph.size());
        }
        assert(edges_in_range(graph.adj@));
    }
    let found = (graph.find(&start), graph.find(&end));
    match found {
        (Some(s), Some(t)) => {
            proof {
                graph.lemma_pos_of(s as int);
                graph.lemma_pos_of(t as int);
            }
            match shortest_walk(&graph.adj, s, t) {
                Some(ids) => {
                    let p = graph.codes_of(&ids);
                    proof {
                        graph.lemma_path_of_walk(ids@, s, t);
                        assert forall|q: Seq<Seq<char>>|
                            is_path(graph@, q, start_country@, end_country@) implies p@.len() <= q.len() by {
                            let ip = graph.lemma_walk_of_path(q, start_country@, end_country@);
                        }
                    }
                    Some(p)
                },
                None => {
                    proof {
                        assert forall|q: Seq<Seq<char>>|
                            !is_path(graph@, q, start_country@, end_country@) by {
                            if is_path(graph@, q, start_country@, end_country@) {
                                let ip = graph.lemma_walk_of_path(q, start_country@, end_country@);
                            }
                        }
                    }
                    None
                },
            }
        },
        _ => {
            proof {
                assert forall|q: Seq<Seq<char>>| !is_path(graph@, q, start_country@, end_country@) by {
                    if is_path(graph@, q, start_country@, end_country@) {
                        let ip = graph.lemma_walk_of_path(q, start_country@, end_country@);
                    }
                }
            }
            None
        },
    }
}

/// Builds the undirected border graph of `data`: for each row, in order, the
/// border country is appended to the neighbours of the country, and the
/// country to the neighbours of the border country.
pub fn create_graph(data: &Vec<BorderCountryRow>) -> (g: Graph)
    ensures
        g.wf(),
        g@ == graph_of(data@),
{
    let mut g = Graph::empty();
    let mut r: usize = 0;
    while r < data.len()
        invariant
            g.wf(),
            r <= data.len(),
            g@ == graph_of(data@.subrange(0, r as int)),
        decreases data.len() - r,
    {
        let row = &data[r];
        let ghost before = g@;
        let ia = g.intern(&row.country_code);
        let ib = g.intern(&row.country_border_code);
        g.push_neighbour(ia, ib);
        g.push_neighbour(ib, ia);
        proof {
            lemma_add_pair(before, row.country_code@, row.country_border_code@);
            assert(data@.subrange(0, r + 1).drop_last() =~= data@.subrange(0, r as int));
        }
        r += 1;
    }
    assert(data@.subrange(0, data@.len() as int) =~= data@);
    g
}

impl View for Graph {
    type V = Adjacency;

    closed spec fn view(&self) -> Adjacency {
        Map::new(|c: Seq<char>| self.has_code(c), |c: Seq<char>| self.nbrs(self.pos_of(c)))
    }
}

} // verus!

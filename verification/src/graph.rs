use vstd::prelude::*;

use crate::asset::{AssetInfo, AssetInfoView, AssetInfoWrapper, lemma_display_injective};
use crate::error::BalancerError;

verus! {

/// What a graph of assets means: each asset that has been paired maps to the
/// set of assets it has been paired with.
pub type AdjacencyMap = Map<AssetInfoView, Set<AssetInfoView>>;

/// The assets `a` is paired with in `m` (none where `a` is absent).
pub open spec fn neighbors(m: AdjacencyMap, a: AssetInfoView) -> Set<AssetInfoView> {
    if m.dom().contains(a) {
        m[a]
    } else {
        Set::empty()
    }
}

/// `m` with `b` recorded as a neighbour of `a`.
pub open spec fn add_arc(m: AdjacencyMap, a: AssetInfoView, b: AssetInfoView) -> AdjacencyMap {
    m.insert(a, neighbors(m, a).insert(b))
}

/// `m` with `a` and `b` recorded as neighbours of each other.
pub open spec fn add_undirected(m: AdjacencyMap, a: AssetInfoView, b: AssetInfoView) -> AdjacencyMap {
    add_arc(add_arc(m, a, b), b, a)
}

/// Every neighbour relation of `m` holds both ways.
pub open spec fn is_symmetric(m: AdjacencyMap) -> bool {
    forall|a: AssetInfoView, b: AssetInfoView|
        #![trigger m[a].contains(b)]
        m.dom().contains(a) && m[a].contains(b) ==> m.dom().contains(b) && m[b].contains(a)
}

/// Step `i` of `w` follows an edge of `m`.
pub open spec fn walk_step(m: AdjacencyMap, w: Seq<AssetInfoView>, i: int) -> bool {
    m.dom().contains(w[i]) && m[w[i]].contains(w[i + 1])
}

/// `w` is a non-empty sequence of assets, each paired in `m` with the next.
pub open spec fn is_walk(m: AdjacencyMap, w: Seq<AssetInfoView>) -> bool {
    &&& w.len() >= 1
    &&& forall|i: int| 0 <= i < w.len() - 1 ==> #[trigger] walk_step(m, w, i)
}

/// `w` is a walk in `m` from `s` to `t`.
pub open spec fn connects(m: AdjacencyMap, w: Seq<AssetInfoView>, s: AssetInfoView, t: AssetInfoView) -> bool {
    &&& is_walk(m, w)
    &&& w[0] == s
    &&& w.last() == t
}

/// Some walk in `m` leads from `s` to `t`.
pub open spec fn reachable(m: AdjacencyMap, s: AssetInfoView, t: AssetInfoView) -> bool {
    exists|w: Seq<AssetInfoView>| connects(m, w, s, t)
}

/// `w` leads from `s` to `t` in `m`, and no walk between them is shorter.
pub open spec fn is_shortest_walk(m: AdjacencyMap, w: Seq<AssetInfoView>, s: AssetInfoView, t: AssetInfoView) -> bool {
    &&& connects(m, w, s, t)
    &&& forall|w2: Seq<AssetInfoView>| #[trigger] connects(m, w2, s, t) ==> w.len() <= w2.len()
}

/// The assets of `p`, as values.
pub open spec fn views(p: Seq<AssetInfo>) -> Seq<AssetInfoView> {
    p.map_values(|a: AssetInfo| a@)
}

/// An undirected graph of assets, assets being told apart by the text they are
/// displayed as.
pub struct Graph {
    nodes: Vec<AssetInfoWrapper>,
    edges: Vec<Vec<usize>>,
    model: Ghost<AdjacencyMap>,
}

impl View for Graph {
    type V = AdjacencyMap;

    closed spec fn view(&self) -> AdjacencyMap {
        self.model@
    }
}


impl Graph {
    spec fn n(self) -> int {
        self.nodes.len() as int
    }

    spec fn node(self, i: int) -> AssetInfoView {
        self.nodes@[i]@
    }

    spec fn adj(self, i: int, j: int) -> bool {
        self.edges@[i]@.contains(j as usize)
    }

    spec fn nbr_set(self, i: int) -> Set<AssetInfoView> {
        Set::new(|u: AssetInfoView| exists|x: usize| #[trigger] self.edges@[i]@.contains(x) && self.node(x as int) == u)
    }

    spec fn node_set(self) -> Set<AssetInfoView> {
        Set::new(|v: AssetInfoView| exists|i: int| 0 <= i < self.n() && #[trigger] self.node(i) == v)
    }

    /// The adjacency rows are well formed: they name existing nodes, hold
    /// no entry twice, and every edge is recorded in both directions.
    spec fn rows_wf(self) -> bool {
        &&& self.edges@.len() == self.nodes@.len()
        &&& forall|i: int, x: usize| 0 <= i < self.n() && #[trigger] self.edges@[i]@.contains(x) ==> x < self.n()
        &&& forall|i: int| 0 <= i < self.n() ==> #[trigger] self.edges@[i]@.no_duplicates()
        &&& forall|i: int, j: int| 0 <= i < self.n() && 0 <= j < self.n() && #[trigger] self.adj(i, j) ==> self.adj(j, i)
    }

    /// The graph's internal invariant.
    pub closed spec fn wf(self) -> bool {
        &&& self.rows_wf()
        &&& forall|i: int, j: int| 0 <= i < self.n() && 0 <= j < self.n() && i != j ==> #[trigger] self.node(i) != #[trigger] self.node(j)
        &&& self.model@.dom() == self.node_set()
        &&& forall|i: int| 0 <= i < self.n() ==> self.model@[#[trigger] self.node(i)] == self.nbr_set(i)
    }

    proof fn lemma_adj_iff(self, i: int, j: int)
        requires
            self.wf(),
            0 <= i < self.n(),
            0 <= j < self.n(),
        ensures
            self.adj(i, j) <==> self@[self.node(i)].contains(self.node(j)),
            self@.dom().contains(self.node(i)),
    {
        assert(self.node_set().contains(self.node(i)));
        if self.adj(i, j) {
            assert(self.edges@[i]@.contains(j as usize));
            assert(self.node((j as usize) as int) == self.node(j));
        }
        if self@[self.node(i)].contains(self.node(j)) {
            let x = choose|x: usize| #[trigger] self.edges@[i]@.contains(x) && self.node(x as int) == self.node(j);
            assert(x < self.n());
            assert(x as int == j);
        }
    }

    /// An empty graph.
    pub fn new() -> (g: Self)
        ensures
            g.wf(),
            g@ == Map::<AssetInfoView, Set<AssetInfoView>>::empty(),
    {
        let g = Graph { nodes: Vec::new(), edges: Vec::new(), model: Ghost(Map::empty()) };
        assert(g.node_set() =~= Set::empty());
        g
    }

    fn find_node(&self, asset: &AssetInfoWrapper) -> (r: Option<usize>)
        requires
            self.wf(),
        ensures
            match r {
                Some(i) => i < self.n() && self.node(i as int) == asset@,
                None => forall|i: int| 0 <= i < self.n() ==> self.node(i) != asset@,
            },
    {
        let len = self.nodes.len();
        for i in 0..len
            invariant
                len == self.nodes@.len(),
                forall|j: int| 0 <= j < i ==> self.node(j) != asset@,
        {
            let same = self.nodes[i] == *asset;
            proof {
                lemma_display_injective(self.node(i as int), asset@);
            }
            if same {
                return Some(i);
            }
        }
        None
    }

    fn index_or_insert(&mut self, asset: AssetInfoWrapper) -> (i: usize)
        requires
            old(self).wf(),
        ensures
            final(self).wf(),
            i < final(self).n(),
            final(self).node(i as int) == asset@,
            final(self)@ == (if old(self)@.dom().contains(asset@) {
                old(self)@
            } else {
                old(self)@.insert(asset@, Set::empty())
            }),
            old(self).n() <= final(self).n(),
            forall|k: int| 0 <= k < old(self).n() ==> #[trigger] final(self).node(k) == old(self).node(k),
    {
        match self.find_node(&asset) {
            Some(i) => {
                proof {
                    assert(self.node_set().contains(asset@));
                }
                i
            },
            None => {
                let ghost old_self = *self;
                let ghost a = asset@;
                let i = self.nodes.len();
                self.nodes.push(asset);
                self.edges.push(Vec::new());
                proof {
                    assert(!old_self.node_set().contains(a));
                    self.model@ = old_self.model@.insert(a, Set::empty());
                    assert forall|k: int| 0 <= k < old_self.n() implies #[trigger] self.node(k) == old_self.node(k) by {
                        assert(self.nodes@[k] == old_self.nodes@[k]);
                    }
                    assert forall|k: int| 0 <= k < old_self.n() implies #[trigger] self.edges@[k] == old_self.edges@[k] by {}
                    assert(self.edges@[i as int]@ =~= Seq::<usize>::empty());
                    assert(self.node(i as int) == a);
                    assert(self.node_set() =~= old_self.node_set().insert(a)) by {
                        assert forall|v: AssetInfoView| self.node_set().contains(v) implies old_self.node_set().insert(a).contains(v) by {
                            let k = choose|k: int| 0 <= k < self.n() && #[trigger] self.node(k) == v;
                            if k < old_self.n() {
                                assert(old_self.node(k) == v);
                            }
                        }
                        assert forall|v: AssetInfoView| old_self.node_set().insert(a).contains(v) implies self.node_set().contains(v) by {
                            if v != a {
                                let k = choose|k: int| 0 <= k < old_self.n() && #[trigger] old_self.node(k) == v;
                                assert(self.node(k) == v);
                            }
                        }
                    }
                    assert forall|k: int, x: usize| 0 <= k < self.n() && #[trigger] self.edges@[k]@.contains(x) implies x < self.n() by {
                        if k < old_self.n() {
                            assert(old_self.edges@[k]@.contains(x));
                        }
                    }
                    assert forall|k: int| 0 <= k < self.n() implies self.model@[#[trigger] self.node(k)] == self.nbr_set(k) by {
                        if k < old_self.n() {
                            assert(self.node(k) != a);
                            assert(self.nbr_set(k) =~= old_self.nbr_set(k)) by {
                                assert forall|u: AssetInfoView| self.nbr_set(k).contains(u) implies old_self.nbr_set(k).contains(u) by {
                                    let x = choose|x: usize| #[trigger] self.edges@[k]@.contains(x) && self.node(x as int) == u;
                                    assert(old_self.edges@[k]@.contains(x));
                                    assert(x < old_self.n());
                                    assert(old_self.node(x as int) == u);
                                }
                                assert forall|u: AssetInfoView| old_self.nbr_set(k).contains(u) implies self.nbr_set(k).contains(u) by {
                                    let x = choose|x: usize| #[trigger] old_self.edges@[k]@.contains(x) && old_self.node(x as int) == u;
                                    assert(x < old_self.n());
                                    assert(self.edges@[k]@.contains(x));
                                    assert(self.node(x as int) == u);
                                }
                            }
                        } else {
                            assert(self.nbr_set(k) =~= Set::empty());
                        }
                    }
                    assert forall|x: int, y: int| 0 <= x < self.n() && 0 <= y < self.n() && #[trigger] self.adj(x, y) implies self.adj(y, x) by {
                        if x != i as int {
                            assert(old_self.adj(x, y));
                            assert(old_self.edges@[x]@.contains(y as usize));
                            assert(y < old_self.n());
                            assert(old_self.adj(y, x));
                        }
                    }
                    assert forall|x: int, y: int| 0 <= x < self.n() && 0 <= y < self.n() && x != y implies #[trigger] self.node(x) != #[trigger] self.node(y) by {
                        if x < old_self.n() && y < old_self.n() {
                            assert(old_self.node(x) != old_self.node(y));
                        } else if x < old_self.n() {
                            assert(old_self.node_set().contains(old_self.node(x)));
                        } else {
                            assert(old_self.node_set().contains(old_self.node(y)));
                        }
                    }
                }
                i
            },
        }
    }

    /// Records `j` in the adjacency row of `i`, unless it is there already.
    fn push_neighbor(&mut self, i: usize, j: usize)
        requires
            i < old(self).edges@.len(),
            old(self).edges@[i as int]@.no_duplicates(),
        ensures
            final(self).nodes == old(self).nodes,
            final(self).model == old(self).model,
            final(self).edges@.len() == old(self).edges@.len(),
            forall|k: int| 0 <= k < old(self).edges@.len() && k != i ==> #[trigger] final(self).edges@[k] == old(self).edges@[k],
            forall|x: usize| #[trigger] final(self).edges@[i as int]@.contains(x) <==> (old(self).edges@[i as int]@.contains(x) || x == j),
            final(self).edges@[i as int]@.no_duplicates(),
    {
        let mut row: Vec<usize> = Vec::new();
        self.edges.set_and_swap(i, &mut row);
        let len = row.len();
        let mut found = false;
        for k in 0..len
            invariant
                len == row@.len(),
                found <==> exists|q: int| 0 <= q < k && row@[q] == j,
        {
            if row[k] == j {
                found = true;
            }
        }
        let ghost old_row = row@;
        if !found {
            row.push(j);
            proof {
                assert forall|x: usize| row@.contains(x) implies (old_row.contains(x) || x == j) by {
                    let q = choose|q: int| 0 <= q < row@.len() && row@[q] == x;
                    if q < old_row.len() {
                        assert(old_row[q] == x);
                    }
                }
                assert forall|x: usize| old_row.contains(x) implies row@.contains(x) by {
                    let q = choose|q: int| 0 <= q < old_row.len() && old_row[q] == x;
                    assert(row@[q] == x);
                }
                assert(row@[old_row.len() as int] == j);
            }
        }
        self.edges.set_and_swap(i, &mut row);
    }
}

/// Adding two arcs to well-formed rows, one each way, keeps the rows well formed
/// and adds the two neighbours to the neighbour sets.
proof fn lemma_rows_after_arcs(s2: Graph, g: Graph, i: int, j: int)
    requires
        s2.wf(),
        g.nodes == s2.nodes,
        g.edges@.len() == s2.edges@.len(),
        0 <= i < s2.n(),
        0 <= j < s2.n(),
        forall|k: int| 0 <= k < s2.n() && k != i && k != j ==> #[trigger] g.edges@[k] == s2.edges@[k],
        forall|k: int, x: usize| 0 <= k < s2.n() ==> (#[trigger] g.edges@[k]@.contains(x) <==> (s2.edges@[k]@.contains(x) || (k == i && x == j as usize) || (k == j && x == i as usize))),
        forall|k: int| 0 <= k < s2.n() ==> #[trigger] g.edges@[k]@.no_duplicates(),
    ensures
        g.rows_wf(),
        forall|k: int, u: AssetInfoView| 0 <= k < s2.n() ==> (#[trigger] g.nbr_set(k).contains(u) <==> (s2.nbr_set(k).contains(u) || (k == i && u == s2.node(j)) || (k == j && u == s2.node(i)))),
{
    assert forall|k: int| 0 <= k < g.n() implies #[trigger] g.node(k) == s2.node(k) by {}
    assert forall|k: int, x: usize| 0 <= k < g.n() && #[trigger] g.edges@[k]@.contains(x) implies x < g.n() by {
        if s2.edges@[k]@.contains(x) {
        }
    }
    assert forall|x: int, y: int| 0 <= x < g.n() && 0 <= y < g.n() && #[trigger] g.adj(x, y) implies g.adj(y, x) by {
        assert(g.edges@[x]@.contains(y as usize));
        if s2.edges@[x]@.contains(y as usize) {
            assert(s2.adj(x, y));
            assert(s2.adj(y, x));
            assert(g.edges@[y]@.contains(x as usize));
        } else {
            assert(g.edges@[y]@.contains(x as usize));
        }
    }
    assert forall|k: int, u: AssetInfoView| 0 <= k < s2.n() implies (#[trigger] g.nbr_set(k).contains(u) <==> (s2.nbr_set(k).contains(u) || (k == i && u == s2.node(j)) || (k == j && u == s2.node(i)))) by {
        if g.nbr_set(k).contains(u) {
            let x = choose|x: usize| #[trigger] g.edges@[k]@.contains(x) && g.node(x as int) == u;
            if s2.edges@[k]@.contains(x) {
                assert(s2.nbr_set(k).contains(u));
            }
        }
        if s2.nbr_set(k).contains(u) {
            let x = choose|x: usize| #[trigger] s2.edges@[k]@.contains(x) && s2.node(x as int) == u;
            assert(g.edges@[k]@.contains(x));
            assert(g.node(x as int) == u);
        }
        if k == i && u == s2.node(j) {
            assert(g.edges@[k]@.contains(j as usize));
            assert(g.node((j as usize) as int) == u);
        }
        if k == j && u == s2.node(i) {
            assert(g.edges@[k]@.contains(i as usize));
            assert(g.node((i as usize) as int) == u);
        }
    }
}

/// What recording `a` and `b` as neighbours does to each neighbour set, once
/// both are present in the map.
proof fn lemma_undirected_values(m0: AdjacencyMap, m2: AdjacencyMap, a: AssetInfoView, b: AssetInfoView)
    requires
        m2.dom() == m0.dom().insert(a).insert(b),
        forall|v: AssetInfoView| #[trigger] m0.dom().contains(v) ==> m2[v] == m0[v],
        forall|v: AssetInfoView| m2.dom().contains(v) && !m0.dom().contains(v) ==> #[trigger] m2[v] == Set::<AssetInfoView>::empty(),
    ensures
        add_undirected(m0, a, b).dom() == m2.dom(),
        forall|v: AssetInfoView, u: AssetInfoView| #[trigger] m2.dom().contains(v) ==> (#[trigger] add_undirected(m0, a, b)[v].contains(u) <==> (m2[v].contains(u) || (v == a && u == b) || (v == b && u == a))),
{
    assert(add_undirected(m0, a, b).dom() =~= m2.dom());
}

impl Graph {
    /// Records `asset1` and `asset2` as neighbours of each other, adding
    /// either asset to the graph if it is not there yet.
    pub fn add_pair(&mut self, asset1: AssetInfo, asset2: AssetInfo)
        requires
            old(self).wf(),
        ensures
            final(self).wf(),
            final(self)@ == add_undirected(old(self)@, asset1@, asset2@),
            forall|x: AssetInfoView| #[trigger] final(self)@.dom().contains(x) <==> (old(self)@.dom().contains(x) || x == asset1@ || x == asset2@),
            forall|x: AssetInfoView, y: AssetInfoView| final(self)@.dom().contains(x) && #[trigger] final(self)@[x].contains(y)
                <==> ((old(self)@.dom().contains(x) && old(self)@[x].contains(y)) || (x == asset1@ && y == asset2@) || (x == asset2@ && y == asset1@)),
    {
        let ghost m0 = self@;
        let ghost a = asset1@;
        let ghost b = asset2@;
        proof {
            lemma_add_undirected_facts(m0, a, b);
        }
        let asset1_wrapper = AssetInfoWrapper::from(asset1);
        let asset2_wrapper = AssetInfoWrapper::from(asset2);
        let i = self.index_or_insert(asset1_wrapper.clone());
        let j = self.index_or_insert(asset2_wrapper);
        let ghost s2 = *self;
        self.push_neighbor(i, j);
        let ghost s3 = *self;
        self.push_neighbor(j, i);
        proof {
            let target = add_undirected(m0, a, b);
            assert(s2.node(i as int) == a);
            assert(s2.node(j as int) == b);
            assert forall|k: int, x: usize| 0 <= k < s2.n() implies (#[trigger] self.edges@[k]@.contains(x) <==> (s2.edges@[k]@.contains(x) || (k == i && x == j) || (k == j && x == i))) by {
                if k != j {
                    assert(self.edges@[k] == s3.edges@[k]);
                }
                if k != i {
                    assert(s3.edges@[k] == s2.edges@[k]);
                }
            }
            assert forall|k: int| 0 <= k < s2.n() && k != i && k != j implies #[trigger] self.edges@[k] == s2.edges@[k] by {
                assert(self.edges@[k] == s3.edges@[k]);
            }
            assert forall|k: int| 0 <= k < s2.n() implies #[trigger] self.edges@[k]@.no_duplicates() by {
                if k != j {
                    assert(self.edges@[k] == s3.edges@[k]);
                }
                if k != i {
                    assert(s3.edges@[k] == s2.edges@[k]);
                }
            }
            self.model@ = target;
            lemma_rows_after_arcs(s2, *self, i as int, j as int);
            assert(s2@.dom() =~= m0.dom().insert(a).insert(b));
            lemma_undirected_values(m0, s2@, a, b);
            assert(self.nodes == s2.nodes);
            assert forall|k: int| 0 <= k < self.n() implies #[trigger] self.node(k) == s2.node(k) by {}
            assert(self.node_set() =~= s2.node_set()) by {
                assert forall|v: AssetInfoView| self.node_set().contains(v) implies s2.node_set().contains(v) by {
                    let k = choose|k: int| 0 <= k < self.n() && #[trigger] self.node(k) == v;
                    assert(s2.node(k) == v);
                }
                assert forall|v: AssetInfoView| s2.node_set().contains(v) implies self.node_set().contains(v) by {
                    let k = choose|k: int| 0 <= k < s2.n() && #[trigger] s2.node(k) == v;
                    assert(self.node(k) == v);
                }
            }
            assert forall|k: int| 0 <= k < self.n() implies self.model@[#[trigger] self.node(k)] == self.nbr_set(k) by {
                let v = self.node(k);
                assert(v == s2.node(k));
                assert(s2.node_set().contains(v));
                assert(s2@.dom().contains(v));
                assert(s2@[v] == s2.nbr_set(k));
                assert((v == a) == (k == i as int));
                assert((v == b) == (k == j as int));
                assert forall|u: AssetInfoView| self.model@[v].contains(u) <==> self.nbr_set(k).contains(u) by {
                    assert(add_undirected(m0, a, b)[v].contains(u) <==> (s2@[v].contains(u) || (v == a && u == b) || (v == b && u == a)));
                    assert(self.nbr_set(k).contains(u) <==> (s2.nbr_set(k).contains(u) || (k == i && u == s2.node(j as int)) || (k == j && u == s2.node(i as int))));
                }
                assert(self.model@[v] =~= self.nbr_set(k));
            }
        }
    }
}

impl Graph {
    spec fn idx_step(self, p: Seq<int>, i: int) -> bool {
        self.adj(p[i], p[i + 1])
    }

    spec fn is_idx_walk(self, p: Seq<int>) -> bool {
        &&& p.len() >= 1
        &&& forall|i: int| 0 <= i < p.len() ==> 0 <= #[trigger] p[i] < self.n()
        &&& forall|i: int| 0 <= i < p.len() - 1 ==> #[trigger] self.idx_step(p, i)
    }

    spec fn idx_connects(self, p: Seq<int>, s: int, t: int) -> bool {
        &&& self.is_idx_walk(p)
        &&& p[0] == s
        &&& p.last() == t
    }
}

/// The breadth-first search's bookkeeping: `q` holds the discovered nodes in
/// order, each with a predecessor one level closer to `s`, and no walk from
/// `s` reaches a discovered node in fewer steps than its level.
spec fn bfs_levels_ok(g: Graph, s: int, q: Seq<usize>, visited: Seq<bool>, prev: Seq<Option<usize>>, level: Seq<int>) -> bool {
    &&& visited.len() == g.n()
    &&& prev.len() == g.n()
    &&& level.len() == g.n()
    &&& q.no_duplicates()
    &&& forall|i: int| 0 <= i < q.len() ==> #[trigger] q[i] < g.n()
    &&& q.len() >= 1
    &&& q[0] == s
    &&& forall|v: int| 0 <= v < g.n() ==> (#[trigger] visited[v] <==> q.contains(v as usize))
    &&& level[s] == 0
    &&& prev[s] is None
    &&& forall|v: int| 0 <= v < g.n() && #[trigger] visited[v] ==> level[v] >= 0
    &&& forall|v: int| 0 <= v < g.n() && #[trigger] visited[v] && v != s ==> (prev[v] matches Some(p) && p < g.n() && visited[p as int] && g.adj(p as int, v) && level[v] == level[p as int] + 1)
    &&& forall|i: int, j: int| #![trigger q[i], q[j]] 0 <= i <= j < q.len() ==> level[q[i] as int] <= level[q[j] as int]
    &&& forall|v: int, p: Seq<int>| 0 <= v < g.n() && visited[v] && #[trigger] g.idx_connects(p, s, v) ==> p.len() - 1 >= level[v]
}

/// Every neighbour of the first `hd` queued nodes has been discovered, at most
/// one level further out.
spec fn bfs_processed(g: Graph, q: Seq<usize>, hd: int, visited: Seq<bool>, level: Seq<int>) -> bool {
    forall|i: int, x: usize| 0 <= i < hd && #[trigger] g.edges@[q[i] as int]@.contains(x) ==> visited[x as int] && level[x as int] <= level[q[i] as int] + 1
}

/// A walk from `s` of at most `d` steps only reaches discovered nodes, when
/// every queued node of level below `d` has been processed.
proof fn lemma_reach_by_level(g: Graph, s: int, q: Seq<usize>, hd: int, visited: Seq<bool>, prev: Seq<Option<usize>>, level: Seq<int>, d: int, p: Seq<int>)
    requires
        g.wf(),
        bfs_levels_ok(g, s, q, visited, prev, level),
        bfs_processed(g, q, hd, visited, level),
        0 <= hd <= q.len(),
        forall|i: int| 0 <= i < q.len() && level[q[i] as int] < d ==> i < hd,
        g.is_idx_walk(p),
        p[0] == s,
        p.len() - 1 <= d,
    ensures
        visited[p.last()],
        level[p.last()] <= p.len() - 1,
    decreases p.len(),
{
    if p.len() == 1 {
        assert(q.contains(s as usize)) by { assert(q[0] == s); }
    } else {
        let p1 = p.drop_last();
        assert forall|i: int| 0 <= i < p1.len() - 1 implies #[trigger] g.idx_step(p1, i) by {
            assert(g.idx_step(p, i));
        }
        assert forall|i: int| 0 <= i < p1.len() implies 0 <= #[trigger] p1[i] < g.n() by {
            assert(0 <= p[i] < g.n());
        }
        lemma_reach_by_level(g, s, q, hd, visited, prev, level, d, p1);
        let x = p1.last();
        let y = p.last();
        assert(0 <= x < g.n());
        assert(visited[x]);
        assert(q.contains(x as usize));
        let i = choose|i: int| 0 <= i < q.len() && q[i] == x as usize;
        assert(level[q[i] as int] < d);
        assert(i < hd);
        assert(g.idx_step(p, p.len() - 2));
        assert(g.adj(x, y));
        assert(0 <= y < g.n());
        assert(g.edges@[q[i] as int]@.contains(y as usize));
    }
}

impl Graph {
    /// Breadth-first search over node indices: a shortest walk from `s` to
    /// `e`, if there is one.
    fn shortest_index_path(&self, s: usize, e: usize) -> (r: Option<Vec<usize>>)
        requires
            self.wf(),
            s < self.n(),
            e < self.n(),
        ensures
            match r {
                Some(p) => {
                    &&& self.idx_connects(p@.map_values(|x: usize| x as int), s as int, e as int)
                    &&& forall|p2: Seq<int>| #[trigger] self.idx_connects(p2, s as int, e as int) ==> p@.len() <= p2.len()
                },
                None => forall|p2: Seq<int>| !#[trigger] self.idx_connects(p2, s as int, e as int),
            },
    {
        let n = self.nodes.len();
        let mut visited: Vec<bool> = Vec::new();
        let mut prev: Vec<Option<usize>> = Vec::new();
        for k in 0..n
            invariant
                visited@.len() == k,
                prev@.len() == k,
                forall|v: int| 0 <= v < k ==> !#[trigger] visited@[v],
                forall|v: int| 0 <= v < k ==> #[trigger] prev@[v] is None,
        {
            visited.push(false);
            prev.push(None);
        }
        let ghost mut level: Seq<int> = Seq::new(n as nat, |v: int| 0);
        let mut queue: Vec<usize> = Vec::new();
        visited.set(s, true);
        queue.push(s);
        let mut head: usize = 0;
        proof {
            assert(queue@[0] == s);
            assert forall|v: int| 0 <= v < self.n() implies (#[trigger] visited@[v] <==> queue@.contains(v as usize)) by {
                if v == s as int {
                    assert(queue@[0] == s);
                } else if queue@.contains(v as usize) {
                    assert(queue@[0] == v as usize);
                }
            }
            assert forall|v: int, p: Seq<int>| 0 <= v < self.n() && visited@[v] && #[trigger] self.idx_connects(p, s as int, v) implies p.len() - 1 >= level[v] by {
                assert(queue@.contains(v as usize));
                assert(queue@[0] == v as usize);
            }
            assert(queue@.no_duplicates());
            assert forall|v: int| 0 <= v < self.n() && #[trigger] visited@[v] && v != s as int implies (prev@[v] matches Some(p) && p < self.n() && visited@[p as int] && self.adj(p as int, v) && level[v] == level[p as int] + 1) by {
                assert(queue@.contains(v as usize));
                assert(queue@[0] == v as usize);
            }
            assert forall|i: int, j: int| #![trigger queue@[i], queue@[j]] 0 <= i <= j < queue@.len() implies level[queue@[i] as int] <= level[queue@[j] as int] by {
                assert(i == 0 && j == 0);
            }
            assert(prev@[s as int] is None);
            assert(bfs_levels_ok(*self, s as int, queue@, visited@, prev@, level));
        }
        while head < queue.len()
            invariant
                self.wf(),
                n == self.n(),
                s < n,
                e < n,
                head <= queue@.len(),
                bfs_levels_ok(*self, s as int, queue@, visited@, prev@, level),
                bfs_processed(*self, queue@, head as int, visited@, level),
                head < queue@.len() ==> level[queue@[queue@.len() - 1] as int] <= level[queue@[head as int] as int] + 1,
                forall|i: int| 0 <= i < head ==> queue@[i] != e,
            decreases n - head,
        {
            proof {
                lemma_distinct_bounded(queue@, n as int);
            }
            let u = queue[head];
            let ghost h0 = head as int;
            let ghost d = level[u as int];
            head = head + 1;
            if u == e {
                return Some(self.rebuild_path(s, e, &prev, Ghost(visited@), Ghost(queue@), Ghost(level)));
            }
            proof {
                assert forall|i: int| 0 <= i < queue@.len() implies level[queue@[i] as int] <= d + 1 by {
                    assert(level[queue@[i] as int] <= level[queue@[queue@.len() - 1] as int]);
                }
            }
            let row_len = self.edges[u].len();
            for k in 0..row_len
                invariant
                    self.wf(),
                    n == self.n(),
                    s < n,
                    e < n,
                    u < n,
                    0 <= h0 < queue@.len(),
                    head == h0 + 1,
                    queue@[h0] == u,
                    d == level[u as int],
                    row_len == self.edges@[u as int]@.len(),
                    bfs_levels_ok(*self, s as int, queue@, visited@, prev@, level),
                    bfs_processed(*self, queue@, h0, visited@, level),
                    forall|i: int| 0 <= i < queue@.len() ==> level[queue@[i] as int] <= d + 1,
                    forall|q: int| 0 <= q < k ==> visited@[self.edges@[u as int]@[q] as int] && level[self.edges@[u as int]@[q] as int] <= d + 1,
                    forall|i: int| 0 <= i < head ==> queue@[i] != e,
            {
                let w = self.edges[u][k];
                proof {
                    assert(self.edges@[u as int]@[k as int] == w);
                    assert(self.edges@[u as int]@.contains(w));
                }
                if !visited[w] {
                    proof {
                        // no walk of at most `d` steps reaches `w`
                        assert forall|i: int| 0 <= i < queue@.len() && level[queue@[i] as int] < d implies i < h0 by {
                            if i >= h0 {
                                assert(level[queue@[h0] as int] <= level[queue@[i] as int]);
                            }
                        }
                        assert forall|p: Seq<int>| #[trigger] self.idx_connects(p, s as int, w as int) implies p.len() - 1 >= d + 1 by {
                            if p.len() - 1 <= d {
                                lemma_reach_by_level(*self, s as int, queue@, h0, visited@, prev@, level, d, p);
                            }
                        }
                    }
                    let ghost old_q = queue@;
                    let ghost old_visited = visited@;
                    let ghost old_prev = prev@;
                    let ghost old_level = level;
                    visited.set(w, true);
                    prev.set(w, Some(u));
                    proof {
                        level = level.update(w as int, d + 1);
                    }
                    queue.push(w);
                    proof {
                        assert(!old_q.contains(w));
                        assert(queue@[old_q.len() as int] == w);
                        assert forall|i: int| 0 <= i < old_q.len() implies #[trigger] queue@[i] == old_q[i] by {}
                        assert forall|i: int| 0 <= i < old_q.len() implies queue@[i] != w by {
                            assert(old_q.contains(old_q[i]));
                        }
                        assert(queue@.no_duplicates());
                        assert forall|v: int| 0 <= v < self.n() implies (#[trigger] visited@[v] <==> queue@.contains(v as usize)) by {
                            if v != w as int {
                                if queue@.contains(v as usize) {
                                    let i = choose|i: int| 0 <= i < queue@.len() && queue@[i] == v as usize;
                                    assert(i < old_q.len());
                                    assert(old_q.contains(v as usize));
                                }
                                if old_q.contains(v as usize) {
                                    let i = choose|i: int| 0 <= i < old_q.len() && old_q[i] == v as usize;
                                    assert(queue@[i] == v as usize);
                                }
                            }
                        }
                        assert forall|v: int| 0 <= v < self.n() && #[trigger] visited@[v] && v != s as int implies (prev@[v] matches Some(p) && p < self.n() && visited@[p as int] && self.adj(p as int, v) && level[v] == level[p as int] + 1) by {
                            if v != w as int {
                                assert(old_visited[v]);
                                let p = old_prev[v]->0;
                                assert(old_visited[p as int]);
                                assert(p != w);
                            } else {
                                assert(old_visited[u as int]) by {
                                    assert(old_q.contains(u));
                                }
                                assert(u != w);
                            }
                        }
                        assert forall|v: int| 0 <= v < self.n() && #[trigger] visited@[v] implies level[v] >= 0 by {
                            if v != w as int {
                                assert(old_visited[v]);
                            }
                        }
                        assert forall|i: int, j: int| #![trigger queue@[i], queue@[j]] 0 <= i <= j < queue@.len() implies level[queue@[i] as int] <= level[queue@[j] as int] by {
                            if j < old_q.len() {
                                assert(old_q[i] != w);
                                assert(old_q[j] != w);
                                assert(old_level[old_q[i] as int] <= old_level[old_q[j] as int]);
                            } else if i < old_q.len() {
                                assert(old_q[i] != w);
                                assert(old_level[old_q[i] as int] <= d + 1);
                            }
                        }
                        assert forall|v: int, p: Seq<int>| 0 <= v < self.n() && visited@[v] && #[trigger] self.idx_connects(p, s as int, v) implies p.len() - 1 >= level[v] by {
                            if v != w as int {
                                assert(old_visited[v]);
                            }
                        }
                        assert(level[s as int] == 0) by {
                            assert(old_visited[s as int]) by { assert(old_q[0] == s); }
                        }
                        assert(prev@[s as int] is None) by {
                            assert(old_visited[s as int]) by { assert(old_q[0] == s); }
                        }
                        assert forall|i: int, x: usize| 0 <= i < h0 && #[trigger] self.edges@[queue@[i] as int]@.contains(x) implies visited@[x as int] && level[x as int] <= level[queue@[i] as int] + 1 by {
                            assert(queue@[i] == old_q[i]);
                            assert(old_visited[x as int]);
                            assert(x != w);
                            assert(old_q[i] != w) by { assert(old_q.contains(old_q[i])); }
                        }
                        assert forall|q: int| 0 <= q <= k implies visited@[self.edges@[u as int]@[q] as int] && level[self.edges@[u as int]@[q] as int] <= d + 1 by {
                            let x = self.edges@[u as int]@[q];
                            if q < k {
                                assert(self.edges@[u as int]@.no_duplicates());
                                assert(x != w);
                                assert(old_visited[x as int]);
                                assert(old_level[x as int] <= d + 1);
                                assert(self.edges@[u as int]@.contains(x));
                                assert(x < n);
                                assert(visited@[x as int]);
                                assert(level[x as int] <= d + 1);
                            } else {
                                assert(x == w);
                                assert(visited@[w as int]);
                                assert(level[w as int] == d + 1);
                            }
                        }
                        assert forall|i: int| 0 <= i < queue@.len() implies level[queue@[i] as int] <= d + 1 by {
                            if i < old_q.len() {
                                assert(old_q[i] != w) by { assert(old_q.contains(old_q[i])); }
                            }
                        }
                        assert(queue@[h0] == u);
                        assert forall|i: int| 0 <= i < head implies queue@[i] != e by {}
                    }
                } else {
                    proof {
                        assert(queue@.contains(w));
                        let i = choose|i: int| 0 <= i < queue@.len() && queue@[i] == w;
                        assert(level[queue@[i] as int] <= d + 1);
                    }
                }
            }
            proof {
                assert forall|i: int, x: usize| 0 <= i < head && #[trigger] self.edges@[queue@[i] as int]@.contains(x) implies visited@[x as int] && level[x as int] <= level[queue@[i] as int] + 1 by {
                    if i == h0 {
                        let q = choose|q: int| 0 <= q < self.edges@[u as int]@.len() && self.edges@[u as int]@[q] == x;
                    }
                }
                if head < queue@.len() {
                    assert(level[queue@[h0] as int] <= level[queue@[head as int] as int]);
                }
            }
        }
        proof {
            assert forall|p2: Seq<int>| !#[trigger] self.idx_connects(p2, s as int, e as int) by {
                if self.idx_connects(p2, s as int, e as int) {
                    lemma_reach_by_level(*self, s as int, queue@, head as int, visited@, prev@, level, p2.len() as int, p2);
                    assert(queue@.contains(e));
                    let i = choose|i: int| 0 <= i < queue@.len() && queue@[i] == e;
                }
            }
        }
        None
    }

    /// Follows the predecessor links back from `e` to `s`, and returns the
    /// walk they form, from `s` to `e`.
    fn rebuild_path(&self, s: usize, e: usize, prev: &Vec<Option<usize>>, visited: Ghost<Seq<bool>>, queue: Ghost<Seq<usize>>, level: Ghost<Seq<int>>) -> (p: Vec<usize>)
        requires
            self.wf(),
            s < self.n(),
            e < self.n(),
            bfs_levels_ok(*self, s as int, queue@, visited@, prev@, level@),
            visited@[e as int],
        ensures
            self.idx_connects(p@.map_values(|x: usize| x as int), s as int, e as int),
            forall|p2: Seq<int>| #[trigger] self.idx_connects(p2, s as int, e as int) ==> p@.len() <= p2.len(),
    {
        let ghost lv = level@;
        let ghost vis = visited@;
        let mut rev: Vec<usize> = Vec::new();
        rev.push(e);
        let mut cur = e;
        loop
            invariant
                self.wf(),
                s < self.n(),
                e < self.n(),
                bfs_levels_ok(*self, s as int, queue@, vis, prev@, lv),
                cur < self.n(),
                vis[cur as int],
                rev@.len() >= 1,
                rev@[0] == e,
                rev@.last() == cur,
                forall|i: int| 0 <= i < rev@.len() ==> #[trigger] rev@[i] < self.n(),
                forall|i: int| 0 <= i < rev@.len() - 1 ==> #[trigger] self.adj(rev@[i + 1] as int, rev@[i] as int),
                lv[cur as int] == lv[e as int] - (rev@.len() - 1),
            ensures
                cur == s,
                rev@.len() >= 1,
                rev@[0] == e,
                rev@.last() == cur,
                forall|i: int| 0 <= i < rev@.len() ==> #[trigger] rev@[i] < self.n(),
                forall|i: int| 0 <= i < rev@.len() - 1 ==> #[trigger] self.adj(rev@[i + 1] as int, rev@[i] as int),
                lv[cur as int] == lv[e as int] - (rev@.len() - 1),
            decreases lv[cur as int],
        {
            match prev[cur] {
                Some(p) => {
                    proof {
                        assert(cur != s) by {
                            assert(prev@[s as int] is None);
                        }
                    }
                    let ghost old_rev = rev@;
                    rev.push(p);
                    proof {
                        assert forall|i: int| 0 <= i < rev@.len() - 1 implies #[trigger] self.adj(rev@[i + 1] as int, rev@[i] as int) by {
                            if i < old_rev.len() - 1 {
                                assert(rev@[i + 1] == old_rev[i + 1]);
                                assert(rev@[i] == old_rev[i]);
                                assert(self.adj(old_rev[i + 1] as int, old_rev[i] as int));
                            }
                        }
                        assert(lv[p as int] >= 0);
                    }
                    cur = p;
                },
                None => {
                    proof {
                        if cur != s {
                            assert(prev@[cur as int] is Some);
                        }
                    }
                    break;
                },
            }
        }
        let len = rev.len();
        let mut path: Vec<usize> = Vec::new();
        for i in 0..len
            invariant
                len == rev@.len(),
                path@.len() == i,
                forall|j: int| 0 <= j < i ==> #[trigger] path@[j] == rev@[len - 1 - j],
        {
            path.push(rev[len - 1 - i]);
        }
        proof {
            let ps = path@.map_values(|x: usize| x as int);
            assert forall|j: int| 0 <= j < ps.len() implies 0 <= #[trigger] ps[j] < self.n() by {
                assert(path@[j] == rev@[len - 1 - j]);
            }
            assert forall|j: int| 0 <= j < ps.len() - 1 implies #[trigger] self.idx_step(ps, j) by {
                assert(path@[j] == rev@[len - 1 - j]);
                assert(path@[j + 1] == rev@[len - 1 - (j + 1)]);
                assert(self.adj(rev@[(len - 1 - (j + 1)) + 1] as int, rev@[len - 1 - (j + 1)] as int));
            }
            assert(ps[0] == s as int) by { assert(path@[0] == rev@[len - 1]); }
            assert(ps.last() == e as int) by { assert(path@[len - 1] == rev@[0]); }
            assert(lv[s as int] == 0);
            assert forall|p2: Seq<int>| #[trigger] self.idx_connects(p2, s as int, e as int) implies path@.len() <= p2.len() by {
                assert(vis[e as int]);
            }
        }
        path
    }
}

/// A sequence of distinct indices below `n` has at most `n` entries.
proof fn lemma_distinct_bounded(q: Seq<usize>, n: int)
    requires
        q.no_duplicates(),
        0 <= n,
        forall|i: int| 0 <= i < q.len() ==> #[trigger] q[i] < n,
    ensures
        q.len() <= n,
{
    let f = |x: usize| x as int;
    assert(vstd::relations::injective(f));
    q.lemma_no_duplicates_injective(f);
    let qi = q.map_values(f);
    qi.unique_seq_to_set();
    assert(qi.to_set().subset_of(vstd::set_lib::set_int_range(0, n))) by {
        assert forall|x: int| qi.to_set().contains(x) implies vstd::set_lib::set_int_range(0, n).contains(x) by {
            let i = choose|i: int| 0 <= i < qi.len() && qi[i] == x;
            assert(q[i] < n);
        }
    }
    assert(qi.len() == q.len());
    assert(qi.no_duplicates());
    vstd::set_lib::lemma_int_range(0, n);
    vstd::set_lib::lemma_len_subset(qi.to_set(), vstd::set_lib::set_int_range(0, n));
}

impl Graph {
    /// Every neighbour recorded in the graph is itself a node of the graph.
    proof fn lemma_neighbors_are_nodes(self, a: AssetInfoView, b: AssetInfoView)
        requires
            self.wf(),
            self@.dom().contains(a),
            self@[a].contains(b),
        ensures
            self@.dom().contains(b),
            exists|i: int, j: int| 0 <= i < self.n() && 0 <= j < self.n() && self.node(i) == a && self.node(j) == b && #[trigger] self.adj(i, j),
    {
        let i = choose|i: int| 0 <= i < self.n() && #[trigger] self.node(i) == a;
        assert(self@[self.node(i)] == self.nbr_set(i));
        let x = choose|x: usize| #[trigger] self.edges@[i]@.contains(x) && self.node(x as int) == b;
        assert(x < self.n());
        assert(self.node_set().contains(b)) by {
            assert(self.node(x as int) == b);
        }
        assert(self.adj(i, x as int));
    }

    proof fn lemma_index_of(self, v: AssetInfoView) -> (k: int)
        requires
            self.wf(),
            self@.dom().contains(v),
        ensures
            0 <= k < self.n(),
            self.node(k) == v,
    {
        choose|k: int| 0 <= k < self.n() && #[trigger] self.node(k) == v
    }

    /// A walk through the graph, read as node indices.
    proof fn lemma_view_walk_to_indices(self, w: Seq<AssetInfoView>) -> (p: Seq<int>)
        requires
            self.wf(),
            is_walk(self@, w),
            w.len() >= 2,
        ensures
            self.is_idx_walk(p),
            p.len() == w.len(),
            forall|i: int| 0 <= i < p.len() ==> #[trigger] self.node(p[i]) == w[i],
    {
        assert forall|i: int| 0 <= i < w.len() implies #[trigger] self@.dom().contains(w[i]) by {
            if i < w.len() - 1 {
                assert(walk_step(self@, w, i));
            } else {
                assert(walk_step(self@, w, i - 1));
                self.lemma_neighbors_are_nodes(w[i - 1], w[i]);
            }
        }
        let p = Seq::new(w.len(), |i: int| choose|k: int| 0 <= k < self.n() && #[trigger] self.node(k) == w[i]);
        assert forall|i: int| 0 <= i < p.len() implies 0 <= #[trigger] p[i] < self.n() && self.node(p[i]) == w[i] by {
            assert(self@.dom().contains(w[i]));
            let k = self.lemma_index_of(w[i]);
        }
        assert forall|i: int| 0 <= i < p.len() - 1 implies #[trigger] self.idx_step(p, i) by {
            assert(0 <= p[i] < self.n() && self.node(p[i]) == w[i]);
            assert(0 <= p[i + 1] < self.n() && self.node(p[i + 1]) == w[i + 1]);
            assert(walk_step(self@, w, i));
            self.lemma_adj_iff(p[i], p[i + 1]);
        }
        p
    }

    /// A walk over node indices, read as assets.
    proof fn lemma_indices_to_view_walk(self, p: Seq<int>)
        requires
            self.wf(),
            self.is_idx_walk(p),
        ensures
            is_walk(self@, p.map_values(|i: int| self.node(i))),
    {
        let w = p.map_values(|i: int| self.node(i));
        assert forall|i: int| 0 <= i < w.len() - 1 implies #[trigger] walk_step(self@, w, i) by {
            assert(self.idx_step(p, i));
            assert(0 <= p[i] < self.n());
            assert(0 <= p[i + 1] < self.n());
            self.lemma_adj_iff(p[i], p[i + 1]);
        }
    }
}

/// A shortest path of assets leading from `start` to `end` through the graph,
/// found by a breadth-first search; `None` when no path leads there.
pub fn find_path(graph: &Graph, start: &AssetInfo, end: &AssetInfo) -> (r: Option<Vec<AssetInfo>>)
    requires
        graph.wf(),
    ensures
        match r {
            Some(p) => is_shortest_walk(graph@, views(p@), start@, end@),
            None => !reachable(graph@, start@, end@),
        },
        r matches Some(p) ==> {
            &&& p@.len() >= 1
            &&& p@[0]@ == start@
            &&& p@.last()@ == end@
            &&& forall|k: int| 0 <= k < p@.len() - 1 ==> graph@.dom().contains(#[trigger] p@[k]@) && graph@[p@[k]@].contains(p@[k + 1]@)
            &&& forall|w: Seq<AssetInfoView>| w.len() >= 1 && w[0] == start@ && w.last() == end@
                && (forall|k: int| 0 <= k < w.len() - 1 ==> graph@.dom().contains(#[trigger] w[k]) && graph@[w[k]].contains(w[k + 1]))
                ==> p@.len() <= w.len()
        },
        r is None ==> forall|w: Seq<AssetInfoView>| w.len() >= 1 && w[0] == start@ && w.last() == end@
            ==> exists|k: int| 0 <= k < w.len() - 1 && !(graph@.dom().contains(#[trigger] w[k]) && graph@[w[k]].contains(w[k + 1])),
{
    let r = search_shortest_path(graph, start, end);
    proof {
        match &r {
            Some(p) => {
                let w = views(p@);
                assert forall|k: int| 0 <= k < p@.len() - 1 implies graph@.dom().contains(#[trigger] p@[k]@) && graph@[p@[k]@].contains(p@[k + 1]@) by {
                    assert(walk_step(graph@, w, k));
                }
                assert forall|w2: Seq<AssetInfoView>| w2.len() >= 1 && w2[0] == start@ && w2.last() == end@
                    && (forall|k: int| 0 <= k < w2.len() - 1 ==> graph@.dom().contains(#[trigger] w2[k]) && graph@[w2[k]].contains(w2[k + 1]))
                    implies p@.len() <= w2.len() by {
                    assert forall|k: int| 0 <= k < w2.len() - 1 implies #[trigger] walk_step(graph@, w2, k) by {
                        assert(graph@.dom().contains(w2[k]));
                    }
                    assert(connects(graph@, w2, start@, end@));
                }
            },
            None => {
                assert forall|w: Seq<AssetInfoView>| w.len() >= 1 && w[0] == start@ && w.last() == end@
                    implies exists|k: int| 0 <= k < w.len() - 1 && !(graph@.dom().contains(#[trigger] w[k]) && graph@[w[k]].contains(w[k + 1])) by {
                    if !exists|k: int| 0 <= k < w.len() - 1 && !(graph@.dom().contains(#[trigger] w[k]) && graph@[w[k]].contains(w[k + 1])) {
                        assert forall|k: int| 0 <= k < w.len() - 1 implies #[trigger] walk_step(graph@, w, k) by {
                            assert(graph@.dom().contains(w[k]));
                        }
                        assert(connects(graph@, w, start@, end@));
                    }
                }
            },
        }
    }
    r
}

/// The search behind [`find_path`].
fn search_shortest_path(graph: &Graph, start: &AssetInfo, end: &AssetInfo) -> (r: Option<Vec<AssetInfo>>)
    requires
        graph.wf(),
    ensures
        match r {
            Some(p) => is_shortest_walk(graph@, views(p@), start@, end@),
            None => !reachable(graph@, start@, end@),
        },
{
    let start_wrapper = AssetInfoWrapper::from(start.clone());
    let end_wrapper = AssetInfoWrapper::from(end.clone());
    let same = start_wrapper == end_wrapper;
    proof {
        lemma_display_injective(start@, end@);
    }
    if same {
        let path = vec![end.clone()];
        proof {
            let w = views(path@);
            assert(w[0] == end@);
            assert(is_walk(graph@, w));
        }
        return Some(path);
    }
    let s = match graph.find_node(&start_wrapper) {
        Some(s) => s,
        None => {
            proof {
                assert forall|w: Seq<AssetInfoView>| !#[trigger] connects(graph@, w, start@, end@) by {
                    if connects(graph@, w, start@, end@) {
                        assert(w.len() >= 2);
                        assert(walk_step(graph@, w, 0));
                        let k = graph.lemma_index_of(start@);
                    }
                }
            }
            return None;
        },
    };
    let e = match graph.find_node(&end_wrapper) {
        Some(e) => e,
        None => {
            proof {
                assert forall|w: Seq<AssetInfoView>| !#[trigger] connects(graph@, w, start@, end@) by {
                    if connects(graph@, w, start@, end@) {
                        assert(w.len() >= 2);
                        let p = graph.lemma_view_walk_to_indices(w);
                        assert(graph.node(p[p.len() - 1]) == end@);
                    }
                }
            }
            return None;
        },
    };
    match graph.shortest_index_path(s, e) {
        None => {
            proof {
                assert forall|w: Seq<AssetInfoView>| !#[trigger] connects(graph@, w, start@, end@) by {
                    if connects(graph@, w, start@, end@) {
                        assert(w.len() >= 2);
                        let p = graph.lemma_view_walk_to_indices(w);
                        assert(graph.node(p[0]) == graph.node(s as int));
                        assert(graph.node(p[p.len() - 1]) == graph.node(e as int));
                        assert(graph.idx_connects(p, s as int, e as int));
                    }
                }
            }
            None
        },
        Some(indices) => {
            let len = indices.len();
            proof {
                let pi = indices@.map_values(|x: usize| x as int);
                assert forall|i: int| 0 <= i < len implies 0 <= #[trigger] indices@[i] < graph.n() by {
                    assert(0 <= pi[i] < graph.n());
                }
            }
            let mut path: Vec<AssetInfo> = Vec::new();
            for k in 0..len
                invariant
                    graph.wf(),
                    len == indices@.len(),
                    forall|i: int| 0 <= i < len ==> 0 <= #[trigger] indices@[i] < graph.n(),
                    path@.len() == k,
                    forall|i: int| 0 <= i < k ==> #[trigger] path@[i]@ == graph.node(indices@[i] as int),
            {
                let ghost pi = indices@.map_values(|x: usize| x as int);
                proof {
                    assert(0 <= pi[k as int] < graph.n());
                }
                path.push(graph.nodes[indices[k]].0.clone());
            }
            proof {
                let pi = indices@.map_values(|x: usize| x as int);
                graph.lemma_indices_to_view_walk(pi);
                let wv = pi.map_values(|i: int| graph.node(i));
                assert(views(path@) =~= wv);
                assert(wv[0] == start@);
                assert(wv.last() == end@);
                assert forall|w2: Seq<AssetInfoView>| #[trigger] connects(graph@, w2, start@, end@) implies path@.len() <= w2.len() by {
                    assert(w2.len() >= 2);
                    let p2 = graph.lemma_view_walk_to_indices(w2);
                    assert(graph.node(p2[0]) == graph.node(s as int));
                    assert(graph.node(p2[p2.len() - 1]) == graph.node(e as int));
                    assert(graph.idx_connects(p2, s as int, e as int));
                }
            }
            Some(path)
        },
    }
}

/// How an asset's price is found; of these the graph reads only the pools.
pub enum PriceSource {
    /// No source: only for the base asset.
    BaseAsset,
    /// A pool trading the assets of `pair`.
    Pool { pair: Vec<AssetInfo> },
    /// The liquidity token of a pool of `pool_assets`.
    LiquidityToken { pool_assets: Vec<AssetInfo> },
    /// Valued as a multiple of `asset`.
    ValueAs { asset: AssetInfo },
}

/// An asset known to the oracle, with the source of its price.
pub struct OracleAsset {
    pub asset: AssetInfo,
    pub price_source: PriceSource,
}

/// The price source of `o` is a pool of at least `k` assets.
pub open spec fn is_pool_of_at_least(o: OracleAsset, k: int) -> bool {
    o.price_source matches PriceSource::Pool { pair } && pair@.len() >= k
}

/// The graph in which the first two assets of each oracle pool, taken in
/// order, are neighbours.
pub open spec fn pools_graph(oracle_assets: Seq<OracleAsset>) -> AdjacencyMap
    decreases oracle_assets.len(),
{
    if oracle_assets.len() == 0 {
        Map::empty()
    } else {
        let rest = pools_graph(oracle_assets.drop_last());
        match oracle_assets.last().price_source {
            PriceSource::Pool { pair } => add_undirected(rest, pair@[0]@, pair@[1]@),
            _ => rest,
        }
    }
}

/// The graph of the oracle's pools; every price source must be a pool of
/// exactly two assets.
pub fn populate_graph(oracle_assets: &[OracleAsset]) -> (graph: Graph)
    requires
        forall|i: int| 0 <= i < oracle_assets@.len() ==> #[trigger] is_pool_of_at_least(oracle_assets@[i], 2)
            && oracle_assets@[i].price_source->pair@.len() == 2,
    ensures
        graph.wf(),
        graph@ == pools_graph(oracle_assets@),
        forall|i: int| #![trigger oracle_assets@[i]] 0 <= i < oracle_assets@.len() ==> {
            &&& graph@.dom().contains(oracle_assets@[i].price_source->pair@[0]@)
            &&& graph@[oracle_assets@[i].price_source->pair@[0]@].contains(oracle_assets@[i].price_source->pair@[1]@)
            &&& graph@.dom().contains(oracle_assets@[i].price_source->pair@[1]@)
            &&& graph@[oracle_assets@[i].price_source->pair@[1]@].contains(oracle_assets@[i].price_source->pair@[0]@)
        },
        forall|a: AssetInfoView, b: AssetInfoView| graph@.dom().contains(a) && #[trigger] graph@[a].contains(b)
            ==> exists|i: int| #![trigger oracle_assets@[i]] 0 <= i < oracle_assets@.len()
                && ((a == oracle_assets@[i].price_source->pair@[0]@ && b == oracle_assets@[i].price_source->pair@[1]@)
                    || (a == oracle_assets@[i].price_source->pair@[1]@ && b == oracle_assets@[i].price_source->pair@[0]@)),
        forall|a: AssetInfoView| #[trigger] graph@.dom().contains(a)
            ==> exists|i: int| #![trigger oracle_assets@[i]] 0 <= i < oracle_assets@.len()
                && (a == oracle_assets@[i].price_source->pair@[0]@ || a == oracle_assets@[i].price_source->pair@[1]@),
{
    let mut graph = Graph::new();
    let len = oracle_assets.len();
    for i in 0..len
        invariant
            len == oracle_assets@.len(),
            forall|i: int| 0 <= i < oracle_assets@.len() ==> #[trigger] is_pool_of_at_least(oracle_assets@[i], 2),
            graph.wf(),
            graph@ == pools_graph(oracle_assets@.take(i as int)),
    {
        proof {
            assert(is_pool_of_at_least(oracle_assets@[i as int], 2));
            assert(oracle_assets@.take(i + 1).drop_last() =~= oracle_assets@.take(i as int));
        }
        match &oracle_assets[i].price_source {
            PriceSource::Pool { pair } => {
                graph.add_pair(pair[0].clone(), pair[1].clone());
            },
            _ => {},
        }
    }
    proof {
        assert(oracle_assets@.take(len as int) =~= oracle_assets@);
        lemma_pools_graph_pairs_pool_assets(oracle_assets@);
        assert forall|i: int| #![trigger oracle_assets@[i]] 0 <= i < oracle_assets@.len() implies oracle_assets@[i].price_source is Pool by {
            assert(is_pool_of_at_least(oracle_assets@[i], 2));
        }
    }
    graph
}

/// One swap, from one asset to another.
#[derive(Debug)]
pub struct Swap {
    pub from: AssetInfo,
    pub to: AssetInfo,
}

/// The sequence of swaps that lead from an offered asset to an asked one.
#[derive(Debug)]
pub struct SwapPath {
    pub swaps: Vec<Swap>,
}

/// The swaps step along `w`, one swap per step.
pub open spec fn swaps_follow(swaps: Seq<Swap>, w: Seq<AssetInfoView>) -> bool {
    &&& swaps.len() + 1 == w.len()
    &&& forall|k: int| 0 <= k < swaps.len() ==> #[trigger] swaps[k].from@ == w[k] && swaps[k].to@ == w[k + 1]
}

/// `sp` swaps along a shortest walk of `m` from `offer` to `ask`.
pub open spec fn is_shortest_swap_path(m: AdjacencyMap, sp: SwapPath, offer: AssetInfoView, ask: AssetInfoView) -> bool {
    exists|w: Seq<AssetInfoView>| is_shortest_walk(m, w, offer, ask) && #[trigger] swaps_follow(sp.swaps@, w)
}

/// Every (offered, asked) pair, offers taken in order and, for each, the asks
/// in order.
pub open spec fn offer_ask_pairs(offers: Seq<AssetInfo>, asks: Seq<AssetInfo>) -> Seq<(AssetInfoView, AssetInfoView)>
    decreases offers.len(),
{
    if offers.len() == 0 {
        Seq::empty()
    } else {
        offer_ask_pairs(offers.drop_last(), asks) + asks.map_values(|a: AssetInfo| (offers.last()@, a@))
    }
}

/// The swaps along a path of assets.
fn swaps_along(path: &Vec<AssetInfo>) -> (sp: SwapPath)
    requires
        path@.len() >= 1,
    ensures
        swaps_follow(sp.swaps@, views(path@)),
{
    let mut swaps: Vec<Swap> = Vec::new();
    let len = path.len();
    for k in 1..len
        invariant
            len == path@.len(),
            swaps@.len() + 1 == k,
            forall|q: int| 0 <= q < swaps@.len() ==> #[trigger] swaps@[q].from@ == path@[q]@ && swaps@[q].to@ == path@[q + 1]@,
    {
        swaps.push(Swap { from: path[k - 1].clone(), to: path[k].clone() });
    }
    SwapPath { swaps }
}

/// For each offered asset and each asked asset, a shortest sequence of swaps
/// through the oracle's pools from the one to the other; every price source
/// must be a pool of at least two assets, of which the first two are paired.
pub fn determine_swap_paths(
    offer_assets: Vec<AssetInfo>,
    ask_assets: Vec<AssetInfo>,
    oracle_assets: Vec<OracleAsset>,
) -> (r: Result<Vec<SwapPath>, BalancerError>)
    requires
        forall|i: int| 0 <= i < oracle_assets@.len() ==> #[trigger] is_pool_of_at_least(oracle_assets@[i], 2),
    ensures
        ({
            let g = pools_graph(oracle_assets@);
            let pairs = offer_ask_pairs(offer_assets@, ask_assets@);
            &&& r is Ok <==> (forall|k: int| 0 <= k < pairs.len() ==> #[trigger] reachable(g, pairs[k].0, pairs[k].1))
            &&& r matches Ok(paths) ==> {
                &&& paths@.len() == pairs.len()
                &&& forall|k: int| 0 <= k < pairs.len() ==> #[trigger] is_shortest_swap_path(g, paths@[k], pairs[k].0, pairs[k].1)
            }
            &&& r matches Err(e) ==> e is NoSwapPath
        }),
        r is Ok <==> (forall|i: int, j: int| #![trigger offer_assets@[i], ask_assets@[j]] 0 <= i < offer_assets@.len() && 0 <= j < ask_assets@.len()
            ==> reachable(pools_graph(oracle_assets@), offer_assets@[i]@, ask_assets@[j]@)),
        r matches Ok(paths) ==> {
            &&& paths@.len() == offer_assets@.len() * ask_assets@.len()
            &&& forall|i: int, j: int| #![trigger offer_assets@[i], ask_assets@[j]] 0 <= i < offer_assets@.len() && 0 <= j < ask_assets@.len() ==> {
                let swaps = paths@[i * ask_assets@.len() + j].swaps@;
                &&& swaps.len() == 0 ==> offer_assets@[i]@ == ask_assets@[j]@
                &&& swaps.len() > 0 ==> swaps[0].from@ == offer_assets@[i]@ && swaps.last().to@ == ask_assets@[j]@
                &&& forall|k: int| 0 <= k < swaps.len() - 1 ==> #[trigger] swaps[k].to@ == swaps[k + 1].from@
                &&& forall|k: int| 0 <= k < swaps.len() ==> exists|o: int| #![trigger oracle_assets@[o]] 0 <= o < oracle_assets@.len()
                    && ((#[trigger] swaps[k].from@ == oracle_assets@[o].price_source->pair@[0]@ && swaps[k].to@ == oracle_assets@[o].price_source->pair@[1]@)
                        || (swaps[k].from@ == oracle_assets@[o].price_source->pair@[1]@ && swaps[k].to@ == oracle_assets@[o].price_source->pair@[0]@))
            }
        },
{
    let mut graph = Graph::new();
    let olen = oracle_assets.len();
    for i in 0..olen
        invariant
            olen == oracle_assets@.len(),
            forall|i: int| 0 <= i < oracle_assets@.len() ==> #[trigger] is_pool_of_at_least(oracle_assets@[i], 2),
            graph.wf(),
            graph@ == pools_graph(oracle_assets@.take(i as int)),
    {
        proof {
            assert(is_pool_of_at_least(oracle_assets@[i as int], 2));
            assert(oracle_assets@.take(i + 1).drop_last() =~= oracle_assets@.take(i as int));
        }
        match &oracle_assets[i].price_source {
            PriceSource::Pool { pair } => {
                graph.add_pair(pair[0].clone(), pair[1].clone());
            },
            _ => {},
        }
    }
    proof {
        assert(oracle_assets@.take(olen as int) =~= oracle_assets@);
        assert(graph@ == pools_graph(oracle_assets@));
    }
    let ghost g = graph@;
    let ghost asks = ask_assets@;
    let mut swap_paths: Vec<SwapPath> = Vec::new();
    let n_offers = offer_assets.len();
    let n_asks = ask_assets.len();
    let mut i: usize = 0;
    while i < n_offers
        invariant
            i <= n_offers,
            graph.wf(),
            graph@ == g,
            g == pools_graph(oracle_assets@),
            n_offers == offer_assets@.len(),
            n_asks == ask_assets@.len(),
            asks == ask_assets@,
            swap_paths@.len() == offer_ask_pairs(offer_assets@.take(i as int), asks).len(),
            forall|k: int| 0 <= k < swap_paths@.len() ==> reachable(g, #[trigger] offer_ask_pairs(offer_assets@.take(i as int), asks)[k].0, offer_ask_pairs(offer_assets@.take(i as int), asks)[k].1),
            forall|k: int| 0 <= k < swap_paths@.len() ==> #[trigger] is_shortest_swap_path(g, swap_paths@[k], offer_ask_pairs(offer_assets@.take(i as int), asks)[k].0, offer_ask_pairs(offer_assets@.take(i as int), asks)[k].1),
        decreases n_offers - i,
    {
        let ghost done = offer_ask_pairs(offer_assets@.take(i as int), asks);
        let ghost row = asks.map_values(|a: AssetInfo| (offer_assets@[i as int]@, a@));
        proof {
            assert(offer_assets@.take(i + 1).drop_last() =~= offer_assets@.take(i as int));
            assert(offer_ask_pairs(offer_assets@.take(i + 1), asks) == done + row);
        }
        for j in 0..n_asks
            invariant
                graph.wf(),
                graph@ == g,
                g == pools_graph(oracle_assets@),
                i < n_offers,
                n_offers == offer_assets@.len(),
                n_asks == ask_assets@.len(),
                asks == ask_assets@,
                done == offer_ask_pairs(offer_assets@.take(i as int), asks),
                row == asks.map_values(|a: AssetInfo| (offer_assets@[i as int]@, a@)),
                done + row == offer_ask_pairs(offer_assets@.take(i + 1), asks),
                forall|k: int| 0 <= k < done.len() + j ==> reachable(g, #[trigger] (done + row)[k].0, (done + row)[k].1),
                swap_paths@.len() == done.len() + j,
                forall|k: int| 0 <= k < swap_paths@.len() ==> #[trigger] is_shortest_swap_path(g, swap_paths@[k], (done + row)[k].0, (done + row)[k].1),
        {
            let path = find_path(&graph, &offer_assets[i], &ask_assets[j]);
            match path {
                None => {
                    proof {
                        let k = done.len() + j;
                        assert((done + row)[k] == (offer_assets@[i as int]@, asks[j as int]@));
                        let all = offer_ask_pairs(offer_assets@, asks);
                        lemma_pairs_prefix(offer_assets@, asks, i as int + 1);
                        assert(k < (done + row).len());
                        assert(all[k] == (done + row)[k]);
                        assert(!reachable(g, all[k].0, all[k].1));
                        assert(!reachable(pools_graph(oracle_assets@), offer_assets@[i as int]@, ask_assets@[j as int]@));
                    }
                    return Err(BalancerError::NoSwapPath);
                },
                Some(p) => {
                    let sp = swaps_along(&p);
                    let ghost old_paths = swap_paths@;
                    swap_paths.push(sp);
                    proof {
                        let k = done.len() + j;
                        assert((done + row)[k] == (offer_assets@[i as int]@, asks[j as int]@));
                        assert(swaps_follow(swap_paths@[k].swaps@, views(p@)));
                        assert forall|q: int| 0 <= q < swap_paths@.len() implies #[trigger] is_shortest_swap_path(g, swap_paths@[q], (done + row)[q].0, (done + row)[q].1) by {
                            if q < k {
                                assert(swap_paths@[q] == old_paths[q]);
                            }
                        }
                        assert(connects(g, views(p@), (done + row)[k].0, (done + row)[k].1));
                        assert forall|q: int| 0 <= q < done.len() + j + 1 implies reachable(g, #[trigger] (done + row)[q].0, (done + row)[q].1) by {
                            if q == k {
                                assert(connects(g, views(p@), (done + row)[k].0, (done + row)[k].1));
                            }
                        }
                    }
                },
            }
        }
        proof {
            let np = offer_ask_pairs(offer_assets@.take(i + 1), asks);
            assert(np == done + row);
            assert(row.len() == n_asks);
            assert(swap_paths@.len() == np.len());
            assert forall|k: int| 0 <= k < swap_paths@.len() implies reachable(g, #[trigger] np[k].0, np[k].1) && is_shortest_swap_path(g, swap_paths@[k], np[k].0, np[k].1) by {
                assert(reachable(g, (done + row)[k].0, (done + row)[k].1));
                assert(is_shortest_swap_path(g, swap_paths@[k], (done + row)[k].0, (done + row)[k].1));
            }
        }
        i = i + 1;
    }
    proof {
        assert(offer_assets@.take(n_offers as int) =~= offer_assets@);
        let pairs = offer_ask_pairs(offer_assets@, ask_assets@);
        assert(pairs == offer_ask_pairs(offer_assets@.take(n_offers as int), asks));
        assert forall|k: int| 0 <= k < pairs.len() implies #[trigger] reachable(g, pairs[k].0, pairs[k].1) by {}
        lemma_swap_paths_route(oracle_assets@, offer_assets@, ask_assets@, swap_paths@);
    }
    Ok(swap_paths)
}

/// The pairs of the first offers come first among all pairs.
proof fn lemma_pairs_prefix(offers: Seq<AssetInfo>, asks: Seq<AssetInfo>, i: int)
    requires
        0 <= i <= offers.len(),
    ensures
        offer_ask_pairs(offers.take(i), asks).len() <= offer_ask_pairs(offers, asks).len(),
        forall|k: int| 0 <= k < offer_ask_pairs(offers.take(i), asks).len() ==> #[trigger] offer_ask_pairs(offers, asks)[k] == offer_ask_pairs(offers.take(i), asks)[k],
    decreases offers.len() - i,
{
    if i < offers.len() {
        lemma_pairs_prefix(offers, asks, i + 1);
        assert(offers.take(i + 1).drop_last() =~= offers.take(i));
    } else {
        assert(offers.take(i) =~= offers);
    }
}

/// The graph is undirected: whenever `b` is a neighbour of `a`, `a` is a
/// neighbour of `b`.
pub proof fn lemma_graph_symmetric(g: &Graph)
    requires
        g.wf(),
    ensures
        is_symmetric(g@),
{
    assert forall|a: AssetInfoView, b: AssetInfoView| #![trigger g@[a].contains(b)] g@.dom().contains(a) && g@[a].contains(b) implies g@.dom().contains(b) && g@[b].contains(a) by {
        g.lemma_neighbors_are_nodes(a, b);
        let (i, j) = choose|i: int, j: int| 0 <= i < g.n() && 0 <= j < g.n() && g.node(i) == a && g.node(j) == b && #[trigger] g.adj(i, j);
        assert(g.adj(j, i));
        g.lemma_adj_iff(j, i);
    }
}

/// A path leads from `a` to `b` exactly when one leads from `b` to `a`: a
/// search for a path finds one in one direction exactly when it finds one in
/// the other.
pub proof fn lemma_reachable_symmetric(g: &Graph, a: AssetInfoView, b: AssetInfoView)
    requires
        g.wf(),
    ensures
        reachable(g@, a, b) <==> reachable(g@, b, a),
{
    lemma_graph_symmetric(g);
    if reachable(g@, a, b) {
        let w = choose|w: Seq<AssetInfoView>| connects(g@, w, a, b);
        lemma_reversed_walk(g@, w);
        assert(connects(g@, w.reverse(), b, a));
    }
    if reachable(g@, b, a) {
        let w = choose|w: Seq<AssetInfoView>| connects(g@, w, b, a);
        lemma_reversed_walk(g@, w);
        assert(connects(g@, w.reverse(), a, b));
    }
}

/// In a symmetric map a walk, read backwards, is a walk.
proof fn lemma_reversed_walk(m: AdjacencyMap, w: Seq<AssetInfoView>)
    requires
        is_symmetric(m),
        is_walk(m, w),
    ensures
        is_walk(m, w.reverse()),
        w.reverse()[0] == w.last(),
        w.reverse().last() == w[0],
{
    let r = w.reverse();
    assert forall|i: int| 0 <= i < r.len() - 1 implies #[trigger] walk_step(m, r, i) by {
        let j = w.len() - 2 - i;
        assert(walk_step(m, w, j));
        assert(r[i] == w[j + 1]);
        assert(r[i + 1] == w[j]);
    }
}

/// A shortest walk never passes the same asset twice.
pub proof fn lemma_shortest_walk_has_no_repeats(m: AdjacencyMap, w: Seq<AssetInfoView>, s: AssetInfoView, t: AssetInfoView)
    requires
        is_shortest_walk(m, w, s, t),
    ensures
        w.no_duplicates(),
{
    assert forall|i: int, j: int| 0 <= i < w.len() && 0 <= j < w.len() && i != j implies w[i] != w[j] by {
        if w[i] == w[j] {
            let (lo, hi) = if i < j { (i, j) } else { (j, i) };
            let short = w.subrange(0, lo) + w.subrange(hi, w.len() as int);
            assert forall|k: int| 0 <= k < short.len() - 1 implies #[trigger] walk_step(m, short, k) by {
                if k < lo - 1 {
                    assert(walk_step(m, w, k));
                } else if k == lo - 1 {
                    assert(walk_step(m, w, k));
                    assert(short[k + 1] == w[hi]);
                } else {
                    let kk = k - lo + hi;
                    assert(walk_step(m, w, kk));
                    assert(short[k] == w[kk]);
                    assert(short[k + 1] == w[kk + 1]);
                }
            }
            if lo == 0 {
                assert(short[0] == w[hi]);
            } else {
                assert(short[0] == w[0]);
            }
            assert(short.last() == w.last());
            assert(connects(m, short, s, t));
        }
    }
}

/// Pairing the same two assets again changes nothing.
pub proof fn lemma_add_pair_idempotent(m: AdjacencyMap, a: AssetInfoView, b: AssetInfoView)
    ensures
        add_undirected(add_undirected(m, a, b), a, b) == add_undirected(m, a, b),
{
    let once = add_undirected(m, a, b);
    let twice = add_undirected(once, a, b);
    assert(twice.dom() =~= once.dom());
    assert forall|v: AssetInfoView| #[trigger] twice.dom().contains(v) implies twice[v] == once[v] by {
        assert(twice[v] =~= once[v]);
    }
    assert(twice =~= once);
}

/// Pairing `a` with `b` is pairing `b` with `a`.
pub proof fn lemma_add_pair_symmetric(m: AdjacencyMap, a: AssetInfoView, b: AssetInfoView)
    ensures
        add_undirected(m, a, b) == add_undirected(m, b, a),
{
    let ab = add_undirected(m, a, b);
    let ba = add_undirected(m, b, a);
    assert(ab.dom() =~= ba.dom());
    assert forall|v: AssetInfoView| #[trigger] ab.dom().contains(v) implies ab[v] == ba[v] by {
        assert(ab[v] =~= ba[v]);
    }
    assert(ab =~= ba);
}

/// What recording `a` and `b` as neighbours adds, and nothing more.
proof fn lemma_add_undirected_facts(m: AdjacencyMap, a: AssetInfoView, b: AssetInfoView)
    ensures
        forall|x: AssetInfoView| #[trigger] add_undirected(m, a, b).dom().contains(x) <==> (m.dom().contains(x) || x == a || x == b),
        forall|x: AssetInfoView, y: AssetInfoView| add_undirected(m, a, b).dom().contains(x) && #[trigger] add_undirected(m, a, b)[x].contains(y)
            <==> ((m.dom().contains(x) && m[x].contains(y)) || (x == a && y == b) || (x == b && y == a)),
{
}

/// The graph of the oracle's pools pairs, both ways, the first two assets of
/// every pool; every pairing in it is the first two assets of some pool, in
/// one order or the other; and every asset in it is one of the first two
/// assets of some pool. The asset an oracle entry prices plays no part.
pub proof fn lemma_pools_graph_pairs_pool_assets(oracle_assets: Seq<OracleAsset>)
    ensures
        forall|i: int| #![trigger oracle_assets[i]] 0 <= i < oracle_assets.len() && oracle_assets[i].price_source is Pool ==> {
            &&& pools_graph(oracle_assets).dom().contains(oracle_assets[i].price_source->pair@[0]@)
            &&& pools_graph(oracle_assets)[oracle_assets[i].price_source->pair@[0]@].contains(oracle_assets[i].price_source->pair@[1]@)
            &&& pools_graph(oracle_assets).dom().contains(oracle_assets[i].price_source->pair@[1]@)
            &&& pools_graph(oracle_assets)[oracle_assets[i].price_source->pair@[1]@].contains(oracle_assets[i].price_source->pair@[0]@)
        },
        forall|a: AssetInfoView, b: AssetInfoView| pools_graph(oracle_assets).dom().contains(a) && #[trigger] pools_graph(oracle_assets)[a].contains(b)
            ==> exists|i: int| #![trigger oracle_assets[i]] 0 <= i < oracle_assets.len() && oracle_assets[i].price_source is Pool
                && ((a == oracle_assets[i].price_source->pair@[0]@ && b == oracle_assets[i].price_source->pair@[1]@)
                    || (a == oracle_assets[i].price_source->pair@[1]@ && b == oracle_assets[i].price_source->pair@[0]@)),
        forall|a: AssetInfoView| #[trigger] pools_graph(oracle_assets).dom().contains(a)
            ==> exists|i: int| #![trigger oracle_assets[i]] 0 <= i < oracle_assets.len() && oracle_assets[i].price_source is Pool
                && (a == oracle_assets[i].price_source->pair@[0]@ || a == oracle_assets[i].price_source->pair@[1]@),
    decreases oracle_assets.len(),
{
    let os = oracle_assets;
    if os.len() > 0 {
        let rest = os.drop_last();
        lemma_pools_graph_pairs_pool_assets(rest);
        let rg = pools_graph(rest);
        let g = pools_graph(os);
        let last = os.len() - 1;
        assert forall|i: int| 0 <= i < rest.len() implies #[trigger] rest[i] == os[i] by {}
        match os.last().price_source {
            PriceSource::Pool { pair } => {
                let p0 = pair@[0]@;
                let p1 = pair@[1]@;
                assert(g == add_undirected(rg, p0, p1));
                lemma_add_undirected_facts(rg, p0, p1);
                assert forall|i: int| #![trigger os[i]] 0 <= i < os.len() && os[i].price_source is Pool implies {
                    &&& g.dom().contains(os[i].price_source->pair@[0]@)
                    &&& g[os[i].price_source->pair@[0]@].contains(os[i].price_source->pair@[1]@)
                    &&& g.dom().contains(os[i].price_source->pair@[1]@)
                    &&& g[os[i].price_source->pair@[1]@].contains(os[i].price_source->pair@[0]@)
                } by {
                    if i < last {
                        assert(rest[i] == os[i]);
                    } else {
                        assert(os[i] == os.last());
                    }
                }
                assert forall|a: AssetInfoView, b: AssetInfoView| g.dom().contains(a) && #[trigger] g[a].contains(b)
                    implies exists|i: int| #![trigger os[i]] 0 <= i < os.len() && os[i].price_source is Pool
                        && ((a == os[i].price_source->pair@[0]@ && b == os[i].price_source->pair@[1]@)
                            || (a == os[i].price_source->pair@[1]@ && b == os[i].price_source->pair@[0]@)) by {
                    if rg.dom().contains(a) && rg[a].contains(b) {
                        let i = choose|i: int| #![trigger rest[i]] 0 <= i < rest.len() && rest[i].price_source is Pool
                            && ((a == rest[i].price_source->pair@[0]@ && b == rest[i].price_source->pair@[1]@)
                                || (a == rest[i].price_source->pair@[1]@ && b == rest[i].price_source->pair@[0]@));
                        assert(rest[i] == os[i]);
                    } else {
                        assert(os[last] == os.last());
                    }
                }
                assert forall|a: AssetInfoView| #[trigger] g.dom().contains(a)
                    implies exists|i: int| #![trigger os[i]] 0 <= i < os.len() && os[i].price_source is Pool
                        && (a == os[i].price_source->pair@[0]@ || a == os[i].price_source->pair@[1]@) by {
                    if rg.dom().contains(a) {
                        let i = choose|i: int| #![trigger rest[i]] 0 <= i < rest.len() && rest[i].price_source is Pool
                            && (a == rest[i].price_source->pair@[0]@ || a == rest[i].price_source->pair@[1]@);
                        assert(rest[i] == os[i]);
                    } else {
                        assert(os[last] == os.last());
                    }
                }
            },
            _ => {
                assert(g == rg);
                assert forall|i: int| #![trigger os[i]] 0 <= i < os.len() && os[i].price_source is Pool implies {
                    &&& g.dom().contains(os[i].price_source->pair@[0]@)
                    &&& g[os[i].price_source->pair@[0]@].contains(os[i].price_source->pair@[1]@)
                    &&& g.dom().contains(os[i].price_source->pair@[1]@)
                    &&& g[os[i].price_source->pair@[1]@].contains(os[i].price_source->pair@[0]@)
                } by {
                    if i < last {
                        assert(rest[i] == os[i]);
                    } else {
                        assert(os[i] == os.last());
                    }
                }
                assert forall|a: AssetInfoView, b: AssetInfoView| g.dom().contains(a) && #[trigger] g[a].contains(b)
                    implies exists|i: int| #![trigger os[i]] 0 <= i < os.len() && os[i].price_source is Pool
                        && ((a == os[i].price_source->pair@[0]@ && b == os[i].price_source->pair@[1]@)
                            || (a == os[i].price_source->pair@[1]@ && b == os[i].price_source->pair@[0]@)) by {
                    let i = choose|i: int| #![trigger rest[i]] 0 <= i < rest.len() && rest[i].price_source is Pool
                        && ((a == rest[i].price_source->pair@[0]@ && b == rest[i].price_source->pair@[1]@)
                            || (a == rest[i].price_source->pair@[1]@ && b == rest[i].price_source->pair@[0]@));
                    assert(rest[i] == os[i]);
                }
                assert forall|a: AssetInfoView| #[trigger] g.dom().contains(a)
                    implies exists|i: int| #![trigger os[i]] 0 <= i < os.len() && os[i].price_source is Pool
                        && (a == os[i].price_source->pair@[0]@ || a == os[i].price_source->pair@[1]@) by {
                    let i = choose|i: int| #![trigger rest[i]] 0 <= i < rest.len() && rest[i].price_source is Pool
                        && (a == rest[i].price_source->pair@[0]@ || a == rest[i].price_source->pair@[1]@);
                    assert(rest[i] == os[i]);
                }
            },
        }
    } else {
        assert(pools_graph(os).dom() =~= Set::empty());
    }
}

/// There is one (offered, asked) pair per offer and ask: the pair of offer
/// `i` and ask `j` stands at index `i * asks.len() + j`, whatever the assets.
pub proof fn lemma_offer_ask_pairs_index(offers: Seq<AssetInfo>, asks: Seq<AssetInfo>)
    ensures
        offer_ask_pairs(offers, asks).len() == offers.len() * asks.len(),
        forall|i: int, j: int| #![trigger offers[i], asks[j]] 0 <= i < offers.len() && 0 <= j < asks.len()
            ==> offer_ask_pairs(offers, asks)[i * asks.len() + j] == (offers[i]@, asks[j]@),
    decreases offers.len(),
{
    let o = offers.len();
    let a = asks.len();
    if o > 0 {
        let rest = offers.drop_last();
        lemma_offer_ask_pairs_index(rest, asks);
        let row = asks.map_values(|x: AssetInfo| (offers.last()@, x@));
        let ps = offer_ask_pairs(offers, asks);
        assert(ps == offer_ask_pairs(rest, asks) + row);
        assert((o - 1) * a + a == o * a) by (nonlinear_arith);
        assert forall|i: int, j: int| #![trigger offers[i], asks[j]] 0 <= i < o && 0 <= j < a
            implies ps[i * a + j] == (offers[i]@, asks[j]@) by {
            if i < o - 1 {
                assert(i * a + j < (o - 1) * a) by (nonlinear_arith)
                    requires 0 <= i < o - 1, 0 <= j < a;
                assert(rest[i] == offers[i]);
                assert(0 <= i * a + j) by (nonlinear_arith)
                    requires 0 <= i, 0 <= j, 0 <= a;
            } else {
                assert(i * a + j == (o - 1) * a + j);
                assert(row[j] == (offers[i]@, asks[j]@));
            }
        }
    }
}

/// Swaps that follow a route take one swap per step: the first starts where
/// the route starts, each starts where the one before ended, and the last
/// ends where the route ends (with no swap at all, the route is one asset).
pub proof fn lemma_swaps_follow_route(swaps: Seq<Swap>, w: Seq<AssetInfoView>)
    requires
        swaps_follow(swaps, w),
    ensures
        swaps.len() == w.len() - 1,
        swaps.len() == 0 ==> w.len() == 1,
        swaps.len() > 0 ==> swaps[0].from@ == w[0] && swaps.last().to@ == w.last(),
        forall|k: int| 0 <= k < swaps.len() - 1 ==> #[trigger] swaps[k].to@ == swaps[k + 1].from@,
        forall|k: int| 0 <= k < swaps.len() ==> #[trigger] swaps[k].from@ == w[k] && swaps[k].to@ == w[k + 1],
{
    if swaps.len() > 0 {
        let k = swaps.len() - 1;
        assert(swaps[k].from@ == w[k]);
        assert(swaps[k].to@ == w[k + 1]);
        assert(swaps[0].from@ == w[0]);
    }
    assert forall|k: int| 0 <= k < swaps.len() - 1 implies #[trigger] swaps[k].to@ == swaps[k + 1].from@ by {
        assert(swaps[k].from@ == w[k]);
        assert(swaps[k].to@ == w[k + 1]);
        assert(swaps[k + 1].from@ == w[k + 1]);
    }
}

/// The swap path for offer `i` and ask `j` runs from the one to the other,
/// through pools of the oracle.
#[verifier::rlimit(40)]
proof fn lemma_one_swap_path_route(oracle_assets: Seq<OracleAsset>, offers: Seq<AssetInfo>, asks: Seq<AssetInfo>, paths: Seq<SwapPath>, i: int, j: int)
    requires
        paths.len() == offer_ask_pairs(offers, asks).len(),
        forall|k: int| 0 <= k < paths.len() ==> #[trigger] is_shortest_swap_path(pools_graph(oracle_assets), paths[k], offer_ask_pairs(offers, asks)[k].0, offer_ask_pairs(offers, asks)[k].1),
        0 <= i < offers.len(),
        0 <= j < asks.len(),
    ensures
        ({
            let swaps = paths[i * asks.len() + j].swaps@;
            &&& reachable(pools_graph(oracle_assets), offers[i]@, asks[j]@)
            &&& swaps.len() == 0 ==> offers[i]@ == asks[j]@
            &&& swaps.len() > 0 ==> swaps[0].from@ == offers[i]@ && swaps.last().to@ == asks[j]@
            &&& forall|k: int| 0 <= k < swaps.len() - 1 ==> #[trigger] swaps[k].to@ == swaps[k + 1].from@
            &&& forall|k: int| 0 <= k < swaps.len() ==> exists|o: int| #![trigger oracle_assets[o]] 0 <= o < oracle_assets.len()
                && ((#[trigger] swaps[k].from@ == oracle_assets[o].price_source->pair@[0]@ && swaps[k].to@ == oracle_assets[o].price_source->pair@[1]@)
                    || (swaps[k].from@ == oracle_assets[o].price_source->pair@[1]@ && swaps[k].to@ == oracle_assets[o].price_source->pair@[0]@))
        }),
{
    let g = pools_graph(oracle_assets);
    let pairs = offer_ask_pairs(offers, asks);
    let a = asks.len();
    lemma_offer_ask_pairs_index(offers, asks);
    lemma_pools_graph_pairs_pool_assets(oracle_assets);
    assert(0 <= i * a + j < offers.len() * a) by (nonlinear_arith)
        requires 0 <= i < offers.len(), 0 <= j < a;
    let k = i * a + j;
    assert(pairs[k] == (offers[i]@, asks[j]@));
    assert(is_shortest_swap_path(g, paths[k], pairs[k].0, pairs[k].1));
    let swaps = paths[k].swaps@;
    let w = choose|w: Seq<AssetInfoView>| is_shortest_walk(g, w, pairs[k].0, pairs[k].1) && #[trigger] swaps_follow(swaps, w);
    lemma_swaps_follow_route(swaps, w);
    assert(connects(g, w, offers[i]@, asks[j]@));
    assert forall|q: int| 0 <= q < swaps.len() implies exists|o: int| #![trigger oracle_assets[o]] 0 <= o < oracle_assets.len()
        && ((#[trigger] swaps[q].from@ == oracle_assets[o].price_source->pair@[0]@ && swaps[q].to@ == oracle_assets[o].price_source->pair@[1]@)
            || (swaps[q].from@ == oracle_assets[o].price_source->pair@[1]@ && swaps[q].to@ == oracle_assets[o].price_source->pair@[0]@)) by {
        assert(walk_step(g, w, q));
        assert(swaps[q].from@ == w[q] && swaps[q].to@ == w[q + 1]);
        assert(g.dom().contains(w[q]) && g[w[q]].contains(w[q + 1]));
    }
}

/// Swap paths that follow shortest walks of the pools' graph for every
/// (offered, asked) pair run, for offer `i` and ask `j`, from the one to the
/// other, through pools of the oracle.
proof fn lemma_swap_paths_route(oracle_assets: Seq<OracleAsset>, offers: Seq<AssetInfo>, asks: Seq<AssetInfo>, paths: Seq<SwapPath>)
    requires
        paths.len() == offer_ask_pairs(offers, asks).len(),
        forall|k: int| 0 <= k < paths.len() ==> #[trigger] is_shortest_swap_path(pools_graph(oracle_assets), paths[k], offer_ask_pairs(offers, asks)[k].0, offer_ask_pairs(offers, asks)[k].1),
    ensures
        forall|i: int, j: int| #![trigger offers[i], asks[j]] 0 <= i < offers.len() && 0 <= j < asks.len()
            ==> reachable(pools_graph(oracle_assets), offers[i]@, asks[j]@),
        paths.len() == offers.len() * asks.len(),
        forall|i: int, j: int| #![trigger offers[i], asks[j]] 0 <= i < offers.len() && 0 <= j < asks.len() ==> {
            let swaps = paths[i * asks.len() + j].swaps@;
            &&& swaps.len() == 0 ==> offers[i]@ == asks[j]@
            &&& swaps.len() > 0 ==> swaps[0].from@ == offers[i]@ && swaps.last().to@ == asks[j]@
            &&& forall|k: int| 0 <= k < swaps.len() - 1 ==> #[trigger] swaps[k].to@ == swaps[k + 1].from@
            &&& forall|k: int| 0 <= k < swaps.len() ==> exists|o: int| #![trigger oracle_assets[o]] 0 <= o < oracle_assets.len()
                && ((#[trigger] swaps[k].from@ == oracle_assets[o].price_source->pair@[0]@ && swaps[k].to@ == oracle_assets[o].price_source->pair@[1]@)
                    || (swaps[k].from@ == oracle_assets[o].price_source->pair@[1]@ && swaps[k].to@ == oracle_assets[o].price_source->pair@[0]@))
        },
{
    lemma_offer_ask_pairs_index(offers, asks);
    assert forall|i: int, j: int| #![trigger offers[i], asks[j]] 0 <= i < offers.len() && 0 <= j < asks.len() implies
        reachable(pools_graph(oracle_assets), offers[i]@, asks[j]@) by {
        lemma_one_swap_path_route(oracle_assets, offers, asks, paths, i, j);
    }
    assert forall|i: int, j: int| #![trigger offers[i], asks[j]] 0 <= i < offers.len() && 0 <= j < asks.len() implies {
        let swaps = paths[i * asks.len() + j].swaps@;
        &&& swaps.len() == 0 ==> offers[i]@ == asks[j]@
        &&& swaps.len() > 0 ==> swaps[0].from@ == offers[i]@ && swaps.last().to@ == asks[j]@
        &&& forall|k: int| 0 <= k < swaps.len() - 1 ==> #[trigger] swaps[k].to@ == swaps[k + 1].from@
        &&& forall|k: int| 0 <= k < swaps.len() ==> exists|o: int| #![trigger oracle_assets[o]] 0 <= o < oracle_assets.len()
            && ((#[trigger] swaps[k].from@ == oracle_assets[o].price_source->pair@[0]@ && swaps[k].to@ == oracle_assets[o].price_source->pair@[1]@)
                || (swaps[k].from@ == oracle_assets[o].price_source->pair@[1]@ && swaps[k].to@ == oracle_assets[o].price_source->pair@[0]@))
    } by {
        lemma_one_swap_path_route(oracle_assets, offers, asks, paths, i, j);
    }
}

} // verus!

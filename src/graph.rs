//! The transit graph: a node table of stops and, for each stop, the stops one
//! directed hop away.
use vstd::prelude::*;
use crate::parser::{Stop, GTFSData, Connection};

verus! {

/// A directed graph of transit stops. Node `u` is `stops()[u]`; its successors
/// are the indices in `adjacency()[u]`.
pub struct TransitGraph {
    nodes: Vec<Stop>,
    edges: Vec<Vec<usize>>,
}

/// The rows of an adjacency table as sequences.
pub open spec fn rows_view(rows: Seq<Vec<usize>>) -> Seq<Seq<usize>> {
    rows.map_values(|r: Vec<usize>| r@)
}

/// There is an edge from node `u` to node `v`.
pub open spec fn edge_in(adj: Seq<Seq<usize>>, u: int, v: int) -> bool {
    0 <= u < adj.len() && exists|k: int| 0 <= k < adj[u].len() && adj[u][k] as int == v
}

/// Stop identifiers are unique within the node table.
pub open spec fn ids_unique(nodes: Seq<Stop>) -> bool {
    forall|i: int, j: int|
        0 <= i < nodes.len() && 0 <= j < nodes.len() && i != j ==> #[trigger] nodes[i].stop_id@
            != #[trigger] nodes[j].stop_id@
}

/// Every adjacency list refers only to nodes of the table and holds each
/// target once.
pub open spec fn adjacency_sound(adj: Seq<Seq<usize>>, n: int) -> bool {
    &&& adj.len() == n
    &&& forall|u: int, k: int| 0 <= u < n && 0 <= k < adj[u].len() ==> #[trigger] adj[u][k] < n
    &&& forall|u: int, k1: int, k2: int|
        0 <= u < n && 0 <= k1 < adj[u].len() && 0 <= k2 < adj[u].len() && k1 != k2
            ==> #[trigger] adj[u][k1] != #[trigger] adj[u][k2]
}

/// Some connection goes from the stop named `a` to the stop named `b`.
pub open spec fn connected(conns: Seq<Connection>, a: Seq<char>, b: Seq<char>) -> bool {
    exists|c: int| 0 <= c < conns.len() && #[trigger] conns[c]@ == (a, b)
}

/// `node` is input stop `i`, and no later input stop has the same identifier
/// (the last stop given under an identifier is the one kept).
pub open spec fn kept_stop(stops: Seq<Stop>, node: Stop, i: int) -> bool {
    &&& 0 <= i < stops.len()
    &&& node == stops[i]
    &&& forall|j: int| i < j < stops.len() ==> #[trigger] stops[j].stop_id@ != stops[i].stop_id@
}

/// Some node of the table is named `id`.
pub open spec fn has_id(nodes: Seq<Stop>, id: Seq<char>) -> bool {
    exists|k: int| 0 <= k < nodes.len() && #[trigger] nodes[k].stop_id@ == id
}

/// `node` is the last of the input stops given under its identifier.
pub open spec fn kept(stops: Seq<Stop>, node: Stop) -> bool {
    exists|i: int| #[trigger] kept_stop(stops, node, i)
}

impl TransitGraph {
    /// The table's identifiers are unique and the adjacency table is sound.
    pub closed spec fn wf(&self) -> bool {
        &&& ids_unique(self.nodes@)
        &&& adjacency_sound(self.adjacency(), self.nodes@.len() as int)
    }

    /// The node table.
    pub closed spec fn stops(&self) -> Seq<Stop> {
        self.nodes@
    }

    /// The adjacency table: `adjacency()[u]` lists the successors of node `u`.
    pub closed spec fn adjacency(&self) -> Seq<Seq<usize>> {
        rows_view(self.edges@)
    }

    /// An empty graph.
    pub fn new() -> (g: Self)
        ensures
            g.wf(),
            g.stops().len() == 0,
            g.adjacency().len() == 0,
    {
        TransitGraph { nodes: Vec::new(), edges: Vec::new() }
    }

    /// The node table.
    pub fn nodes(&self) -> (r: &Vec<Stop>)
        ensures
            r@ == self.stops(),
    {
        &self.nodes
    }

    /// The successors of node `u`.
    pub fn neighbors(&self, u: usize) -> (r: &Vec<usize>)
        requires
            self.wf(),
            u < self.stops().len(),
        ensures
            r@ == self.adjacency()[u as int],
    {
        &self.edges[u]
    }

    /// Fills an empty graph: every stop becomes a node (a later stop replaces an
    /// earlier one with the same identifier), and each connection between two
    /// known stops becomes one edge; repeated connections give a single edge
    /// and connections naming an unknown stop are dropped.
    pub fn build_from_gtfs(&mut self, data: &GTFSData)
        requires
            old(self).stops().len() == 0,
        ensures
            final(self).wf(),
            forall|i: int|
                0 <= i < data.stops.len() ==> has_id(final(self).stops(), #[trigger] data.stops@[i].stop_id@),
            forall|k: int|
                0 <= k < final(self).stops().len() ==> kept(data.stops@, #[trigger] final(self).stops()[k]),
            forall|u: int, v: int|
                0 <= u < final(self).stops().len() && 0 <= v < final(self).stops().len() ==> (
                #[trigger] edge_in(final(self).adjacency(), u, v) <==> connected(
                    data.connections@,
                    final(self).stops()[u].stop_id@,
                    final(self).stops()[v].stop_id@,
                )),
    {
        let nodes = install_stops(&data.stops);
        let edges = collect_edges(&nodes, &data.connections);
        let ghost nv = nodes@;
        let ghost ev = rows_view(edges@);
        *self = TransitGraph { nodes, edges };
        assert(self.stops() == nv);
        assert(self.adjacency() == ev);
    }
}

/// In every graph that `new` or `build_from_gtfs` produces, each adjacency
/// list names only nodes of the table and holds each target once, and no two
/// nodes share an identifier.
pub proof fn lemma_edges_reference_nodes(g: &TransitGraph)
    requires
        g.wf(),
    ensures
        ids_unique(g.stops()),
        adjacency_sound(g.adjacency(), g.stops().len() as int),
        forall|u: int, v: int| #[trigger] edge_in(g.adjacency(), u, v) ==> 0 <= u < g.stops().len() && 0 <= v
            < g.stops().len(),
{
    assert forall|u: int, v: int| #[trigger] edge_in(g.adjacency(), u, v) implies 0 <= u < g.stops().len() && 0
        <= v < g.stops().len() by {
        let k = choose|k: int| 0 <= k < g.adjacency()[u].len() && g.adjacency()[u][k] as int == v;
        assert(g.adjacency()[u][k] < g.stops().len());
    }
}

/// The index of the node named `id`, if any.
fn find_index(nodes: &Vec<Stop>, id: &String) -> (r: Option<usize>)
    ensures
        match r {
            Some(k) => k < nodes.len() && nodes@[k as int].stop_id@ == id@,
            None => forall|k: int| 0 <= k < nodes.len() ==> #[trigger] nodes@[k].stop_id@ != id@,
        },
{
    let mut k: usize = 0;
    while k < nodes.len()
        invariant
            k <= nodes.len(),
            forall|m: int| 0 <= m < k ==> #[trigger] nodes@[m].stop_id@ != id@,
        decreases nodes.len() - k,
    {
        if nodes[k].stop_id == *id {
            return Some(k);
        }
        k = k + 1;
    }
    None
}

/// Installs the stops in a node table, the last stop under an identifier winning.
fn install_stops(stops: &Vec<Stop>) -> (nodes: Vec<Stop>)
    ensures
        ids_unique(nodes@),
        forall|i: int| 0 <= i < stops.len() ==> has_id(nodes@, #[trigger] stops@[i].stop_id@),
        forall|k: int| 0 <= k < nodes.len() ==> kept(stops@, #[trigger] nodes@[k]),
{
    let mut nodes: Vec<Stop> = Vec::new();
    let mut i: usize = 0;
    while i < stops.len()
        invariant
            i <= stops.len(),
            ids_unique(nodes@),
            forall|i2: int| 0 <= i2 < i ==> has_id(nodes@, #[trigger] stops@[i2].stop_id@),
            forall|k: int| 0 <= k < nodes.len() ==> kept(stops@.take(i as int), #[trigger] nodes@[k]),
        decreases stops.len() - i,
    {
        let s = stops[i].clone();
        let ghost prev = nodes@;
        let ghost pre = stops@.take(i as int);
        let ghost cur = stops@.take(i + 1);
        assert(cur =~= pre.push(stops@[i as int]));
        match find_index(&nodes, &stops[i].stop_id) {
            Some(k) => {
                nodes.set(k, s);
                assert(nodes@[k as int].stop_id@ == stops@[i as int].stop_id@);
                assert(kept_stop(cur, nodes@[k as int], i as int));
                assert forall|m: int| 0 <= m < nodes.len() implies kept(cur, #[trigger] nodes@[m]) by {
                    if m != k {
                        let i2 = choose|i2: int| #[trigger] kept_stop(pre, prev[m], i2);
                        assert(prev[m].stop_id@ != prev[k as int].stop_id@);
                        assert(kept_stop(cur, nodes@[m], i2));
                    }
                }
            },
            None => {
                nodes.push(s);
                assert(nodes@[prev.len() as int].stop_id@ == stops@[i as int].stop_id@);
                assert(kept_stop(cur, nodes@[prev.len() as int], i as int));
                assert forall|m: int| 0 <= m < nodes.len() implies kept(cur, #[trigger] nodes@[m]) by {
                    if m < prev.len() {
                        let i2 = choose|i2: int| #[trigger] kept_stop(pre, prev[m], i2);
                        assert(nodes@[m] == prev[m]);
                        assert(kept_stop(cur, nodes@[m], i2));
                    }
                }
            },
        }
        assert forall|i2: int| 0 <= i2 < i + 1 implies has_id(nodes@, #[trigger] stops@[i2].stop_id@) by {
            if i2 < i {
                let k = choose|k: int| 0 <= k < prev.len() && #[trigger] prev[k].stop_id@ == stops@[i2].stop_id@;
                assert(nodes@[k].stop_id@ == prev[k].stop_id@);
            }
        }
        i = i + 1;
    }
    assert(stops@.take(stops.len() as int) =~= stops@);
    nodes
}

/// Whether `row` holds `v`.
fn row_contains(row: &Vec<usize>, v: usize) -> (r: bool)
    ensures
        r == exists|k: int| 0 <= k < row@.len() && row@[k] == v,
{
    let mut k: usize = 0;
    while k < row.len()
        invariant
            k <= row.len(),
            forall|m: int| 0 <= m < k ==> row@[m] != v,
        decreases row.len() - k,
    {
        if row[k] == v {
            return true;
        }
        k = k + 1;
    }
    false
}

/// Builds the coalesced adjacency table of `nodes` from the connections.
fn collect_edges(nodes: &Vec<Stop>, conns: &Vec<Connection>) -> (edges: Vec<Vec<usize>>)
    requires
        ids_unique(nodes@),
    ensures
        adjacency_sound(rows_view(edges@), nodes.len() as int),
        forall|u: int, v: int|
            0 <= u < nodes.len() && 0 <= v < nodes.len() ==> (#[trigger] edge_in(rows_view(edges@), u, v)
                <==> connected(conns@, nodes@[u].stop_id@, nodes@[v].stop_id@)),
{
    let n = nodes.len();
    let mut edges: Vec<Vec<usize>> = Vec::new();
    while edges.len() < n
        invariant
            edges.len() <= n,
            forall|u: int| 0 <= u < edges.len() ==> (#[trigger] edges@[u])@.len() == 0,
        decreases n - edges.len(),
    {
        edges.push(Vec::new());
    }
    let mut c: usize = 0;
    while c < conns.len()
        invariant
            n == nodes.len(),
            ids_unique(nodes@),
            c <= conns.len(),
            adjacency_sound(rows_view(edges@), n as int),
            forall|u: int, v: int|
                0 <= u < n && 0 <= v < n ==> (#[trigger] edge_in(rows_view(edges@), u, v) <==> connected(
                    conns@.take(c as int),
                    nodes@[u].stop_id@,
                    nodes@[v].stop_id@,
                )),
        decreases conns.len() - c,
    {
        let ghost before = rows_view(edges@);
        let ghost pre = conns@.take(c as int);
        let ghost cur = conns@.take(c + 1);
        assert(cur =~= pre.push(conns@[c as int]));
        let from = find_index(nodes, &conns[c].from_stop_id);
        let to = find_index(nodes, &conns[c].to_stop_id);
        match (from, to) {
            (Some(u), Some(v)) => {
                if !row_contains(&edges[u], v) {
                    edges[u].push(v);
                    assert(rows_view(edges@) =~= before.update(u as int, before[u as int].push(v)));
                }
                assert forall|a: int, b: int|
                    0 <= a < n && 0 <= b < n implies (#[trigger] edge_in(rows_view(edges@), a, b)
                        <==> connected(cur, nodes@[a].stop_id@, nodes@[b].stop_id@)) by {
                    let now = rows_view(edges@);
                    if a == u && b == v {
                        assert(cur[c as int]@ == (nodes@[a].stop_id@, nodes@[b].stop_id@));
                        if exists|k: int| 0 <= k < before[a].len() && before[a][k] as int == b {
                            let k = choose|k: int| 0 <= k < before[a].len() && before[a][k] as int == b;
                            assert(now[a][k] == before[a][k]);
                        } else {
                            assert(now[a][before[a].len() as int] == v);
                        }
                        assert(edge_in(now, a, b));
                    } else {
                        if edge_in(now, a, b) {
                            let k = choose|k: int| 0 <= k < now[a].len() && now[a][k] as int == b;
                            if a == u {
                                assert(before[a].len() <= k ==> now[a][k] == v);
                                assert(before[a][k] == now[a][k]);
                            }
                            assert(edge_in(before, a, b));
                        }
                        if edge_in(before, a, b) {
                            let k = choose|k: int| 0 <= k < before[a].len() && before[a][k] as int == b;
                            assert(now[a][k] == before[a][k]);
                        }
                        if connected(cur, nodes@[a].stop_id@, nodes@[b].stop_id@) {
                            let e = choose|e: int|
                                0 <= e < cur.len() && #[trigger] cur[e]@ == (nodes@[a].stop_id@, nodes@[b].stop_id@);
                            if e == c {
                                assert(nodes@[a].stop_id@ == nodes@[u as int].stop_id@);
                                assert(nodes@[b].stop_id@ == nodes@[v as int].stop_id@);
                            }
                            assert(pre[e] == cur[e]);
                        }
                        if connected(pre, nodes@[a].stop_id@, nodes@[b].stop_id@) {
                            let e = choose|e: int|
                                0 <= e < pre.len() && #[trigger] pre[e]@ == (nodes@[a].stop_id@, nodes@[b].stop_id@);
                            assert(pre[e] == cur[e]);
                        }
                    }
                }
            },
            _ => {
                assert forall|a: int, b: int|
                    0 <= a < n && 0 <= b < n implies (#[trigger] edge_in(rows_view(edges@), a, b)
                        <==> connected(cur, nodes@[a].stop_id@, nodes@[b].stop_id@)) by {
                    if connected(cur, nodes@[a].stop_id@, nodes@[b].stop_id@) {
                        let e = choose|e: int|
                            0 <= e < cur.len() && #[trigger] cur[e]@ == (nodes@[a].stop_id@, nodes@[b].stop_id@);
                        if e == c {
                            assert(conns@[c as int].from_stop_id@ == nodes@[a].stop_id@);
                            assert(conns@[c as int].to_stop_id@ == nodes@[b].stop_id@);
                        }
                        assert(pre[e] == cur[e]);
                    }
                    if connected(pre, nodes@[a].stop_id@, nodes@[b].stop_id@) {
                        let e = choose|e: int|
                            0 <= e < pre.len() && #[trigger] pre[e]@ == (nodes@[a].stop_id@, nodes@[b].stop_id@);
                        assert(pre[e] == cur[e]);
                    }
                }
            },
        }
        c = c + 1;
    }
    assert(conns@.take(conns.len() as int) =~= conns@);
    edges
}

} // verus!

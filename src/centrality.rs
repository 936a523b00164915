//! Closeness centrality: for each stop, how many other stops it reaches by
//! following edges forward, and the sum of their hop distances.
use vstd::prelude::*;
use crate::graph::{TransitGraph, edge_in, adjacency_sound, lemma_edges_reference_nodes};
use crate::parser::Stop;

verus! {

/// The nodes that `s` reaches in at most `k` hops.
pub open spec fn hop_set(adj: Seq<Seq<usize>>, s: int, k: int) -> Set<int>
    decreases k,
{
    if k <= 0 {
        set![s]
    } else {
        let p = hop_set(adj, s, k - 1);
        p.union(Set::new(|t: int| exists|u: int| #[trigger] p.contains(u) && edge_in(adj, u, t)))
    }
}

/// Node `t` can be reached from `s` in at most `k` hops.
pub open spec fn within(adj: Seq<Seq<usize>>, s: int, t: int, k: int) -> bool {
    hop_set(adj, s, k).contains(t)
}

/// The number of `true` entries.
pub open spec fn count_true(v: Seq<bool>) -> nat
    decreases v.len(),
{
    if v.len() == 0 {
        0
    } else {
        count_true(v.drop_last()) + if v.last() {
            1nat
        } else {
            0nat
        }
    }
}

/// Which nodes lie within `k` hops of `s`.
pub open spec fn within_flags(adj: Seq<Seq<usize>>, s: int, k: int) -> Seq<bool> {
    Seq::new(adj.len(), |t: int| within(adj, s, t, k))
}

/// The number of nodes within `k` hops of `s`, `s` included.
pub open spec fn count_within(adj: Seq<Seq<usize>>, s: int, k: int) -> nat {
    count_true(within_flags(adj, s, k))
}

/// The sum of the hop distances from `s` of the nodes at most `k` hops away:
/// the nodes first reached at hop `j` each add `j`.
pub open spec fn dist_sum(adj: Seq<Seq<usize>>, s: int, k: int) -> int
    decreases k,
{
    if k <= 0 {
        0
    } else {
        dist_sum(adj, s, k - 1) + k * (count_within(adj, s, k) - count_within(
            adj,
            s,
            k - 1,
        ))
    }
}

/// The number of nodes other than `s` that `s` reaches.
pub open spec fn reached_others(adj: Seq<Seq<usize>>, s: int) -> int {
    count_within(adj, s, adj.len() as int) - 1
}

/// The sum of the hop distances from `s` of all the nodes it reaches.
pub open spec fn reach_distance_sum(adj: Seq<Seq<usize>>, s: int) -> int {
    dist_sum(adj, s, adj.len() as int)
}

/// The closeness entries of the first `m` nodes, in node order: a node that
/// reaches no other node has none.
pub open spec fn closeness_upto(nodes: Seq<Stop>, adj: Seq<Seq<usize>>, m: nat) -> Seq<
    (Seq<char>, int, int),
>
    decreases m,
{
    if m == 0 {
        Seq::empty()
    } else {
        let prev = closeness_upto(nodes, adj, (m - 1) as nat);
        let s = m - 1;
        if reach_distance_sum(adj, s) > 0 {
            prev.push((nodes[s].stop_id@, reached_others(adj, s), reach_distance_sum(adj, s)))
        } else {
            prev
        }
    }
}

/// The closeness of one stop, as the exact ratio `reached / distance_sum`.
pub struct Closeness {
    pub stop_id: String,
    pub reached: u64,
    pub distance_sum: u64,
}

impl View for Closeness {
    type V = (Seq<char>, int, int);

    open spec fn view(&self) -> (Seq<char>, int, int) {
        (self.stop_id@, self.reached as int, self.distance_sum as int)
    }
}

/// The entries viewed as (identifier, reached, distance sum) triples.
pub open spec fn entries_view(r: Seq<Closeness>) -> Seq<(Seq<char>, int, int)> {
    r.map_values(|e: Closeness| e@)
}

proof fn lemma_count_true_le(v: Seq<bool>)
    ensures
        count_true(v) <= v.len(),
    decreases v.len(),
{
    if v.len() > 0 {
        lemma_count_true_le(v.drop_last());
    }
}

proof fn lemma_count_true_set(v: Seq<bool>, i: int)
    requires
        0 <= i < v.len(),
        !v[i],
    ensures
        count_true(v.update(i, true)) == count_true(v) + 1,
    decreases v.len(),
{
    let w = v.update(i, true);
    if i == v.len() - 1 {
        assert(w.drop_last() =~= v.drop_last());
    } else {
        assert(w.drop_last() =~= v.drop_last().update(i, true));
        lemma_count_true_set(v.drop_last(), i);
    }
}

proof fn lemma_within_next(adj: Seq<Seq<usize>>, s: int, t: int, k: int)
    requires
        k >= 0,
    ensures
        within(adj, s, t, k + 1) == (within(adj, s, t, k) || exists|u: int|
            #[trigger] within(adj, s, u, k) && edge_in(adj, u, t)),
{
    let p = hop_set(adj, s, k);
    let q = Set::new(|x: int| exists|u: int| #[trigger] p.contains(u) && edge_in(adj, u, x));
    assert(hop_set(adj, s, k + 1) == p.union(q));
    if within(adj, s, t, k + 1) && !p.contains(t) {
        assert(q.contains(t));
        let u = choose|u: int| #[trigger] p.contains(u) && edge_in(adj, u, t);
        assert(within(adj, s, u, k));
    }
    if exists|u: int| #[trigger] within(adj, s, u, k) && edge_in(adj, u, t) {
        let u = choose|u: int| #[trigger] within(adj, s, u, k) && edge_in(adj, u, t);
        assert(p.contains(u));
        assert(q.contains(t));
    }
}

/// Once no node is first reached at hop `k + 1`, none is at any later hop.
proof fn lemma_within_stable(adj: Seq<Seq<usize>>, s: int, k: int, j: int)
    requires
        adjacency_sound(adj, adj.len() as int),
        0 <= k <= j,
        forall|t: int| 0 <= t < adj.len() ==> within(adj, s, t, k + 1) == within(adj, s, t, k),
    ensures
        forall|t: int| 0 <= t < adj.len() ==> within(adj, s, t, j) == within(adj, s, t, k),
        within_flags(adj, s, j) == within_flags(adj, s, k),
        dist_sum(adj, s, j) == dist_sum(adj, s, k),
    decreases j - k,
{
    if j > k {
        lemma_within_stable(adj, s, k, j - 1);
        let jm = j - 1;
        assert forall|t: int| 0 <= t < adj.len() implies within(adj, s, t, j) == within(adj, s, t, k) by {
            lemma_within_next(adj, s, t, jm);
            lemma_within_next(adj, s, t, k);
            if within(adj, s, t, j) && !within(adj, s, t, jm) {
                let u = choose|u: int| #[trigger] within(adj, s, u, jm) && edge_in(adj, u, t);
                assert(within(adj, s, u, k));
                assert(within(adj, s, t, k + 1));
            }
        }
        assert(within_flags(adj, s, j) =~= within_flags(adj, s, k));
        assert(count_within(adj, s, j) == count_within(adj, s, jm));
        assert(j * 0 == 0);
        assert(dist_sum(adj, s, j) == dist_sum(adj, s, jm) + j * (count_within(adj, s, j) - count_within(
            adj,
            s,
            jm,
        )));
    } else {
        assert(within_flags(adj, s, j) =~= within_flags(adj, s, k));
    }
}

proof fn lemma_mul_fits(a: int, b: int, n: int)
    requires
        0 <= a <= n,
        0 <= b <= n,
        n <= u32::MAX,
    ensures
        a * b <= u64::MAX,
{
    assert(a * b <= n * n) by (nonlinear_arith)
        requires
            0 <= a <= n,
            0 <= b <= n,
    ;
    assert(n * n <= (u32::MAX as int) * (u32::MAX as int)) by (nonlinear_arith)
        requires
            0 <= n <= u32::MAX,
    ;
}

/// Some node of `fr` has an edge to `t`.
pub open spec fn reached_from(adj: Seq<Seq<usize>>, fr: Seq<usize>, t: int) -> bool {
    exists|jj: int| 0 <= jj < fr.len() && #[trigger] edge_in(adj, fr[jj] as int, t)
}

impl TransitGraph {
    /// Breadth-first traversal from `s`, level by level: returns how many
    /// nodes it reaches (`s` included) and the sum of their hop distances.
    fn reach_totals(&self, s: usize) -> (r: (u64, u64))
        requires
            self.wf(),
            s < self.stops().len(),
            self.stops().len() <= u32::MAX,
        ensures
            r.0 == count_within(self.adjacency(), s as int, self.adjacency().len() as int),
            r.1 == dist_sum(self.adjacency(), s as int, self.adjacency().len() as int),
            r.0 >= 1,
    {
        let ghost adj = self.adjacency();
        proof {
            lemma_edges_reference_nodes(self);
        }
        let n = self.nodes().len();
        let mut visited: Vec<bool> = Vec::new();
        while visited.len() < n
            invariant
                visited.len() <= n,
                forall|t: int| 0 <= t < visited.len() ==> !visited@[t],
                count_true(visited@) == 0,
            decreases n - visited.len(),
        {
            proof {
                assert(visited@.push(false).drop_last() =~= visited@);
            }
            visited.push(false);
        }
        proof {
            lemma_count_true_set(visited@, s as int);
        }
        visited.set(s, true);
        proof {
            assert(visited@ =~= within_flags(adj, s as int, 0));
        }
        let mut frontier: Vec<usize> = Vec::new();
        frontier.push(s);
        assert(frontier@[0] == s);
        let mut reached: u64 = 1;
        let mut sum: u64 = 0;
        let mut level: u64 = 0;
        while frontier.len() > 0
            invariant
                n == adj.len(),
                n == self.stops().len(),
                adj == self.adjacency(),
                self.wf(),
                adjacency_sound(adj, n as int),
                s < n,
                n <= u32::MAX,
                visited@ == within_flags(adj, s as int, level as int),
                forall|j: int|
                    0 <= j < frontier.len() ==> #[trigger] frontier@[j] < n && within(
                        adj,
                        s as int,
                        frontier@[j] as int,
                        level as int,
                    ),
                forall|t: int|
                    0 <= t < n && within(adj, s as int, t, level as int) && !(level > 0 && within(
                        adj,
                        s as int,
                        t,
                        level - 1,
                    )) ==> exists|j: int| 0 <= j < frontier.len() && #[trigger] frontier@[j] as int == t,
                reached == count_true(visited@),
                reached >= 1,
                sum == dist_sum(adj, s as int, level as int),
                level <= reached,
                frontier.len() > 0 ==> level < reached,
                level == 0 ==> frontier.len() > 0,
                sum <= level * reached,
            decreases n - reached + frontier.len(),
        {
            proof {
                lemma_count_true_le(visited@);
            }
            let ghost start_visited = visited@;
            let ghost start_reached = reached;
            let mut next: Vec<usize> = Vec::new();
            let mut i: usize = 0;
            proof {
                assert(sum <= (level + 1) * reached) by (nonlinear_arith)
                    requires
                        sum <= level * reached,
                        0 <= reached,
                ;
            }
            while i < frontier.len()
                invariant
                    n == adj.len(),
                    n == self.stops().len(),
                    self.wf(),
                    adj == self.adjacency(),

                    adjacency_sound(adj, n as int),
                    n <= u32::MAX,
                    i <= frontier.len(),
                    level < start_reached,
                    start_visited == within_flags(adj, s as int, level as int),
                    start_reached == count_true(start_visited),
                    forall|j: int|
                        0 <= j < frontier.len() ==> #[trigger] frontier@[j] < n && within(
                            adj,
                            s as int,
                            frontier@[j] as int,
                            level as int,
                        ),
                    visited@.len() == n,
                    forall|t: int|
                        0 <= t < n ==> visited@[t] == (within(adj, s as int, t, level as int) || reached_from(
                            adj,
                            frontier@.take(i as int),
                            t,
                        )),
                    forall|j: int|
                        0 <= j < next.len() ==> #[trigger] next@[j] < n && visited@[next@[j] as int]
                            && !within(adj, s as int, next@[j] as int, level as int),
                    forall|t: int|
                        0 <= t < n && visited@[t] && !within(adj, s as int, t, level as int) ==> exists|j: int|
                            0 <= j < next.len() && #[trigger] next@[j] as int == t,
                    reached == count_true(visited@),
                    reached == start_reached + next.len(),
                    sum == dist_sum(adj, s as int, level as int) + (level + 1) * next.len(),
                    sum <= (level + 1) * reached,
                decreases frontier.len() - i,
            {
                let u = frontier[i];
                let nb = self.neighbors(u);
                let mut j: usize = 0;
                while j < nb.len()
                    invariant
                        n == adj.len(),
                        n == self.stops().len(),
                        adj == self.adjacency(),
                        self.wf(),

                        adjacency_sound(adj, n as int),
                        n <= u32::MAX,
                        i < frontier.len(),
                        u == frontier@[i as int],
                        u < n,
                        nb@ == adj[u as int],
                        j <= nb.len(),
                        level < start_reached,
                        start_reached == count_true(start_visited),
                        start_visited == within_flags(adj, s as int, level as int),
                        visited@.len() == n,
                        forall|t: int|
                            0 <= t < n ==> visited@[t] == (within(adj, s as int, t, level as int)
                                || reached_from(adj, frontier@.take(i as int), t) || exists|jj: int|
                                0 <= jj < j && nb@[jj] as int == t),
                        forall|m: int|
                            0 <= m < next.len() ==> #[trigger] next@[m] < n && visited@[next@[m] as int]
                                && !within(adj, s as int, next@[m] as int, level as int),
                        forall|t: int|
                            0 <= t < n && visited@[t] && !within(adj, s as int, t, level as int)
                                ==> exists|m: int| 0 <= m < next.len() && #[trigger] next@[m] as int == t,
                        reached == count_true(visited@),
                        reached == start_reached + next.len(),
                        sum == dist_sum(adj, s as int, level as int) + (level + 1) * next.len(),
                        sum <= (level + 1) * reached,
                    decreases nb.len() - j,
                {
                    let v = nb[j];
                    if !visited[v] {
                        let ghost before_next = next@;
                        proof {
                            lemma_count_true_set(visited@, v as int);
                            lemma_count_true_le(visited@.update(v as int, true));
                            lemma_mul_fits(level + 1, reached + 1, n as int);
                            assert((level + 1) * reached + (level + 1) == (level + 1) * (reached + 1))
                                by (nonlinear_arith);
                            assert((level + 1) * (next.len() + 1) == (level + 1) * next.len() + (level + 1))
                                by (nonlinear_arith);
                        }
                        visited.set(v, true);
                        next.push(v);
                        reached = reached + 1;
                        sum = sum + (level + 1);
                        assert forall|t: int|
                            0 <= t < n && visited@[t] && !within(adj, s as int, t, level as int) implies exists|m: int|
                                0 <= m < next.len() && #[trigger] next@[m] as int == t by {
                            if t == v {
                                assert(next@[next.len() - 1] as int == t);
                            } else {
                                let m = choose|m: int| 0 <= m < before_next.len() && #[trigger] before_next[m] as int == t;
                                assert(next@[m] == before_next[m]);
                            }
                        }
                        assert forall|m: int|
                            0 <= m < next.len() implies #[trigger] next@[m] < n && visited@[next@[m] as int]
                                && !within(adj, s as int, next@[m] as int, level as int) by {
                            if m < before_next.len() {
                                assert(next@[m] == before_next[m]);
                            }
                        }
                    }
                    assert forall|t: int| 0 <= t < n implies visited@[t] == (within(adj, s as int, t, level as int)
                        || reached_from(adj, frontier@.take(i as int), t) || exists|jj: int|
                        0 <= jj < j + 1 && nb@[jj] as int == t) by {
                        if t == v {
                            assert(nb@[j as int] as int == t);
                        }
                    }
                    j = j + 1;
                }
                assert forall|t: int| 0 <= t < n implies visited@[t] == (within(adj, s as int, t, level as int)
                    || reached_from(adj, frontier@.take(i + 1), t)) by {
                    let fr0 = frontier@.take(i as int);
                    let fr1 = frontier@.take(i + 1);
                    if reached_from(adj, fr0, t) {
                        let jj = choose|jj: int| 0 <= jj < fr0.len() && #[trigger] edge_in(adj, fr0[jj] as int, t);
                        assert(fr1[jj] == fr0[jj]);
                    }
                    if exists|jj: int| 0 <= jj < nb.len() && nb@[jj] as int == t {
                        let jj = choose|jj: int| 0 <= jj < nb.len() && nb@[jj] as int == t;
                        assert(edge_in(adj, fr1[i as int] as int, t));
                    }
                    if reached_from(adj, fr1, t) {
                        let jj = choose|jj: int| 0 <= jj < fr1.len() && #[trigger] edge_in(adj, fr1[jj] as int, t);
                        if jj < i {
                            assert(fr0[jj] == fr1[jj]);
                        } else {
                            let k = choose|k: int| 0 <= k < adj[u as int].len() && adj[u as int][k] as int == t;
                            assert(nb@[k] as int == t);
                        }
                    }
                }
                i = i + 1;
            }
            proof {
                assert(frontier@.take(frontier.len() as int) =~= frontier@);
                let lv = level as int;
                assert forall|t: int| 0 <= t < n implies visited@[t] == within(adj, s as int, t, lv + 1) by {
                    lemma_within_next(adj, s as int, t, lv);
                    if lv > 0 {
                        lemma_within_next(adj, s as int, t, lv - 1);
                    }
                    if within(adj, s as int, t, lv + 1) && !within(adj, s as int, t, lv) {
                        let u = choose|u: int| #[trigger] within(adj, s as int, u, lv) && edge_in(adj, u, t);
                        if lv > 0 && within(adj, s as int, u, lv - 1) {
                            assert(lv == (lv - 1) + 1);
                            assert(within(adj, s as int, t, lv));
                        } else {
                            let jf = choose|jf: int| 0 <= jf < frontier.len() && #[trigger] frontier@[jf] as int == u;
                            assert(edge_in(adj, frontier@[jf] as int, t));
                        }
                    }
                    if reached_from(adj, frontier@, t) {
                        let jf = choose|jf: int| 0 <= jf < frontier.len() && #[trigger] edge_in(adj, frontier@[jf] as int, t);
                        assert(within(adj, s as int, frontier@[jf] as int, lv));
                    }
                }
                assert(visited@ =~= within_flags(adj, s as int, lv + 1));
                assert(start_visited =~= within_flags(adj, s as int, lv));
                assert(sum == dist_sum(adj, s as int, lv + 1));
                assert(sum <= (level + 1) * reached);
                assert forall|t: int|
                    0 <= t < n && within(adj, s as int, t, lv + 1) && !within(adj, s as int, t, lv)
                        implies exists|j: int| 0 <= j < next.len() && #[trigger] next@[j] as int == t by {
                    assert(visited@[t]);
                }
            }
            let ghost lv = level as int;
            level = level + 1;
            frontier = next;
            assert((level - 1) == lv);
        }
        proof {
            let lv = level - 1;
            assert forall|t: int| 0 <= t < n implies within(adj, s as int, t, lv + 1) == within(adj, s as int, t, lv) by {
                if within(adj, s as int, t, lv + 1) && !within(adj, s as int, t, lv) {
                    let j = choose|j: int| 0 <= j < frontier.len() && #[trigger] frontier@[j] as int == t;
                }
            }
            lemma_count_true_le(visited@);
            lemma_within_stable(adj, s as int, lv, n as int);
            lemma_within_stable(adj, s as int, lv, level as int);
        }
        (reached, sum)
    }
}

impl TransitGraph {
    /// Closeness centrality of every node, in node order. A node that
    /// reaches no other node by following edges forward has no entry; any
    /// other node gets how many other nodes it reaches and the sum of their
    /// hop distances, whose ratio is its score.
    pub fn compute_closeness_centrality(&self) -> (r: Vec<Closeness>)
        requires
            self.wf(),
            self.stops().len() <= u32::MAX,
        ensures
            entries_view(r@) == closeness_upto(self.stops(), self.adjacency(), self.stops().len()),
    {
        proof {
            lemma_edges_reference_nodes(self);
        }
        let nodes = self.nodes();
        let n = nodes.len();
        let mut out: Vec<Closeness> = Vec::new();
        let mut s: usize = 0;
        while s < n
            invariant
                self.wf(),
                n == self.stops().len(),
                n == self.adjacency().len(),
                nodes@ == self.stops(),
                n <= u32::MAX,
                s <= n,
                entries_view(out@) == closeness_upto(self.stops(), self.adjacency(), s as nat),
            decreases n - s,
        {
            let (count, sum) = self.reach_totals(s);
            let ghost prev = out@;
            if sum > 0 {
                let e = Closeness { stop_id: nodes[s].stop_id.clone(), reached: count - 1, distance_sum: sum };
                out.push(e);
                assert(entries_view(out@) =~= entries_view(prev).push(e@));
            }
            assert(((s + 1) as nat - 1) as nat == s as nat);
            s = s + 1;
        }
        out
    }
}

proof fn lemma_sink_within(adj: Seq<Seq<usize>>, u: int, k: int)
    requires
        0 <= u < adj.len(),
        0 <= k,
        forall|v: int| #[trigger] edge_in(adj, u, v) ==> v == u,
    ensures
        forall|t: int| within(adj, u, t, k) <==> t == u,
    decreases k,
{
    if k > 0 {
        lemma_sink_within(adj, u, k - 1);
        assert forall|t: int| within(adj, u, t, k) <==> t == u by {
            lemma_within_next(adj, u, t, k - 1);
            if within(adj, u, t, k) && !within(adj, u, t, k - 1) {
                let w = choose|w: int| #[trigger] within(adj, u, w, k - 1) && edge_in(adj, w, t);
            }
        }
    } else {
        assert(within(adj, u, u, 0));
    }
}

proof fn lemma_sink_dist_sum(adj: Seq<Seq<usize>>, u: int, k: int)
    requires
        0 <= u < adj.len(),
        0 <= k,
        forall|v: int| #[trigger] edge_in(adj, u, v) ==> v == u,
    ensures
        dist_sum(adj, u, k) == 0,
    decreases k,
{
    if k > 0 {
        lemma_sink_dist_sum(adj, u, k - 1);
        lemma_sink_within(adj, u, k);
        lemma_sink_within(adj, u, k - 1);
        assert(within_flags(adj, u, k) =~= within_flags(adj, u, k - 1));
        assert(k * 0 == 0);
    }
}

proof fn lemma_entries_from_nodes(nodes: Seq<Stop>, adj: Seq<Seq<usize>>, m: nat)
    ensures
        forall|i: int|
            0 <= i < closeness_upto(nodes, adj, m).len() ==> exists|s: int|
                0 <= s < m && reach_distance_sum(adj, s) > 0 && #[trigger] closeness_upto(nodes, adj, m)[i].0
                    == nodes[s].stop_id@,
    decreases m,
{
    if m > 0 {
        let m1 = (m - 1) as nat;
        lemma_entries_from_nodes(nodes, adj, m1);
        let prev = closeness_upto(nodes, adj, m1);
        let cur = closeness_upto(nodes, adj, m);
        assert forall|i: int| 0 <= i < cur.len() implies exists|s: int|
            0 <= s < m && reach_distance_sum(adj, s) > 0 && #[trigger] cur[i].0 == nodes[s].stop_id@ by {
            if i < prev.len() {
                assert(cur[i] == prev[i]);
                let s = choose|s: int| 0 <= s < m1 && reach_distance_sum(adj, s) > 0 && #[trigger] prev[i].0 == nodes[s].stop_id@;
            } else {
                assert(cur[i].0 == nodes[m1 as int].stop_id@);
            }
        }
    }
}

/// A node with no edge to any node but itself reaches no other node, and
/// has no centrality entry.
pub proof fn lemma_sink_has_no_entry(g: &TransitGraph, u: int)
    requires
        g.wf(),
        0 <= u < g.stops().len(),
        forall|v: int| #[trigger] edge_in(g.adjacency(), u, v) ==> v == u,
    ensures
        forall|i: int|
            0 <= i < closeness_upto(g.stops(), g.adjacency(), g.stops().len()).len() ==> #[trigger] closeness_upto(
                g.stops(),
                g.adjacency(),
                g.stops().len(),
            )[i].0 != g.stops()[u].stop_id@,
{
    lemma_edges_reference_nodes(g);
    let adj = g.adjacency();
    let n = g.stops().len();
    lemma_sink_dist_sum(adj, u, adj.len() as int);
    lemma_entries_from_nodes(g.stops(), adj, n);
    assert forall|i: int| 0 <= i < closeness_upto(g.stops(), adj, n).len() implies #[trigger] closeness_upto(
        g.stops(),
        adj,
        n,
    )[i].0 != g.stops()[u].stop_id@ by {
        let s = choose|s: int|
            0 <= s < n && reach_distance_sum(adj, s) > 0 && #[trigger] closeness_upto(g.stops(), adj, n)[i].0
                == g.stops()[s].stop_id@;
        assert(s != u);
    }
}

/// Computing centrality twice on the same graph gives the same entries.
pub proof fn lemma_centrality_repeatable(g: &TransitGraph, r1: Seq<Closeness>, r2: Seq<Closeness>)
    requires
        entries_view(r1) == closeness_upto(g.stops(), g.adjacency(), g.stops().len()),
        entries_view(r2) == closeness_upto(g.stops(), g.adjacency(), g.stops().len()),
    ensures
        r1.len() == r2.len(),
        forall|i: int| 0 <= i < r1.len() ==> #[trigger] r1[i]@ == r2[i]@,
{
    assert(entries_view(r1).len() == r1.len());
    assert(entries_view(r2).len() == r2.len());
    assert forall|i: int| 0 <= i < r1.len() implies #[trigger] r1[i]@ == r2[i]@ by {
        assert(entries_view(r1)[i] == r1[i]@);
        assert(entries_view(r2)[i] == r2[i]@);
    }
}

/// Entry `a` scores at least as high as entry `b` (their ratios compared
/// by cross-multiplication).
pub open spec fn scores_at_least(a: Closeness, b: Closeness) -> bool {
    a.reached as int * b.distance_sum as int >= b.reached as int * a.distance_sum as int
}

proof fn lemma_ratio_trans(ar: int, as_: int, br: int, bs: int, cr: int, cs: int)
    requires
        as_ > 0,
        bs > 0,
        cs > 0,
        ar * bs >= br * as_,
        br * cs >= cr * bs,
    ensures
        ar * cs >= cr * as_,
{
    assert((ar * bs) * cs >= (br * as_) * cs) by (nonlinear_arith)
        requires
            ar * bs >= br * as_,
            cs > 0,
    ;
    assert((br * cs) * as_ >= (cr * bs) * as_) by (nonlinear_arith)
        requires
            br * cs >= cr * bs,
            as_ > 0,
    ;
    assert((ar * cs - cr * as_) * bs >= 0) by (nonlinear_arith)
        requires
            (ar * bs) * cs >= (br * as_) * cs,
            (br * cs) * as_ >= (cr * bs) * as_,
    ;
    assert(ar * cs - cr * as_ >= 0) by (nonlinear_arith)
        requires
            (ar * cs - cr * as_) * bs >= 0,
            bs > 0,
    ;
}

proof fn lemma_product_fits(x: int, y: int)
    requires
        0 <= x <= u64::MAX,
        0 <= y <= u64::MAX,
    ensures
        x * y <= u128::MAX,
{
    assert(x * y <= (u64::MAX as int) * (u64::MAX as int)) by (nonlinear_arith)
        requires
            0 <= x <= u64::MAX,
            0 <= y <= u64::MAX,
    ;
}

/// Whether `a` scores at least as high as `b`, exactly.
fn at_least(a: &Closeness, b: &Closeness) -> (r: bool)
    ensures
        r == scores_at_least(*a, *b),
{
    proof {
        lemma_product_fits(a.reached as int, b.distance_sum as int);
        lemma_product_fits(b.reached as int, a.distance_sum as int);
    }
    let x: u128 = a.reached as u128 * b.distance_sum as u128;
    let y: u128 = b.reached as u128 * a.distance_sum as u128;
    x >= y
}

/// The indices of the `k` highest-scoring entries (all of them if there are
/// fewer), highest first; entries with a zero distance sum are not scores.
pub fn rank_by_closeness(entries: &Vec<Closeness>, k: usize) -> (r: Vec<usize>)
    requires
        forall|i: int| 0 <= i < entries.len() ==> #[trigger] entries@[i].distance_sum > 0,
    ensures
        r.len() == if k < entries.len() {
            k as int
        } else {
            entries.len() as int
        },
        forall|p: int| 0 <= p < r.len() ==> #[trigger] r@[p] < entries.len(),
        forall|p: int, q: int| 0 <= p < q < r.len() ==> #[trigger] r@[p] != #[trigger] r@[q],
        forall|p: int, q: int|
            0 <= p < q < r.len() ==> scores_at_least(entries@[#[trigger] r@[p] as int], entries@[#[trigger] r@[q] as int]),
        forall|p: int, j: int|
            0 <= p < r.len() && 0 <= j < entries.len() && !r@.contains(j as usize) ==> scores_at_least(
                entries@[#[trigger] r@[p] as int],
                #[trigger] entries@[j],
            ),
{
    let n = entries.len();
    let want = if k < n {
        k
    } else {
        n
    };
    let mut chosen: Vec<bool> = Vec::new();
    while chosen.len() < n
        invariant
            chosen.len() <= n,
            forall|j: int| 0 <= j < chosen.len() ==> !chosen@[j],
        decreases n - chosen.len(),
    {
        chosen.push(false);
    }
    let mut out: Vec<usize> = Vec::new();
    while out.len() < want
        invariant
            n == entries.len(),
            want <= n,
            out.len() <= want,
            chosen.len() == n,
            forall|i: int| 0 <= i < n ==> #[trigger] entries@[i].distance_sum > 0,
            forall|j: int| 0 <= j < n ==> (chosen@[j] <==> out@.contains(j as usize)),
            forall|p: int| 0 <= p < out.len() ==> #[trigger] out@[p] < n,
            forall|p: int, q: int| 0 <= p < q < out.len() ==> #[trigger] out@[p] != #[trigger] out@[q],
            forall|p: int, q: int|
                0 <= p < q < out.len() ==> scores_at_least(entries@[#[trigger] out@[p] as int], entries@[#[trigger] out@[q] as int]),
            forall|p: int, j: int|
                0 <= p < out.len() && 0 <= j < n && !chosen@[j] ==> scores_at_least(
                    entries@[#[trigger] out@[p] as int],
                    #[trigger] entries@[j],
                ),
        decreases want - out.len(),
    {
        // some index is still free, since fewer than n are chosen
        let mut best: usize = n;
        let mut j: usize = 0;
        while j < n
            invariant
                n == entries.len(),
                chosen.len() == n,
                j <= n,
                forall|i: int| 0 <= i < n ==> #[trigger] entries@[i].distance_sum > 0,
                best == n || (best < j && !chosen@[best as int]),
                best == n ==> forall|m: int| 0 <= m < j ==> chosen@[m],
                best < n ==> forall|m: int|
                    0 <= m < j && !chosen@[m] ==> scores_at_least(entries@[best as int], #[trigger] entries@[m]),
            decreases n - j,
        {
            if !chosen[j] {
                if best == n {
                    best = j;
                } else if !at_least(&entries[best], &entries[j]) {
                    proof {
                        let b = entries@[best as int];
                        let c = entries@[j as int];
                        assert forall|m: int| 0 <= m < j && !chosen@[m] implies scores_at_least(
                            c,
                            #[trigger] entries@[m],
                        ) by {
                            let e = entries@[m];
                            lemma_ratio_trans(
                                c.reached as int,
                                c.distance_sum as int,
                                b.reached as int,
                                b.distance_sum as int,
                                e.reached as int,
                                e.distance_sum as int,
                            );
                        }
                    }
                    best = j;
                }
            }
            j = j + 1;
        }
        if best == n {
            proof {
                assert forall|m: int| 0 <= m < n implies #[trigger] out@.contains(m as usize) by {
                    assert(chosen@[m]);
                }
                lemma_covering_len(out@, n as int);
            }
        }
        let ghost prev = out@;
        chosen.set(best, true);
        out.push(best);
        assert forall|jj: int| 0 <= jj < n implies (chosen@[jj] <==> out@.contains(jj as usize)) by {
            if jj == best {
                assert(out@[out.len() - 1] == best);
            }
            if out@.contains(jj as usize) && jj != best {
                let p = choose|p: int| 0 <= p < out.len() && out@[p] == jj as usize;
                assert(prev[p] == jj as usize);
            }
            if prev.contains(jj as usize) {
                let p = choose|p: int| 0 <= p < prev.len() && prev[p] == jj as usize;
                assert(out@[p] == jj as usize);
            }
        }
    }
    out
}

/// `s` with every occurrence of `v` removed.
spec fn without(s: Seq<usize>, v: usize) -> Seq<usize> {
    s.filter(|x: usize| x != v)
}

/// A sequence that holds every index below `n` has at least `n` elements.
pub(crate) proof fn lemma_covering_len(s: Seq<usize>, n: int)
    requires
        0 <= n <= usize::MAX,
        forall|m: int| 0 <= m < n ==> #[trigger] s.contains(m as usize),
    ensures
        s.len() >= n,
    decreases n,
{
    if n > 0 {
        let top = (n - 1) as usize;
        assert(s.contains(top));
        let t = without(s, top);
        assert forall|m: int| 0 <= m < n - 1 implies #[trigger] t.contains(m as usize) by {
            assert(s.contains(m as usize));
            let p = choose|p: int| 0 <= p < s.len() && s[p] == m as usize;
            s.lemma_filter_contains(|x: usize| x != top, p);
        }
        lemma_without_shorter(s, top);
        lemma_covering_len(t, n - 1);
    }
}

proof fn lemma_without_shorter(s: Seq<usize>, v: usize)
    requires
        s.contains(v),
    ensures
        without(s, v).len() < s.len(),
    decreases s.len(),
{
    reveal(Seq::filter);
    let t = s.drop_last();
    if s.last() == v {
        assert(without(s, v) == without(t, v));
        t.lemma_filter_len(|x: usize| x != v);
    } else {
        assert(t.contains(v)) by {
            let p = choose|p: int| 0 <= p < s.len() && s[p] == v;
            assert(t[p] == v);
        }
        lemma_without_shorter(t, v);
        assert(without(s, v) == without(t, v).push(s.last()));
    }
}

} // verus!

//! Batch analysis over a built graph: assigning area points to their nearest
//! stops.
use vstd::prelude::*;
use crate::graph::TransitGraph;
use crate::nearest::closest_at;

verus! {

/// Row `i` assigns area `census[i]` to the stop named `row.2`.
pub open spec fn assigned(g: &TransitGraph, area: (String, String, i32, i32), row: (String, String, String)) -> bool {
    &&& row.0@ == area.0@
    &&& row.1@ == area.1@
    &&& exists|k: int| #[trigger] closest_at(g.stops(), area.2, area.3, k) && g.stops()[k].stop_id@ == row.2@
}

/// Assigns each area point (identifier, name, latitude, longitude) to its
/// nearest stop, as (area identifier, area name, stop identifier) rows in
/// input order. A graph without nodes assigns nothing.
pub fn cluster_neighborhoods(graph: &TransitGraph, census: &Vec<(String, String, i32, i32)>) -> (r: Vec<
    (String, String, String),
>)
    ensures
        graph.stops().len() == 0 ==> r.len() == 0,
        graph.stops().len() > 0 ==> r.len() == census.len(),
        forall|i: int| 0 <= i < r.len() ==> assigned(graph, #[trigger] census@[i], r@[i]),
{
    let mut out: Vec<(String, String, String)> = Vec::new();
    let mut i: usize = 0;
    while i < census.len()
        invariant
            i <= census.len(),
            graph.stops().len() == 0 ==> out.len() == 0,
            graph.stops().len() > 0 ==> out.len() == i,
            forall|m: int| 0 <= m < out.len() ==> assigned(graph, #[trigger] census@[m], out@[m]),
        decreases census.len() - i,
    {
        let area = &census[i];
        match graph.find_closest_stop(area.2, area.3) {
            Some((stop_id, _)) => {
                let row = (area.0.clone(), area.1.clone(), stop_id);
                let ghost prev = out@;
                out.push(row);
                assert forall|m: int| 0 <= m < out.len() implies assigned(graph, #[trigger] census@[m], out@[m]) by {
                    if m < prev.len() {
                        assert(out@[m] == prev[m]);
                    }
                }
            },
            None => {},
        }
        i = i + 1;
    }
    out
}

/// How many rows assign an area to the stop named `id`.
pub open spec fn rows_for(rows: Seq<(String, String, String)>, id: Seq<char>) -> nat
    decreases rows.len(),
{
    if rows.len() == 0 {
        0
    } else {
        rows_for(rows.drop_last(), id) + if rows.last().2@ == id {
            1nat
        } else {
            0nat
        }
    }
}

proof fn lemma_rows_for_absent(rows: Seq<(String, String, String)>, id: Seq<char>)
    requires
        forall|i: int| 0 <= i < rows.len() ==> #[trigger] rows[i].2@ != id,
    ensures
        rows_for(rows, id) == 0,
    decreases rows.len(),
{
    if rows.len() > 0 {
        lemma_rows_for_absent(rows.drop_last(), id);
    }
}

proof fn lemma_rows_for_le(rows: Seq<(String, String, String)>, id: Seq<char>)
    ensures
        rows_for(rows, id) <= rows.len(),
    decreases rows.len(),
{
    if rows.len() > 0 {
        lemma_rows_for_le(rows.drop_last(), id);
    }
}

/// Some tally entry is for the stop named `id`.
pub open spec fn has_tally(t: Seq<(String, usize)>, id: Seq<char>) -> bool {
    exists|g: int| 0 <= g < t.len() && #[trigger] t[g].0@ == id
}

/// Tally entries name distinct stops, each with the number (never zero) of
/// rows assigned to it, and every assigned stop has an entry.
pub open spec fn tallied(t: Seq<(String, usize)>, rows: Seq<(String, String, String)>) -> bool {
    &&& forall|g1: int, g2: int|
        0 <= g1 < t.len() && 0 <= g2 < t.len() && g1 != g2 ==> #[trigger] t[g1].0@ != #[trigger] t[g2].0@
    &&& forall|g: int| 0 <= g < t.len() ==> (#[trigger] t[g]).1 == rows_for(rows, t[g].0@)
    &&& forall|g: int| 0 <= g < t.len() ==> (#[trigger] t[g]).1 > 0
    &&& forall|i: int| 0 <= i < rows.len() ==> has_tally(t, #[trigger] rows[i].2@)
}

/// The index of the tally entry for `id`, searching from the most recent.
fn find_tally(t: &Vec<(String, usize)>, id: &String) -> (r: Option<usize>)
    ensures
        match r {
            Some(g) => g < t.len() && t@[g as int].0@ == id@,
            None => !has_tally(t@, id@),
        },
{
    let mut k: usize = t.len();
    while k > 0
        invariant
            k <= t.len(),
            forall|m: int| k <= m < t.len() ==> #[trigger] t@[m].0@ != id@,
        decreases k,
    {
        if t[k - 1].0 == *id {
            return Some(k - 1);
        }
        k = k - 1;
    }
    None
}

/// Counts the assignment rows of each stop, in order of first appearance.
pub fn tally_assignments(rows: &Vec<(String, String, String)>) -> (r: Vec<(String, usize)>)
    ensures
        tallied(r@, rows@),
{
    let mut out: Vec<(String, usize)> = Vec::new();
    let mut i: usize = 0;
    while i < rows.len()
        invariant
            i <= rows.len(),
            tallied(out@, rows@.take(i as int)),
        decreases rows.len() - i,
    {
        let ghost pre = rows@.take(i as int);
        let ghost cur = rows@.take(i + 1);
        let ghost prev = out@;
        assert(cur.drop_last() =~= pre);
        let id = &rows[i].2;
        let found = find_tally(&out, id);
        if let Some(g) = found {
            proof {
                lemma_rows_for_le(pre, id@);
            }
            let c = out[g].1 + 1;
            out.set(g, (out[g].0.clone(), c));
            assert forall|h: int| 0 <= h < out.len() implies (#[trigger] out@[h]).1 == rows_for(cur, out@[h].0@) by {
                if h != g {
                    assert(out@[h] == prev[h]);
                    assert(prev[h].0@ != prev[g as int].0@);
                }
            }
            assert forall|j: int| 0 <= j < cur.len() implies has_tally(out@, #[trigger] cur[j].2@) by {
                if j < i {
                    assert(pre[j] == cur[j]);
                    let h = choose|h: int| 0 <= h < prev.len() && #[trigger] prev[h].0@ == pre[j].2@;
                    assert(out@[h].0@ == prev[h].0@);
                } else {
                    assert(out@[g as int].0@ == cur[j].2@);
                }
            }
        } else {
            proof {
                assert forall|m: int| 0 <= m < pre.len() implies #[trigger] pre[m].2@ != id@ by {
                    if pre[m].2@ == id@ {
                        let h = choose|h: int| 0 <= h < prev.len() && #[trigger] prev[h].0@ == pre[m].2@;
                    }
                }
                lemma_rows_for_absent(pre, id@);
            }
            out.push((id.clone(), 1));
            let ghost n = prev.len() as int;
            assert forall|h: int| 0 <= h < out.len() implies (#[trigger] out@[h]).1 == rows_for(cur, out@[h].0@) by {
                if h != n {
                    assert(out@[h] == prev[h]);
                }
            }
            assert forall|j: int| 0 <= j < cur.len() implies has_tally(out@, #[trigger] cur[j].2@) by {
                if j < i {
                    assert(pre[j] == cur[j]);
                    let h = choose|h: int| 0 <= h < prev.len() && #[trigger] prev[h].0@ == pre[j].2@;
                    assert(out@[h] == prev[h]);
                } else {
                    assert(out@[n].0@ == cur[j].2@);
                }
            }
        }
        i = i + 1;
    }
    assert(rows@.take(rows.len() as int) =~= rows@);
    out
}

/// The indices of the `k` tally entries with the most rows (all of them if
/// there are fewer), most first.
pub fn rank_by_count(t: &Vec<(String, usize)>, k: usize) -> (r: Vec<usize>)
    ensures
        r.len() == if k < t.len() {
            k as int
        } else {
            t.len() as int
        },
        forall|p: int| 0 <= p < r.len() ==> #[trigger] r@[p] < t.len(),
        forall|p: int, q: int| 0 <= p < q < r.len() ==> #[trigger] r@[p] != #[trigger] r@[q],
        forall|p: int, q: int| 0 <= p < q < r.len() ==> t@[#[trigger] r@[p] as int].1 >= t@[#[trigger] r@[q] as int].1,
        forall|p: int, j: int|
            0 <= p < r.len() && 0 <= j < t.len() && !r@.contains(j as usize) ==> t@[#[trigger] r@[p] as int].1
                >= (#[trigger] t@[j]).1,
{
    let n = t.len();
    let want = if k < n {
        k
    } else {
        n
    };
    let mut chosen: Vec<bool> = Vec::new();
    while chosen.len() < n
        invariant
            chosen.len() <= n,
            forall|j: int| 0 <= j < chosen.len() ==> !chosen@[j],
        decreases n - chosen.len(),
    {
        chosen.push(false);
    }
    let mut out: Vec<usize> = Vec::new();
    while out.len() < want
        invariant
            n == t.len(),
            want <= n,
            out.len() <= want,
            chosen.len() == n,
            forall|j: int| 0 <= j < n ==> (chosen@[j] <==> out@.contains(j as usize)),
            forall|p: int| 0 <= p < out.len() ==> #[trigger] out@[p] < n,
            forall|p: int, q: int| 0 <= p < q < out.len() ==> #[trigger] out@[p] != #[trigger] out@[q],
            forall|p: int, q: int|
                0 <= p < q < out.len() ==> t@[#[trigger] out@[p] as int].1 >= t@[#[trigger] out@[q] as int].1,
            forall|p: int, j: int|
                0 <= p < out.len() && 0 <= j < n && !chosen@[j] ==> t@[#[trigger] out@[p] as int].1 >= (
                #[trigger] t@[j]).1,
        decreases want - out.len(),
    {
        let mut best: usize = n;
        let mut j: usize = 0;
        while j < n
            invariant
                n == t.len(),
                chosen.len() == n,
                j <= n,
                best == n || (best < j && !chosen@[best as int]),
                best == n ==> forall|m: int| 0 <= m < j ==> chosen@[m],
                best < n ==> forall|m: int| 0 <= m < j && !chosen@[m] ==> t@[best as int].1 >= (#[trigger] t@[m]).1,
            decreases n - j,
        {
            if !chosen[j] {
                if best == n || t[j].1 > t[best].1 {
                    best = j;
                }
            }
            j = j + 1;
        }
        if best == n {
            proof {
                assert forall|m: int| 0 <= m < n implies #[trigger] out@.contains(m as usize) by {
                    assert(chosen@[m]);
                }
                crate::centrality::lemma_covering_len(out@, n as int);
            }
        }
        let ghost prev = out@;
        chosen.set(best, true);
        out.push(best);
        assert forall|jj: int| 0 <= jj < n implies (chosen@[jj] <==> out@.contains(jj as usize)) by {
            if jj == best {
                assert(out@[out.len() - 1] == best);
            }
            if out@.contains(jj as usize) && jj != best {
                let p = choose|p: int| 0 <= p < out.len() && out@[p] == jj as usize;
                assert(prev[p] == jj as usize);
            }
            if prev.contains(jj as usize) {
                let p = choose|p: int| 0 <= p < prev.len() && prev[p] == jj as usize;
                assert(out@[p] == jj as usize);
            }
        }
    }
    out
}

} // verus!

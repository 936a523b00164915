//! Records handed to the graph builder, and the derivation of consecutive-hop
//! connections from per-trip stop sequences.
use vstd::prelude::*;

verus! {

/// A transit stop. Coordinates are fixed-point: degrees times 10^7.
pub struct Stop {
    pub stop_id: String,
    pub name: String,
    pub lat: i32,
    pub lon: i32,
}

impl Clone for Stop {
    fn clone(&self) -> (r: Self)
        ensures
            r == *self,
    {
        Stop { stop_id: self.stop_id.clone(), name: self.name.clone(), lat: self.lat, lon: self.lon }
    }
}

/// A transit route, tracked by identifier only.
pub struct Route {
    pub route_id: String,
}

/// A directed hop between two consecutive stops of some trip.
pub struct Connection {
    pub from_stop_id: String,
    pub to_stop_id: String,
}

impl View for Connection {
    type V = (Seq<char>, Seq<char>);

    open spec fn view(&self) -> (Seq<char>, Seq<char>) {
        (self.from_stop_id@, self.to_stop_id@)
    }
}

/// Stops and the connections between them.
pub struct GTFSData {
    pub stops: Vec<Stop>,
    pub connections: Vec<Connection>,
}

/// Entry `i` of a trip comes before entry `j` when its sequence number is
/// smaller, or equal with `i` earlier in the input (a stable order).
pub open spec fn key_before(t: Seq<(u32, String)>, i: int, j: int) -> bool {
    t[i].0 < t[j].0 || (t[i].0 == t[j].0 && i < j)
}

/// Entry `j` directly follows entry `i` once the trip is put in stable order.
pub open spec fn follows(t: Seq<(u32, String)>, i: int, j: int) -> bool {
    &&& 0 <= i < t.len()
    &&& 0 <= j < t.len()
    &&& key_before(t, i, j)
    &&& forall|k: int|
        0 <= k < t.len() ==> !(#[trigger] key_before(t, i, k) && key_before(t, k, j))
}

/// Some trip goes from stop `a` straight to stop `b`.
pub open spec fn trip_hop(trips: Seq<Vec<(u32, String)>>, a: Seq<char>, b: Seq<char>) -> bool {
    exists|ti: int, i: int, j: int|
        0 <= ti < trips.len() && #[trigger] follows(trips[ti]@, i, j) && trips[ti]@[i].1@ == a
            && trips[ti]@[j].1@ == b
}

/// The entry that directly follows entry `i` in stable order, if any.
fn next_in_trip(t: &Vec<(u32, String)>, i: usize) -> (r: Option<usize>)
    requires
        i < t.len(),
    ensures
        match r {
            Some(j) => follows(t@, i as int, j as int),
            None => forall|j: int| 0 <= j < t@.len() ==> !#[trigger] key_before(t@, i as int, j),
        },
{
    let mut best: Option<usize> = None;
    let mut k: usize = 0;
    while k < t.len()
        invariant
            i < t.len(),
            k <= t.len(),
            match best {
                Some(b) => b < t.len() && key_before(t@, i as int, b as int) && forall|m: int|
                    0 <= m < k ==> (#[trigger] key_before(t@, i as int, m) ==> !key_before(
                        t@,
                        m,
                        b as int,
                    )),
                None => forall|m: int| 0 <= m < k ==> !#[trigger] key_before(t@, i as int, m),
            },
        decreases t.len() - k,
    {
        let after_i = t[i].0 < t[k].0 || (t[i].0 == t[k].0 && i < k);
        if after_i {
            match best {
                Some(b) => {
                    if t[k].0 < t[b].0 || (t[k].0 == t[b].0 && k < b) {
                        best = Some(k);
                    }
                },
                None => {
                    best = Some(k);
                },
            }
        }
        k = k + 1;
    }
    best
}

/// Appends one connection for each stop of trip `ti` that has a successor.
fn push_trip_hops(trips: &Vec<Vec<(u32, String)>>, ti: usize, out: &mut Vec<Connection>)
    requires
        ti < trips.len(),
        forall|k: int|
            0 <= k < old(out).len() ==> trip_hop(trips@, #[trigger] old(out)@[k]@.0, old(out)@[k]@.1),
    ensures
        final(out)@.len() >= old(out)@.len(),
        forall|k: int| 0 <= k < old(out).len() ==> #[trigger] final(out)@[k] == old(out)@[k],
        forall|k: int|
            0 <= k < final(out).len() ==> trip_hop(trips@, #[trigger] final(out)@[k]@.0, final(out)@[k]@.1),
        forall|i: int, j: int|
            #[trigger] follows(trips@[ti as int]@, i, j) ==> exists|k: int|
                0 <= k < final(out).len() && #[trigger] final(out)@[k]@ == (
                trips@[ti as int]@[i].1@,
                trips@[ti as int]@[j].1@,
            ),
{
    let t = &trips[ti];
    let ghost start = out.len();
    let mut i: usize = 0;
    while i < t.len()
        invariant
            ti < trips.len(),
            *t == trips@[ti as int],
            i <= t.len(),
            out@.len() >= start,
            forall|k: int| 0 <= k < start ==> #[trigger] out@[k] == old(out)@[k],
            forall|k: int| 0 <= k < out.len() ==> trip_hop(trips@, #[trigger] out@[k]@.0, out@[k]@.1),
            forall|i2: int, j: int|
                #[trigger] follows(t@, i2, j) && i2 < i ==> exists|k: int|
                    0 <= k < out.len() && #[trigger] out@[k]@ == (t@[i2].1@, t@[j].1@),
        decreases t.len() - i,
    {
        match next_in_trip(t, i) {
            Some(j) => {
                let c = Connection { from_stop_id: t[i].1.clone(), to_stop_id: t[j].1.clone() };
                assert(follows(trips@[ti as int]@, i as int, j as int));
                let ghost prev = out@;
                out.push(c);
                assert forall|i2: int, j2: int|
                    #[trigger] follows(t@, i2, j2) && i2 < i + 1 implies exists|k: int|
                        0 <= k < out.len() && #[trigger] out@[k]@ == (t@[i2].1@, t@[j2].1@) by {
                    if i2 == i {
                        if j2 != j {
                            assert(key_before(t@, i2, j2));
                            assert(key_before(t@, i2, j as int));
                            assert(false);
                        }
                        assert(out@[prev.len() as int] == c);
                        assert(out@[prev.len() as int]@ == (t@[i2].1@, t@[j2].1@));
                    } else {
                        let k = choose|k: int|
                            0 <= k < prev.len() && #[trigger] prev[k]@ == (t@[i2].1@, t@[j2].1@);
                        assert(out@[k] == prev[k]);
                    }
                }
            },
            None => {
                assert forall|i2: int, j2: int|
                    #[trigger] follows(t@, i2, j2) && i2 < i + 1 implies exists|k: int|
                        0 <= k < out.len() && #[trigger] out@[k]@ == (t@[i2].1@, t@[j2].1@) by {
                    if i2 == i {
                        assert(key_before(t@, i2, j2));
                    }
                }
            },
        }
        i = i + 1;
    }
}

/// Derives the consecutive-hop connections of every trip: each trip's entries
/// are put in stable order of sequence number, and each entry yields a
/// connection to the entry right after it.
pub fn connections_from_trips(trips: &Vec<Vec<(u32, String)>>) -> (r: Vec<Connection>)
    ensures
        forall|k: int| 0 <= k < r.len() ==> trip_hop(trips@, #[trigger] r@[k]@.0, r@[k]@.1),
        forall|ti: int, i: int, j: int|
            0 <= ti < trips.len() && #[trigger] follows(trips@[ti]@, i, j) ==> exists|k: int|
                0 <= k < r.len() && #[trigger] r@[k]@ == (trips@[ti]@[i].1@, trips@[ti]@[j].1@),
{
    let mut out: Vec<Connection> = Vec::new();
    let mut ti: usize = 0;
    while ti < trips.len()
        invariant
            ti <= trips.len(),
            forall|k: int| 0 <= k < out.len() ==> trip_hop(trips@, #[trigger] out@[k]@.0, out@[k]@.1),
            forall|t2: int, i: int, j: int|
                0 <= t2 < ti && #[trigger] follows(trips@[t2]@, i, j) ==> exists|k: int|
                    0 <= k < out.len() && #[trigger] out@[k]@ == (trips@[t2]@[i].1@, trips@[t2]@[j].1@),
        decreases trips.len() - ti,
    {
        let ghost prev = out@;
        push_trip_hops(trips, ti, &mut out);
        assert forall|t2: int, i: int, j: int|
            0 <= t2 < ti + 1 && #[trigger] follows(trips@[t2]@, i, j) implies exists|k: int|
                0 <= k < out.len() && #[trigger] out@[k]@ == (trips@[t2]@[i].1@, trips@[t2]@[j].1@) by {
            if t2 < ti {
                let k = choose|k: int|
                    0 <= k < prev.len() && #[trigger] prev[k]@ == (trips@[t2]@[i].1@, trips@[t2]@[j].1@);
                assert(out@[k] == prev[k]);
            }
        }
        ti = ti + 1;
    }
    out
}

/// No two entries of the trip share a sequence number.
pub open spec fn distinct_seqs(t: Seq<(u32, String)>) -> bool {
    forall|i: int, j: int| 0 <= i < t.len() && 0 <= j < t.len() && i != j ==> #[trigger] t[i].0 != #[trigger] t[j].0
}

/// The trip goes from stop `a` straight to stop `b`.
pub open spec fn trip_has_hop(t: Seq<(u32, String)>, a: Seq<char>, b: Seq<char>) -> bool {
    exists|i: int, j: int| #[trigger] follows(t, i, j) && t[i].1@ == a && t[j].1@ == b
}

proof fn lemma_hop_transfer(t1: Seq<(u32, String)>, t2: Seq<(u32, String)>, i: int, j: int)
    requires
        forall|x: (u32, String)| t1.contains(x) <==> t2.contains(x),
        distinct_seqs(t1),
        distinct_seqs(t2),
        follows(t1, i, j),
    ensures
        trip_has_hop(t2, t1[i].1@, t1[j].1@),
{
    assert(t1.contains(t1[i]));
    assert(t1.contains(t1[j]));
    let i2 = choose|i2: int| 0 <= i2 < t2.len() && t2[i2] == t1[i];
    let j2 = choose|j2: int| 0 <= j2 < t2.len() && t2[j2] == t1[j];
    assert(i != j);
    assert(t1[i].0 < t1[j].0);
    assert forall|k: int| 0 <= k < t2.len() implies !(#[trigger] key_before(t2, i2, k) && key_before(t2, k, j2)) by {
        if key_before(t2, i2, k) && key_before(t2, k, j2) {
            assert(k != i2 && k != j2);
            assert(t2.contains(t2[k]));
            let m = choose|m: int| 0 <= m < t1.len() && t1[m] == t2[k];
            assert(key_before(t1, i, m));
        }
    }
    assert(follows(t2, i2, j2));
}

/// With no two entries sharing a sequence number, the hops a trip makes do not
/// depend on the order in which its entries are given.
pub proof fn lemma_hops_ignore_entry_order(t1: Seq<(u32, String)>, t2: Seq<(u32, String)>)
    requires
        forall|x: (u32, String)| t1.contains(x) <==> t2.contains(x),
        distinct_seqs(t1),
        distinct_seqs(t2),
    ensures
        forall|a: Seq<char>, b: Seq<char>| trip_has_hop(t1, a, b) <==> trip_has_hop(t2, a, b),
{
    assert forall|a: Seq<char>, b: Seq<char>| trip_has_hop(t1, a, b) <==> trip_has_hop(t2, a, b) by {
        if trip_has_hop(t1, a, b) {
            let (i, j) = choose|i: int, j: int| #[trigger] follows(t1, i, j) && t1[i].1@ == a && t1[j].1@ == b;
            lemma_hop_transfer(t1, t2, i, j);
        }
        if trip_has_hop(t2, a, b) {
            let (i, j) = choose|i: int, j: int| #[trigger] follows(t2, i, j) && t2[i].1@ == a && t2[j].1@ == b;
            lemma_hop_transfer(t2, t1, i, j);
        }
    }
}

} // verus!

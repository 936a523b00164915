//! Nearest-stop lookup by planar distance in fixed-point degree space, and
//! the assignment of area points to their nearest stops.
use vstd::prelude::*;
use crate::graph::TransitGraph;
use crate::parser::Stop;

verus! {

/// Squared planar distance between two fixed-point coordinate pairs.
pub open spec fn sq_dist(lat1: int, lon1: int, lat2: int, lon2: int) -> int {
    (lat1 - lat2) * (lat1 - lat2) + (lon1 - lon2) * (lon1 - lon2)
}

/// Squared distance from the query point to node `k`.
pub open spec fn stop_sq_dist(stops: Seq<Stop>, lat: i32, lon: i32, k: int) -> int {
    sq_dist(lat as int, lon as int, stops[k].lat as int, stops[k].lon as int)
}

/// Node `k` is nearest to the query point, and the first such node in table
/// order (a later node at an equal distance does not replace it).
pub open spec fn closest_at(stops: Seq<Stop>, lat: i32, lon: i32, k: int) -> bool {
    &&& 0 <= k < stops.len()
    &&& forall|j: int| 0 <= j < stops.len() ==> stop_sq_dist(stops, lat, lon, k) <= #[trigger] stop_sq_dist(stops, lat, lon, j)
    &&& forall|j: int| 0 <= j < k ==> stop_sq_dist(stops, lat, lon, k) < #[trigger] stop_sq_dist(stops, lat, lon, j)
}

/// The squared distance between two points, exactly.
fn squared_distance(lat1: i32, lon1: i32, lat2: i32, lon2: i32) -> (d: u128)
    ensures
        d == sq_dist(lat1 as int, lon1 as int, lat2 as int, lon2 as int),
{
    let a: i128 = lat1 as i128 - lat2 as i128;
    let b: i128 = lon1 as i128 - lon2 as i128;
    assert(0 <= a * a <= 0x1_0000_0000 * 0x1_0000_0000) by (nonlinear_arith)
        requires
            -0x1_0000_0000 <= a <= 0x1_0000_0000,
    ;
    assert(0 <= b * b <= 0x1_0000_0000 * 0x1_0000_0000) by (nonlinear_arith)
        requires
            -0x1_0000_0000 <= b <= 0x1_0000_0000,
    ;
    (a * a + b * b) as u128
}

impl TransitGraph {
    /// The stop nearest to (`lat`, `lon`) with its squared distance, or `None`
    /// when the graph has no nodes. Of stops at an equal distance the first
    /// in table order is returned.
    pub fn find_closest_stop(&self, lat: i32, lon: i32) -> (r: Option<(String, u128)>)
        ensures
            r is None <==> self.stops().len() == 0,
            match r {
                Some((id, d)) => exists|k: int|
                    #[trigger] closest_at(self.stops(), lat, lon, k) && self.stops()[k].stop_id@ == id@
                        && d == stop_sq_dist(self.stops(), lat, lon, k),
                None => true,
            },
    {
        let nodes = self.nodes();
        if nodes.len() == 0 {
            return None;
        }
        let mut best: usize = 0;
        let mut best_d: u128 = squared_distance(lat, lon, nodes[0].lat, nodes[0].lon);
        let mut k: usize = 1;
        while k < nodes.len()
            invariant
                nodes@ == self.stops(),
                1 <= k <= nodes.len(),
                best < k,
                best_d == stop_sq_dist(nodes@, lat, lon, best as int),
                forall|j: int| 0 <= j < k ==> best_d <= #[trigger] stop_sq_dist(nodes@, lat, lon, j),
                forall|j: int| 0 <= j < best ==> best_d < #[trigger] stop_sq_dist(nodes@, lat, lon, j),
            decreases nodes.len() - k,
        {
            let d = squared_distance(lat, lon, nodes[k].lat, nodes[k].lon);
            if d < best_d {
                best = k;
                best_d = d;
            }
            k = k + 1;
        }
        assert(closest_at(self.stops(), lat, lon, best as int));
        Some((nodes[best].stop_id.clone(), best_d))
    }
}

} // verus!

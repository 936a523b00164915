//! Transit-stop connectivity graph: building it from trip stop sequences,
//! closeness centrality by breadth-first traversal, and nearest-stop lookup.
//!
//! Coordinates are fixed-point integers in units of 1e-7 degree, and each
//! centrality score is returned as an exact ratio of two integers.
mod parser;
mod graph;
mod centrality;
mod nearest;
mod analysis;
mod records;

pub use parser::{
    Stop, Route, Connection, GTFSData, connections_from_trips, key_before, follows, trip_hop,
    distinct_seqs, trip_has_hop, lemma_hops_ignore_entry_order,
};
pub use graph::{
    TransitGraph, rows_view, edge_in, ids_unique, adjacency_sound, connected, kept_stop, has_id, kept,
    lemma_edges_reference_nodes,
};
pub use centrality::{
    Closeness, hop_set, within, count_true, within_flags, count_within, dist_sum, reached_others,
    reach_distance_sum, closeness_upto, entries_view, lemma_sink_has_no_entry,
    lemma_centrality_repeatable, scores_at_least, rank_by_closeness,
};
pub use nearest::{sq_dist, stop_sq_dist, closest_at};
pub use analysis::{
    assigned, cluster_neighborhoods, rows_for, has_tally, tallied, tally_assignments, rank_by_count,
};
pub use records::{
    fields, strings_view, split_fields, all_digits, digits_value, parse_u32, parse_stop_time,
    trip_entries, entries_of, has_group, grouped, group_by_trip,
};

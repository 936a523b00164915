use transit_graph::{group_by_trip, parse_stop_time, parse_u32, split_fields};

fn strings(v: &[&str]) -> Vec<String> {
    v.iter().map(|s| s.to_string()).collect()
}

#[test]
fn split_fields_keeps_empty_fields() {
    assert_eq!(split_fields("a,,b,"), strings(&["a", "", "b", ""]));
    assert_eq!(split_fields(""), strings(&[""]));
    assert_eq!(split_fields("Park Street"), strings(&["Park Street"]));
}

#[test]
fn parse_u32_reads_digits_only() {
    assert_eq!(parse_u32("0"), Some(0));
    assert_eq!(parse_u32("0042"), Some(42));
    assert_eq!(parse_u32("4294967295"), Some(u32::MAX));
    assert_eq!(parse_u32("4294967296"), None);
    assert_eq!(parse_u32("99999999999999999999999"), None);
    assert_eq!(parse_u32(""), None);
    assert_eq!(parse_u32("-1"), None);
    assert_eq!(parse_u32("12a"), None);
}

#[test]
fn stop_time_record_fields() {
    let fields = split_fields("T1,08:00:00,08:00:00,place-pktrm,7,,0,0");
    assert_eq!(
        parse_stop_time(&fields),
        Some(("T1".to_string(), 7, "place-pktrm".to_string()))
    );
    assert_eq!(parse_stop_time(&split_fields("T1,08:00:00,08:00:00,S")), None);
    assert_eq!(parse_stop_time(&split_fields("T1,08:00:00,08:00:00,S,x")), None);
}

#[test]
fn grouping_keeps_input_order_per_trip() {
    let recs = vec![
        ("T1".to_string(), 2, "B".to_string()),
        ("T2".to_string(), 1, "X".to_string()),
        ("T1".to_string(), 1, "A".to_string()),
        ("T2".to_string(), 2, "Y".to_string()),
    ];
    let groups = group_by_trip(&recs);
    assert_eq!(groups.len(), 2);
    let t1 = groups.iter().find(|g| g.0 == "T1").unwrap();
    assert_eq!(t1.1, vec![(2, "B".to_string()), (1, "A".to_string())]);
    let t2 = groups.iter().find(|g| g.0 == "T2").unwrap();
    assert_eq!(t2.1, vec![(1, "X".to_string()), (2, "Y".to_string())]);
}

#[test]
fn grouping_nothing_gives_no_groups() {
    assert!(group_by_trip(&Vec::new()).is_empty());
}

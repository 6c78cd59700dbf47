use vivoh_quic_dash::seen::{SeenSegments, MAX_SEEN};
use vivoh_quic_dash::table::Table;

#[test]
fn last_segments_are_remembered() {
    let mut seen = SeenSegments::new();
    assert!(!seen.contains(1));
    for n in 1..=MAX_SEEN as u32 {
        seen.remember(n);
    }
    for n in 1..=MAX_SEEN as u32 {
        assert!(seen.contains(n));
    }
    seen.remember(100);
    assert!(!seen.contains(1));
    assert!(seen.contains(2));
    assert!(seen.contains(100));
    seen.remember(1);
    assert!(!seen.contains(2));
    assert!(seen.contains(1));
}

#[test]
fn table_keeps_one_value_under_a_name() {
    let mut table: Table<u32> = Table::new();
    assert_eq!(table.get("a"), None);
    assert_eq!(table.len(), 0);
    table.insert("a", 1);
    table.insert("b", 2);
    table.insert("a", 3);
    assert_eq!(table.len(), 2);
    assert_eq!(table.get("a"), Some(&3));
    assert_eq!(table.get("b"), Some(&2));
    let mut names = vec![table.name(0), table.name(1)];
    names.sort();
    assert_eq!(names, vec!["a", "b"]);
    assert_eq!(table.remove("a"), Some(3));
    assert_eq!(table.remove("a"), None);
    assert_eq!(table.get("a"), None);
    assert_eq!(table.get("b"), Some(&2));
    assert_eq!(table.len(), 1);
}

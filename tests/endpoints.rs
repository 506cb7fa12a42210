use kiro_midi::endpoints::{names_in_order, DestinationInfo, Endpoints, SourceInfo};

#[test]
fn add_source_keeps_the_first_registration() {
    let mut endpoints: Endpoints<u32, u32> = Endpoints::new();
    endpoints.add_source(1, "first".to_string(), 10);
    endpoints.add_source(1, "second".to_string(), 20);
    let sources = endpoints.connected_sources();
    assert_eq!(sources.len(), 1);
    assert_eq!(sources[0].name, "first");
    assert_eq!(sources[0].source, 10);
    assert_eq!(endpoints.get_source(1), Some(&10));
}

#[test]
fn connected_sources_are_sorted_by_name() {
    let mut endpoints: Endpoints<u32, u32> = Endpoints::new();
    endpoints.add_source(3, "charlie".to_string(), 30);
    endpoints.add_source(1, "alpha".to_string(), 10);
    endpoints.add_source(4, "delta".to_string(), 40);
    endpoints.add_source(2, "bravo".to_string(), 20);
    endpoints.add_source(5, "Zulu".to_string(), 50);
    let names: Vec<&str> = endpoints.connected_sources().iter().map(|s| s.name.as_str()).collect();
    assert_eq!(names, vec!["Zulu", "alpha", "bravo", "charlie", "delta"]);
}

#[test]
fn remove_source_by_handle() {
    let mut endpoints: Endpoints<u32, u32> = Endpoints::new();
    endpoints.add_source(1, "alpha".to_string(), 10);
    endpoints.add_source(2, "bravo".to_string(), 20);
    assert!(endpoints.remove_source(99).is_none());
    let removed = endpoints.remove_source(20).unwrap();
    assert_eq!(removed.id, 2);
    assert_eq!(removed.name, "bravo");
    assert_eq!(endpoints.get_source(2), None);
    assert_eq!(endpoints.connected_sources().len(), 1);
    endpoints.add_source(2, "bravo again".to_string(), 21);
    assert_eq!(endpoints.get_source(2), Some(&21));
}

#[test]
fn destinations_are_sorted_and_removable() {
    let mut endpoints: Endpoints<u32, u32> = Endpoints::new();
    endpoints.add_destination(7, "out b".to_string(), 70);
    endpoints.add_destination(6, "out a".to_string(), 60);
    endpoints.add_destination(6, "out c".to_string(), 61);
    let names: Vec<&str> =
        endpoints.connected_destinations().iter().map(|d| d.name.as_str()).collect();
    assert_eq!(names, vec!["out a", "out b"]);
    endpoints.remove_destination(70);
    endpoints.remove_destination(99);
    let ids: Vec<u64> = endpoints.connected_destinations().iter().map(|d| d.id).collect();
    assert_eq!(ids, vec![6]);
}

#[test]
fn name_order_is_by_code_point() {
    assert!(names_in_order("abc", "abd"));
    assert!(names_in_order("ab", "abc"));
    assert!(!names_in_order("abc", "ab"));
    assert!(names_in_order("", ""));
    assert!(names_in_order("B", "a"));
}

#[test]
fn info_constructors_keep_their_fields() {
    let info = SourceInfo::new(3, "src".to_string(), vec!["in".to_string()]);
    assert_eq!((info.id, info.name.as_str(), info.connected_inputs.len()), (3, "src", 1));
    let info = DestinationInfo::new(4, "dst".to_string());
    assert_eq!((info.id, info.name.as_str()), (4, "dst"));
}

#[test]
fn remove_destination_moves_the_first_match_only() {
    let mut endpoints: Endpoints<u32, u32> = Endpoints::new();
    endpoints.add_destination(1, "b".to_string(), 5);
    endpoints.add_destination(2, "a".to_string(), 5);
    endpoints.remove_destination(5);
    let ids: Vec<u64> = endpoints.connected_destinations().iter().map(|d| d.id).collect();
    assert_eq!(ids, vec![1]);
    endpoints.remove_destination(5);
    assert!(endpoints.connected_destinations().is_empty());
}

use kiro_midi::filter::{Filter, SourceMatch, SourceMatches};

#[test]
fn open_filter_accepts_everything() {
    let filter = Filter::default();
    assert!(filter.mtype(0) && filter.mtype(15));
    assert!(!filter.mtype(16));
    assert!(filter.group(0) && filter.group(15));
    assert!(filter.channel(3, 9));
    assert!(!filter.channel(16, 0));
}

#[test]
fn closed_filter_accepts_nothing() {
    let filter = Filter::none();
    assert!(!filter.mtype(4));
    assert!(!filter.group(0));
    assert!(!filter.channel(0, 0));
    let filter = filter.with_mtype(4, true).with_group(2, true).with_channel(2, 7, true);
    assert!(filter.mtype(4) && !filter.mtype(2));
    assert!(filter.group(2) && !filter.group(3));
    assert!(filter.channel(2, 7) && !filter.channel(2, 6) && !filter.channel(3, 7));
}

#[test]
fn builders_ignore_out_of_range() {
    let filter = Filter::new().with_mtype(20, false).with_group(16, false).with_channel(1, 16, false);
    assert_eq!(filter, Filter::new());
}

#[test]
fn source_match_kinds() {
    assert!(SourceMatch::id(7).matches(7, "anything"));
    assert!(!SourceMatch::id(7).matches(8, "anything"));
    assert!(SourceMatch::name("Launchkey").matches(1, "Launchkey"));
    assert!(!SourceMatch::name("Launchkey").matches(1, "Launchkey MK3"));
    let regex = SourceMatch::regex("novation.*").unwrap();
    assert!(regex.matches(1, "novation launchkey"));
    assert!(regex.matches(1, "my novation"));
    assert!(!regex.matches(1, "korg"));
    assert!(SourceMatch::regex("(").is_none());
}

#[test]
fn match_filter_takes_first_matching_rule() {
    let first = Filter::new().with_group(0, false);
    let second = Filter::none();
    let matches = SourceMatches::default()
        .with_source(SourceMatch::regex("^novation").unwrap(), first)
        .with_source(SourceMatch::regex(".*").unwrap(), second);
    assert_eq!(matches.len(), 2);
    assert_eq!(matches.match_filter(1, "novation launchkey"), Some(first));
    assert_eq!(matches.match_filter(2, "korg"), Some(second));
}

#[test]
fn match_filter_without_matching_rule_gives_none() {
    let mut matches = SourceMatches::new();
    assert_eq!(matches.match_filter(1, "korg"), None);
    matches.add_source(SourceMatch::name("novation"), Filter::new());
    matches.add_source(SourceMatch::id(9), Filter::none());
    assert_eq!(matches.match_filter(1, "korg"), None);
    assert_eq!(matches.match_filter(9, "korg"), Some(Filter::none()));
    assert_eq!(matches.copied(), matches);
}

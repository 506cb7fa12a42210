use kiro_midi::drivers::{midi1_word, Backend, Driver, Error, InputConfig, JackMidiError};
use kiro_midi::endpoints::SourceId;
use kiro_midi::event::{Event, EventSink};
use kiro_midi::filter::{Filter, SourceMatch, SourceMatches};
use kiro_midi::messages::{ChannelVoice1, ChannelVoice1Message, Message, MessageType};

/// A host whose handles are plain numbers; it refuses the ports and the
/// sources it is told to.
#[derive(Default)]
struct Host {
    refused_ports: Vec<String>,
    refused_sources: Vec<u32>,
    wired: Vec<(u32, String)>,
}

impl Backend for Host {
    type Source = u32;
    type Port = String;

    fn register_input_port(&mut self, name: &str) -> Option<String> {
        if self.refused_ports.iter().any(|p| p == name) {
            None
        } else {
            Some(name.to_string())
        }
    }

    fn connect(&mut self, source: &u32, port: &String) -> bool {
        if self.refused_sources.contains(source) {
            return false;
        }
        self.wired.push((*source, port.clone()));
        true
    }

    fn disconnect(&mut self, source: &u32, port: &String) -> bool {
        let before = self.wired.len();
        self.wired.retain(|(s, p)| !(s == source && p == port));
        before != self.wired.len()
    }
}

#[derive(Default)]
struct Collect(Vec<Event>);

impl EventSink for Collect {
    fn call(&mut self, event: Event) {
        self.0.push(event)
    }
}

fn config(name: &str, pattern: &str, filter: Filter) -> InputConfig {
    InputConfig::new(name).with_source(SourceMatch::regex(pattern).unwrap(), filter)
}

fn driver_with_sources(host: &mut Host) -> Driver<u32, u32, String, Collect> {
    let mut driver: Driver<u32, u32, String, Collect> = Driver::new();
    driver.source_connected(host, 1, "novation launchkey".to_string(), 100);
    driver.source_connected(host, 2, "korg nanokey".to_string(), 200);
    driver
}

fn connected_of(driver: &Driver<u32, u32, String, Collect>, name: &str) -> Vec<SourceId> {
    let info = driver.inputs().into_iter().find(|i| i.name == name).unwrap();
    let mut ids = info.connected_sources;
    ids.sort();
    ids
}

#[test]
fn create_input_wires_matching_sources() {
    let mut host = Host::default();
    let mut driver = driver_with_sources(&mut host);
    let name = driver
        .create_input(&mut host, config("novation", "novation.*", Filter::new()), Collect::default())
        .unwrap();
    assert_eq!(name, "novation");
    assert_eq!(connected_of(&driver, "novation"), vec![1]);
    assert_eq!(host.wired, vec![(100, "novation".to_string())]);
    let filters = driver.input_filters("novation").unwrap();
    assert_eq!(filters.len(), 1);
    assert_eq!(filters.get(&1), Some(&Filter::new()));
}

#[test]
fn create_input_with_existing_name_changes_nothing() {
    let mut host = Host::default();
    let mut driver = driver_with_sources(&mut host);
    driver.create_input(&mut host, config("all", ".*", Filter::new()), Collect::default()).unwrap();
    let result = driver.create_input(&mut host, config("all", "korg", Filter::none()), Collect::default());
    match result {
        Err(Error::JackMidi(JackMidiError::InputAlreadyExists(c))) => assert_eq!(c.name, "all"),
        other => panic!("Unexpected result: {:?}", other),
    }
    assert_eq!(connected_of(&driver, "all"), vec![1, 2]);
    let filters = driver.input_filters("all").unwrap();
    assert_eq!(filters.get(&2), Some(&Filter::new()));
    assert_eq!(driver.input_count(), 1);
}

#[test]
fn create_input_reports_port_refusal() {
    let mut host = Host { refused_ports: vec!["busy".to_string()], ..Host::default() };
    let mut driver = driver_with_sources(&mut host);
    let result = driver.create_input(&mut host, config("busy", ".*", Filter::new()), Collect::default());
    assert!(matches!(result, Err(Error::JackMidi(JackMidiError::PortCreate))));
    assert_eq!(driver.input_count(), 0);
}

#[test]
fn refused_wiring_is_not_counted_as_connected() {
    let mut host = Host { refused_sources: vec![200], ..Host::default() };
    let mut driver = driver_with_sources(&mut host);
    driver.create_input(&mut host, config("all", ".*", Filter::new()), Collect::default()).unwrap();
    assert_eq!(connected_of(&driver, "all"), vec![1]);
    assert_eq!(driver.input_filters("all").unwrap().len(), 2);
}

#[test]
fn set_input_sources_on_unknown_input_fails() {
    let mut host = Host::default();
    let mut driver = driver_with_sources(&mut host);
    let result = driver.set_input_sources(&mut host, "missing", SourceMatches::default());
    match result {
        Err(Error::JackMidi(JackMidiError::InputNotFound(name))) => assert_eq!(name, "missing"),
        other => panic!("Unexpected result: {:?}", other),
    }
}

#[test]
fn set_input_sources_rewires() {
    let mut host = Host::default();
    let mut driver = driver_with_sources(&mut host);
    driver.create_input(&mut host, config("in", "novation", Filter::new()), Collect::default()).unwrap();
    let korg_only = SourceMatches::default().with_source(SourceMatch::name("korg nanokey"), Filter::none());
    driver.set_input_sources(&mut host, "in", korg_only.clone()).unwrap();
    assert_eq!(connected_of(&driver, "in"), vec![2]);
    assert_eq!(host.wired, vec![(200, "in".to_string())]);
    let filters = driver.input_filters("in").unwrap();
    assert_eq!(filters.get(&1), None);
    assert_eq!(filters.get(&2), Some(&Filter::none()));
    let config = driver.get_input_config("in").unwrap();
    assert_eq!(config.name, "in");
    assert_eq!(config.sources, korg_only);
    assert!(driver.get_input_config("out").is_none());
}

#[test]
fn published_snapshot_stays_whole_across_swaps() {
    let mut host = Host::default();
    let mut driver = driver_with_sources(&mut host);
    driver.create_input(&mut host, config("in", ".*", Filter::new()), Collect::default()).unwrap();
    let before = driver.input_filters("in").unwrap();
    for round in 0..50u8 {
        let filter = Filter::new().with_group(round % 16, false);
        let rules = SourceMatches::default().with_source(SourceMatch::regex(".*").unwrap(), filter);
        driver.set_input_sources(&mut host, "in", rules).unwrap();
        let now = driver.input_filters("in").unwrap();
        assert_eq!(now.len(), 2);
        assert!(now.values().all(|f| *f == filter));
    }
    assert_eq!(before.len(), 2);
    assert!(before.values().all(|f| *f == Filter::new()));
}

#[test]
fn new_source_is_offered_to_matching_inputs() {
    let mut host = Host::default();
    let mut driver = driver_with_sources(&mut host);
    driver.create_input(&mut host, config("arturia", "arturia", Filter::new()), Collect::default()).unwrap();
    driver.create_input(&mut host, config("korg", "korg", Filter::new()), Collect::default()).unwrap();
    assert_eq!(connected_of(&driver, "arturia"), Vec::<SourceId>::new());
    driver.source_connected(&mut host, 3, "arturia keystep".to_string(), 300);
    assert_eq!(connected_of(&driver, "arturia"), vec![3]);
    assert_eq!(connected_of(&driver, "korg"), vec![2]);
    assert_eq!(driver.input_filters("arturia").unwrap().get(&3), Some(&Filter::new()));
    let sources = driver.sources();
    let listed: Vec<(u64, &str, Vec<String>)> = sources
        .iter()
        .map(|s| (s.id, s.name.as_str(), s.connected_inputs.clone()))
        .collect();
    assert_eq!(
        listed,
        vec![
            (3, "arturia keystep", vec!["arturia".to_string()]),
            (2, "korg nanokey", vec!["korg".to_string()]),
            (1, "novation launchkey", vec![]),
        ]
    );
}

#[test]
fn disconnected_source_is_pruned_everywhere() {
    let mut host = Host::default();
    let mut driver = driver_with_sources(&mut host);
    driver.create_input(&mut host, config("all", ".*", Filter::new()), Collect::default()).unwrap();
    driver.create_input(&mut host, config("korg", "korg", Filter::new()), Collect::default()).unwrap();
    assert_eq!(driver.source_disconnected(&mut host, 999), None);
    assert_eq!(driver.source_disconnected(&mut host, 200), Some(2));
    assert_eq!(connected_of(&driver, "all"), vec![1]);
    assert_eq!(connected_of(&driver, "korg"), Vec::<SourceId>::new());
    assert_eq!(driver.input_filters("all").unwrap().get(&2), None);
    assert_eq!(driver.input_filters("korg").unwrap().len(), 0);
    assert_eq!(host.wired, vec![(100, "all".to_string())]);
    assert_eq!(driver.sources().len(), 1);
}

#[test]
fn process_delivers_filtered_events_per_source() {
    let mut host = Host::default();
    let mut driver = driver_with_sources(&mut host);
    let rules = SourceMatches::default()
        .with_source(SourceMatch::id(1), Filter::new())
        .with_source(SourceMatch::id(2), Filter::new().with_channel(0, 0, false));
    driver.create_input(&mut host, InputConfig { name: "in".to_string(), sources: rules }, Collect::default()).unwrap();
    let note_on = midi1_word(&[0x90, 0x3c, 0x40]).unwrap();
    assert_eq!(note_on, 0x20903c40);
    driver.process(0, 1, &[(note_on, 7)]);
    driver.process(0, 2, &[(note_on, 8)]);
    driver.process(0, 9, &[(note_on, 9)]);
    driver.process_port(0, &[(0x20913c40, 11)]);
    let expected = |channel: u8, timestamp: u64, endpoint: u64| Event {
        timestamp,
        endpoint,
        message: Message {
            group: 0,
            mtype: MessageType::ChannelVoice1(ChannelVoice1 {
                channel,
                message: ChannelVoice1Message::NoteOn { note: 0x3c, velocity: 0x40 },
            }),
        },
    };
    assert_eq!(driver.input_port(0), "in");
    assert_eq!(
        delivered(&mut driver),
        vec![expected(0, 7, 1), expected(1, 11, 2), expected(1, 11, 1)]
    );
}

fn delivered(driver: &mut Driver<u32, u32, String, Collect>) -> Vec<Event> {
    driver.handler(0).0.clone()
}

#[test]
fn packets_straddle_process_calls() {
    let mut host = Host::default();
    let mut driver = driver_with_sources(&mut host);
    driver.create_input(&mut host, config("all", "novation", Filter::new()), Collect::default()).unwrap();
    driver.process(0, 1, &[(0x50000000, 1), (0x20903c40, 2)]);
    driver.process(0, 1, &[(0x20903c40, 3), (0x20903c40, 4), (0x20903c40, 5)]);
    let events = delivered(&mut driver);
    assert_eq!(events.len(), 1);
    assert_eq!(events[0].timestamp, 5);
}

#[test]
fn raw_bytes_become_midi1_words() {
    assert_eq!(midi1_word(&[]), None);
    assert_eq!(midi1_word(&[0xf8]), Some(0x20f80000));
    assert_eq!(midi1_word(&[0xc0, 0x05]), Some(0x20c00500));
    assert_eq!(midi1_word(&[0x90, 0x3c, 0x40]), Some(0x20903c40));
    assert_eq!(midi1_word(&[1, 2, 3, 4]), None);
}

#[test]
fn sources_to_wire_lists_matching_unwired_sources_in_name_order() {
    let mut host = Host::default();
    let mut driver = driver_with_sources(&mut host);
    driver.source_connected(&mut host, 3, "arturia keystep".to_string(), 300);
    let rules = SourceMatches::default()
        .with_source(SourceMatch::regex("key").unwrap(), Filter::new());
    assert_eq!(driver.sources_to_wire(&rules, &[]), vec![3, 2, 1]);
    assert_eq!(driver.sources_to_wire(&rules, &[2]), vec![3, 1]);
    let none = SourceMatches::default().with_source(SourceMatch::name("nothing"), Filter::new());
    assert_eq!(driver.sources_to_wire(&none, &[]), Vec::<SourceId>::new());
}

#[test]
fn driver_listings_are_in_name_order() {
    let mut host = Host::default();
    let mut driver: Driver<u32, u32, String, Collect> = Driver::new();
    driver.source_connected(&mut host, 9, "zeta".to_string(), 9);
    driver.source_connected(&mut host, 8, "alpha".to_string(), 8);
    driver.source_connected(&mut host, 7, "mu".to_string(), 7);
    let names: Vec<String> = driver.sources().into_iter().map(|s| s.name).collect();
    assert_eq!(names, vec!["alpha", "mu", "zeta"]);
    assert!(driver.destinations().is_empty());
}

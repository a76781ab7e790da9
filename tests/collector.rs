use emit::json::{capture_integer, capture_text};
use emit::seq::{
    DEFAULT_BATCH_LIMIT_BYTES, DEFAULT_EVENT_BODY_LIMIT_BYTES, LOCAL_SERVER_URL,
};
use emit::templates::build_template;
use emit::{
    format_event, format_oversize_placeholder, format_payload, to_seq_level, Event,
    FormatOutcome, Level, SeqCollector, Timestamp,
};

const NUMBER_FRAGMENT: &str = "{\"Timestamp\":\"2014-07-08T09:10:11Z\",\"Level\":\"Warning\",\"MessageTemplate\":\"The number is {number}\",\"Properties\":{\"number\":42}}";

fn number_event() -> Event {
    let timestamp = Timestamp::new(2014, 7, 8, 9, 10, 11).unwrap();
    let properties = vec![("number".to_owned(), "42".to_owned())];
    Event::new(timestamp, Level::Warn, "The number is {number}".to_owned(), properties)
}

fn event_with(template: &str) -> Event {
    let timestamp = Timestamp::new(2020, 1, 2, 3, 4, 5).unwrap();
    Event::new(timestamp, Level::Info, template.to_owned(), vec![])
}

#[test]
fn events_are_formatted() {
    let evt = number_event();
    let payload = format_payload(&evt);
    assert_eq!(payload, NUMBER_FRAGMENT.to_owned());
}

#[test]
fn unparameterized_templates_are_captured() {
    let template = build_template("Starting...", &vec![]);
    let evt = event_with(&template);
    assert!(template == "Starting...");
    assert!(evt.properties().len() == 0);
}

#[test]
fn template_and_properties_are_captured() {
    let u = "nblumhardt";
    let q = 42;
    let names = vec!["user".to_owned(), "quota".to_owned()];
    let template = build_template("User {} exceeded quota of {}!", &names);
    let timestamp = Timestamp::new(2020, 1, 2, 3, 4, 5).unwrap();
    let evt = Event::new(
        timestamp,
        Level::Info,
        template.clone(),
        vec![
            ("user".to_owned(), capture_text(u)),
            ("quota".to_owned(), capture_integer(q)),
        ],
    );
    let get = |n: &str| {
        evt.properties().iter().find(|p| p.0 == n).map(|p| p.1.clone())
    };
    assert!(template == "User {user} exceeded quota of {quota}!");
    assert!(get("user") == Some("\"nblumhardt\"".to_owned()));
    assert!(get("quota") == Some("42".to_owned()));
}

#[test]
fn emitted_events_are_flushed() {
    let collector = SeqCollector::new("http://localhost:5341/", None, DEFAULT_EVENT_BODY_LIMIT_BYTES, DEFAULT_BATCH_LIMIT_BYTES);
    let bodies = collector.batch_bodies(&[event_with("Hello")]);
    assert_eq!(bodies.len(), 1);
    assert!(bodies[0].starts_with("{\"Events\":[{\"Timestamp\":"));
    assert!(bodies[0].ends_with("\"MessageTemplate\":\"Hello\",\"Properties\":{}}]}"));
}

#[test]
fn fragment_has_exactly_the_four_keys() {
    let text = format_payload(&number_event());
    let value: serde_json::Value = serde_json::from_str(&text).unwrap();
    let obj = value.as_object().unwrap();
    let mut keys: Vec<&String> = obj.keys().collect();
    keys.sort();
    assert_eq!(keys, vec!["Level", "MessageTemplate", "Properties", "Timestamp"]);
}

#[test]
fn small_event_limit_gives_placeholder() {
    let mut evt = number_event();
    let blob = format!("\"{}\"", "x".repeat(300));
    evt.add_or_update_property("blob".to_owned(), blob);
    let placeholder = format_oversize_placeholder(&evt);
    let limit = placeholder.len();
    match format_event(&evt, limit) {
        FormatOutcome::Placeholder(s) => {
            assert_eq!(s, placeholder);
            let value: serde_json::Value = serde_json::from_str(&s).unwrap();
            let template = value["MessageTemplate"].as_str().unwrap();
            assert!(template.starts_with("(Event too large) The number is {number}..."));
            let props = value["Properties"].as_object().unwrap();
            let mut keys: Vec<&String> = props.keys().collect();
            keys.sort();
            assert_eq!(keys, vec!["initial", "target"]);
            assert_eq!(props["initial"], "The number is {number}");
        }
        _ => panic!("expected a placeholder"),
    }
}

#[test]
fn limit_of_ten_drops_the_event() {
    // Even the placeholder is longer than ten bytes.
    let evt = number_event();
    assert!(matches!(format_event(&evt, 10), FormatOutcome::Dropped));
    let collector = SeqCollector::new("http://h/", None, 10, DEFAULT_BATCH_LIMIT_BYTES);
    let bodies = collector.batch_bodies(&[evt]);
    assert_eq!(bodies, vec!["{\"Events\":[]}".to_owned()]);
}

#[test]
fn placeholder_keeps_first_sixty_four_characters() {
    let long: String = std::iter::repeat("é").take(70).collect();
    let evt = event_with(&long);
    let text = format_oversize_placeholder(&evt);
    let value: serde_json::Value = serde_json::from_str(&text).unwrap();
    let initial = value["Properties"]["initial"].as_str().unwrap();
    assert_eq!(initial.chars().count(), 64);
    assert_eq!(
        value["Properties"]["target"].as_str().unwrap(),
        "emit::collectors::seq"
    );
}

#[test]
fn normal_fragment_when_it_fits() {
    let evt = number_event();
    match format_event(&evt, NUMBER_FRAGMENT.len()) {
        FormatOutcome::Normal(s) => assert_eq!(s, NUMBER_FRAGMENT),
        _ => panic!("expected the full fragment"),
    }
}

#[test]
fn two_events_over_batch_limit_are_sent_apart() {
    let first = number_event();
    let second = event_with("Second");
    let size_first = format_payload(&first).len();
    let limit = 11 + 2 + size_first + 1;
    let collector = SeqCollector::new("http://h/", None, DEFAULT_EVENT_BODY_LIMIT_BYTES, limit);
    let bodies = collector.batch_bodies(&[first, second]);
    assert_eq!(bodies.len(), 2);
    assert_eq!(bodies[0], format!("{{\"Events\":[{}]}}", NUMBER_FRAGMENT));
    assert_eq!(
        bodies[1],
        format!("{{\"Events\":[{}]}}", format_payload(&event_with("Second")))
    );
    for b in &bodies {
        assert!(b.len() <= limit);
    }
}

#[test]
fn events_that_fit_share_one_batch() {
    let collector = SeqCollector::new_local();
    let bodies = collector.batch_bodies(&[number_event(), number_event()]);
    assert_eq!(bodies, vec![format!("{{\"Events\":[{},{}]}}", NUMBER_FRAGMENT, NUMBER_FRAGMENT)]);
}

#[test]
fn oversized_single_event_is_sent_alone() {
    let collector = SeqCollector::new("http://h/", None, DEFAULT_EVENT_BODY_LIMIT_BYTES, 20);
    let bodies = collector.batch_bodies(&[number_event(), event_with("x"), number_event()]);
    assert_eq!(bodies.len(), 3);
    for b in &bodies {
        let value: serde_json::Value = serde_json::from_str(b).unwrap();
        assert_eq!(value["Events"].as_array().unwrap().len(), 1);
    }
}

#[test]
fn empty_input_sends_one_empty_batch() {
    let collector = SeqCollector::new_local();
    let bodies = collector.batch_bodies(&[]);
    assert_eq!(bodies, vec!["{\"Events\":[]}".to_owned()]);
}

#[test]
fn level_names() {
    assert_eq!(to_seq_level(Level::Off), "Fatal");
    assert_eq!(to_seq_level(Level::Error), "Error");
    assert_eq!(to_seq_level(Level::Warn), "Warning");
    assert_eq!(to_seq_level(Level::Info), "Information");
    assert_eq!(to_seq_level(Level::Debug), "Debug");
    assert_eq!(to_seq_level(Level::Trace), "Verbose");
}

#[test]
fn endpoint_gets_api_path_and_slash() {
    let a = SeqCollector::new("http://x:1/", Some("k"), 5, 6);
    assert_eq!(a.endpoint(), "http://x:1/api/events/raw/");
    assert_eq!(a.api_key(), Some("k"));
    assert_eq!(a.event_body_limit_bytes(), 5);
    assert_eq!(a.batch_limit_bytes(), 6);
    let b = SeqCollector::new("http://x:1", None, 5, 6);
    assert_eq!(b.endpoint(), "http://x:1/api/events/raw/");
    assert_eq!(b.api_key(), None);
    let local = SeqCollector::new_local();
    assert_eq!(local.endpoint(), format!("{}api/events/raw/", LOCAL_SERVER_URL));
    assert_eq!(local.event_body_limit_bytes(), 262144);
    assert_eq!(local.batch_limit_bytes(), 10485760);
}

#[test]
fn timestamps_are_checked_and_padded() {
    assert!(Timestamp::new(2023, 2, 29, 0, 0, 0).is_none());
    assert!(Timestamp::new(2024, 2, 29, 0, 0, 0).is_some());
    assert!(Timestamp::new(2024, 13, 1, 0, 0, 0).is_none());
    assert!(Timestamp::new(2024, 1, 1, 24, 0, 0).is_none());
    let t = Timestamp::new(7, 1, 2, 3, 4, 5).unwrap();
    assert_eq!(t.to_iso_string(), "0007-01-02T03:04:05Z");
}

#[test]
fn template_text_is_escaped() {
    let evt = event_with("say \"hi\"\n\u{1}");
    let text = format_payload(&evt);
    assert!(text.contains("\"MessageTemplate\":\"say \\\"hi\\\"\\n\\u0001\""));
    assert_eq!(capture_text("a\\b"), "\"a\\\\b\"");
    assert_eq!(capture_integer(-120), "-120");
}

#[test]
fn properties_are_kept_in_name_order() {
    let timestamp = Timestamp::new(2020, 1, 2, 3, 4, 5).unwrap();
    let mut evt = Event::new(
        timestamp,
        Level::Info,
        "t".to_owned(),
        vec![
            ("b".to_owned(), "1".to_owned()),
            ("a".to_owned(), "2".to_owned()),
            ("b".to_owned(), "3".to_owned()),
        ],
    );
    evt.add_or_update_property("c".to_owned(), "4".to_owned());
    evt.add_or_update_property("a".to_owned(), "5".to_owned());
    evt.add_property_if_absent("a".to_owned(), "6".to_owned());
    evt.add_property_if_absent("B".to_owned(), "7".to_owned());
    let names: Vec<(String, String)> = evt.properties().clone();
    assert_eq!(
        names,
        vec![
            ("B".to_owned(), "7".to_owned()),
            ("a".to_owned(), "5".to_owned()),
            ("b".to_owned(), "3".to_owned()),
            ("c".to_owned(), "4".to_owned()),
        ]
    );
    assert!(format_payload(&evt).ends_with("\"Properties\":{\"B\":7,\"a\":5,\"b\":3,\"c\":4}}"));
}

#[test]
fn template_holes_are_named_in_turn() {
    let names = vec!["a".to_owned()];
    assert_eq!(build_template("{} and {}", &names), "{a} and {}");
    assert_eq!(build_template("", &names), "");
}

#[test]
fn dropped_event_is_left_out_of_batches() {
    let small_a = event_with("a");
    let small_b = event_with("b");
    let big = event_with(&"y".repeat(100));
    let limit = format_payload(&small_a).len();
    assert!(format_payload(&big).len() > limit);
    assert!(format_oversize_placeholder(&big).len() > limit);
    let collector = SeqCollector::new("http://h/", None, limit, DEFAULT_BATCH_LIMIT_BYTES);
    let bodies = collector.batch_bodies(&[small_a, big, small_b]);
    assert_eq!(
        bodies,
        vec![format!(
            "{{\"Events\":[{},{}]}}",
            format_payload(&event_with("a")),
            format_payload(&event_with("b"))
        )]
    );
}

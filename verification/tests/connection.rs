use starling::config::Config;
use starling::connection::{ConnectedString, ConnectionToken};
use starling::debouncer::{debounce_two, DebouncedEvents, Event};
use starling::document::Format;
use starling::fs_engine::FsEngine;

fn uuid_str(id: u128) -> String {
    uuid::Uuid::from_u128(id).hyphenated().to_string()
}

const B: u128 = 0x22222222_2222_4222_8222_222222222222;

#[test]
fn link_free_text_round_trips() {
    let config = Config::default();
    let (cs, map) = ConnectedString::from_str("just some plain text", Format::Markdown, &config);
    assert_eq!(cs.inner.len(), 1);
    assert_eq!(cs.to_string(&map, Format::Markdown), "just some plain text");
    let (cs2, map2) = ConnectedString::from_str("", Format::Org, &config);
    assert_eq!(cs2.inner.len(), 0);
    assert_eq!(cs2.to_string(&map2, Format::Org), "");
}

#[test]
fn markdown_links_are_tokenised_and_rendered() {
    let config = Config::default();
    let text = format!("before [title]({}) after", uuid_str(B));
    let (cs, map) = ConnectedString::from_str(&text, Format::Markdown, &config);
    // Text, link, text.
    assert_eq!(cs.inner.len(), 3);
    assert!(matches!(cs.inner[1], ConnectionToken::Link { id: B, idx: 0 }));
    assert!(map.get(&B).is_some());
    assert!(!map.get(&B).unwrap().valid);
    // Rendering fully qualifies the default link type.
    assert_eq!(
        cs.to_string(&map, Format::Markdown),
        format!("before [title](link:{}) after", uuid_str(B))
    );
}

#[test]
fn uppercase_ids_render_canonically() {
    let config = Config::default();
    // The id is parsed case-insensitively but rendered canonically, so the
    // rendering differs from the input exactly in the id's spelling.
    let upper = uuid_str(B).to_uppercase();
    let text = format!("[t](link:{})", upper);
    let (cs, map) = ConnectedString::from_str(&text, Format::Markdown, &config);
    // A link at the very start is preceded by an empty literal span.
    assert!(matches!(cs.inner[1], ConnectionToken::Link { id: B, idx: 0 }));
    assert_eq!(
        cs.to_string(&map, Format::Markdown),
        format!("[t](link:{})", uuid_str(B))
    );
}

#[test]
fn unknown_types_stay_literal() {
    let config = Config::default();
    let text = format!("[t](https://example.com) and [u](nope:{})", uuid_str(B));
    let (cs, map) = ConnectedString::from_str(&text, Format::Markdown, &config);
    assert_eq!(map.num_entries(), 0);
    assert_eq!(cs.to_string(&map, Format::Markdown), text);
}

#[test]
fn org_links_are_tokenised() {
    let config = Config::default();
    let text = format!("see [[link:{}][a link]] here", uuid_str(B));
    let (cs, map) = ConnectedString::from_str(&text, Format::Org, &config);
    assert!(matches!(cs.inner[1], ConnectionToken::Link { id: B, idx: 0 }));
    assert_eq!(cs.to_string(&map, Format::Org), text);
}

#[test]
fn parallel_links_get_distinct_variants() {
    let config = Config::default();
    let text = format!("[one]({}) [two](link:{})", uuid_str(B), uuid_str(B));
    let (cs, map) = ConnectedString::from_str(&text, Format::Markdown, &config);
    assert!(matches!(cs.inner[1], ConnectionToken::Link { id: B, idx: 0 }));
    assert!(matches!(cs.inner[3], ConnectionToken::Link { id: B, idx: 1 }));
    assert_eq!(map.get(&B).unwrap().variants.len(), 2);
    assert_eq!(cs.to_string(&map, Format::Markdown), format!(
        "[one](link:{}) [two](link:{})",
        uuid_str(B),
        uuid_str(B)
    ));
}

#[test]
fn empty_link_type_is_a_config_error() {
    let mut config = Config::default();
    config.link_types.push(String::new());
    assert!(matches!(
        config.validate(),
        Err(starling::error::ConfigParseError::EmptyLinkType)
    ));
    let mut config2 = Config::default();
    config2.default_link_type = "wiki".to_string();
    assert!(config2.validate().is_ok());
    assert!(config2.link_types.iter().any(|t| t == "wiki"));
}

#[test]
fn self_write_suppression_consumes_one_echo() {
    let mut engine = FsEngine::new();
    engine.record_self_write("a.md".to_string());
    // The echoed modification is dropped, exactly once.
    assert!(!engine.on_fs_event(Event::Modify("a.md".to_string())));
    assert!(engine.on_fs_event(Event::Modify("a.md".to_string())));
    // A non-modification on a self-written path goes through.
    engine.record_self_write("b.md".to_string());
    assert!(engine.on_fs_event(Event::Delete("b.md".to_string())));
    // Taking a batch requires no patch in flight.
    let batch = engine.on_debounce_timeout().unwrap();
    assert_eq!(batch.len(), 2);
    assert!(engine.on_debounce_timeout().is_none());
    engine.on_patch_settled();
    assert!(engine.on_debounce_timeout().is_some());
}

#[test]
fn create_rename_delete_collapses_to_one_deletion() {
    let events = vec![
        Event::Create("x".to_string()),
        Event::Rename("x".to_string(), "y".to_string()),
        Event::Rename("y".to_string(), "z".to_string()),
        Event::Delete("z".to_string()),
    ];
    let entries = DebouncedEvents::from_sequential(events).into_iter();
    assert_eq!(entries.len(), 1);
    let (new_path, oldest, event) = &entries[0];
    assert_eq!(new_path, "z");
    assert_eq!(oldest.as_deref(), Some("x"));
    assert!(matches!(event, Some(Event::Delete(p)) if p == "z"));
}

#[test]
fn pairwise_collapse_is_associative_outside_create_delete() {
    let p = || "p".to_string();
    let cases: Vec<(Event, Event, Event)> = vec![
        (Event::Modify(p()), Event::Delete(p()), Event::Create(p())),
        (Event::Delete(p()), Event::Create(p()), Event::Modify(p())),
        (Event::Modify(p()), Event::Modify(p()), Event::Modify(p())),
        (Event::Create(p()), Event::Modify(p()), Event::Delete(p())),
    ];
    for (x, y, z) in cases {
        let left = debounce_two(
            Some(debounce_two(Some(x.clone()), y.clone(), p())),
            z.clone(),
            p(),
        );
        let right = debounce_two(Some(x), debounce_two(Some(y), z, p()), p());
        assert_eq!(left, right);
    }
    // The excluded case: a creation meeting a deletion is recorded as a
    // deletion, so a later recreation differs between the two orders.
    let left = debounce_two(
        Some(debounce_two(Some(Event::Create(p())), Event::Delete(p()), p())),
        Event::Create(p()),
        p(),
    );
    let right = debounce_two(
        Some(Event::Create(p())),
        debounce_two(Some(Event::Delete(p())), Event::Create(p()), p()),
        p(),
    );
    assert_ne!(left, right);
}

use starling::debouncer::{DebouncedEvents, Event};
use std::collections::HashSet;

/// A categorised version of [`DebouncedEvents`] for easier testing.
struct DebouncedCategories {
    renames: Vec<(String, String)>,
    creations: Vec<String>,
    deletions: Vec<String>,
    modifications: Vec<String>,
}
impl DebouncedCategories {
    fn from_debounced(debounced: DebouncedEvents) -> Self {
        let mut renames = Vec::new();
        let mut creations = Vec::new();
        let mut deletions = Vec::new();
        let mut modifications = Vec::new();
        for (new_path, old_path, event) in debounced.into_iter() {
            // If there's an old path, we have a rename
            if let Some(old_path) = old_path {
                renames.push((old_path, new_path.clone()));
            }

            // If we have an event, push it, using the new path (renames will
            // be actioned first by the caller)
            if let Some(event) = event {
                match event {
                    Event::Delete(_) => deletions.push(new_path),
                    Event::Create(_) => creations.push(new_path),
                    Event::Modify(_) => modifications.push(new_path),
                    Event::Rename(_, _) => unreachable!(),
                }
            }
        }
        Self {
            renames,
            creations,
            deletions,
            modifications,
        }
    }
}

#[test]
fn should_collapse_create_delete() {
    let events = vec![
        Event::Create(String::from("foo")),
        Event::Rename(String::from("foo"), String::from("bar")),
        Event::Delete(String::from("bar")),
        // This is a deletion of a different file, the old `foo` was renamed
        // (nonsensical in real life, but illustrates the point)
        Event::Delete(String::from("foo")),
    ];
    let debounced = DebouncedCategories::from_debounced(DebouncedEvents::from_sequential(events));

    assert_eq!(
        debounced.renames,
        vec![(String::from("foo"), String::from("bar"))]
    );
    assert!(debounced.modifications.is_empty());
    assert!(debounced.creations.is_empty());
    assert_eq!(
        debounced.deletions.into_iter().collect::<HashSet<_>>(),
        // Both get noted for clarity
        [String::from("foo"), String::from("bar")].into()
    );
}

#[test]
fn should_collapse_renames() {
    let events = vec![
        Event::Create(String::from("foo")),
        Event::Rename(String::from("foo"), String::from("bar")),
        Event::Rename(String::from("bar"), String::from("baz")),
        Event::Rename(String::from("baz"), String::from("qux")),
    ];
    let debounced = DebouncedCategories::from_debounced(DebouncedEvents::from_sequential(events));

    assert_eq!(
        debounced.renames,
        vec![(String::from("foo"), String::from("qux"))]
    );
    assert!(debounced.modifications.is_empty());
    assert_eq!(debounced.creations, vec![String::from("qux")]);
    assert!(debounced.deletions.is_empty());
}

#[test]
fn should_handle_rename_with_modify() {
    let events = vec![
        Event::Rename(String::from("foo"), String::from("bar")),
        Event::Modify(String::from("bar")),
        Event::Rename(String::from("bar"), String::from("baz")),
    ];
    let debounced = DebouncedCategories::from_debounced(DebouncedEvents::from_sequential(events));

    assert_eq!(
        debounced.renames,
        vec![(String::from("foo"), String::from("baz"))]
    );
    assert!(debounced.creations.is_empty());
    assert_eq!(debounced.modifications, vec![String::from("baz")]);
    assert!(debounced.deletions.is_empty());
}

#[test]
fn should_combine_correctly() {
    let events_1 = vec![
        Event::Create(String::from("foo")),
        Event::Rename(String::from("foo"), String::from("bar")),
    ];
    let events_2 = vec![
        Event::Modify(String::from("bar")),
        Event::Rename(String::from("bar"), String::from("baz")),
    ];

    let mut debounced_1 = DebouncedEvents::from_sequential(events_1);
    let debounced_2 = DebouncedEvents::from_sequential(events_2);
    debounced_1.combine(&debounced_2);
    let debounced = DebouncedCategories::from_debounced(debounced_1);

    // Creation is the critical one, but rename will still be preserved
    assert_eq!(debounced.creations, vec![String::from("baz")]);
    assert_eq!(
        debounced.renames,
        vec![(String::from("foo"), String::from("baz"))]
    );
    assert!(debounced.modifications.is_empty());
    assert!(debounced.deletions.is_empty());
}

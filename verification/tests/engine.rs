use starling::config::Config;
use starling::debouncer::{DebouncedEvents, Event};
use starling::document::{StarlingDocument, StarlingNode};
use starling::error::PathParseError;
use starling::graph::Graph;
use starling::patch::{GraphPatch, PatchPlan, PathPatch};

fn node(id: u128, level: u8, title: &str, body: Option<&str>, children: Vec<StarlingNode>) -> StarlingNode {
    StarlingNode {
        id,
        level,
        title: title.to_string(),
        body: body.map(|b| b.to_string()),
        tags: Vec::new(),
        keyword: None,
        priority: None,
        deadline: None,
        scheduled: None,
        closed: None,
        properties: Vec::new(),
        timestamps: Vec::new(),
        children,
    }
}

fn doc(root: StarlingNode) -> StarlingDocument {
    StarlingDocument {
        root,
        attributes: String::new(),
    }
}

fn creation(path: &str, document: StarlingDocument) -> GraphPatch {
    GraphPatch {
        renames: Vec::new(),
        deletions: Vec::new(),
        creations: vec![PathPatch {
            path: path.to_string(),
            contents_res: Ok(document),
        }],
        modifications: Vec::new(),
    }
}

fn modification(path: &str, document: StarlingDocument) -> GraphPatch {
    GraphPatch {
        renames: Vec::new(),
        deletions: Vec::new(),
        creations: Vec::new(),
        modifications: vec![PathPatch {
            path: path.to_string(),
            contents_res: Ok(document),
        }],
    }
}

fn uuid_str(id: u128) -> String {
    uuid::Uuid::from_u128(id).hyphenated().to_string()
}

const A: u128 = 0x11111111_1111_4111_8111_111111111111;
const B: u128 = 0x22222222_2222_4222_8222_222222222222;
const X: u128 = 0x33333333_3333_4333_8333_333333333333;

#[test]
fn two_file_link_validates_and_rewrites() {
    let config = Config::default();
    let mut graph = Graph::new(Vec::new());

    let a_doc = doc(node(A, 0, "File 1", Some(&format!("[b]({})", uuid_str(B))), vec![]));
    let b_doc = doc(node(B, 0, "File 2", None, vec![]));
    let patch = GraphPatch {
        renames: Vec::new(),
        deletions: Vec::new(),
        creations: vec![
            PathPatch { path: "a.md".to_string(), contents_res: Ok(a_doc) },
            PathPatch { path: "b.md".to_string(), contents_res: Ok(b_doc) },
        ],
        modifications: Vec::new(),
    };
    let writes = graph.process_fs_patch(patch, &config);

    // Both nodes are live and point at their paths.
    assert_eq!(graph.nodes.get(&A), Some(&"a.md".to_string()));
    assert_eq!(graph.nodes.get(&B), Some(&"b.md".to_string()));
    // A's connection to B is valid; B has a backlink from A.
    let a_pn = graph.paths.get(&"a.md".to_string()).unwrap();
    let a_scn = a_pn.document().unwrap().root.node(&A).unwrap();
    assert!(a_scn.connections.get(&B).unwrap().valid);
    let b_pn = graph.paths.get(&"b.md".to_string()).unwrap();
    let b_scn = b_pn.document().unwrap().root.node(&B).unwrap();
    assert!(b_scn.backlinks.contains(&A));
    // No invalid connections were recorded.
    assert!(graph.invalid_connections.get(&B).is_none());
    // Every created path is scheduled for an id-stabilising write; A's body
    // is rewritten with the validated title and the fully qualified type.
    let a_write = writes.iter().find(|w| w.path == "a.md").unwrap();
    assert_eq!(
        a_write.document.root.body.as_ref().unwrap(),
        &format!("[File 2](link:{})", uuid_str(B))
    );
    assert!(writes.iter().any(|w| w.path == "b.md"));
}

#[test]
fn forward_reference_resolves_on_creation() {
    let config = Config::default();
    let mut graph = Graph::new(Vec::new());

    // `a.md` links to X before any file containing X exists.
    let a_doc = doc(node(A, 0, "File 1", Some(&format!("[x]({})", uuid_str(X))), vec![]));
    graph.process_fs_patch(creation("a.md", a_doc), &config);

    let a_pn = graph.paths.get(&"a.md".to_string()).unwrap();
    let a_scn = a_pn.document().unwrap().root.node(&A).unwrap();
    assert!(!a_scn.connections.get(&X).unwrap().valid);
    assert_eq!(graph.invalid_connections.get(&X).unwrap(), &vec![A]);
    let errs = graph.errors(&"a.md".to_string()).unwrap().unwrap();
    assert_eq!(errs, vec![X]);

    // Creating `c.md` with root id X validates the waiting reference.
    let c_doc = doc(node(X, 0, "File X", None, vec![]));
    let writes = graph.process_fs_patch(creation("c.md", c_doc), &config);

    let a_pn = graph.paths.get(&"a.md".to_string()).unwrap();
    let a_scn = a_pn.document().unwrap().root.node(&A).unwrap();
    assert!(a_scn.connections.get(&X).unwrap().valid);
    let c_pn = graph.paths.get(&"c.md".to_string()).unwrap();
    let c_scn = c_pn.document().unwrap().root.node(&X).unwrap();
    assert!(c_scn.backlinks.contains(&A));
    assert!(graph.invalid_connections.get(&X).is_none());
    // The corrective write to `a.md` updates the link title.
    let a_write = writes.iter().find(|w| w.path == "a.md").unwrap();
    assert_eq!(
        a_write.document.root.body.as_ref().unwrap(),
        &format!("[File X](link:{})", uuid_str(X))
    );
}

#[test]
fn title_rewrite_propagates_to_referrers_only() {
    let config = Config::default();
    let mut graph = Graph::new(Vec::new());
    let a_doc = doc(node(A, 0, "File 1", Some(&format!("[b]({})", uuid_str(B))), vec![]));
    let b_doc = doc(node(B, 0, "File 2", None, vec![]));
    graph.process_fs_patch(
        GraphPatch {
            renames: Vec::new(),
            deletions: Vec::new(),
            creations: vec![
                PathPatch { path: "a.md".to_string(), contents_res: Ok(a_doc) },
                PathPatch { path: "b.md".to_string(), contents_res: Ok(b_doc) },
            ],
            modifications: Vec::new(),
        },
        &config,
    );

    // B's title changes; A links to B, so a.md is rewritten and b.md is not.
    let b_doc2 = doc(node(B, 0, "File 2+", None, vec![]));
    let writes = graph.process_fs_patch(modification("b.md", b_doc2), &config);
    assert!(writes.iter().any(|w| w.path == "a.md"));
    assert!(!writes.iter().any(|w| w.path == "b.md"));
    let a_write = writes.iter().find(|w| w.path == "a.md").unwrap();
    assert_eq!(
        a_write.document.root.body.as_ref().unwrap(),
        &format!("[File 2+](link:{})", uuid_str(B))
    );
}

#[test]
fn unchanged_modification_writes_nothing() {
    let config = Config::default();
    let mut graph = Graph::new(Vec::new());
    let make = || doc(node(A, 0, "File 1", Some("plain body"), vec![]));
    graph.process_fs_patch(creation("a.md", make()), &config);

    // Applying the same parse again produces no instructions, hence no
    // corrective writes and an unchanged node map.
    let writes = graph.process_fs_patch(modification("a.md", make()), &config);
    assert!(writes.is_empty());
    assert_eq!(graph.nodes.get(&A), Some(&"a.md".to_string()));
    let writes = graph.process_fs_patch(modification("a.md", make()), &config);
    assert!(writes.is_empty());
}

#[test]
fn revalidation_is_inherited_on_reparse() {
    let config = Config::default();
    let mut graph = Graph::new(Vec::new());
    let make_a = || doc(node(A, 0, "File 1", Some(&format!("[b]({})", uuid_str(B))), vec![]));
    let b_doc = doc(node(B, 0, "File 2", None, vec![]));
    graph.process_fs_patch(creation("a.md", make_a()), &config);
    graph.process_fs_patch(creation("b.md", b_doc), &config);

    // Re-parsing a.md with identical contents inherits the validity of the
    // connection to B without checking it again, so nothing is rewritten.
    let writes = graph.process_fs_patch(modification("a.md", make_a()), &config);
    assert!(writes.is_empty());
    let a_scn = graph
        .paths
        .get(&"a.md".to_string())
        .unwrap()
        .document()
        .unwrap()
        .root
        .node(&A)
        .unwrap();
    assert!(a_scn.connections.get(&B).unwrap().valid);
    let b_scn = graph
        .paths
        .get(&"b.md".to_string())
        .unwrap()
        .document()
        .unwrap()
        .root
        .node(&B)
        .unwrap();
    assert!(b_scn.backlinks.contains(&A));
}

#[test]
fn self_reference_stays_permanently_invalid() {
    let config = Config::default();
    let mut graph = Graph::new(Vec::new());
    let make = || doc(node(A, 0, "Loop", Some(&format!("[me]({})", uuid_str(A))), vec![]));
    graph.process_fs_patch(creation("a.md", make()), &config);

    // The self-reference is invalid even though A is live, and the entry
    // records A as its own referrer.
    let a_pn = graph.paths.get(&"a.md".to_string()).unwrap();
    let a_scn = a_pn.document().unwrap().root.node(&A).unwrap();
    assert!(!a_scn.connections.get(&A).unwrap().valid);
    assert_eq!(graph.invalid_connections.get(&A).unwrap(), &vec![A]);

    // Reprocessing (which re-adds the node) leaves the entry unchanged.
    let writes = graph.process_fs_patch(modification("a.md", make()), &config);
    assert_eq!(graph.invalid_connections.get(&A).unwrap(), &vec![A]);
    let a_pn = graph.paths.get(&"a.md".to_string()).unwrap();
    let a_scn = a_pn.document().unwrap().root.node(&A).unwrap();
    assert!(!a_scn.connections.get(&A).unwrap().valid);
    drop(writes);
}

#[test]
fn node_deletion_invalidates_referrers() {
    let config = Config::default();
    let mut graph = Graph::new(Vec::new());
    let a_doc = doc(node(A, 0, "File 1", Some(&format!("[b]({})", uuid_str(B))), vec![]));
    let b_doc = doc(node(B, 0, "File 2", None, vec![]));
    graph.process_fs_patch(creation("a.md", a_doc), &config);
    graph.process_fs_patch(creation("b.md", b_doc), &config);

    // Deleting b.md orphans A's link: it becomes invalid and recorded.
    let patch = GraphPatch {
        renames: Vec::new(),
        deletions: vec!["b.md".to_string()],
        creations: Vec::new(),
        modifications: Vec::new(),
    };
    graph.process_fs_patch(patch, &config);
    assert!(graph.nodes.get(&B).is_none());
    assert!(graph.paths.get(&"b.md".to_string()).is_none());
    let a_scn = graph
        .paths
        .get(&"a.md".to_string())
        .unwrap()
        .document()
        .unwrap()
        .root
        .node(&A)
        .unwrap();
    assert!(!a_scn.connections.get(&B).unwrap().valid);
    assert_eq!(graph.invalid_connections.get(&B).unwrap(), &vec![A]);
}

#[test]
fn renames_move_paths_and_node_entries() {
    let config = Config::default();
    let mut graph = Graph::new(Vec::new());
    let a_doc = doc(node(A, 0, "File 1", None, vec![]));
    graph.process_fs_patch(creation("a.md", a_doc), &config);

    let patch = GraphPatch {
        renames: vec![("a.md".to_string(), "a_new.md".to_string())],
        deletions: Vec::new(),
        creations: Vec::new(),
        modifications: Vec::new(),
    };
    graph.process_fs_patch(patch, &config);
    assert!(graph.paths.get(&"a.md".to_string()).is_none());
    assert!(graph.paths.get(&"a_new.md".to_string()).is_some());
    assert_eq!(graph.nodes.get(&A), Some(&"a_new.md".to_string()));
}

#[test]
fn duplicate_ids_are_rejected() {
    let config = Config::default();
    let mut graph = Graph::new(Vec::new());
    let bad = doc(node(A, 0, "Root", None, vec![node(A, 1, "Child", None, vec![])]));
    graph.process_fs_patch(creation("a.md", bad), &config);
    // The parse is rejected: no document, an error recorded, no nodes.
    assert!(graph.nodes.get(&A).is_none());
    let res = graph.errors(&"a.md".to_string()).unwrap();
    assert!(matches!(res, Err(msg) if msg.contains("duplicate id")));
}

#[test]
fn unknown_tags_are_rejected_when_tags_configured() {
    let mut config = Config::default();
    config.tags = vec!["known".to_string()];
    let mut graph = Graph::new(Vec::new());
    let mut n = node(A, 0, "Root", None, vec![]);
    n.tags = vec!["mystery".to_string()];
    graph.process_fs_patch(creation("a.md", doc(n)), &config);
    let res = graph.errors(&"a.md".to_string()).unwrap();
    assert!(matches!(res, Err(msg) if msg.contains("unknown tag")));

    // With an empty configured tag set, tag checking is disabled.
    let config2 = Config::default();
    let mut graph2 = Graph::new(Vec::new());
    let mut n2 = node(A, 0, "Root", None, vec![]);
    n2.tags = vec!["anything".to_string()];
    graph2.process_fs_patch(creation("a.md", doc(n2)), &config2);
    assert!(graph2.nodes.get(&A).is_some());
}

#[test]
fn get_node_returns_basics_and_connections() {
    let config = Config::default();
    let mut graph = Graph::new(Vec::new());
    let a_doc = doc(node(A, 0, "File 1", Some(&format!("[b]({})", uuid_str(B))), vec![]));
    let b_doc = doc(node(B, 0, "File 2", None, vec![]));
    graph.process_fs_patch(creation("a.md", a_doc), &config);
    graph.process_fs_patch(creation("b.md", b_doc), &config);

    let opts = starling::node::NodeOptions::new(starling::document::Format::Markdown)
        .connections(true)
        .children(true);
    let n = graph.get_node(A, opts).unwrap();
    assert_eq!(n.id, A);
    assert_eq!(n.path, "a.md");
    assert_eq!(n.title, "File 1");
    let conn = n.connections.get(&B).unwrap();
    assert_eq!(conn.title, "File 2");
    assert_eq!(conn.types, vec!["link".to_string()]);
    let nb = graph.get_node(B, starling::node::NodeOptions::new(starling::document::Format::Markdown).connections(true)).unwrap();
    assert!(nb.backlinks.get(&A).is_some());
    assert!(graph.get_node(X, starling::node::NodeOptions::new(starling::document::Format::Markdown)).is_none());
}

#[test]
fn root_id_reads_the_parsed_root() {
    let config = Config::default();
    let mut graph = Graph::new(Vec::new());
    let a_doc = doc(node(A, 0, "File 1", None, vec![]));
    graph.process_fs_patch(creation("a.md", a_doc), &config);
    assert_eq!(graph.root_id(&"a.md".to_string()), Some(A));
    assert_eq!(graph.root_id(&"missing.md".to_string()), None);
}

#[test]
fn read_failures_keep_the_last_good_parse() {
    let config = Config::default();
    let mut graph = Graph::new(Vec::new());
    let a_doc = doc(node(A, 0, "File 1", Some("body"), vec![]));
    graph.process_fs_patch(creation("a.md", a_doc), &config);

    // A failed read records the error and keeps the previous document and
    // its nodes authoritative.
    let patch = GraphPatch {
        renames: Vec::new(),
        deletions: Vec::new(),
        creations: Vec::new(),
        modifications: vec![PathPatch {
            path: "a.md".to_string(),
            contents_res: Err(PathParseError::ReadFailed {
                path: "a.md".to_string(),
                err: "interrupted".to_string(),
            }),
        }],
    };
    let writes = graph.process_fs_patch(patch, &config);
    assert!(writes.is_empty());
    assert_eq!(graph.nodes.get(&A), Some(&"a.md".to_string()));
    let pn = graph.paths.get(&"a.md".to_string()).unwrap();
    assert!(pn.document().is_some());
    assert!(pn.error.is_some());
    assert_eq!(graph.root_id(&"a.md".to_string()), Some(A));
}

#[test]
fn patch_plans_keep_only_tracked_paths() {
    let events = vec![
        Event::Create("notes.md".to_string()),
        Event::Create("image.png".to_string()),
        Event::Modify("journal.org".to_string()),
        Event::Delete("old.markdown".to_string()),
        Event::Rename("a.md".to_string(), "b.md".to_string()),
    ];
    let plan = PatchPlan::from_events(DebouncedEvents::from_sequential(events));
    assert_eq!(plan.creations, vec!["notes.md".to_string()]);
    assert_eq!(plan.modifications, vec!["journal.org".to_string()]);
    assert_eq!(plan.deletions, vec!["old.markdown".to_string()]);
    assert_eq!(plan.renames, vec![("a.md".to_string(), "b.md".to_string())]);
}

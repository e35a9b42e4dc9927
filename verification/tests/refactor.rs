use std::collections::HashMap;

use dendrite_core::identity::IdentityRegistry;
use dendrite_core::model::{Heading, Link, LinkKind, Note, NoteId, Point, TextRange, WikiLinkFormat};
use dendrite_core::mutation::audit::calculate_audit_diagnostics;
use dendrite_core::mutation::hierarchy::{calculate_hierarchy_edits, sort_groups};
use dendrite_core::mutation::rename::calculate_rename_edits;
use dendrite_core::mutation::split::{calculate_split_edits, extract_text, split_plan};
use dendrite_core::mutation::structural::{calculate_relative_path, calculate_structural_edits};
use dendrite_core::mutation::{
    Change, ContentProvider, EditGroup, DiagnosticSeverity, MutationKind, Precondition, ResourceOperation,
    TextEdit,
};
use dendrite_core::semantic::DendronModel;
use dendrite_core::store::Store;

struct MockContentProvider;
impl ContentProvider for MockContentProvider {
    fn get_content(&self, _uri: &str) -> Option<String> {
        None
    }
}

struct MapProvider {
    files: HashMap<String, String>,
}
impl ContentProvider for MapProvider {
    fn get_content(&self, uri: &str) -> Option<String> {
        self.files.get(uri).cloned()
    }
}

struct OneContent(String);
impl ContentProvider for OneContent {
    fn get_content(&self, _uri: &str) -> Option<String> {
        Some(self.0.clone())
    }
}

fn wiki() -> LinkKind {
    LinkKind::WikiLink(WikiLinkFormat::AliasFirst)
}

fn dummy_note(id: NoteId, name: &str) -> Note {
    Note {
        id,
        path: Some(format!("{}.md", name)),
        title: Some(name.to_string()),
        ..Default::default()
    }
}

fn link_to(target: NoteId, kind: LinkKind) -> Link {
    Link { target, raw_target: String::new(), alias: None, anchor: None, range: TextRange::default(), kind }
}

#[test]
fn structural_test_rename_note_simple() {
    let mut store = Store::new();
    let mut identity = IdentityRegistry::new();

    let id_a = identity.get_or_create(&"A".to_string());
    let id_b = identity.get_or_create(&"B".to_string());

    let mut note_a = dummy_note(id_a, "A");
    let note_b = dummy_note(id_b, "B");
    note_a.links.push(link_to(id_b, wiki()));

    store.upsert_note(note_a);
    store.upsert_note(note_b);
    store.set_outgoing_links(&id_a, vec![id_b]);

    let strategy = DendronModel::new("/test".to_string());
    let plan = calculate_structural_edits(
        &store,
        &identity,
        &MockContentProvider,
        &strategy,
        &id_b,
        "C.md".to_string(),
        "C",
    )
    .expect("Plan generated");

    assert!(matches!(plan.mutation_kind, MutationKind::RenameNote));
    assert_eq!(plan.edits.len(), 2);

    let rename_group = plan.edits.iter().find(|g| g.uri.ends_with("B.md")).expect("Rename op not found");
    if let Change::ResourceOp(ResourceOperation::RenameFile { new_uri, .. }) = &rename_group.changes[0] {
        assert!(new_uri.ends_with("C.md"));
    } else {
        panic!("Expected RenameFile op");
    }

    let link_group = plan.edits.iter().find(|g| g.uri.ends_with("A.md")).expect("Link update not found");
    if let Change::TextEdit(TextEdit { new_text, .. }) = &link_group.changes[0] {
        assert_eq!(new_text, "[[C]]");
    } else {
        panic!("Expected TextEdit op");
    }
}

#[test]
fn test_move_note_without_rename() {
    let mut store = Store::new();
    let mut identity = IdentityRegistry::new();

    let id_a = identity.get_or_create(&"A".to_string());
    store.upsert_note(dummy_note(id_a, "A"));

    let strategy = DendronModel::new("/test".to_string());
    let plan = calculate_structural_edits(
        &store,
        &identity,
        &MockContentProvider,
        &strategy,
        &id_a,
        "sub/A.md".to_string(),
        "A",
    )
    .expect("Plan generated");

    assert!(matches!(plan.mutation_kind, MutationKind::MoveNote));
    assert_eq!(plan.edits.len(), 1);

    let move_group = &plan.edits[0];
    assert!(move_group.uri.ends_with("A.md"));
    if let Change::ResourceOp(ResourceOperation::RenameFile { new_uri, .. }) = &move_group.changes[0] {
        assert!(new_uri.contains("sub"));
    } else {
        panic!("Expected RenameFile op");
    }
}

#[test]
fn structural_test_rename_preserves_blocks() {
    let mut store = Store::new();
    let mut identity = IdentityRegistry::new();

    let id_old = identity.get_or_create(&"Old Note".to_string());
    let id_ref = identity.get_or_create(&"Referencer".to_string());

    let note_old = dummy_note(id_old, "Old Note");
    let mut note_ref = dummy_note(id_ref, "Referencer");
    let mut link = link_to(id_old, wiki());
    link.anchor = Some("^block-id".to_string());
    note_ref.links.push(link);

    store.upsert_note(note_old);
    store.upsert_note(note_ref);
    store.set_outgoing_links(&id_ref, vec![id_old]);

    let strategy = DendronModel::new("/test".to_string());
    let plan = calculate_structural_edits(
        &store,
        &identity,
        &MockContentProvider,
        &strategy,
        &id_old,
        "New Note.md".to_string(),
        "New Note",
    )
    .expect("Plan generation failed");

    let link_edit = plan
        .edits
        .iter()
        .flat_map(|g| &g.changes)
        .find_map(|c| match c {
            Change::TextEdit(edit) => Some(edit),
            _ => None,
        })
        .expect("Should have link update");

    assert_eq!(link_edit.new_text, "[[New Note#^block-id]]", "Block anchor must be preserved");
}

#[test]
fn test_move_cross_folder_markdown_link() {
    let mut store = Store::new();
    let mut identity = IdentityRegistry::new();

    let id_target = identity.get_or_create(&"Target".to_string());
    let id_source = identity.get_or_create(&"Source".to_string());

    let note_target = dummy_note(id_target, "Target");
    let mut note_source = dummy_note(id_source, "Source");
    note_source.path = Some("docs/Source.md".to_string());
    note_source.links.push(link_to(id_target, LinkKind::MarkdownLink));

    store.upsert_note(note_target);
    store.upsert_note(note_source);
    store.set_outgoing_links(&id_source, vec![id_target]);

    let strategy = DendronModel::new("/test".to_string());
    let plan = calculate_structural_edits(
        &store,
        &identity,
        &MockContentProvider,
        &strategy,
        &id_target,
        "archive/Target.md".to_string(),
        "Target",
    )
    .expect("Plan generated");

    let link_edit = plan
        .edits
        .iter()
        .flat_map(|g| &g.changes)
        .find_map(|c| match c {
            Change::TextEdit(edit) => Some(edit),
            _ => None,
        })
        .expect("Should have link update");

    assert_eq!(
        link_edit.new_text, "[Target](../archive/Target.md)",
        "Markdown link should use relative path"
    );
}

#[test]
fn structural_edits_are_none_without_change() {
    let mut store = Store::new();
    let mut identity = IdentityRegistry::new();
    let id_a = identity.get_or_create(&"A".to_string());
    store.upsert_note(dummy_note(id_a, "A"));
    let strategy = DendronModel::new("/test".to_string());
    let plan = calculate_structural_edits(
        &store,
        &identity,
        &MockContentProvider,
        &strategy,
        &id_a,
        "A.md".to_string(),
        "A",
    );
    assert!(plan.is_none());
    let missing = calculate_structural_edits(
        &store,
        &identity,
        &MockContentProvider,
        &strategy,
        &NoteId(7),
        "B.md".to_string(),
        "B",
    );
    assert!(missing.is_none());
}

#[test]
fn structural_plan_preconditions_and_undo_text() {
    let mut store = Store::new();
    let mut identity = IdentityRegistry::new();
    let id_a = identity.get_or_create(&"a".to_string());
    let id_b = identity.get_or_create(&"b".to_string());
    let mut note_a = dummy_note(id_a, "a");
    let mut link = link_to(id_b, wiki());
    link.range = TextRange { start: Point { line: 0, col: 4 }, end: Point { line: 0, col: 9 } };
    note_a.links.push(link);
    store.upsert_note(note_a);
    store.upsert_note(dummy_note(id_b, "b"));
    store.set_outgoing_links(&id_a, vec![id_b]);

    let provider = OneContent("See [[b]] now".to_string());
    let strategy = DendronModel::new("/v".to_string());
    let plan = calculate_structural_edits(&store, &identity, &provider, &strategy, &id_b, "c.md".to_string(), "c")
        .expect("plan");
    assert_eq!(
        plan.preconditions,
        vec![
            Precondition::NoteExists(id_b.to_uuid_string()),
            Precondition::PathNotExists("c.md".to_string()),
        ]
    );
    let edit = plan.edits[1].changes[0].clone().text_edit().expect("text edit");
    assert_eq!(edit.undo_text, Some("[[b]]".to_string()));
    assert_eq!(edit.new_text, "[[c]]");
}

#[test]
fn relative_paths_between_folders() {
    assert_eq!(calculate_relative_path("docs/Source.md", "archive/Target.md"), "../archive/Target.md");
    assert_eq!(calculate_relative_path("docs/Source.md", "docs/Target.md"), "Target.md");
    assert_eq!(calculate_relative_path("Source.md", "a/b/T.md"), "a/b/T.md");
    assert_eq!(calculate_relative_path("a/b/S.md", "T.md"), "../../T.md");
}

#[test]
fn test_hierarchy_rename() {
    let mut store = Store::new();
    let mut identity = IdentityRegistry::new();
    let model = DendronModel::new(".".to_string());

    let mut files = HashMap::new();
    files.insert("c.md".to_string(), "Links: [[a]], [[a.b]]".to_string());
    files.insert("a.md".to_string(), "Content A".to_string());
    files.insert("a.b.md".to_string(), "Content AB".to_string());
    let provider = MapProvider { files };

    let id_a = identity.get_or_create(&"a".to_string());
    let id_ab = identity.get_or_create(&"a.b".to_string());
    let id_c = identity.get_or_create(&"c".to_string());

    let note_a = Note { id: id_a, path: Some("a.md".to_string()), ..Default::default() };
    let note_ab = Note { id: id_ab, path: Some("a.b.md".to_string()), ..Default::default() };
    let mut note_c = Note { id: id_c, path: Some("c.md".to_string()), ..Default::default() };
    note_c.links.push(Link {
        target: id_a,
        raw_target: "a".to_string(),
        kind: wiki(),
        range: TextRange { start: Point { line: 0, col: 7 }, end: Point { line: 0, col: 12 } },
        ..Default::default()
    });
    note_c.links.push(Link {
        target: id_ab,
        raw_target: "a.b".to_string(),
        kind: wiki(),
        range: TextRange { start: Point { line: 0, col: 14 }, end: Point { line: 0, col: 21 } },
        ..Default::default()
    });

    store.upsert_note(note_a);
    store.upsert_note(note_ab);
    store.upsert_note(note_c);

    let plan = calculate_hierarchy_edits(&store, &identity, &provider, &model, "a", "x").expect("Plan generated");

    let move_a = plan.edits.iter().find(|e| e.uri.ends_with("a.md")).unwrap();
    assert!(format!("{:?}", move_a).contains("x.md"));

    let move_ab = plan.edits.iter().find(|e| e.uri.ends_with("a.b.md")).unwrap();
    assert!(format!("{:?}", move_ab).contains("x.b.md"));
}

#[test]
fn hierarchy_edits_are_sorted_and_links_come_before_renames() {
    let mut store = Store::new();
    let mut identity = IdentityRegistry::new();
    let model = DendronModel::new(".".to_string());
    let id_a = identity.get_or_create(&"a".to_string());
    let id_ab = identity.get_or_create(&"a.b".to_string());
    let mut note_a = Note { id: id_a, path: Some("a.md".to_string()), ..Default::default() };
    note_a.links.push(link_to(id_ab, wiki()));
    store.upsert_note(note_a);
    store.upsert_note(Note { id: id_ab, path: Some("a.b.md".to_string()), ..Default::default() });
    store.set_outgoing_links(&id_a, vec![id_ab]);

    let plan = calculate_hierarchy_edits(&store, &identity, &MockContentProvider, &model, "a", "x")
        .expect("plan");
    assert_eq!(plan.mutation_kind, MutationKind::HierarchyRefactor);
    let uris: Vec<&str> = plan.edits.iter().map(|g| g.uri.as_str()).collect();
    assert_eq!(uris, vec!["a.b.md", "a.md", "a.md"]);
    assert!(matches!(plan.edits[1].changes[0], Change::TextEdit(_)));
    assert!(matches!(plan.edits[2].changes[0], Change::ResourceOp(ResourceOperation::RenameFile { .. })));

    assert!(calculate_hierarchy_edits(&store, &identity, &MockContentProvider, &model, "zzz", "y").is_none());
}

#[test]
fn test_extract_selection() {
    let mut store = Store::new();
    let mut identity = IdentityRegistry::new();

    let id_a = identity.get_or_create(&"A".to_string());
    store.upsert_note(Note { id: id_a, path: Some("source.md".to_string()), ..Default::default() });

    let provider = OneContent("Line 1\nTarget Text\nLine 3".to_string());
    let strategy = DendronModel::new("/".to_string());

    let selection = TextRange { start: Point { line: 1, col: 0 }, end: Point { line: 1, col: 11 } };

    let plan = calculate_split_edits(&store, &identity, &provider, &strategy, &id_a, selection, "target")
        .expect("Plan generated");

    let source_edit = plan.edits.iter().find(|g| g.uri.ends_with("source.md")).unwrap();
    if let Change::TextEdit(edit) = &source_edit.changes[0] {
        assert_eq!(edit.new_text, "[[target]]");
        assert_eq!(edit.range, selection);
    } else {
        panic!("Expected text edit on source");
    }

    let new_file = plan.edits.iter().find(|g| g.uri.ends_with("target.md")).unwrap();
    if let Change::ResourceOp(ResourceOperation::CreateFile { content, .. }) = &new_file.changes[0] {
        assert_eq!(content.as_deref(), Some("Target Text"));
    } else {
        panic!("Expected create file op");
    }
}

#[test]
fn extract_text_over_several_lines() {
    let content = "ab\ncdef\r\nghi\n";
    let range = TextRange { start: Point { line: 0, col: 1 }, end: Point { line: 2, col: 2 } };
    assert_eq!(extract_text(content, range), Some("b\ncdef\ngh".to_string()));
    let past = TextRange { start: Point { line: 0, col: 0 }, end: Point { line: 3, col: 0 } };
    assert_eq!(extract_text(content, past), None);
    let beyond_col = TextRange { start: Point { line: 1, col: 0 }, end: Point { line: 1, col: 9 } };
    assert_eq!(extract_text(content, beyond_col), None);
}

#[test]
fn split_is_none_inside_a_character() {
    let mut store = Store::new();
    let identity = IdentityRegistry::new();
    let id = NoteId(5);
    store.upsert_note(Note { id, path: Some("s.md".to_string()), ..Default::default() });
    let provider = OneContent("é".to_string());
    let strategy = DendronModel::new("/".to_string());
    let selection = TextRange { start: Point { line: 0, col: 1 }, end: Point { line: 0, col: 2 } };
    assert!(calculate_split_edits(&store, &identity, &provider, &strategy, &id, selection, "t").is_none());
}

#[test]
fn test_audit_broken_link() {
    let mut store = Store::new();
    let mut identity = IdentityRegistry::new();

    let id_a = identity.get_or_create(&"A".to_string());
    let id_missing = identity.get_or_create(&"Missing".to_string());

    let mut note_a = Note { id: id_a, path: Some("A.md".to_string()), title: Some("A".to_string()), ..Default::default() };
    note_a.links.push(Link {
        target: id_missing,
        raw_target: "Missing".to_string(),
        alias: None,
        anchor: None,
        range: TextRange::default(),
        kind: wiki(),
    });
    store.upsert_note(note_a);

    let model = DendronModel::new("/test".to_string());
    let plan = calculate_audit_diagnostics(&store, &model);

    assert_eq!(plan.diagnostics.len(), 1);
    assert!(plan.diagnostics[0].message.contains("Broken link"));
}

#[test]
fn test_audit_invalid_anchor() {
    let mut store = Store::new();
    let mut identity = IdentityRegistry::new();

    let id_a = identity.get_or_create(&"A".to_string());
    let id_target = identity.get_or_create(&"Target".to_string());

    let note_target = Note {
        id: id_target,
        path: Some("Target.md".to_string()),
        headings: vec![Heading { text: "Existing".to_string(), level: 1, range: TextRange::default() }],
        ..Default::default()
    };
    let mut note_a = Note { id: id_a, path: Some("A.md".to_string()), ..Default::default() };
    note_a.links.push(Link {
        target: id_target,
        raw_target: "Target".to_string(),
        alias: None,
        anchor: Some("NonExistent".to_string()),
        range: TextRange::default(),
        kind: wiki(),
    });

    store.upsert_note(note_target);
    store.upsert_note(note_a);

    let model = DendronModel::new("/test".to_string());
    let plan = calculate_audit_diagnostics(&store, &model);

    assert_eq!(plan.diagnostics.len(), 1);
    assert!(plan.diagnostics[0].message.contains("Invalid anchor"));
}

#[test]
fn test_audit_dendron_bare_anchor() {
    let mut store = Store::new();
    let mut identity = IdentityRegistry::new();

    let id_a = identity.get_or_create(&"A".to_string());
    let mut note_a = Note { id: id_a, path: Some("A.md".to_string()), ..Default::default() };
    note_a.links.push(Link {
        target: id_a,
        raw_target: "#forbidden".to_string(),
        alias: None,
        anchor: Some("forbidden".to_string()),
        range: TextRange::default(),
        kind: wiki(),
    });
    store.upsert_note(note_a);

    let model = DendronModel::new("/test".to_string());
    let plan = calculate_audit_diagnostics(&store, &model);

    assert!(plan.diagnostics.len() >= 1);
    assert!(plan.diagnostics.iter().any(|d| d.message.contains("strictly forbids bare anchor")));
}

#[test]
fn audit_messages_and_skipped_links() {
    let mut store = Store::new();
    let id_a = NoteId(1);
    let id_t = NoteId(2);
    let mut note_a = Note { id: id_a, path: Some("A.md".to_string()), ..Default::default() };
    let mut web = link_to(NoteId(99), wiki());
    web.raw_target = "HTTPS://example.com".to_string();
    note_a.links.push(web);
    let mut img = link_to(NoteId(99), LinkKind::MarkdownImage);
    img.raw_target = "pic.png".to_string();
    note_a.links.push(img);
    let mut block = link_to(id_t, wiki());
    block.raw_target = "T".to_string();
    block.anchor = Some("^b1".to_string());
    note_a.links.push(block);
    let mut missing = link_to(id_t, wiki());
    missing.raw_target = "T".to_string();
    missing.anchor = Some("^b2".to_string());
    note_a.links.push(missing);
    store.upsert_note(note_a);
    store.upsert_note(Note {
        id: id_t,
        path: Some("T.md".to_string()),
        blocks: vec![dendrite_core::model::Block { id: "b1".to_string(), range: TextRange::default() }],
        ..Default::default()
    });
    let plan = calculate_audit_diagnostics(&store, &DendronModel::new("/".to_string()));
    assert_eq!(plan.mutation_kind, MutationKind::WorkspaceAudit);
    assert!(!plan.reversible);
    assert_eq!(plan.diagnostics.len(), 1);
    assert_eq!(plan.diagnostics[0].message, "Invalid anchor: '^b2' not found in target note.");
    assert_eq!(plan.diagnostics[0].severity, DiagnosticSeverity::Error);
    assert_eq!(plan.diagnostics[0].uri, Some("A.md".to_string()));
}

fn rename_store() -> (Store, NoteId, NoteId) {
    let mut store = Store::new();
    let id_a = NoteId::new();
    let id_b = NoteId::new();
    let mut note_a = dummy_note(id_a, "A");
    note_a.links.push(link_to(id_b, wiki()));
    store.upsert_note(note_a);
    store.upsert_note(dummy_note(id_b, "B"));
    store.set_outgoing_links(&id_a, vec![id_b]);
    (store, id_a, id_b)
}

#[test]
fn rename_test_rename_note_simple() {
    let (store, _id_a, id_b) = rename_store();
    let strategy = DendronModel::new("/test".to_string());
    let plan = calculate_rename_edits(&store, &MockContentProvider, &strategy, &id_b, "C.md".to_string(), "C")
        .expect("Plan generated");

    assert!(matches!(plan.mutation_kind, MutationKind::RenameNote));
    assert_eq!(plan.edits.len(), 2);

    let rename_group = plan.edits.iter().find(|g| g.uri.ends_with("B.md")).expect("Rename op not found");
    if let Change::ResourceOp(ResourceOperation::RenameFile { new_uri, .. }) = &rename_group.changes[0] {
        assert!(new_uri.ends_with("C.md"));
    } else {
        panic!("Expected RenameFile op");
    }

    let link_group = plan.edits.iter().find(|g| g.uri.ends_with("A.md")).expect("Link update not found");
    if let Change::TextEdit(TextEdit { new_text, .. }) = &link_group.changes[0] {
        assert_eq!(new_text, "[[C]]");
    } else {
        panic!("Expected TextEdit op");
    }
}

#[test]
fn rename_test_rename_preserves_blocks() {
    let mut store = Store::new();
    let old_note = dummy_note(NoteId::new(), "Old Note");
    let note_id = old_note.id;
    let mut ref_note = dummy_note(NoteId::new(), "Referencer");
    let mut link = link_to(note_id, wiki());
    link.anchor = Some("^block-id".to_string());
    ref_note.links.push(link);
    let ref_id = ref_note.id;
    store.upsert_note(old_note);
    store.upsert_note(ref_note);
    store.set_outgoing_links(&ref_id, vec![note_id]);

    let strategy = DendronModel::new("/test".to_string());
    let plan = calculate_rename_edits(&store, &MockContentProvider, &strategy, &note_id, "New Note.md".to_string(), "New Note")
        .expect("Plan generation failed");

    let link_edit = plan
        .edits
        .iter()
        .flat_map(|g| &g.changes)
        .find_map(|c| match c {
            Change::TextEdit(edit) => Some(edit),
            _ => None,
        })
        .expect("Should have link update");

    assert_eq!(link_edit.new_text, "[[New Note#^block-id]]", "Block anchor must be preserved");
}

#[test]
fn test_rename_undo_text_extraction() {
    struct MockWithContent;
    impl ContentProvider for MockWithContent {
        fn get_content(&self, uri: &str) -> Option<String> {
            if uri.contains("Referencer.md") {
                Some("Check [[Old Note]] here.".to_string())
            } else {
                None
            }
        }
    }

    let mut store = Store::new();
    let old_note = dummy_note(NoteId::new(), "Old Note");
    let note_id = old_note.id;
    let mut ref_note = dummy_note(NoteId::new(), "Referencer");
    ref_note.path = Some("Referencer.md".to_string());
    let mut link = link_to(note_id, wiki());
    link.range = TextRange { start: Point { line: 0, col: 6 }, end: Point { line: 0, col: 18 } };
    ref_note.links.push(link);
    let ref_id = ref_note.id;
    store.upsert_note(old_note);
    store.upsert_note(ref_note);
    store.set_outgoing_links(&ref_id, vec![note_id]);

    let strategy = DendronModel::new("/test".to_string());
    let plan = calculate_rename_edits(&store, &MockWithContent, &strategy, &note_id, "New Note.md".to_string(), "New Note")
        .expect("Should generate plan");

    let link_edit = plan
        .edits
        .iter()
        .flat_map(|g| &g.changes)
        .find_map(|c| match c {
            Change::TextEdit(t) => Some(t),
            _ => None,
        })
        .expect("Should have link update");

    assert_eq!(link_edit.undo_text, Some("[[Old Note]]".to_string()));
    assert_eq!(link_edit.new_text, "[[New Note]]");
    assert!(plan.reversible);
}

#[test]
fn rename_markdown_links_point_to_key_file() {
    let mut store = Store::new();
    let id_a = NoteId(10);
    let id_b = NoteId(11);
    let mut note_a = dummy_note(id_a, "A");
    let mut link = link_to(id_b, LinkKind::MarkdownLink);
    link.alias = Some("see".to_string());
    note_a.links.push(link);
    store.upsert_note(note_a);
    store.upsert_note(dummy_note(id_b, "B"));
    store.set_outgoing_links(&id_a, vec![id_b]);
    let plan = calculate_rename_edits(&store, &MockContentProvider, &DendronModel::new("/".to_string()), &id_b, "C.md".to_string(), "C")
        .expect("plan");
    let edit = plan.edits[1].changes[0].clone().text_edit().expect("text edit");
    assert_eq!(edit.new_text, "[see](C.md)");
}

#[test]
fn test_rename_design_invariants() {
    let mut store = Store::new();
    let note_id = NoteId::new();
    let note = Note {
        id: note_id,
        path: Some("folder/Old Name.md".to_string()),
        title: Some("Old Name".to_string()),
        ..Default::default()
    };
    store.upsert_note(note);

    let mut ref_note = dummy_note(NoteId::new(), "Referencer");
    ref_note.links.push(link_to(note_id, wiki()));
    ref_note.path = Some("folder/Referencer.md".to_string());
    let ref_id = ref_note.id;
    store.upsert_note(ref_note);
    store.set_outgoing_links(&ref_id, vec![note_id]);

    let strategy = DendronModel::new("/test".to_string());
    let plan = calculate_rename_edits(
        &store,
        &MockContentProvider,
        &strategy,
        &note_id,
        "folder/New Name.md".to_string(),
        "New Name",
    )
    .expect("Should generate plan");

    assert!(plan.preconditions.contains(&Precondition::NoteExists(note_id.to_uuid_string())));

    let rename_op = plan
        .edits
        .iter()
        .flat_map(|g| &g.changes)
        .find_map(|c| match c {
            Change::ResourceOp(ResourceOperation::RenameFile { new_uri, .. }) => Some(new_uri),
            _ => None,
        })
        .expect("Must have RenameFile op");
    assert!(rename_op.ends_with("New Name.md"), "New URI should end with 'New Name.md', got: {}", rename_op);
    assert!(rename_op.contains("folder"), "Should preserve folder path");

    let link_edit = plan
        .edits
        .iter()
        .flat_map(|g| &g.changes)
        .find_map(|c| match c {
            Change::TextEdit(edit) => Some(edit),
            _ => None,
        })
        .expect("Must have TextEdit for backlink");
    assert_eq!(link_edit.new_text, "[[New Name]]", "Link text must update to new key");
}

#[test]
fn split_plan_refuses_a_column_inside_a_character() {
    let model = DendronModel::new("/test".to_string());
    let inside = TextRange { start: Point { line: 0, col: 1 }, end: Point { line: 0, col: 3 } };
    assert!(split_plan(&model, "a.md", "\u{1F600}xy", inside, "b").is_none());
    let whole = TextRange { start: Point { line: 0, col: 4 }, end: Point { line: 0, col: 6 } };
    let plan = split_plan(&model, "a.md", "\u{1F600}xy", whole, "b").expect("plan");
    assert_eq!(plan.mutation_kind, MutationKind::SplitNote);
    assert_eq!(plan.edits.len(), 2);
}

fn text_group(uri: &str, text: &str) -> EditGroup {
    EditGroup {
        uri: uri.to_string(),
        changes: vec![Change::TextEdit(TextEdit {
            range: TextRange { start: Point { line: 0, col: 0 }, end: Point { line: 0, col: 1 } },
            new_text: text.to_string(),
            undo_text: Some("x".to_string()),
        })],
    }
}

fn rename_group(uri: &str, to: &str) -> EditGroup {
    EditGroup {
        uri: uri.to_string(),
        changes: vec![Change::ResourceOp(ResourceOperation::RenameFile {
            new_uri: to.to_string(),
            overwrite: false,
        })],
    }
}

#[test]
fn sort_groups_orders_by_file_renames_last_and_keeps_ties_in_order() {
    let groups = vec![
        rename_group("b.md", "c.md"),
        text_group("b.md", "first"),
        text_group("a.md", "one"),
        text_group("b.md", "second"),
        text_group("a.md", "two"),
    ];
    let sorted = sort_groups(groups);
    assert_eq!(
        sorted,
        vec![
            text_group("a.md", "one"),
            text_group("a.md", "two"),
            text_group("b.md", "first"),
            text_group("b.md", "second"),
            rename_group("b.md", "c.md"),
        ]
    );
}

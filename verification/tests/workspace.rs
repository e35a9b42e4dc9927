use dendrite_core::config::DendriteConfig;
use dendrite_core::model::{NoteId, Point};
use dendrite_core::mutation::{ContentProvider, MutationKind};
use dendrite_core::semantic::DendronModel;
use dendrite_core::vfs::VfsMetadata;
use dendrite_core::workspace::{IndexingStats, Workspace};

struct NoContent;
impl ContentProvider for NoContent {
    fn get_content(&self, _uri: &str) -> Option<String> {
        None
    }
}

fn ws() -> Workspace<DendronModel> {
    Workspace::new(DendriteConfig::default(), DendronModel::new("/vault".to_string()))
}

fn open(ws: &mut Workspace<DendronModel>, path: &str, content: &str) -> NoteId {
    ws.update_content(path.to_string(), content, "main".to_string(), None);
    *ws.store.note_id_by_path(path).expect("bound")
}

#[test]
fn parse_note_resolves_links_to_the_target_id() {
    let mut w = ws();
    let id2 = open(&mut w, "/vault/note2.md", "# Note 2");
    let id1 = open(&mut w, "/vault/note1.md", "# Note 1\n\n[[note2]]");
    let note1 = w.store.get_note(&id1).unwrap();
    assert_eq!(note1.links.len(), 1);
    assert_eq!(note1.links[0].target, id2);
    assert_eq!(w.store.backlinks_of(&id2), vec![id1]);
    assert_eq!(note1.title, Some("Note 1".to_string()));
    assert_eq!(note1.vault_name, "main");
}

#[test]
fn note_id_is_stable_on_rename_and_content_change() {
    let mut w = ws();
    let id = open(&mut w, "/vault/note1.md", "# Note 1\n\nContent");
    w.update_content("/vault/note1.md".to_string(), "# Note 1\n\nChanged", "main".to_string(), None);
    assert_eq!(*w.store.note_id_by_path("/vault/note1.md").unwrap(), id);

    w.rename_file(
        "/vault/note1.md".to_string(),
        "/vault/note2.md".to_string(),
        "# Note 1\n\nChanged",
        "main".to_string(),
        None,
    );
    assert_eq!(*w.store.note_id_by_path("/vault/note2.md").unwrap(), id);
    assert_eq!(w.identity.key_of(&id), Some("note2".to_string()));
    assert!(w.store.note_id_by_path("/vault/note1.md").is_none());
}

#[test]
fn new_files_get_new_ids() {
    let mut w = ws();
    let a = open(&mut w, "/vault/a.md", "# A");
    let b = open(&mut w, "/vault/b.md", "# B");
    assert_ne!(a, b);
}

#[test]
fn backlinks_follow_a_renamed_source() {
    let mut w = ws();
    let target = open(&mut w, "/vault/target.md", "# T");
    let source = open(&mut w, "/vault/source.md", "[[target]]");
    w.rename_file(
        "/vault/source.md".to_string(),
        "/vault/source2.md".to_string(),
        "[[target]]",
        "main".to_string(),
        None,
    );
    assert_eq!(w.backlinks_of("/vault/target.md"), vec!["/vault/source2.md".to_string()]);
    assert_eq!(w.store.backlinks_of(&target), vec![source]);
}

#[test]
fn deleting_a_file_removes_its_note_and_backlinks() {
    let mut w = ws();
    let target = open(&mut w, "/vault/target.md", "# T");
    let source = open(&mut w, "/vault/source.md", "[[target]]");
    w.delete_file("/vault/source.md");
    assert!(w.store.get_note(&source).is_none());
    assert!(w.store.backlinks_of(&target).is_empty());
    assert!(w.backlinks_of("/vault/target.md").is_empty());
}

#[test]
fn find_link_at_position_and_target_path() {
    let mut w = ws();
    open(&mut w, "/vault/target.md", "# T");
    open(&mut w, "/vault/source.md", "See [[target]] and [[other]]");
    let link = w.find_link_at_position("/vault/source.md", Point { line: 0, col: 6 }).expect("link");
    assert_eq!(link.raw_target, "target");
    assert_eq!(w.get_link_target_path(link), Some("/vault/target.md".to_string()));
    let second = w.find_link_at_position("/vault/source.md", Point { line: 0, col: 20 }).expect("link");
    assert_eq!(second.raw_target, "other");
    assert_eq!(w.get_link_target_path(second), None);
    assert!(w.find_link_at_position("/vault/source.md", Point { line: 0, col: 1 }).is_none());
    assert!(w.find_link_at_position("/vault/missing.md", Point { line: 0, col: 6 }).is_none());
}

#[test]
fn all_note_keys_give_keys_and_titles() {
    let mut w = ws();
    open(&mut w, "/vault/note1.md", "# Note One");
    open(&mut w, "/vault/note2.md", "# Note Two");
    open(&mut w, "/vault/note3.md", "No title here");
    let mut keys = w.all_note_keys();
    keys.sort();
    assert_eq!(
        keys,
        vec![
            ("note1".to_string(), "Note One".to_string()),
            ("note2".to_string(), "Note Two".to_string()),
            ("note3".to_string(), String::new()),
        ]
    );
}

#[test]
fn virtual_notes_fill_missing_parents() {
    let mut w = ws();
    open(&mut w, "/vault/foo.bar.baz.md", "# Baz");
    w.fill_missing_hierarchy_levels();
    assert_eq!(w.all_notes().len(), 3);
    for key in ["foo", "foo.bar"] {
        let id = w.identity.lookup(&key.to_string()).expect("virtual key");
        let note = w.store.get_note(&id).expect("virtual note");
        assert!(note.path.is_none());
    }
    let baz = w.lookup_note("foo.bar.baz").expect("real note");
    assert!(baz.path.is_some());
    w.fill_missing_hierarchy_levels();
    assert_eq!(w.all_notes().len(), 3);
}

#[test]
fn tree_links_children_to_parents() {
    let mut w = ws();
    let foo = open(&mut w, "/vault/foo.md", "# Foo");
    let foobar = open(&mut w, "/vault/foo.bar.md", "# Foo Bar");
    let baz = open(&mut w, "/vault/foo.bar.baz.md", "# Foo Bar Baz");
    let tree = w.build_tree();
    assert_eq!(tree.root_nodes, vec![foo]);
    assert_eq!(tree.children.get(&foo.0), Some(&vec![foobar]));
    assert_eq!(tree.children.get(&foobar.0), Some(&vec![baz]));
    assert_eq!(tree.parent.get(&baz.0), Some(&foobar));

    let view = w.get_tree_view();
    assert_eq!(view.len(), 1);
    assert_eq!(view[0].note.key, Some("foo".to_string()));
    assert_eq!(view[0].note.id, foo.to_uuid_string());
    let child = &view[0].children[0];
    assert_eq!(child.note.key, Some("foo.bar".to_string()));
    assert_eq!(child.note.title, Some("Foo Bar".to_string()));
    assert!(child.note.path.as_ref().unwrap().starts_with("file://"));
}

#[test]
fn virtual_notes_appear_in_the_tree_view() {
    let mut w = ws();
    open(&mut w, "/vault/foo.bar.baz.md", "# Baz");
    w.fill_missing_hierarchy_levels();
    let view = w.get_tree_view();
    let foo = view.iter().find(|n| n.note.key == Some("foo".to_string())).expect("foo");
    assert!(foo.note.path.is_none());
    assert!(foo.note.title.is_none());
    let foobar = foo.children.iter().find(|n| n.note.key == Some("foo.bar".to_string())).expect("foo.bar");
    let baz = foobar.children.iter().find(|n| n.note.key == Some("foo.bar.baz".to_string())).expect("baz");
    assert_eq!(baz.note.title, Some("Baz".to_string()));
    assert!(baz.note.path.is_some());
}

#[test]
fn link_anchors_resolve_to_headings_and_blocks() {
    let mut w = ws();
    let content = "# Heading 1\n\nSome text ^block-1\n\n## Heading 2\n\nMore text ^block-2";
    open(&mut w, "/vault/target.md", content);
    open(&mut w, "/vault/source.md", "[[target#heading-1]], [[target#^block-2]], [[target#^end]], [[target#nope]]");
    let note = w.note_by_path("/vault/source.md").unwrap();
    assert_eq!(note.links.len(), 4);
    let r1 = w.resolve_link_anchor(&note.links[0]).unwrap();
    assert_eq!((r1.start.line, r1.start.col), (0, 0));
    let r2 = w.resolve_link_anchor(&note.links[1]).unwrap();
    assert_eq!(r2.start.line, 6);
    let r3 = w.resolve_link_anchor(&note.links[2]).unwrap();
    assert_eq!(r3.end, Point { line: u32::MAX, col: 0 });
    assert!(w.resolve_link_anchor(&note.links[3]).is_none());
}

#[test]
fn workspace_plans_for_create_delete_rename_move() {
    let mut w = ws();
    open(&mut w, "/vault/a.md", "# A");
    open(&mut w, "/vault/b.md", "[[a]]");

    let create = w.create_note(&"new.note".to_string()).expect("plan");
    assert_eq!(create.mutation_kind, MutationKind::CreateNote);
    assert_eq!(create.edits[0].uri, "/vault/new.note.md");

    let delete = w.delete_note("a").expect("plan");
    assert_eq!(delete.mutation_kind, MutationKind::DeleteNote);
    assert_eq!(delete.edits[0].uri, "/vault/a.md");
    assert!(w.delete_note("nothing").is_none());

    let rename = w.rename_note(&NoContent, "a", "c").expect("plan");
    assert_eq!(rename.mutation_kind, MutationKind::RenameNote);
    assert_eq!(rename.edits.len(), 2);

    let moved = w.move_note(&NoContent, "/vault/a.md", "/vault/sub/a.md".to_string()).expect("plan");
    assert_eq!(moved.mutation_kind, MutationKind::MoveNote);
    assert!(w.move_note(&NoContent, "/vault/zz.md", "/vault/y.md".to_string()).is_none());

    let audit = w.audit();
    assert_eq!(audit.mutation_kind, MutationKind::WorkspaceAudit);
}

#[test]
fn vault_names_come_from_the_config() {
    let w = ws();
    assert_eq!(w.vault_name_for_path("./notes/a.md"), Some("main".to_string()));
    assert_eq!(w.vault_name_for_path("/elsewhere/a.md"), None);
}

#[test]
fn indexing_skips_unchanged_files() {
    let mut w = ws();
    let meta = VfsMetadata { mtime: 42, len: 3 };
    let mut stats = IndexingStats::default();
    assert!(!w.unchanged_since_indexed("/vault/a.md", &meta));
    w.index_content("/vault/a.md".to_string(), "# A", "main".to_string(), Some(meta), &mut stats);
    assert_eq!(stats.full_parses, 1);
    assert!(w.unchanged_since_indexed("/vault/a.md", &meta));

    let touched = VfsMetadata { mtime: 43, len: 3 };
    assert!(!w.unchanged_since_indexed("/vault/a.md", &touched));
    w.index_content("/vault/a.md".to_string(), "# A", "main".to_string(), Some(touched), &mut stats);
    assert_eq!(stats.tier2_hits, 1);
    assert_eq!(stats.full_parses, 1);
    assert!(w.unchanged_since_indexed("/vault/a.md", &touched));
}

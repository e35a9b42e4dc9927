use std::cell::RefCell;
use std::collections::HashMap;

use dendrite_core::cache::{CacheError, FileMetadata, CURRENT_VERSION};
use dendrite_core::config::{DendriteConfig, VaultConfig};
use dendrite_core::model::{NoteId, Point};
use dendrite_core::semantic::DendronModel;
use dendrite_core::vfs::{FileSystem, VfsMetadata};
use dendrite_core::workspace::engine::DendriteEngine;
use dendrite_core::workspace::Workspace;

/// Files kept in memory; every write bumps the modification time.
struct MemFs {
    files: RefCell<HashMap<String, (String, u128)>>,
    clock: RefCell<u128>,
}

impl MemFs {
    fn new() -> Self {
        MemFs { files: RefCell::new(HashMap::new()), clock: RefCell::new(0) }
    }

    fn put(&self, path: &str, content: &str) {
        let mut clock = self.clock.borrow_mut();
        *clock += 1;
        self.files.borrow_mut().insert(path.to_string(), (content.to_string(), *clock));
    }

    fn remove(&self, path: &str) {
        self.files.borrow_mut().remove(path);
    }
}

impl FileSystem for MemFs {
    fn read_to_string(&self, path: &str) -> Option<String> {
        self.files.borrow().get(path).map(|(c, _)| c.clone())
    }

    fn read_all(&self, path: &str) -> Option<Vec<u8>> {
        self.read_to_string(path).map(|c| c.into_bytes())
    }

    fn write_all(&self, path: &str, bytes: &[u8]) -> Result<(), String> {
        let text = String::from_utf8(bytes.to_vec()).map_err(|e| e.to_string())?;
        self.put(path, &text);
        Ok(())
    }

    fn list_files(&self, root: &str, extension: &str) -> Vec<String> {
        let prefix = format!("{}/", root);
        let suffix = format!(".{}", extension);
        let mut found: Vec<String> = self
            .files
            .borrow()
            .keys()
            .filter(|p| p.starts_with(&prefix) && p.ends_with(&suffix))
            .cloned()
            .collect();
        found.sort();
        found
    }

    fn metadata(&self, path: &str) -> Option<VfsMetadata> {
        self.files
            .borrow()
            .get(path)
            .map(|(c, t)| VfsMetadata { mtime: *t, len: c.len() as u64 })
    }
}

fn engine_with_root(root: &str) -> DendriteEngine<DendronModel, MemFs> {
    let mut config = DendriteConfig::default();
    config.workspace.vaults = vec![VaultConfig { name: "main".to_string(), path: root.to_string() }];
    DendriteEngine::new(Workspace::new(config, DendronModel::new(root.to_string())), MemFs::new())
}

fn engine() -> DendriteEngine<DendronModel, MemFs> {
    engine_with_root("/ws")
}

fn open(e: &mut DendriteEngine<DendronModel, MemFs>, path: &str, content: &str) -> NoteId {
    e.fs.put(path, content);
    e.update_content(path.to_string(), content);
    *e.workspace.store.note_id_by_path(path).expect("bound")
}

fn two_vault_config() -> DendriteConfig {
    let mut config = DendriteConfig::default();
    config.workspace.vaults = vec![
        VaultConfig { name: "vault1".to_string(), path: "/ws/vault1".to_string() },
        VaultConfig { name: "vault2".to_string(), path: "/ws/vault2".to_string() },
    ];
    config
}

#[test]
fn test_multi_vault_initialization() {
    let fs = MemFs::new();
    fs.put("/ws/vault1/note1.md", "# Note 1");
    fs.put("/ws/vault2/note2.md", "# Note 2");
    let mut engine =
        DendriteEngine::new(Workspace::new(two_vault_config(), DendronModel::new("/ws".to_string())), fs);
    let (files, stats) = engine.initialize("/ws".to_string());
    assert_eq!(files.len(), 2);
    assert_eq!(stats.total_files, 2);
    assert_eq!(stats.full_parses, 2);

    let id1 = *engine.workspace.store.note_id_by_path("/ws/vault1/note1.md").expect("note1 should exist");
    let note1 = engine.workspace.store.get_note(&id1).expect("note1 should exist");
    assert_eq!(note1.vault_name, "vault1");
    let id2 = *engine.workspace.store.note_id_by_path("/ws/vault2/note2.md").expect("note2 should exist");
    let note2 = engine.workspace.store.get_note(&id2).expect("note2 should exist");
    assert_eq!(note2.vault_name, "vault2");
}

#[test]
fn test_vault_resolution() {
    let ws = Workspace::new(two_vault_config(), DendronModel::new("/ws".to_string()));
    assert_eq!(ws.vault_name_for_path("/ws/vault1/foo.md"), Some("vault1".to_string()));
    assert_eq!(ws.vault_name_for_path("/ws/vault2/bar/baz.md"), Some("vault2".to_string()));
    assert_eq!(ws.vault_name_for_path("/ws/other/file.md"), None);
}

#[test]
fn a_second_index_run_reads_nothing_unchanged() {
    let mut e = engine();
    e.fs.put("/ws/a.md", "# A");
    e.fs.put("/ws/b.md", "# B");
    let (_, first) = e.initialize("/ws".to_string());
    assert_eq!(first.full_parses, 2);
    let (_, second) = e.initialize("/ws".to_string());
    assert_eq!(second.tier1_hits, 2);
    assert_eq!(second.full_parses, 0);

    e.fs.put("/ws/a.md", "# A");
    let (_, third) = e.initialize("/ws".to_string());
    assert_eq!(third.tier1_hits, 1);
    assert_eq!(third.tier2_hits, 1);
    assert_eq!(third.full_parses, 0);

    e.fs.put("/ws/a.md", "# A changed");
    let (_, fourth) = e.initialize("/ws".to_string());
    assert_eq!(fourth.full_parses, 1);
    assert_eq!(e.workspace.note_by_path("/ws/a.md").unwrap().title, Some("A changed".to_string()));
}

#[test]
fn full_index_fills_missing_hierarchy_levels() {
    let mut e = engine();
    e.fs.put("/ws/foo.bar.baz.md", "# Baz");
    e.initialize("/ws".to_string());
    assert_eq!(e.workspace.all_notes().len(), 3);
    assert!(e.workspace.lookup_note("foo").unwrap().path.is_none());
    assert!(e.workspace.lookup_note("foo.bar").unwrap().path.is_none());
    assert!(e.workspace.lookup_note("foo.bar.baz").unwrap().path.is_some());
}

#[test]
fn test_note_id_stable_on_file_rename() {
    let mut e = engine();
    let id = open(&mut e, "/ws/note1.md", "# Note 1\n\nContent");
    e.fs.remove("/ws/note1.md");
    e.fs.put("/ws/note2.md", "# Note 1\n\nContent");
    e.rename_file("/ws/note1.md".to_string(), "/ws/note2.md".to_string(), "# Note 1\n\nContent");
    assert_eq!(*e.workspace.store.note_id_by_path("/ws/note2.md").unwrap(), id);
}

#[test]
fn test_note_id_stable_on_file_content_change() {
    let mut e = engine();
    let id = open(&mut e, "/ws/note.md", "# Note\n\nInitial content");
    let again = open(&mut e, "/ws/note.md", "# Note\n\nModified content");
    assert_eq!(id, again);
}

#[test]
fn test_note_id_stable_on_file_move() {
    let mut e = engine();
    let id = open(&mut e, "/ws/note1.md", "# Note 1\n\nContent");
    e.fs.remove("/ws/note1.md");
    e.fs.put("/ws/subdir/note1.md", "# Note 1\n\nContent");
    e.rename_file("/ws/note1.md".to_string(), "/ws/subdir/note1.md".to_string(), "# Note 1\n\nContent");
    assert_eq!(*e.workspace.store.note_id_by_path("/ws/subdir/note1.md").unwrap(), id);
}

#[test]
fn test_new_file_creates_new_note_id() {
    let mut e = engine();
    let id1 = open(&mut e, "/ws/note1.md", "# Note 1");
    let id2 = open(&mut e, "/ws/note2.md", "# Note 2");
    assert_ne!(id1, id2);
}

#[test]
fn test_backlinks_maintained_after_rename() {
    let mut e = engine();
    let note2_id = open(&mut e, "/ws/note2.md", "# Note 2");
    open(&mut e, "/ws/note1.md", "# Note 1\n\n[[note2]]");
    assert!(e.workspace.backlinks_of("/ws/note2.md").contains(&"/ws/note1.md".to_string()));
    e.fs.remove("/ws/note2.md");
    e.fs.put("/ws/note2_renamed.md", "# Note 2");
    e.rename_file("/ws/note2.md".to_string(), "/ws/note2_renamed.md".to_string(), "# Note 2");
    assert_eq!(*e.workspace.store.note_id_by_path("/ws/note2_renamed.md").unwrap(), note2_id);
    assert!(e.workspace.backlinks_of("/ws/note2_renamed.md").contains(&"/ws/note1.md".to_string()));
}

#[test]
fn test_links_updated_after_content_change() {
    let mut e = engine();
    let id = open(&mut e, "/ws/note.md", "# Note\n\n[[target1]]");
    open(&mut e, "/ws/note.md", "# Note\n\n[[target2]]");
    let note = e.workspace.note_by_path("/ws/note.md").unwrap();
    assert_eq!(note.links.len(), 1);
    assert_eq!(note.links[0].raw_target, "target2");
    assert_eq!(note.id, id);
}

#[test]
fn test_semantic_rename_preserves_note_id() {
    let mut e = engine();
    let id = open(&mut e, "/ws/old_name.md", "# Old Name");
    e.rename_file("/ws/old_name.md".to_string(), "/ws/new_name.md".to_string(), "# Old Name");
    let new_key = e.workspace.identity.key_of(&id).unwrap();
    assert_eq!(new_key, "new_name");
    assert_eq!(e.workspace.identity.lookup(&new_key), Some(id));
}

#[test]
fn test_find_link_at_position() {
    let mut e = engine();
    open(&mut e, "/ws/target.md", "# Target");
    open(&mut e, "/ws/source.md", "# Source\n\nThis is a link: [[target]]");
    let note = e.workspace.note_by_path("/ws/source.md").unwrap();
    assert_eq!(note.links.len(), 1);
    let range = note.links[0].range;
    let at_start = e.workspace.find_link_at_position("/ws/source.md", range.start).expect("start");
    assert_eq!(at_start.target, note.links[0].target);
    let middle = Point { line: range.start.line, col: range.start.col + 2 };
    assert!(e.workspace.find_link_at_position("/ws/source.md", middle).is_some());
    assert!(e.workspace.find_link_at_position("/ws/source.md", range.end).is_some());
}

#[test]
fn test_find_link_at_position_not_found() {
    let mut e = engine();
    open(&mut e, "/ws/target.md", "# Target");
    open(&mut e, "/ws/source.md", "# Source\n\nThis is a link: [[target]]");
    let note = e.workspace.note_by_path("/ws/source.md").unwrap();
    assert_eq!(note.links.len(), 1);
    let range = note.links[0].range;
    let before = Point { line: range.start.line, col: if range.start.col > 0 { range.start.col - 1 } else { 0 } };
    assert!(e.workspace.find_link_at_position("/ws/source.md", before).is_none());
    let after = Point { line: range.end.line, col: range.end.col + 1 };
    assert!(e.workspace.find_link_at_position("/ws/source.md", after).is_none());
    assert!(e.workspace.find_link_at_position("/ws/source.md", Point { line: 0, col: 5 }).is_none());
}

#[test]
fn test_find_link_at_position_multiple_links() {
    let mut e = engine();
    open(&mut e, "/ws/target1.md", "# Target 1");
    open(&mut e, "/ws/target2.md", "# Target 2");
    open(&mut e, "/ws/source.md", "# Source\n\n[[target1]] and [[target2]]");
    let note = e.workspace.note_by_path("/ws/source.md").unwrap();
    assert_eq!(note.links.len(), 2);
    let first = e.workspace.find_link_at_position("/ws/source.md", note.links[0].range.start).expect("first");
    assert_eq!(first.target, note.links[0].target);
    let second = e.workspace.find_link_at_position("/ws/source.md", note.links[1].range.start).expect("second");
    assert_eq!(second.target, note.links[1].target);
}

#[test]
fn test_get_link_target_path() {
    let mut e = engine();
    open(&mut e, "/ws/target.md", "# Target");
    open(&mut e, "/ws/source.md", "# Source\n\n[[target]]");
    let note = e.workspace.note_by_path("/ws/source.md").unwrap();
    assert_eq!(note.links.len(), 1);
    assert_eq!(e.workspace.get_link_target_path(&note.links[0]), Some("/ws/target.md".to_string()));
}

#[test]
fn test_get_link_target_path_nonexistent() {
    let mut e = engine();
    open(&mut e, "/ws/source.md", "# Source\n\n[[nonexistent]]");
    let note = e.workspace.note_by_path("/ws/source.md").unwrap();
    assert_eq!(note.links.len(), 1);
    assert!(e.workspace.get_link_target_path(&note.links[0]).is_none());
}

#[test]
fn test_find_link_at_position_and_get_target_path_integration() {
    let mut e = engine();
    open(&mut e, "/ws/target.md", "# Target Note");
    open(&mut e, "/ws/source.md", "# Source Note\n\nCheck out [[target]] for more info.");
    let note = e.workspace.note_by_path("/ws/source.md").unwrap();
    let range = note.links[0].range;
    let inside = Point { line: range.start.line, col: range.start.col + 3 };
    let found = e.workspace.find_link_at_position("/ws/source.md", inside).expect("link");
    assert_eq!(e.workspace.get_link_target_path(found), Some("/ws/target.md".to_string()));
}

#[test]
fn test_all_note_keys() {
    let mut e = engine();
    open(&mut e, "/ws/note1.md", "# Note One");
    open(&mut e, "/ws/note2.md", "# Note Two");
    open(&mut e, "/ws/note3.md", "No title here");
    let keys = e.workspace.all_note_keys();
    assert_eq!(keys.len(), 3);
    let names: Vec<String> = keys.iter().map(|(k, _)| k.clone()).collect();
    let titles: Vec<String> = keys.iter().map(|(_, d)| d.clone()).collect();
    for k in ["note1", "note2", "note3"] {
        assert!(names.contains(&k.to_string()));
    }
    assert!(titles.contains(&"Note One".to_string()));
    assert!(titles.contains(&"Note Two".to_string()));
    assert!(titles.contains(&String::new()));
}

#[test]
fn test_virtual_notes_created_for_missing_parents() {
    let mut e = engine();
    e.fs.put("/ws/foo.bar.baz.md", "# Baz");
    e.initialize("/ws".to_string());
    assert_eq!(e.workspace.store.all_notes().len(), 3);
    for key in ["foo", "foo.bar"] {
        let id = e.workspace.identity.lookup(&key.to_string()).expect("virtual key");
        let note = e.workspace.store.get_note(&id).expect("virtual note");
        assert!(note.path.is_none());
    }
    let id = e.workspace.identity.lookup(&"foo.bar.baz".to_string()).expect("real key");
    assert!(e.workspace.store.get_note(&id).unwrap().path.is_some());
}

#[test]
fn test_tree_structure_built_correctly() {
    let mut e = engine();
    e.fs.put("/ws/foo.md", "# Foo");
    e.fs.put("/ws/foo.bar.md", "# Foo Bar");
    e.fs.put("/ws/foo.bar.baz.md", "# Foo Bar Baz");
    e.initialize("/ws".to_string());
    let tree = e.workspace.build_tree();
    let foo = e.workspace.identity.lookup(&"foo".to_string()).unwrap();
    let foobar = e.workspace.identity.lookup(&"foo.bar".to_string()).unwrap();
    let baz = e.workspace.identity.lookup(&"foo.bar.baz".to_string()).unwrap();
    assert!(tree.root_nodes.contains(&foo));
    assert!(tree.children.get(&foo.0).map(|c| c.contains(&foobar)).unwrap_or(false));
    assert!(tree.children.get(&foobar.0).map(|c| c.contains(&baz)).unwrap_or(false));
    assert_eq!(tree.parent.get(&foobar.0), Some(&foo));
    assert_eq!(tree.parent.get(&baz.0), Some(&foobar));
}

#[test]
fn test_tree_invalidated_on_file_changes() {
    let mut e = engine();
    e.fs.put("/ws/test.md", "# Test");
    e.initialize("/ws".to_string());
    let before = e.workspace.build_tree().root_nodes.len();
    open(&mut e, "/ws/test2.md", "# Test 2");
    let grown = e.workspace.build_tree().root_nodes.len();
    assert!(grown > before);
    e.fs.remove("/ws/test.md");
    e.delete_file("/ws/test.md");
    assert!(e.workspace.build_tree().root_nodes.len() < grown);
}

#[test]
fn test_get_tree_view() {
    let mut e = engine();
    e.fs.put("/ws/foo.md", "# Foo");
    e.fs.put("/ws/foo.bar.md", "# Foo Bar");
    e.initialize("/ws".to_string());
    let view = e.workspace.get_tree_view();
    assert!(!view.is_empty());
    let foo = view.iter().find(|n| n.note.key == Some("foo".to_string())).expect("foo");
    assert!(!foo.children.is_empty());
    let foobar = foo.children.iter().find(|n| n.note.key == Some("foo.bar".to_string())).expect("foo.bar");
    assert_eq!(foobar.note.key, Some("foo.bar".to_string()));
    assert!(foobar.note.path.is_some());
    assert_eq!(foobar.note.title, Some("Foo Bar".to_string()));
}

#[test]
fn test_virtual_notes_in_tree_view() {
    let mut e = engine();
    e.fs.put("/ws/foo.bar.baz.md", "# Baz");
    e.initialize("/ws".to_string());
    let view = e.workspace.get_tree_view();
    let foo = view.iter().find(|n| n.note.key == Some("foo".to_string())).expect("foo");
    assert!(foo.note.path.is_none());
    assert!(foo.note.title.is_none());
    let foobar = foo.children.iter().find(|n| n.note.key == Some("foo.bar".to_string())).expect("foo.bar");
    let baz = foobar.children.iter().find(|n| n.note.key == Some("foo.bar.baz".to_string())).expect("baz");
    assert!(baz.note.path.is_some());
    assert_eq!(baz.note.title, Some("Baz".to_string()));
}

#[test]
fn test_resolve_link_anchor() {
    let mut e = engine();
    let target = "# Heading 1\n\nSome text ^block-1\n\n## Heading 2\n\nMore text ^block-2";
    let target_id = open(&mut e, "/ws/target.md", target);
    open(&mut e, "/ws/source.md", "[[target#Heading 1]], [[target#^block-2]]");
    let note = e.workspace.note_by_path("/ws/source.md").unwrap();
    assert_eq!(note.links.len(), 2);
    let r1 = e.workspace.resolve_link_anchor(&note.links[0]).unwrap();
    assert_eq!(r1.start.line, 0);
    assert_eq!(r1.start.col, 0);
    let r2 = e.workspace.resolve_link_anchor(&note.links[1]).unwrap();
    assert_eq!(r2.start.line, 6);
    assert_eq!(e.workspace.store.get_note(&target_id).unwrap().blocks[1].id, "block-2");
}

#[test]
fn engine_plans_read_the_file_system() {
    let mut e = engine();
    open(&mut e, "/ws/a.md", "# A");
    open(&mut e, "/ws/b.md", "See [[a]] here");
    let plan = e.rename_note("a", "c").expect("plan");
    assert_eq!(plan.edits.len(), 2);
    assert!(e.rename_note("nothing", "c").is_none());
    assert!(e.delete_note("a").is_some());
    assert!(e.create_note(&"d".to_string()).is_some());
    assert_eq!(e.audit().edits.len(), 0);
}

#[test]
fn saved_state_is_restored() {
    let mut e = engine();
    e.fs.put("/ws/note1.md", "# Note 1\n\n[[note2]]");
    e.initialize("/ws".to_string());
    let id = *e.workspace.store.note_id_by_path("/ws/note1.md").unwrap();
    let entries = e.workspace.identity.entries();
    let notes: Vec<_> = e.workspace.all_notes().into_iter().cloned().collect();
    let meta: Vec<(String, FileMetadata)> = vec![(
        "/ws/note1.md".to_string(),
        e.workspace.cache_metadata.get("/ws/note1.md").unwrap().clone(),
    )];

    let mut fresh = engine();
    fresh.fs.put("/ws/note1.md", "# Note 1\n\n[[note2]]");
    let r = fresh.workspace.restore_state(CURRENT_VERSION, "Dendron", &entries, notes, &meta);
    assert_eq!(r, Ok(()));
    assert_eq!(*fresh.workspace.store.note_id_by_path("/ws/note1.md").unwrap(), id);
    assert_eq!(fresh.workspace.note_by_path("/ws/note1.md").unwrap().links.len(), 1);
    let target = fresh.workspace.note_by_path("/ws/note1.md").unwrap().links[0].target;
    assert_eq!(fresh.workspace.store.backlinks_of(&target), vec![id]);
    let (_, stats) = fresh.initialize("/ws".to_string());
    assert_eq!(stats.tier1_hits, 1);
    assert_eq!(stats.full_parses, 0);
}

#[test]
fn saved_state_is_refused_when_it_does_not_fit() {
    let mut e = engine();
    let id = open(&mut e, "/ws/a.md", "# A");
    let notes = || vec![e.workspace.note_by_path("/ws/a.md").unwrap().clone()];
    let entries = e.workspace.identity.entries();
    let mut w = Workspace::new(DendriteConfig::default(), DendronModel::new("/ws".to_string()));
    assert_eq!(w.restore_state(CURRENT_VERSION + 1, "Dendron", &entries, notes(), &vec![]), Err(CacheError::IncompatibleVersion));
    assert_eq!(w.restore_state(CURRENT_VERSION, "Obsidian", &entries, notes(), &vec![]), Err(CacheError::ModelMismatch));
    let twice = vec![("a".to_string(), id), ("b".to_string(), id)];
    assert_eq!(w.restore_state(CURRENT_VERSION, "Dendron", &twice, notes(), &vec![]), Err(CacheError::Inconsistent));
    assert_eq!(w.restore_state(CURRENT_VERSION, "Dendron", &vec![], notes(), &vec![]), Err(CacheError::Inconsistent));
    assert!(w.store.note_id_by_path("/ws/a.md").is_none());
}

#[test]
fn registry_entries_round_trip() {
    let mut e = engine();
    let a = open(&mut e, "/ws/a.md", "# A\n\n[[b]]");
    let entries = e.workspace.identity.entries();
    assert_eq!(entries.len(), 2);
    let restored = dendrite_core::identity::IdentityRegistry::from_entries(&entries).expect("distinct");
    assert_eq!(restored.lookup(&"a".to_string()), Some(a));
    assert_eq!(restored.lookup(&"b".to_string()), e.workspace.identity.lookup(&"b".to_string()));
    assert!(dendrite_core::identity::IdentityRegistry::from_entries(&vec![
        ("x".to_string(), NoteId(1)),
        ("x".to_string(), NoteId(2)),
    ])
    .is_none());
}

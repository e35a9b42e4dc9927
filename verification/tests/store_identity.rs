use dendrite_core::identity::IdentityRegistry;
use dendrite_core::line_map::LineMap;
use dendrite_core::model::{Link, Note, NoteId, Point};
use dendrite_core::semantic::{DendronModel, SemanticModel};
use dendrite_core::store::Store;

#[test]
fn get_or_create_is_idempotent_and_lookup_round_trips() {
    let mut reg = IdentityRegistry::new();
    let a = reg.get_or_create(&"a".to_string());
    let again = reg.get_or_create(&"a".to_string());
    let b = reg.get_or_create(&"b".to_string());
    assert_eq!(a, again);
    assert_ne!(a, b);
    assert_eq!(reg.lookup(&"a".to_string()), Some(a));
    assert_eq!(reg.key_of(&a), Some("a".to_string()));
    assert_eq!(reg.lookup(&"zz".to_string()), None);
}

#[test]
fn rebind_keeps_the_identifier() {
    let mut reg = IdentityRegistry::new();
    let a = reg.get_or_create(&"a".to_string());
    assert_eq!(reg.rebind(&"a".to_string(), &"b".to_string()), Some(a));
    assert_eq!(reg.lookup(&"a".to_string()), None);
    assert_eq!(reg.lookup(&"b".to_string()), Some(a));
    assert_eq!(reg.key_of(&a), Some("b".to_string()));
    assert_eq!(reg.rebind(&"nothing".to_string(), &"c".to_string()), None);
}

#[test]
fn new_ids_are_version_4_uuids() {
    let id = NoteId::new();
    assert_eq!((id.0 >> 76) & 0xF, 4);
    let text = id.to_uuid_string();
    assert_eq!(text.len(), 36);
    assert_eq!(text.chars().nth(14), Some('4'));
}

fn note(id: u128, path: Option<&str>) -> Note {
    Note { id: NoteId(id), path: path.map(|p| p.to_string()), ..Default::default() }
}

#[test]
fn upsert_binds_and_rebinds_paths() {
    let mut store = Store::new();
    store.upsert_note(note(1, Some("a.md")));
    assert_eq!(store.note_id_by_path("a.md"), Some(&NoteId(1)));
    store.upsert_note(note(1, Some("b.md")));
    assert_eq!(store.note_id_by_path("a.md"), None);
    assert_eq!(store.note_id_by_path("b.md"), Some(&NoteId(1)));
    store.update_path(&NoteId(1), "c.md".to_string());
    assert_eq!(store.note_id_by_path("b.md"), None);
    assert_eq!(store.get_note(&NoteId(1)).unwrap().path, Some("c.md".to_string()));
    store.bind_path("alias.md".to_string(), NoteId(1));
    assert_eq!(store.note_id_by_path("alias.md"), Some(&NoteId(1)));
}

#[test]
fn outgoing_links_maintain_backlinks() {
    let mut store = Store::new();
    store.upsert_note(note(1, Some("a.md")));
    store.upsert_note(note(2, Some("b.md")));
    store.upsert_note(note(3, Some("c.md")));
    store.set_outgoing_links(&NoteId(1), vec![NoteId(2), NoteId(3), NoteId(2)]);
    assert_eq!(store.backlinks_of(&NoteId(2)), vec![NoteId(1)]);
    assert_eq!(store.backlinks_of(&NoteId(3)), vec![NoteId(1)]);
    let links: Vec<NoteId> = store.get_note(&NoteId(1)).unwrap().links.iter().map(|l: &Link| l.target).collect();
    assert_eq!(links, vec![NoteId(2), NoteId(3), NoteId(2)]);

    store.set_outgoing_links(&NoteId(1), vec![NoteId(3)]);
    assert!(store.backlinks_of(&NoteId(2)).is_empty());
    assert_eq!(store.backlinks_of(&NoteId(3)), vec![NoteId(1)]);

    store.remove_note(&NoteId(1));
    assert!(store.get_note(&NoteId(1)).is_none());
    assert!(store.backlinks_of(&NoteId(3)).is_empty());
    assert_eq!(store.note_id_by_path("a.md"), None);
    assert_eq!(store.all_note_ids().len(), 2);
    assert_eq!(store.all_notes().len(), 2);
}

#[test]
fn backlinks_list_each_linking_note_once() {
    let mut store = Store::new();
    store.upsert_note(note(1, Some("a.md")));
    store.upsert_note(note(2, Some("b.md")));
    store.upsert_note(note(3, Some("c.md")));
    store.set_outgoing_links(&NoteId(1), vec![NoteId(3), NoteId(3)]);
    store.set_outgoing_links(&NoteId(2), vec![NoteId(3), NoteId(1)]);
    assert_eq!(store.backlinks_of(&NoteId(3)), vec![NoteId(1), NoteId(2)]);
    assert_eq!(store.backlinks_of(&NoteId(1)), vec![NoteId(2)]);
    store.set_outgoing_links(&NoteId(1), vec![NoteId(2)]);
    assert_eq!(store.backlinks_of(&NoteId(3)), vec![NoteId(2)]);
    assert_eq!(store.backlinks_of(&NoteId(2)), vec![NoteId(1)]);
    assert_eq!(store.backlinks_of(&NoteId(1)), vec![NoteId(2)]);
}

#[test]
fn line_map_round_trips_points_and_offsets() {
    let text = "ab\nc😀d\n\nxyz";
    let lm = LineMap::new(text);
    assert_eq!(lm.offset_to_point(text, 0), Point { line: 0, col: 0 });
    assert_eq!(lm.offset_to_point(text, 3), Point { line: 1, col: 0 });
    // '😀' takes 4 bytes and 2 UTF-16 units
    assert_eq!(lm.offset_to_point(text, 8), Point { line: 1, col: 3 });
    assert_eq!(lm.point_to_offset(text, Point { line: 1, col: 3 }), Some(8));
    assert_eq!(lm.point_to_offset(text, Point { line: 2, col: 0 }), Some(10));
    assert_eq!(lm.point_to_offset(text, Point { line: 9, col: 0 }), None);
    assert_eq!(lm.point_to_offset(text, Point { line: 0, col: 7 }), None);
}

#[test]
fn dendron_model_hierarchy() {
    let m = DendronModel::new("/root".to_string());
    assert_eq!(m.resolve_parent(&"a.b.c".to_string()), Some("a.b".to_string()));
    assert_eq!(m.resolve_parent(&"a".to_string()), None);
    assert!(m.is_descendant(&"a.b".to_string(), &"a".to_string()));
    assert!(!m.is_descendant(&"ab".to_string(), &"a".to_string()));
    assert_eq!(m.reparent_key(&"a.b".to_string(), &"a".to_string(), &"x".to_string()), "x.b");
    assert_eq!(m.format_wikilink("t", Some("al"), Some("h"), true), "![[al|t#h]]");
    assert_eq!(m.path_from_note_key(&"a.b".to_string()), "/root/a.b.md");
    assert_eq!(m.note_key_from_path("/root/dir/a.b.md", ""), "a.b");
    assert_eq!(m.note_key_from_link(&"x.y".to_string(), "z"), "z");
}

#[test]
fn uuid_text_is_hyphenated_lowercase_hex() {
    assert_eq!(
        NoteId(0x0123_4567_89AB_CDEF_FEDC_BA98_7654_3210).to_uuid_string(),
        "01234567-89ab-cdef-fedc-ba9876543210"
    );
    assert_eq!(NoteId(0).to_uuid_string(), "00000000-0000-0000-0000-000000000000");
}

use dendrite_core::model::{Point, TextRange};
use dendrite_core::mutation::{
    Change, ContentProvider, EditGroup, EditPlan, MutationKind, ResourceOperation, TextEdit,
};

struct FixedContent(Option<String>);

impl ContentProvider for FixedContent {
    fn get_content(&self, _uri: &str) -> Option<String> {
        self.0.clone()
    }
}

#[test]
fn test_text_edit_invert() {
    let edit = TextEdit {
        range: TextRange {
            start: Point { line: 1, col: 5 },
            end: Point { line: 1, col: 10 },
        },
        new_text: "NewText\nMultiLine".to_string(),
        undo_text: Some("Old".to_string()),
    };

    let inverted = edit.invert();

    assert_eq!(inverted.range.start, Point { line: 1, col: 5 });
    assert_eq!(inverted.range.end, Point { line: 2, col: 9 });
    assert_eq!(inverted.new_text, "Old");
    assert_eq!(inverted.undo_text, Some("NewText\nMultiLine".to_string()));
}

#[test]
fn test_resource_op_invert() {
    let op = ResourceOperation::RenameFile {
        new_uri: "new.md".to_string(),
        overwrite: false,
    };

    let inverted = op.invert("old.md", None);
    if let ResourceOperation::RenameFile { new_uri, .. } = inverted {
        assert_eq!(new_uri, "old.md");
    } else {
        panic!("Expected RenameFile");
    }
}

#[test]
fn test_edit_group_invert() {
    let group = EditGroup {
        uri: "old.md".to_string(),
        changes: vec![Change::ResourceOp(ResourceOperation::RenameFile {
            new_uri: "new.md".to_string(),
            overwrite: false,
        })],
    };

    let inverted = group.invert(None);
    assert_eq!(inverted.uri, "new.md");
    if let Change::ResourceOp(ResourceOperation::RenameFile { new_uri, .. }) = &inverted.changes[0]
    {
        assert_eq!(new_uri, "old.md");
    } else {
        panic!("Expected RenameFile in inverted group");
    }
}

#[test]
fn text_edit_inverted_twice_is_the_edit() {
    let edit = TextEdit {
        range: TextRange {
            start: Point { line: 0, col: 2 },
            end: Point { line: 0, col: 4 },
        },
        new_text: "ab\ncd".to_string(),
        undo_text: Some("xy".to_string()),
    };
    let twice = edit.clone().invert().invert();
    assert_eq!(twice, edit);
}

#[test]
fn create_file_inverts_to_delete_and_back_with_content() {
    let op = ResourceOperation::CreateFile { content: Some("hello".to_string()) };
    let inverted = op.invert("a.md", None);
    assert_eq!(inverted, ResourceOperation::DeleteFile { ignore_if_not_exists: true });

    let provider = FixedContent(Some("body".to_string()));
    let back = ResourceOperation::DeleteFile { ignore_if_not_exists: false }
        .invert("a.md", Some(&provider));
    assert_eq!(back, ResourceOperation::CreateFile { content: Some("body".to_string()) });

    let empty = FixedContent(None);
    let back_none = ResourceOperation::DeleteFile { ignore_if_not_exists: true }
        .invert("a.md", Some(&empty));
    assert_eq!(back_none, ResourceOperation::CreateFile { content: None });
}

#[test]
fn change_accessors_pick_their_variant() {
    let edit = TextEdit {
        range: TextRange::default(),
        new_text: "x".to_string(),
        undo_text: Some(String::new()),
    };
    assert_eq!(Change::TextEdit(edit.clone()).text_edit(), Some(edit.clone()));
    assert_eq!(Change::TextEdit(edit).resource_op(), None);
    let op = ResourceOperation::DeleteFile { ignore_if_not_exists: false };
    assert_eq!(Change::ResourceOp(op.clone()).resource_op(), Some(op.clone()));
    assert_eq!(Change::ResourceOp(op).text_edit(), None);
}

#[test]
fn edit_plan_inverts_each_group_and_drops_preconditions() {
    let plan = EditPlan {
        mutation_kind: MutationKind::MoveNote,
        edits: vec![EditGroup {
            uri: "a.md".to_string(),
            changes: vec![Change::ResourceOp(ResourceOperation::RenameFile {
                new_uri: "b.md".to_string(),
                overwrite: false,
            })],
        }],
        preconditions: vec![dendrite_core::mutation::Precondition::PathNotExists(
            "b.md".to_string(),
        )],
        diagnostics: vec![],
        reversible: true,
    };
    let inverted = plan.clone().invert(None);
    assert_eq!(inverted.mutation_kind, MutationKind::MoveNote);
    assert!(inverted.preconditions.is_empty());
    assert_eq!(inverted.edits[0].uri, "b.md");
    let twice = inverted.invert(None);
    assert_eq!(twice.edits, plan.edits);
}

#[test]
fn a_plan_inverted_twice_gives_back_its_edits() {
    let group = EditGroup {
        uri: "a.md".to_string(),
        changes: vec![
            Change::TextEdit(TextEdit {
                range: TextRange { start: Point { line: 0, col: 4 }, end: Point { line: 0, col: 9 } },
                new_text: "[[c]]".to_string(),
                undo_text: Some("[[b]]".to_string()),
            }),
            Change::ResourceOp(ResourceOperation::RenameFile { new_uri: "c.md".to_string(), overwrite: false }),
        ],
    };
    let plan = EditPlan {
        mutation_kind: MutationKind::RenameNote,
        edits: vec![group.clone()],
        preconditions: vec![],
        diagnostics: vec![],
        reversible: true,
    };
    let once = plan.clone().invert(None);
    assert_eq!(once.edits[0].uri, "c.md");
    let twice = once.invert(None);
    assert_eq!(twice, plan);
}

struct ByPath;

impl ContentProvider for ByPath {
    fn get_content(&self, uri: &str) -> Option<String> {
        if uri == "a.md" { Some("text of a".to_string()) } else { None }
    }
}

#[test]
fn deleted_file_is_recreated_with_the_content_of_its_own_path() {
    let group = EditGroup {
        uri: "a.md".to_string(),
        changes: vec![Change::ResourceOp(ResourceOperation::DeleteFile { ignore_if_not_exists: false })],
    };
    let inverted = group.invert(Some(&ByPath));
    assert_eq!(inverted.uri, "a.md");
    assert_eq!(
        inverted.changes,
        vec![Change::ResourceOp(ResourceOperation::CreateFile { content: Some("text of a".to_string()) })]
    );
}

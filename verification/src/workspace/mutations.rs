//! The changes a user asks of a workspace, as plans for the client to
//! apply: renames, moves, hierarchy renames, splits, new and deleted notes.
use vstd::prelude::*;
use crate::model::{NoteId, NoteKey, TextRange};
use crate::mutation::hierarchy::{
    calculate_hierarchy_edits, groups_sorted, is_hierarchy_target, is_target_listing, plan_groups,
    structural_edit_count, structural_plans,
};
use crate::mutation::split::{
    calculate_split_edits, extracted_text, is_split_plan, selection_cuttable,
};
use crate::mutation::structural::{calculate_structural_edits, structural_result};
use crate::mutation::{
    Change, ChangeView, ContentProvider, EditGroup, EditGroupView, EditPlan, MutationKind,
    ResourceOperation, ResourceOperationView,
};
use crate::semantic::SemanticModel;
use crate::text::copy_str;
use crate::workspace::Workspace;

verus! {

/// The plan that creates the file `uri` with `content`.
pub open spec fn is_create_plan(plan: EditPlan, uri: Seq<char>, content: Seq<char>) -> bool {
    &&& plan.mutation_kind == MutationKind::CreateNote
    &&& plan@.edits == seq![
        EditGroupView {
            uri,
            changes: seq![
                ChangeView::ResourceOp(ResourceOperationView::CreateFile { content: Some(content) }),
            ],
        },
    ]
    &&& plan@.preconditions.len() == 0
    &&& plan@.diagnostics.len() == 0
    &&& plan.reversible
}

/// The plan that deletes the file `uri`.
pub open spec fn is_delete_plan(plan: EditPlan, uri: Seq<char>) -> bool {
    &&& plan.mutation_kind == MutationKind::DeleteNote
    &&& plan@.edits == seq![
        EditGroupView {
            uri,
            changes: seq![
                ChangeView::ResourceOp(
                    ResourceOperationView::DeleteFile { ignore_if_not_exists: false },
                ),
            ],
        },
    ]
    &&& plan@.preconditions.len() == 0
    &&& plan@.diagnostics.len() == 0
    &&& plan.reversible
}

/// `r` is the plan that renames the note with key `old_key` of `ws` to
/// `new_key`, at the path the model gives the new key; `None` when the key
/// is unknown.
pub open spec fn note_rename_result<M: SemanticModel>(
    ws: Workspace<M>,
    old_key: Seq<char>,
    new_key: Seq<char>,
    r: Option<EditPlan>,
) -> bool {
    if ws.identity.keys().contains_key(old_key) {
        structural_result(
            r,
            ws.model,
            ws.store,
            ws.identity,
            ws.identity.keys()[old_key],
            ws.model.path_from_key(new_key),
            new_key,
        )
    } else {
        r is None
    }
}

/// `r` is the plan that renames the note `old_key` of `ws` and its
/// descendants to the prefix `new_key`: some note is to change exactly when
/// there is a plan, and its groups are those of the structural plans of the
/// note and of each descendant, in order.
pub open spec fn hierarchy_rename_result<M: SemanticModel>(
    ws: Workspace<M>,
    old_key: Seq<char>,
    new_key: Seq<char>,
    r: Option<EditPlan>,
) -> bool {
    &&& r is Some <==> exists|id: NoteId, p: Seq<char>, k: Seq<char>|
        is_hierarchy_target(ws.model, ws.store, ws.identity, old_key, new_key, id, p, k)
            && #[trigger] structural_edit_count(ws.model, ws.store, ws.identity, id, p, k) > 0
    &&& r matches Some(plan) ==> {
        &&& plan.mutation_kind == MutationKind::HierarchyRefactor
        &&& plan@.preconditions.len() == 0
        &&& plan@.diagnostics.len() == 0
        &&& plan.reversible
        &&& plan@.edits.len() > 0
        &&& groups_sorted(plan@.edits)
        &&& exists|targets: Seq<(NoteId, Seq<char>, Seq<char>)>, plans: Seq<Option<EditPlan>>|
            #![trigger is_target_listing(ws.model, ws.store, ws.identity, old_key, new_key, targets), structural_plans(ws.model, ws.store, ws.identity, targets, plans)]
            is_target_listing(ws.model, ws.store, ws.identity, old_key, new_key, targets)
                && structural_plans(ws.model, ws.store, ws.identity, targets, plans)
                && plan@.edits.to_multiset() == plan_groups(plans).to_multiset()
    }
}

/// `r` is the plan that moves the note at `old_path` of `ws` to `new_path`,
/// its key the one the model gives the new path; `None` when no note is at
/// `old_path`.
pub open spec fn note_move_result<M: SemanticModel>(
    ws: Workspace<M>,
    old_path: Seq<char>,
    new_path: Seq<char>,
    r: Option<EditPlan>,
) -> bool {
    if ws.store.paths().contains_key(old_path) {
        structural_result(
            r,
            ws.model,
            ws.store,
            ws.identity,
            ws.store.paths()[old_path],
            new_path,
            ws.model.key_from_path(new_path, Seq::empty()),
        )
    } else {
        r is None
    }
}

/// `r` is `None`, or the plan that extracts `selection` of the note at
/// `source_path` of `ws` into a new note titled `title`; `None` when no note
/// is at `source_path`.
pub open spec fn note_split_result<M: SemanticModel>(
    ws: Workspace<M>,
    source_path: Seq<char>,
    selection: TextRange,
    title: Seq<char>,
    r: Option<EditPlan>,
) -> bool {
    &&& !ws.store.paths().contains_key(source_path) ==> r is None
    &&& r matches Some(plan) ==> {
        let id = ws.store.paths()[source_path];
        &&& ws.store.notes().contains_key(id.0)
        &&& ws.store.notes()[id.0].path is Some
        &&& exists|content: Seq<char>|
            #![trigger extracted_text(content, selection)]
            selection_cuttable(content, selection) && extracted_text(content, selection) is Some
                && is_split_plan(
                plan,
                ws.store.notes()[id.0].path->0@,
                ws.model.path_from_key(title),
                selection,
                extracted_text(content, selection)->0,
                ws.model.wikilink_text(title, None, None, false),
            )
    }
}

/// `r` is the plan that deletes the file of the note with key `key` of
/// `ws`; `None` when the key has no stored note with a file.
pub open spec fn note_delete_result<M: SemanticModel>(
    ws: Workspace<M>,
    key: Seq<char>,
    r: Option<EditPlan>,
) -> bool {
    match r {
        Some(plan) => {
            &&& ws.identity.keys().contains_key(key)
            &&& ws.store.notes().contains_key(ws.identity.keys()[key].0)
            &&& ws.store.notes()[ws.identity.keys()[key].0].path matches Some(p) && is_delete_plan(
                plan,
                p@,
            )
        },
        None => !ws.identity.keys().contains_key(key) || !ws.store.notes().contains_key(
            ws.identity.keys()[key].0,
        ) || ws.store.notes()[ws.identity.keys()[key].0].path is None,
    }
}

impl<M: SemanticModel> Workspace<M> {
    /// Renames the note with key `old_key` to `new_key`, at the path the
    /// model gives the new key (its descendants stay where they are).
    pub fn rename_note(
        &self,
        content_provider: &dyn ContentProvider,
        old_key: &str,
        new_key: &str,
    ) -> (r: Option<EditPlan>)
        requires
            self.wf(),
        ensures
            note_rename_result(*self, old_key@, new_key@, r),
    {
        let note_id = match self.identity.lookup(&copy_str(old_key)) {
            Some(id) => id,
            None => return None,
        };
        let new_path = self.model.path_from_note_key(&copy_str(new_key));
        calculate_structural_edits(
            &self.store,
            &self.identity,
            content_provider,
            &self.model,
            &note_id,
            new_path,
            new_key,
        )
    }

    /// Renames the note `old_key` and all its descendants to the prefix
    /// `new_key` (see `calculate_hierarchy_edits`).
    pub fn rename_hierarchy(
        &self,
        content_provider: &dyn ContentProvider,
        old_key: &str,
        new_key: &str,
    ) -> (r: Option<EditPlan>)
        requires
            self.wf(),
        ensures
            hierarchy_rename_result(*self, old_key@, new_key@, r),
    {
        calculate_hierarchy_edits(
            &self.store,
            &self.identity,
            content_provider,
            &self.model,
            old_key,
            new_key,
        )
    }

    /// Moves the note at `old_path` to `new_path`, its key the one the model
    /// gives the new path.
    pub fn move_note(
        &self,
        content_provider: &dyn ContentProvider,
        old_path: &str,
        new_path: String,
    ) -> (r: Option<EditPlan>)
        requires
            self.wf(),
        ensures
            note_move_result(*self, old_path@, new_path@, r),
    {
        let note_id = match self.store.note_id_by_path(old_path) {
            Some(id) => *id,
            None => return None,
        };
        let empty = String::new();
        let new_key = self.model.note_key_from_path(new_path.as_str(), empty.as_str());
        calculate_structural_edits(
            &self.store,
            &self.identity,
            content_provider,
            &self.model,
            &note_id,
            new_path,
            new_key.as_str(),
        )
    }

    /// Extracts `selection` of the note at `source_path` into a new note
    /// titled `new_note_title` (see `calculate_split_edits`).
    pub fn split_note(
        &self,
        content_provider: &dyn ContentProvider,
        source_path: &str,
        selection: TextRange,
        new_note_title: &str,
    ) -> (r: Option<EditPlan>)
        requires
            self.wf(),
        ensures
            note_split_result(*self, source_path@, selection, new_note_title@, r),
    {
        let source_id = match self.store.note_id_by_path(source_path) {
            Some(id) => *id,
            None => return None,
        };
        calculate_split_edits(
            &self.store,
            &self.identity,
            content_provider,
            &self.model,
            &source_id,
            selection,
            new_note_title,
        )
    }

    /// The plan that creates the note with key `note_key`, at the path and
    /// with the content the model gives.
    pub fn create_note(&self, note_key: &NoteKey) -> (r: Option<EditPlan>)
        requires
            self.wf(),
        ensures
            r matches Some(plan) && is_create_plan(
                plan,
                self.model.path_from_key(note_key@),
                self.model.new_note_content(note_key@),
            ),
    {
        let uri = self.model.path_from_note_key(note_key);
        let content = self.model.generate_new_note_content(note_key);
        let mut changes: Vec<Change> = Vec::new();
        changes.push(Change::ResourceOp(ResourceOperation::CreateFile { content: Some(content) }));
        let mut edits: Vec<EditGroup> = Vec::new();
        edits.push(EditGroup { uri, changes });
        let plan = EditPlan {
            mutation_kind: MutationKind::CreateNote,
            edits,
            preconditions: Vec::new(),
            diagnostics: Vec::new(),
            reversible: true,
        };
        proof {
            assert(plan@.edits[0].changes =~= seq![
                ChangeView::ResourceOp(
                    ResourceOperationView::CreateFile {
                        content: Some(self.model.new_note_content(note_key@)),
                    },
                ),
            ]);
            assert(plan@.edits =~= seq![plan@.edits[0]]);
        }
        Some(plan)
    }

    /// The plan that deletes the file of the note with key `note_key`;
    /// `None` when the key has no stored note with a path.
    pub fn delete_note(&self, note_key: &str) -> (r: Option<EditPlan>)
        requires
            self.wf(),
        ensures
            note_delete_result(*self, note_key@, r),
    {
        let note_id = match self.identity.lookup(&copy_str(note_key)) {
            Some(id) => id,
            None => return None,
        };
        let note = match self.store.get_note(&note_id) {
            Some(n) => n,
            None => return None,
        };
        let path = match &note.path {
            Some(p) => p,
            None => return None,
        };
        let mut changes: Vec<Change> = Vec::new();
        changes.push(
            Change::ResourceOp(ResourceOperation::DeleteFile { ignore_if_not_exists: false }),
        );
        let mut edits: Vec<EditGroup> = Vec::new();
        edits.push(EditGroup { uri: path.clone(), changes });
        let plan = EditPlan {
            mutation_kind: MutationKind::DeleteNote,
            edits,
            preconditions: Vec::new(),
            diagnostics: Vec::new(),
            reversible: true,
        };
        proof {
            assert(plan@.edits[0].changes =~= seq![
                ChangeView::ResourceOp(
                    ResourceOperationView::DeleteFile { ignore_if_not_exists: false },
                ),
            ]);
            assert(plan@.edits =~= seq![plan@.edits[0]]);
        }
        Some(plan)
    }
}

} // verus!

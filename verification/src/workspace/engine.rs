//! The entry point of the library: a workspace and the file system it is
//! read from.  Changes coming from the files go through the engine; plans
//! for changes going to the files are computed by it; queries go to the
//! workspace directly.
use vstd::prelude::*;
use crate::digest::digest_of;
use crate::model::{NoteId, NoteKey, TextRange};
use crate::mutation::{ContentProvider, EditPlan, MutationKind};
use crate::mutation::audit::notes_diagnostics;
use crate::semantic::SemanticModel;
use crate::store::note_removed;
use crate::text::copy_str;
use crate::vfs::FileSystem;
use crate::workspace::{IndexingStats, Workspace, chosen_vault, content_updated};
use crate::workspace::mutations::{
    hierarchy_rename_result, is_create_plan, note_delete_result, note_move_result,
    note_rename_result, note_split_result,
};
use crate::workspace::tree::hierarchy_closed;
use crate::workspace::indexer::fully_indexed;

verus! {

/// A workspace and the file system its notes are read from.
pub struct DendriteEngine<M: SemanticModel, F: FileSystem> {
    pub workspace: Workspace<M>,
    pub fs: F,
}

impl<M: SemanticModel, F: FileSystem> ContentProvider for DendriteEngine<M, F> {
    /// The engine answers what its file system may read for `uri`.
    open spec fn answers(&self, uri: Seq<char>, content: Option<Seq<char>>) -> bool {
        self.fs.reads(uri, content)
    }

    /// The content of the file at `uri`, read from the file system.
    fn get_content(&self, uri: &str) -> Option<String> {
        self.fs.read_to_string(uri)
    }
}

impl<M: SemanticModel, F: FileSystem> DendriteEngine<M, F> {
    /// The engine over `workspace`, reading from `fs`.
    pub fn new(workspace: Workspace<M>, fs: F) -> (r: Self)
        ensures
            r.workspace == workspace,
            r.fs == fs,
    {
        DendriteEngine { workspace, fs }
    }

    /// The vault of `path`: the first whose directory holds it, else `main`.
    fn vault_of(&self, path: &str) -> (r: String)
        ensures
            chosen_vault(self.workspace.config, path@, r@),
    {
        match self.workspace.vault_name_for_path(path) {
            Some(n) => n,
            None => {
                proof {
                    reveal_strlit("main");
                }
                copy_str("main")
            },
        }
    }

    // -------------------------------------------------------------------
    // Changes coming from the files
    // -------------------------------------------------------------------

    /// Indexes every vault (see `Workspace::full_index`); the vaults come
    /// from the configuration, not from the root passed.
    pub fn initialize(&mut self, _root: String) -> (r: (Vec<String>, IndexingStats))
        requires
            old(self).workspace.wf(),
        ensures
            final(self).workspace.wf(),
            final(self).workspace.model == old(self).workspace.model,
            final(self).workspace.config == old(self).workspace.config,
            r.1.total_files == r.0@.len(),
            hierarchy_closed(final(self).workspace),
            final(self).fs == old(self).fs,
            fully_indexed(
                old(self).workspace,
                final(self).workspace,
                old(self).fs,
                r.0@.map_values(|f: String| f@),
                r.1,
            ),
    {
        self.workspace.initialize(&self.fs)
    }

    /// The file at `path` now holds `content`: it is read as a file of its
    /// vault (see `Workspace::update_content`).
    pub fn update_content(&mut self, path: String, content: &str)
        requires
            old(self).workspace.wf(),
        ensures
            final(self).workspace.wf(),
            final(self).workspace.model == old(self).workspace.model,
            final(self).workspace.config == old(self).workspace.config,
            exists|vault: String|
                #![trigger chosen_vault(old(self).workspace.config, path@, vault@)]
                chosen_vault(old(self).workspace.config, path@, vault@) && content_updated(
                    old(self).workspace,
                    final(self).workspace,
                    path@,
                    content@,
                    digest_of(content@),
                    vault,
                ),
    {
        let vault = self.vault_of(path.as_str());
        let ghost v = vault;
        self.workspace.update_file(path, content, vault, &self.fs);
        assert(chosen_vault(old(self).workspace.config, path@, v@));
    }

    /// The file at `path` was deleted (see `Workspace::delete_file`).
    pub fn delete_file(&mut self, path: &str)
        requires
            old(self).workspace.wf(),
        ensures
            final(self).workspace.wf(),
            final(self).workspace.model == old(self).workspace.model,
            final(self).workspace.config == old(self).workspace.config,
            final(self).workspace.identity == old(self).workspace.identity,
            !old(self).workspace.store.paths().contains_key(path@) ==> final(self).workspace.store
                == old(self).workspace.store,
            old(self).workspace.store.paths().contains_key(path@) ==> note_removed(
                old(self).workspace.store,
                final(self).workspace.store,
                old(self).workspace.store.paths()[path@],
            ),
    {
        self.workspace.delete_file(path)
    }

    /// The file at `old_path` was renamed `new_path` and holds `content`:
    /// the note keeps its identifier, in the vault of the new path (see
    /// `Workspace::rename_file`).
    pub fn rename_file(&mut self, old_path: String, new_path: String, content: &str)
        requires
            old(self).workspace.wf(),
        ensures
            final(self).workspace.wf(),
            final(self).workspace.model == old(self).workspace.model,
            final(self).workspace.config == old(self).workspace.config,
            old(self).workspace.store.paths().contains_key(old_path@) ==> {
                let id = old(self).workspace.store.paths()[old_path@];
                &&& final(self).workspace.store.paths().contains_key(new_path@)
                &&& final(self).workspace.store.paths()[new_path@] == id
                &&& final(self).workspace.store.notes().contains_key(id.0)
                &&& final(self).workspace.store.notes()[id.0].path matches Some(p) && p@
                    == new_path@
                &&& chosen_vault(
                    old(self).workspace.config,
                    new_path@,
                    final(self).workspace.store.notes()[id.0].vault_name@,
                )
            },
            !old(self).workspace.store.paths().contains_key(old_path@) ==> exists|vault: String|
                #![trigger chosen_vault(old(self).workspace.config, new_path@, vault@)]
                chosen_vault(old(self).workspace.config, new_path@, vault@) && content_updated(
                    old(self).workspace,
                    final(self).workspace,
                    new_path@,
                    content@,
                    digest_of(content@),
                    vault,
                ),
    {
        let vault = self.vault_of(new_path.as_str());
        let ghost v = vault;
        let meta = self.fs.metadata(new_path.as_str());
        self.workspace.rename_file(old_path, new_path, content, vault, meta);
        assert(chosen_vault(old(self).workspace.config, new_path@, v@));
    }

    // -------------------------------------------------------------------
    // Plans for changes going to the files
    // -------------------------------------------------------------------

    /// The plan that renames the note `old_key` to `new_key`, the texts to
    /// restore read from the file system.
    pub fn rename_note(&self, old_key: &str, new_key: &str) -> (r: Option<EditPlan>)
        requires
            self.workspace.wf(),
        ensures
            note_rename_result(self.workspace, old_key@, new_key@, r),
    {
        self.workspace.rename_note(self, old_key, new_key)
    }

    /// The plan that moves the note at `old_path` to `new_path`.
    pub fn move_note(&self, old_path: &str, new_path: String) -> (r: Option<EditPlan>)
        requires
            self.workspace.wf(),
        ensures
            note_move_result(self.workspace, old_path@, new_path@, r),
    {
        self.workspace.move_note(self, old_path, new_path)
    }

    /// The plan that renames the note `old_key` and its descendants to the
    /// prefix `new_key`.
    pub fn rename_hierarchy(&self, old_key: &str, new_key: &str) -> (r: Option<EditPlan>)
        requires
            self.workspace.wf(),
        ensures
            hierarchy_rename_result(self.workspace, old_key@, new_key@, r),
    {
        self.workspace.rename_hierarchy(self, old_key, new_key)
    }

    /// The plan that extracts `selection` of the note at `source_path` into
    /// a new note titled `new_note_title`, the text read from the file
    /// system.
    pub fn split_note(&self, source_path: &str, selection: TextRange, new_note_title: &str) -> (r:
        Option<EditPlan>)
        requires
            self.workspace.wf(),
        ensures
            note_split_result(self.workspace, source_path@, selection, new_note_title@, r),
    {
        self.workspace.split_note(self, source_path, selection, new_note_title)
    }

    /// The health audit of the workspace (see `Workspace::audit`).
    pub fn audit(&self) -> (r: EditPlan)
        requires
            self.workspace.wf(),
        ensures
            r.mutation_kind == MutationKind::WorkspaceAudit,
            r@.edits.len() == 0,
            r@.preconditions.len() == 0,
            !r.reversible,
            exists|ids: Seq<NoteId>|
                #![trigger notes_diagnostics(self.workspace.model, self.workspace.store.notes(), ids)]
                {
                    &&& ids.no_duplicates()
                    &&& forall|id: NoteId|
                        ids.contains(id) <==> self.workspace.store.notes().contains_key(id.0)
                    &&& r@.diagnostics == notes_diagnostics(
                        self.workspace.model,
                        self.workspace.store.notes(),
                        ids,
                    )
                },
    {
        self.workspace.audit()
    }

    /// The plan that creates the note `note_key`.
    pub fn create_note(&self, note_key: &NoteKey) -> (r: Option<EditPlan>)
        requires
            self.workspace.wf(),
        ensures
            r matches Some(plan) && is_create_plan(
                plan,
                self.workspace.model.path_from_key(note_key@),
                self.workspace.model.new_note_content(note_key@),
            ),
    {
        self.workspace.create_note(note_key)
    }

    /// The plan that deletes the file of the note `note_key`.
    pub fn delete_note(&self, note_key: &str) -> (r: Option<EditPlan>)
        requires
            self.workspace.wf(),
        ensures
            note_delete_result(self.workspace, note_key@, r),
    {
        self.workspace.delete_note(note_key)
    }
}

} // verus!

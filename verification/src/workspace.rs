//! The workspace: the notes of a set of vaults, read through a semantic
//! model, with their identities, links and hierarchy.
pub mod assembler;
pub mod queries;
pub mod mutations;
pub mod tree;
pub mod indexer;
pub mod engine;
use vstd::prelude::*;
use vstd::hash_map::StringHashMap;
use crate::config::DendriteConfig;
use crate::identity::IdentityRegistry;
use crate::model::{Note, NoteId, NoteKey, opt_view};
use crate::parser::{ParseResult, parse_markdown};
use crate::paths::{path_has_prefix, path_starts_with};
use crate::semantic::SemanticModel;
use crate::store::{Store, link_targets, note_removed, relinked};
use crate::workspace::assembler::{
    assemble, holds_parse, lemma_assembled_holds_parse, link_key, registry_grows,
};
use crate::digest::{compute_digest, digest_of};
use crate::text::{copy_str, str_eq};
use crate::cache::FileMetadata;
use crate::vfs::VfsMetadata;

verus! {

/// Counts of a full indexing run.
#[derive(Debug, Clone, Copy, PartialEq, Eq, Structural)]
pub struct IndexingStats {
    pub total_files: usize,
    pub tier1_hits: usize,
    pub tier2_hits: usize,
    pub full_parses: usize,
}

impl Default for IndexingStats {
    fn default() -> (r: Self)
        ensures
            r == (IndexingStats { total_files: 0, tier1_hits: 0, tier2_hits: 0, full_parses: 0 }),
    {
        IndexingStats { total_files: 0, tier1_hits: 0, tier2_hits: 0, full_parses: 0 }
    }
}

/// `f` is the workspace `o` once `content` is read as the file at `path` of
/// the vault `vault_name`, with content digest `digest`: the note is stored
/// under the identifier bound to the path, else under the identifier of the
/// key the path gives; the path is bound to it; no other note changes, and
/// the note is recorded among the backlinks of its link targets.
pub open spec fn content_updated<M: SemanticModel>(
    o: Workspace<M>,
    f: Workspace<M>,
    path: Seq<char>,
    content: Seq<char>,
    digest: Seq<char>,
    vault_name: String,
) -> bool {
    let new_key = o.model.key_from_path(path, content);
    let bound = o.store.paths().contains_key(path);
    let id = if bound {
        o.store.paths()[path]
    } else {
        f.identity.keys()[new_key]
    };
    let stored = f.store.notes()[id.0];
    &&& !bound ==> f.identity.keys().contains_key(new_key)
    &&& f.store.paths().contains_key(path)
    &&& f.store.paths()[path] == id
    &&& forall|p: Seq<char>|
        #![trigger f.store.paths()[p]]
        p != path && f.store.paths().contains_key(p) ==> o.store.paths().contains_key(p)
            && f.store.paths()[p] == o.store.paths()[p]
    &&& f.store.notes().contains_key(id.0)
    &&& stored.id == id
    &&& stored.path matches Some(sp) && sp@ == path
    &&& stored.vault_name == vault_name
    &&& stored.digest matches Some(d) && d@ == digest
    &&& holds_parse(stored, o.model, f.identity, path, content)
    &&& forall|k: u128|
        #![trigger f.store.notes()[k]]
        k != id.0 && o.store.notes().contains_key(k) ==> f.store.notes().contains_key(k)
            && f.store.notes()[k] == o.store.notes()[k]
    &&& f.store.backlinks() == relinked(
        o.store.backlinks(),
        id,
        link_targets(stored.links@),
        link_targets(stored.links@),
    )
}

/// `name` is the vault of `path` under `config`: the name of the first vault
/// whose directory holds the path, else `main`.
pub open spec fn chosen_vault(config: DendriteConfig, path: Seq<char>, name: Seq<char>) -> bool {
    let vaults = config.workspace.vaults@;
    ||| exists|i: int|
        0 <= i < vaults.len() && path_has_prefix(path, vaults[i].path@) && name == vaults[i].name@
            && forall|j: int| 0 <= j < i ==> !path_has_prefix(path, #[trigger] vaults[j].path@)
    ||| (forall|j: int| 0 <= j < vaults.len() ==> !path_has_prefix(path, #[trigger] vaults[j].path@))
        && name == "main"@
}

/// `f` and `sf` are the workspace `o` and the counts `so` once `content` is
/// indexed as the file at `path` of the vault `vault_name`, of which the file
/// system reported `meta`: when its digest is the one recorded and its path
/// is bound, the record is refreshed and the digest hit counted; else it is
/// read (see `content_updated`) and the parse counted.
pub open spec fn content_indexed<M: SemanticModel>(
    o: Workspace<M>,
    f: Workspace<M>,
    so: IndexingStats,
    sf: IndexingStats,
    path: Seq<char>,
    content: Seq<char>,
    vault_name: String,
    meta: Option<VfsMetadata>,
) -> bool {
    let digest = digest_of(content);
    let hit = meta is Some && o.cache_metadata@.contains_key(path) && o.cache_metadata@[path].digest@
        == digest;
    &&& sf.tier1_hits == so.tier1_hits
    &&& sf.total_files == so.total_files
    &&& if hit && o.store.paths().contains_key(path) {
        &&& f.store == o.store
        &&& f.identity == o.identity
        &&& f.cache_metadata@.contains_key(path)
        &&& f.cache_metadata@[path].mtime == meta->0.mtime
        &&& f.cache_metadata@[path].size == meta->0.len
        &&& f.cache_metadata@[path].digest@ == digest
        &&& sf.tier2_hits == if so.tier2_hits < usize::MAX {
            so.tier2_hits + 1
        } else {
            so.tier2_hits as int
        }
        &&& sf.full_parses == so.full_parses
    } else {
        &&& content_updated(o, f, path, content, digest, vault_name)
        &&& sf.full_parses == if so.full_parses < usize::MAX {
            so.full_parses + 1
        } else {
            so.full_parses as int
        }
        &&& sf.tier2_hits == so.tier2_hits
    }
}

/// The notes of a workspace and what is known of them.
pub struct Workspace<M: SemanticModel> {
    pub config: DendriteConfig,
    pub model: M,
    pub identity: IdentityRegistry,
    pub store: Store,
    pub cache_metadata: StringHashMap<FileMetadata>,
}

impl<M: SemanticModel> Workspace<M> {
    /// The model, registry and store are consistent, and every path, and every
    /// note with a file, has an identifier that has a key.
    pub open spec fn wf(&self) -> bool {
        &&& self.model.inv()
        &&& self.identity.wf()
        &&& self.store.wf()
        &&& forall|p: Seq<char>|
            #[trigger] self.store.paths().contains_key(p) ==> self.identity.ids().contains_key(
                self.store.paths()[p].0,
            )
        &&& forall|k: u128|
            #[trigger] self.store.notes().contains_key(k) && self.store.notes()[k].path is Some
                ==> self.identity.ids().contains_key(k)
    }

    /// An empty workspace.
    pub fn new(config: DendriteConfig, model: M) -> (r: Self)
        requires
            model.inv(),
        ensures
            r.wf(),
            r.model == model,
            r.store.notes() == Map::<u128, Note>::empty(),
            r.store.paths() == Map::<Seq<char>, NoteId>::empty(),
            r.identity.keys() == Map::<Seq<char>, NoteId>::empty(),
            r.cache_metadata@ == Map::<Seq<char>, FileMetadata>::empty(),
    {
        Workspace {
            config,
            model,
            identity: IdentityRegistry::new(),
            store: Store::new(),
            cache_metadata: StringHashMap::new(),
        }
    }

    /// The name of the first vault whose directory holds `path`.
    pub fn vault_name_for_path(&self, path: &str) -> (r: Option<String>)
        ensures
            match r {
                Some(n) => exists|i: int|
                    0 <= i < self.config.workspace.vaults@.len() && path_has_prefix(
                        path@,
                        self.config.workspace.vaults@[i].path@,
                    ) && n@ == self.config.workspace.vaults@[i].name@ && forall|j: int|
                        0 <= j < i ==> !path_has_prefix(
                            path@,
                            #[trigger] self.config.workspace.vaults@[j].path@,
                        ),
                None => forall|j: int|
                    0 <= j < self.config.workspace.vaults@.len() ==> !path_has_prefix(
                        path@,
                        #[trigger] self.config.workspace.vaults@[j].path@,
                    ),
            },
    {
        let vaults = &self.config.workspace.vaults;
        let mut i: usize = 0;
        while i < vaults.len()
            invariant
                vaults@ == self.config.workspace.vaults@,
                i <= vaults@.len(),
                forall|j: int| 0 <= j < i ==> !path_has_prefix(path@, #[trigger] vaults@[j].path@),
            decreases vaults@.len() - i,
        {
            if path_starts_with(path, vaults[i].path.as_str()) {
                let n = vaults[i].name.clone();
                assert(0 <= i < self.config.workspace.vaults@.len() && path_has_prefix(
                    path@,
                    self.config.workspace.vaults@[i as int].path@,
                ) && n@ == self.config.workspace.vaults@[i as int].name@ && forall|j: int|
                    0 <= j < i ==> !path_has_prefix(
                        path@,
                        #[trigger] self.config.workspace.vaults@[j].path@,
                    ));
                return Some(n);
            }
            i = i + 1;
        }
        None
    }

    // -----------------------------------------------------------------------
    // Keeping the notes in step with the files
    // -----------------------------------------------------------------------

    /// Reads `content` as the file at `path` of the vault `vault_name`, with
    /// content digest `digest`: the note keeps the identifier bound to the
    /// path (its key follows the path), or takes the identifier of the key
    /// its path gives; its links are resolved and its backlinks recorded.
    /// `meta`, when the file system gave it, is recorded for the path.
    pub fn update_content_internal(
        &mut self,
        path: String,
        content: &str,
        digest: String,
        vault_name: String,
        meta: Option<VfsMetadata>,
    )
        requires
            old(self).wf(),
        ensures
            final(self).wf(),
            final(self).model == old(self).model,
            final(self).config == old(self).config,
            content_updated(*old(self), *final(self), path@, content@, digest@, vault_name),
            match meta {
                Some(m) => final(self).cache_metadata@ == old(self).cache_metadata@.insert(
                    path@,
                    FileMetadata { mtime: m.mtime, size: m.len, digest },
                ),
                None => final(self).cache_metadata@ == old(self).cache_metadata@,
            },
    {
        let ghost s0 = *self;
        let new_key = self.model.note_key_from_path(path.as_str(), content);
        let bound = match self.store.note_id_by_path(path.as_str()) {
            Some(id) => Some(*id),
            None => None,
        };
        let note_id = match bound {
            Some(existing) => {
                proof {
                    assert(s0.store.paths().contains_key(path@));
                    assert(s0.identity.ids().contains_key(existing.0));
                }
                let old_key = match self.identity.key_of(&existing) {
                    Some(k) => k,
                    None => {
                        proof {
                            assert(self.store.paths().contains_key(path@));
                        }
                        return ;
                    },
                };
                if !str_eq(old_key.as_str(), new_key.as_str()) {
                    let _ = self.identity.rebind(&old_key, &new_key);
                }
                existing
            },
            None => {
                proof {
                    if self.identity.keys().contains_key(new_key@) {
                        crate::identity::lemma_key_of_lookup(&self.identity, new_key@);
                    }
                }
                self.identity.get_or_create(&new_key)
            },
        };
        let ghost i1 = self.identity;
        proof {
            assert(self.identity.ids().contains_key(note_id.0));
            assert forall|n: u128| #[trigger] s0.identity.ids().contains_key(n) implies i1.ids().contains_key(n) by {}
            if bound is None {
                assert(i1.keys().contains_key(new_key@) && i1.keys()[new_key@] == note_id);
            }
        }
        let kinds = self.model.supported_link_kinds();
        let mut parse_result = parse_markdown(content, kinds.as_slice());
        parse_result.digest = digest.clone();
        let ghost pr = parse_result;
        let note = assemble(&self.model, &mut self.identity, parse_result, path.as_str(), &note_id, vault_name);
        let ghost assembled = note;
        proof {
            assert(kinds@ == self.model.link_kinds());
            lemma_assembled_holds_parse(note, pr, self.model, self.identity, path@, content@);
        }
        let targets = crate::store::targets_of(&note.links);
        let ghost s3 = self.store;
        self.store.upsert_note(note);
        self.store.bind_path(path.clone(), note_id);
        let ghost s5 = self.store;
        self.store.set_outgoing_links(&note_id, targets);
        proof {
            let stored = self.store.notes()[note_id.0];
            assert(s5.notes()[note_id.0] == assembled);
            assert(stored.links@ =~= assembled.links@);
            assert(link_targets(stored.links@) == link_targets(assembled.links@));
            assert(self.store.paths() == s5.paths());
            assert forall|p: Seq<char>| #[trigger] self.store.paths().contains_key(p) implies self.identity.ids().contains_key(self.store.paths()[p].0) by {
                if p != path@ {
                    assert(s0.store.paths().contains_key(p));
                    assert(s0.identity.ids().contains_key(s0.store.paths()[p].0));
                }
            }
            assert forall|p: Seq<char>|
                #![trigger self.store.paths()[p]]
                p != path@ && self.store.paths().contains_key(p) implies s0.store.paths().contains_key(p)
                    && self.store.paths()[p] == s0.store.paths()[p] by {}
        }
        proof {
            let f = *self;
            let o = s0;
            let nk = o.model.key_from_path(path@, content@);
            let bnd = o.store.paths().contains_key(path@);
            assert(nk == new_key@);
            if !bnd {
                assert(bound is None);
                assert(f.identity.keys().contains_key(nk));
                assert(f.identity.keys()[nk] == note_id);
            } else {
                assert(o.store.paths()[path@] == note_id);
            }
            assert(f.store.paths().contains_key(path@));
            assert(f.store.paths()[path@] == note_id);
            assert(f.store.notes().contains_key(note_id.0));
            let stored = f.store.notes()[note_id.0];
            assert(stored.id == note_id);
            assert(stored.vault_name == assembled.vault_name);
            assert(stored.digest == assembled.digest);
            assert(stored.digest matches Some(d) && d@ == digest@);
            assert(stored == (Note { links: stored.links, ..assembled }));
            assert(holds_parse(stored, o.model, f.identity, path@, content@));
            assert forall|k: u128|
                #![trigger f.store.notes()[k]]
                k != note_id.0 && o.store.notes().contains_key(k) implies f.store.notes().contains_key(k)
                    && f.store.notes()[k] == o.store.notes()[k] by {
                assert(s5.notes()[k] == o.store.notes()[k]);
            }
            assert(f.store.backlinks() == relinked(
                o.store.backlinks(),
                note_id,
                link_targets(stored.links@),
                link_targets(stored.links@),
            ));
        }
        if let Some(m) = meta {
            self.cache_metadata.insert(path, FileMetadata { mtime: m.mtime, size: m.len, digest });
        }
    }

    /// Reads `content` as the file at `path` of the vault `vault_name` (see
    /// `update_content_internal`), its digest computed from the content.
    pub fn update_content(
        &mut self,
        path: String,
        content: &str,
        vault_name: String,
        meta: Option<VfsMetadata>,
    )
        requires
            old(self).wf(),
        ensures
            final(self).wf(),
            final(self).model == old(self).model,
            final(self).config == old(self).config,
            content_updated(
                *old(self),
                *final(self),
                path@,
                content@,
                digest_of(content@),
                vault_name,
            ),
    {
        let digest = compute_digest(content);
        self.update_content_internal(path, content, digest, vault_name, meta);
    }

    /// The file at `old_path` was renamed `new_path`, with content `content`:
    /// the note keeps its identifier, its key follows the new path, and it is
    /// read again from `content`.  A file not known by its old path is read
    /// as a new one (`meta` is then recorded for the new path).
    pub fn rename_file(
        &mut self,
        old_path: String,
        new_path: String,
        content: &str,
        vault_name: String,
        meta: Option<VfsMetadata>,
    )
        requires
            old(self).wf(),
        ensures
            final(self).wf(),
            final(self).model == old(self).model,
            final(self).config == old(self).config,
            !old(self).store.paths().contains_key(old_path@) ==> content_updated(
                *old(self),
                *final(self),
                new_path@,
                content@,
                digest_of(content@),
                vault_name,
            ),
            old(self).store.paths().contains_key(old_path@) ==> {
                let id = old(self).store.paths()[old_path@];
                &&& final(self).store.paths().contains_key(new_path@)
                &&& final(self).store.paths()[new_path@] == id
                &&& final(self).store.notes().contains_key(id.0)
                &&& final(self).store.notes()[id.0].path matches Some(p) && p@ == new_path@
                &&& final(self).store.notes()[id.0].vault_name == vault_name
                &&& final(self).identity.ids().contains_key(id.0)
                &&& final(self).store.notes()[id.0].digest matches Some(d) && d@ == digest_of(content@)
                &&& holds_parse(
                    final(self).store.notes()[id.0],
                    old(self).model,
                    final(self).identity,
                    new_path@,
                    content@,
                )
                &&& (old(self).store.notes().contains_key(id.0) && old(self).store.notes()[id.0].path
                    == Some(old_path) && old_path@ != new_path@) ==> !final(self).store.paths().contains_key(
                    old_path@,
                )
                &&& forall|p: Seq<char>|
                    #![trigger final(self).store.paths()[p]]
                    p != new_path@ && p != old_path@ && final(self).store.paths().contains_key(p)
                        ==> old(self).store.paths().contains_key(p) && final(self).store.paths()[p]
                        == old(self).store.paths()[p]
                &&& forall|k: u128|
                    #![trigger final(self).store.notes()[k]]
                    k != id.0 && old(self).store.notes().contains_key(k) ==> final(self).store.notes().contains_key(k)
                        && final(self).store.notes()[k] == old(self).store.notes()[k]
                &&& final(self).store.backlinks() == relinked(
                    old(self).store.backlinks(),
                    id,
                    link_targets(final(self).store.notes()[id.0].links@),
                    link_targets(final(self).store.notes()[id.0].links@),
                )
            },
    {
        let old_id = match self.store.note_id_by_path(old_path.as_str()) {
            Some(id) => *id,
            None => {
                self.update_content(new_path, content, vault_name, meta);
                return ;
            },
        };
        let ghost s0 = *self;
        proof {
            assert(s0.store.paths().contains_key(old_path@));
        }
        let old_key = match self.identity.key_of(&old_id) {
            Some(k) => k,
            None => self.model.note_key_from_path(old_path.as_str(), content),
        };
        let new_key = self.model.note_key_from_path(new_path.as_str(), content);
        if !str_eq(old_key.as_str(), new_key.as_str()) {
            let _ = self.identity.rebind(&old_key, &new_key);
        }
        proof {
            assert forall|n: u128| #[trigger] s0.identity.ids().contains_key(n) implies self.identity.ids().contains_key(n) by {}
        }
        let kinds = self.model.supported_link_kinds();
        let parse_result = parse_markdown(content, kinds.as_slice());
        let ghost pr = parse_result;
        let note = assemble(&self.model, &mut self.identity, parse_result, new_path.as_str(), &old_id, vault_name);
        let ghost assembled = note;
        proof {
            assert(kinds@ == self.model.link_kinds());
            lemma_assembled_holds_parse(note, pr, self.model, self.identity, new_path@, content@);
        }
        let targets = crate::store::targets_of(&note.links);
        let ghost s3 = self.store;
        self.store.upsert_note(note);
        let ghost s4 = self.store;
        self.store.bind_path(new_path, old_id);
        let ghost s5 = self.store;
        self.store.set_outgoing_links(&old_id, targets);
        proof {
            let stored = self.store.notes()[old_id.0];
            assert(s5.notes()[old_id.0] == assembled);
            assert(stored.links@ =~= assembled.links@);
            assert(stored == (Note { links: stored.links, ..assembled }));
            assert(holds_parse(stored, s0.model, self.identity, new_path@, content@));
            assert(link_targets(stored.links@) == link_targets(assembled.links@));
            assert forall|k: u128|
                #![trigger self.store.notes()[k]]
                k != old_id.0 && s0.store.notes().contains_key(k) implies self.store.notes().contains_key(k)
                    && self.store.notes()[k] == s0.store.notes()[k] by {
                assert(s5.notes()[k] == s0.store.notes()[k]);
            }
            assert forall|p: Seq<char>|
                #![trigger self.store.paths()[p]]
                p != new_path@ && p != old_path@ && self.store.paths().contains_key(p) implies s0.store.paths().contains_key(p)
                    && self.store.paths()[p] == s0.store.paths()[p] by {
                assert(s4.paths().contains_key(p));
            }
            if s0.store.notes().contains_key(old_id.0) && s0.store.notes()[old_id.0].path == Some(old_path)
                && old_path@ != new_path@ {
                assert(!s4.paths().contains_key(old_path@));
            }
        }
        proof {
            assert forall|p: Seq<char>| #[trigger] self.store.paths().contains_key(p) implies self.identity.ids().contains_key(self.store.paths()[p].0) by {
                if p != new_path@ {
                    assert(s0.store.paths().contains_key(p));
                    assert(s0.identity.ids().contains_key(s0.store.paths()[p].0));
                }
            }
        }
    }

    /// The file at `path` was deleted: its note goes, with its backlinks.
    pub fn delete_file(&mut self, path: &str)
        requires
            old(self).wf(),
        ensures
            final(self).wf(),
            final(self).model == old(self).model,
            final(self).config == old(self).config,
            final(self).identity == old(self).identity,
            !old(self).store.paths().contains_key(path@) ==> final(self).store == old(self).store,
            old(self).store.paths().contains_key(path@) ==> note_removed(
                old(self).store,
                final(self).store,
                old(self).store.paths()[path@],
            ),
    {
        let id = match self.store.note_id_by_path(path) {
            Some(id) => *id,
            None => return ,
        };
        let ghost s0 = *self;
        self.store.remove_note(&id);
        proof {
            assert forall|p: Seq<char>| #[trigger] self.store.paths().contains_key(p) implies self.identity.ids().contains_key(self.store.paths()[p].0) by {
                assert(s0.store.paths().contains_key(p));
            }
        }
    }

    // -----------------------------------------------------------------------
    // Indexing files, with the record of what was last seen of them
    // -----------------------------------------------------------------------

    /// The file at `path`, of which the file system reports `meta`, is the
    /// one last indexed: same size and modification time as recorded, and
    /// its path is bound to a note.
    pub fn unchanged_since_indexed(&self, path: &str, meta: &VfsMetadata) -> (r: bool)
        ensures
            r == (self.cache_metadata@.contains_key(path@) && self.cache_metadata@[path@].mtime
                == meta.mtime && self.cache_metadata@[path@].size == meta.len
                && self.store.paths().contains_key(path@)),
    {
        match self.cache_metadata.get(path) {
            Some(cached) => cached.mtime == meta.mtime && cached.size == meta.len
                && self.store.note_id_by_path(path).is_some(),
            None => false,
        }
    }

    /// Indexes the file at `path` read as `content`, of which the file
    /// system reports `meta`: when its digest is the one recorded and its
    /// path is bound, the record is refreshed and it needs no parse; else it
    /// is read (see `update_content_internal`), and recorded.  `stats` counts
    /// the parses and the digest hits.
    pub fn index_content(
        &mut self,
        path: String,
        content: &str,
        vault_name: String,
        meta: Option<VfsMetadata>,
        stats: &mut IndexingStats,
    )
        requires
            old(self).wf(),
        ensures
            final(self).wf(),
            final(self).model == old(self).model,
            final(self).config == old(self).config,
            content_indexed(
                *old(self),
                *final(self),
                *old(stats),
                *final(stats),
                path@,
                content@,
                vault_name,
                meta,
            ),
    {
        let digest = compute_digest(content);
        if let Some(m) = meta {
            let same = match self.cache_metadata.get(path.as_str()) {
                Some(cached) => str_eq(cached.digest.as_str(), digest.as_str()),
                None => false,
            };
            if same && self.store.note_id_by_path(path.as_str()).is_some() {
                self.cache_metadata.insert(
                    path,
                    FileMetadata { mtime: m.mtime, size: m.len, digest },
                );
                if stats.tier2_hits < usize::MAX {
                    stats.tier2_hits = stats.tier2_hits + 1;
                }
                return ;
            }
        }
        if stats.full_parses < usize::MAX {
            stats.full_parses = stats.full_parses + 1;
        }
        self.update_content_internal(path, content, digest, vault_name, meta);
    }
}

} // verus!

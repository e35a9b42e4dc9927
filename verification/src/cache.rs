//! What is kept of a workspace between runs: the record of each indexed file
//! and the restoring of a saved state.
use vstd::prelude::*;
use vstd::hash_map::StringHashMap;
use crate::identity::{IdentityRegistry, entries_distinct};
use crate::model::{Note, NoteId, NoteKey};
use crate::semantic::SemanticModel;
use crate::store::{Store, targets_of};
use crate::text::str_eq;
use crate::workspace::Workspace;

verus! {

/// What was last seen of a file: its modification time (nanoseconds since
/// the Unix epoch), size and content digest.
#[derive(Debug, Clone)]
pub struct FileMetadata {
    pub mtime: u128,
    pub size: u64,
    pub digest: String,
}

/// The version of the saved state that this library reads and writes.
pub const CURRENT_VERSION: u32 = 1;

/// Why a saved state was not taken.
#[derive(Debug, Clone, Copy, PartialEq, Eq, Structural)]
pub enum CacheError {
    /// It was saved in another version.
    IncompatibleVersion,
    /// It was saved by another semantic model.
    ModelMismatch,
    /// Two bindings share a key or an identifier, or a note with a file has
    /// an identifier that no key has.
    Inconsistent,
}

/// The notes of `notes` by identifier, a later note replacing an earlier
/// one with the same identifier.
pub open spec fn notes_by_id(notes: Seq<Note>) -> Map<u128, Note>
    decreases notes.len(),
{
    if notes.len() == 0 {
        Map::empty()
    } else {
        notes_by_id(notes.drop_last()).insert(notes.last().id.0, notes.last())
    }
}

/// The records of `metadata` by path, a later record replacing an earlier
/// one for the same path.
pub open spec fn records_by_path(metadata: Seq<(String, FileMetadata)>) -> Map<Seq<char>, FileMetadata>
    decreases metadata.len(),
{
    if metadata.len() == 0 {
        Map::empty()
    } else {
        records_by_path(metadata.drop_last()).insert(metadata.last().0@, metadata.last().1)
    }
}

/// Every note of `notes` with a file has the identifier of one of `entries`.
pub open spec fn notes_keyed(notes: Seq<Note>, entries: Seq<(String, NoteId)>) -> bool {
    forall|i: int|
        0 <= i < notes.len() && (#[trigger] notes[i]).path is Some ==> exists|j: int|
            0 <= j < entries.len() && #[trigger] entries[j].1.0 == notes[i].id.0
}

impl<M: SemanticModel> Workspace<M> {
    /// Takes a saved state in place of what is known of the notes: the key
    /// bindings `entries`, the notes `notes` (with their backlinks) and the
    /// file records `metadata`, saved in format `version` by the model named
    /// `model_id`.  The state is refused, and nothing changes, when it is of
    /// another version, of another model, or inconsistent.
    pub fn restore_state(
        &mut self,
        version: u32,
        model_id: &str,
        entries: &Vec<(NoteKey, NoteId)>,
        notes: Vec<Note>,
        metadata: &Vec<(String, FileMetadata)>,
    ) -> (r: Result<(), CacheError>)
        requires
            old(self).wf(),
        ensures
            final(self).wf(),
            final(self).model == old(self).model,
            final(self).config == old(self).config,
            r == Err::<(), CacheError>(CacheError::IncompatibleVersion) <==> version != CURRENT_VERSION,
            r == Err::<(), CacheError>(CacheError::ModelMismatch) <==> version == CURRENT_VERSION
                && model_id@ != old(self).model.model_id().0@,
            r == Err::<(), CacheError>(CacheError::Inconsistent) <==> version == CURRENT_VERSION
                && model_id@ == old(self).model.model_id().0@ && !(entries_distinct(entries@)
                && notes_keyed(notes@, entries@)),
            r is Err ==> *final(self) == *old(self),
            r is Ok ==> {
                &&& forall|k: Seq<char>|
                    final(self).identity.keys().contains_key(k) <==> exists|i: int|
                        0 <= i < entries@.len() && #[trigger] entries@[i].0@ == k
                &&& forall|i: int|
                    0 <= i < entries@.len() ==> final(self).identity.keys()[#[trigger] entries@[i].0@]
                        == entries@[i].1
                &&& final(self).store.notes() == notes_by_id(notes@)
                &&& forall|p: Seq<char>|
                    #[trigger] final(self).store.paths().contains_key(p) ==> {
                        let id = final(self).store.paths()[p];
                        &&& final(self).store.notes().contains_key(id.0)
                        &&& final(self).store.notes()[id.0].path matches Some(q) && q@ == p
                    }
                &&& final(self).cache_metadata@ == records_by_path(metadata@)
            },
    {
        if version != CURRENT_VERSION {
            return Err(CacheError::IncompatibleVersion);
        }
        if !str_eq(model_id, self.model.id().0) {
            return Err(CacheError::ModelMismatch);
        }
        let identity = match IdentityRegistry::from_entries(entries) {
            Some(reg) => reg,
            None => return Err(CacheError::Inconsistent),
        };
        let mut i: usize = 0;
        while i < notes.len()
            invariant
                i <= notes@.len(),
                *self == *old(self),
                old(self).wf(),
                version == CURRENT_VERSION,
                model_id@ == old(self).model.model_id().0@,
                entries_distinct(entries@),
                identity.wf(),
                forall|n: u128|
                    identity.ids().contains_key(n) <==> exists|j: int|
                        0 <= j < entries@.len() && #[trigger] entries@[j].1.0 == n,
                forall|j: int|
                    0 <= j < i && (#[trigger] notes@[j]).path is Some ==> identity.ids().contains_key(
                        notes@[j].id.0,
                    ),
            decreases notes@.len() - i,
        {
            if notes[i].path.is_some() && identity.key_of(&notes[i].id).is_none() {
                proof {
                    assert(!notes_keyed(notes@, entries@)) by {
                        assert(notes@[i as int].path is Some);
                        if exists|j: int|
                            0 <= j < entries@.len() && #[trigger] entries@[j].1.0
                                == notes@[i as int].id.0 {
                            assert(identity.ids().contains_key(notes@[i as int].id.0));
                        }
                    }
                }
                return Err(CacheError::Inconsistent);
            }
            i = i + 1;
        }
        proof {
            assert forall|i: int|
                0 <= i < notes@.len() && (#[trigger] notes@[i]).path is Some implies exists|j: int|
                0 <= j < entries@.len() && #[trigger] entries@[j].1.0 == notes@[i].id.0 by {
                assert(identity.ids().contains_key(notes@[i].id.0));
            }
        }
        let store = build_store(notes, &identity);
        let records = records_of(metadata);
        self.identity = identity;
        self.store = store;
        self.cache_metadata = records;
        Ok(())
    }
}

/// The store holding `notes`, a later note replacing an earlier one with the
/// same identifier, each note added to the backlinks of its link targets.
fn build_store(notes: Vec<Note>, identity: &IdentityRegistry) -> (r: Store)
    requires
        forall|j: int|
            0 <= j < notes@.len() && (#[trigger] notes@[j]).path is Some ==> identity.ids().contains_key(
                notes@[j].id.0,
            ),
    ensures
        r.wf(),
        r.notes() == notes_by_id(notes@),
        forall|p: Seq<char>|
            #[trigger] r.paths().contains_key(p) ==> {
                let id = r.paths()[p];
                &&& r.notes().contains_key(id.0)
                &&& r.notes()[id.0].path matches Some(q) && q@ == p
                &&& identity.ids().contains_key(id.0)
            },
        forall|k: u128|
            #[trigger] r.notes().contains_key(k) && r.notes()[k].path is Some
                ==> identity.ids().contains_key(k),
{
    let ghost orig = notes@;
    let n = notes.len();
    let mut rest = notes;
    let mut rev: Vec<Note> = Vec::new();
    while rest.len() > 0
        invariant
            rest@.len() + rev@.len() == n,
            n == orig.len(),
            forall|k: int| 0 <= k < rest@.len() ==> rest@[k] == orig[k],
            forall|k: int| 0 <= k < rev@.len() ==> #[trigger] rev@[k] == orig[n - 1 - k],
        decreases rest@.len(),
    {
        let note = rest.pop().unwrap();
        rev.push(note);
    }
    let mut store = Store::new();
    let mut done: usize = 0;
    while rev.len() > 0
        invariant
            rev@.len() + done == n,
            n == orig.len(),
            forall|k: int| 0 <= k < rev@.len() ==> #[trigger] rev@[k] == orig[n - 1 - k],
            forall|j: int|
                0 <= j < orig.len() && (#[trigger] orig[j]).path is Some ==> identity.ids().contains_key(
                    orig[j].id.0,
                ),
            store.wf(),
            store.notes() == notes_by_id(orig.take(done as int)),
            forall|p: Seq<char>|
                #[trigger] store.paths().contains_key(p) ==> {
                    let id = store.paths()[p];
                    &&& store.notes().contains_key(id.0)
                    &&& store.notes()[id.0].path matches Some(q) && q@ == p
                },
            forall|k: u128|
                #[trigger] store.notes().contains_key(k) && store.notes()[k].path is Some
                    ==> identity.ids().contains_key(k),
        decreases rev@.len(),
    {
        let note = rev.pop().unwrap();
        proof {
            assert(note == orig[done as int]);
            assert(orig.take(done + 1).drop_last() =~= orig.take(done as int));
        }
        let id = note.id;
        let targets = targets_of(&note.links);
        let ghost s0 = store;
        store.upsert_note(note);
        let ghost s1 = store;
        proof {
            assert forall|p: Seq<char>| #[trigger] s1.paths().contains_key(p) implies {
                let id = s1.paths()[p];
                &&& s1.notes().contains_key(id.0)
                &&& s1.notes()[id.0].path matches Some(q) && q@ == p
            } by {
                if !(orig[done as int].path matches Some(q) && q@ == p) {
                    assert(s0.paths().contains_key(p));
                }
            }
            assert forall|k: u128| #[trigger] s1.notes().contains_key(k) && s1.notes()[k].path is Some
                implies identity.ids().contains_key(k) by {
                if k != id.0 {
                    assert(s0.notes().contains_key(k));
                }
            }
        }
        store.add_source(&id, &targets);
        done = done + 1;
    }
    proof {
        assert(orig.take(n as int) =~= orig);
    }
    store
}

/// The records of `metadata` by path, a later record replacing an earlier
/// one for the same path.
fn records_of(metadata: &Vec<(String, FileMetadata)>) -> (r: StringHashMap<FileMetadata>)
    ensures
        r@ == records_by_path(metadata@),
{
    let mut r: StringHashMap<FileMetadata> = StringHashMap::new();
    let mut i: usize = 0;
    while i < metadata.len()
        invariant
            i <= metadata@.len(),
            r@ == records_by_path(metadata@.take(i as int)),
        decreases metadata@.len() - i,
    {
        let entry = &metadata[i];
        let record = FileMetadata {
            mtime: entry.1.mtime,
            size: entry.1.size,
            digest: entry.1.digest.clone(),
        };
        proof {
            assert(metadata@.take(i + 1).drop_last() =~= metadata@.take(i as int));
        }
        r.insert(entry.0.clone(), record);
        i = i + 1;
    }
    proof {
        assert(metadata@.take(i as int) =~= metadata@);
    }
    r
}

} // verus!

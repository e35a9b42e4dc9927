//! Questions asked of a workspace: notes by path or key, links at a
//! position, anchors, backlinks and keys.
use vstd::prelude::*;
use crate::model::{Block, Heading, Link, Note, NoteId, NoteKey, Point, TextRange, opt_view};
use crate::mutation::EditPlan;
use crate::mutation::audit::{calculate_audit_diagnostics, notes_diagnostics};
use crate::mutation::MutationKind;
use crate::semantic::SemanticModel;
use crate::text::{chars_of, copy_str, str_eq, string_of};
use crate::utils::{slug_of, slugify_heading};
use crate::workspace::Workspace;

verus! {

/// `a` is at or before `b`.
pub open spec fn point_le(a: Point, b: Point) -> bool {
    a.line < b.line || (a.line == b.line && a.col <= b.col)
}

/// `range` holds `p` (both ends included).
pub open spec fn range_holds(range: TextRange, p: Point) -> bool {
    point_le(range.start, p) && point_le(p, range.end)
}

/// Index of the first of `links`, from `i` on, whose range holds `p`.
pub open spec fn first_link_at(links: Seq<Link>, p: Point, i: int) -> Option<int>
    decreases links.len() - i,
{
    if i < 0 || i >= links.len() {
        None
    } else if range_holds(links[i].range, p) {
        Some(i)
    } else {
        first_link_at(links, p, i + 1)
    }
}

/// Index of the first of `blocks`, from `i` on, with the id `id`.
pub open spec fn first_block_with(blocks: Seq<Block>, id: Seq<char>, i: int) -> Option<int>
    decreases blocks.len() - i,
{
    if i < 0 || i >= blocks.len() {
        None
    } else if blocks[i].id@ == id {
        Some(i)
    } else {
        first_block_with(blocks, id, i + 1)
    }
}

/// Index of the first of `headings`, from `i` on, whose anchor is `slug`.
pub open spec fn first_heading_with(headings: Seq<Heading>, slug: Seq<char>, i: int) -> Option<int>
    decreases headings.len() - i,
{
    if i < 0 || i >= headings.len() {
        None
    } else if slug_of(headings[i].text@) == slug {
        Some(i)
    } else {
        first_heading_with(headings, slug, i + 1)
    }
}

/// The point after every line.
pub open spec fn far_end() -> Point {
    Point { line: u32::MAX, col: 0 }
}

/// The origin.
pub open spec fn origin() -> Point {
    Point { line: 0, col: 0 }
}

/// The range `anchor` names in `note`: `^begin` from the start to the first
/// heading, `^end` from the last heading (else the last block) to the end;
/// `^id` the block `id`; any other anchor the first heading whose slug is
/// the anchor's slug (so `Heading 1` and `heading-1` name the same heading).
pub open spec fn anchor_range(note: Note, anchor: Seq<char>) -> Option<TextRange> {
    let hs = note.headings@;
    let bs = note.blocks@;
    if anchor == "^begin"@ {
        Some(
            TextRange {
                start: origin(),
                end: if hs.len() > 0 {
                    hs[0].range.start
                } else {
                    far_end()
                },
            },
        )
    } else if anchor == "^end"@ {
        Some(
            TextRange {
                start: if hs.len() > 0 {
                    hs.last().range.end
                } else if bs.len() > 0 {
                    bs.last().range.end
                } else {
                    origin()
                },
                end: far_end(),
            },
        )
    } else if anchor.len() > 0 && anchor[0] == '^' {
        match first_block_with(bs, anchor.skip(1), 0) {
            Some(i) => Some(bs[i].range),
            None => None,
        }
    } else {
        match first_heading_with(hs, slug_of(anchor), 0) {
            Some(i) => Some(hs[i].range),
            None => None,
        }
    }
}

/// The paths of the notes among `ids` that are stored with a path, in order.
pub open spec fn stored_paths(notes: Map<u128, Note>, ids: Seq<NoteId>) -> Seq<Seq<char>>
    decreases ids.len(),
{
    if ids.len() == 0 {
        Seq::empty()
    } else {
        let prev = stored_paths(notes, ids.drop_last());
        let id = ids.last();
        if notes.contains_key(id.0) && notes[id.0].path is Some {
            prev.push(notes[id.0].path->0@)
        } else {
            prev
        }
    }
}

/// The key and display name of each of the notes `ids` whose identifier
/// has a key, in order.
pub open spec fn key_entries<M: SemanticModel>(
    model: M,
    notes: Map<u128, Note>,
    keys: Map<u128, Seq<char>>,
    ids: Seq<NoteId>,
) -> Seq<(Seq<char>, Seq<char>)>
    decreases ids.len(),
{
    if ids.len() == 0 {
        Seq::empty()
    } else {
        let prev = key_entries(model, notes, keys, ids.drop_last());
        let id = ids.last();
        if keys.contains_key(id.0) {
            prev.push((keys[id.0], model.display_name_of(notes[id.0])))
        } else {
            prev
        }
    }
}

/// The note `id` is stored with a path.
pub open spec fn has_stored_path(notes: Map<u128, Note>, id: NoteId) -> bool {
    notes.contains_key(id.0) && notes[id.0].path is Some
}

/// The paths of the notes `ids`: the path of each of them that is stored
/// with a path is listed; every path listed is the path of one of them; and
/// there are exactly as many paths as such notes.
pub proof fn lemma_stored_paths_list_each(notes: Map<u128, Note>, ids: Seq<NoteId>)
    ensures
        forall|j: int|
            0 <= j < ids.len() && has_stored_path(notes, #[trigger] ids[j]) ==> stored_paths(
                notes,
                ids,
            ).contains(notes[ids[j].0].path->0@),
        forall|p: Seq<char>|
            #[trigger] stored_paths(notes, ids).contains(p) ==> exists|j: int|
                0 <= j < ids.len() && has_stored_path(notes, #[trigger] ids[j])
                    && notes[ids[j].0].path->0@ == p,
        stored_paths(notes, ids).len() == ids.filter(|id: NoteId| has_stored_path(notes, id)).len(),
        stored_paths(notes, ids) == ids.filter(|id: NoteId| has_stored_path(notes, id)).map_values(
            |id: NoteId| notes[id.0].path->0@,
        ),
    decreases ids.len(),
{
    reveal(Seq::filter);
    if ids.len() > 0 {
        let u = ids.drop_last();
        lemma_stored_paths_list_each(notes, u);
        let prev = stored_paths(notes, u);
        let cur = stored_paths(notes, ids);
        assert(ids.filter(|id: NoteId| has_stored_path(notes, id)) == if has_stored_path(
            notes,
            ids.last(),
        ) {
            u.filter(|id: NoteId| has_stored_path(notes, id)).push(ids.last())
        } else {
            u.filter(|id: NoteId| has_stored_path(notes, id))
        });
        let fu = u.filter(|id: NoteId| has_stored_path(notes, id));
        if has_stored_path(notes, ids.last()) {
            assert(fu.push(ids.last()).map_values(|id: NoteId| notes[id.0].path->0@) =~= fu.map_values(
                |id: NoteId| notes[id.0].path->0@,
            ).push(notes[ids.last().0].path->0@));
        }
        assert forall|j: int|
            0 <= j < ids.len() && has_stored_path(notes, #[trigger] ids[j]) implies cur.contains(
            notes[ids[j].0].path->0@,
        ) by {
            if j < u.len() {
                assert(u[j] == ids[j]);
                assert(prev.contains(notes[ids[j].0].path->0@));
                let k = choose|k: int| 0 <= k < prev.len() && prev[k] == notes[ids[j].0].path->0@;
                if has_stored_path(notes, ids.last()) {
                    assert(cur[k] == prev[k]);
                }
            } else {
                assert(cur[prev.len() as int] == notes[ids[j].0].path->0@);
            }
        }
        assert forall|p: Seq<char>| #[trigger] cur.contains(p) implies exists|j: int|
            0 <= j < ids.len() && has_stored_path(notes, #[trigger] ids[j])
                && notes[ids[j].0].path->0@ == p by {
            let k = choose|k: int| 0 <= k < cur.len() && cur[k] == p;
            if k < prev.len() {
                assert(prev[k] == p);
                assert(prev.contains(p));
                let j = choose|j: int|
                    0 <= j < u.len() && has_stored_path(notes, #[trigger] u[j])
                        && notes[u[j].0].path->0@ == p;
                assert(ids[j] == u[j]);
            } else {
                assert(ids[ids.len() - 1] == ids.last());
            }
        }
    }
}

impl<M: SemanticModel> Workspace<M> {
    /// The key of the note at `path` (always found: the model gives it).
    pub fn resolve_note_key(&self, path: &str) -> (r: Option<String>)
        requires
            self.wf(),
        ensures
            r matches Some(k) && k@ == self.model.key_from_path(path@, Seq::empty()),
    {
        let empty = String::new();
        Some(self.model.note_key_from_path(path, empty.as_str()))
    }

    /// The root directory of the workspace.
    pub fn root(&self) -> (r: &str)
        ensures
            r@ == self.model.root_path(),
    {
        self.model.root()
    }

    /// The note bound to `path`, if any.
    pub fn note_by_path(&self, path: &str) -> (r: Option<&Note>)
        ensures
            match r {
                Some(n) => self.store.paths().contains_key(path@) && self.store.notes().contains_key(
                    self.store.paths()[path@].0,
                ) && *n == self.store.notes()[self.store.paths()[path@].0],
                None => !self.store.paths().contains_key(path@) || !self.store.notes().contains_key(
                    self.store.paths()[path@].0,
                ),
            },
    {
        let id = match self.store.note_id_by_path(path) {
            Some(id) => id,
            None => return None,
        };
        self.store.get_note(id)
    }

    /// The first link of the note at `path` whose range holds `position`.
    pub fn find_link_at_position(&self, path: &str, position: Point) -> (r: Option<&Link>)
        ensures
            match r {
                Some(l) => self.store.paths().contains_key(path@) && self.store.notes().contains_key(
                    self.store.paths()[path@].0,
                ) && ({
                    let note = self.store.notes()[self.store.paths()[path@].0];
                    first_link_at(note.links@, position, 0) matches Some(i) && *l == note.links@[i]
                }),
                None => !self.store.paths().contains_key(path@) || !self.store.notes().contains_key(
                    self.store.paths()[path@].0,
                ) || first_link_at(
                    self.store.notes()[self.store.paths()[path@].0].links@,
                    position,
                    0,
                ) is None,
            },
    {
        let note = match self.note_by_path(path) {
            Some(n) => n,
            None => return None,
        };
        let mut i: usize = 0;
        while i < note.links.len()
            invariant
                self.store.paths().contains_key(path@),
                self.store.notes().contains_key(self.store.paths()[path@].0),
                *note == self.store.notes()[self.store.paths()[path@].0],
                i <= note.links@.len(),
                first_link_at(note.links@, position, 0) == first_link_at(
                    note.links@,
                    position,
                    i as int,
                ),
            decreases note.links@.len() - i,
        {
            let range = note.links[i].range;
            let after_start = range.start.line < position.line || (range.start.line
                == position.line && range.start.col <= position.col);
            let before_end = position.line < range.end.line || (position.line == range.end.line
                && position.col <= range.end.col);
            if after_start && before_end {
                return Some(&note.links[i]);
            }
            i = i + 1;
        }
        None
    }

    /// The path of the note `link` points to, if it is stored with one.
    pub fn get_link_target_path(&self, link: &Link) -> (r: Option<String>)
        ensures
            opt_view(r) == (if self.store.notes().contains_key(link.target.0) {
                opt_view(self.store.notes()[link.target.0].path)
            } else {
                None
            }),
    {
        match self.store.get_note(&link.target) {
            Some(note) => crate::model::clone_opt(&note.path),
            None => None,
        }
    }

    /// The range the anchor of `link` names in the note it points to (see
    /// `anchor_range`); `None` when the note is not stored, the link has no
    /// anchor, or the anchor names nothing.
    pub fn resolve_link_anchor(&self, link: &Link) -> (r: Option<TextRange>)
        ensures
            r == (if self.store.notes().contains_key(link.target.0) && link.anchor is Some {
                anchor_range(self.store.notes()[link.target.0], link.anchor->0@)
            } else {
                None
            }),
    {
        let note = match self.store.get_note(&link.target) {
            Some(n) => n,
            None => return None,
        };
        let anchor = match &link.anchor {
            Some(a) => a,
            None => return None,
        };
        if str_eq(anchor.as_str(), "^begin") {
            let end = if note.headings.len() > 0 {
                note.headings[0].range.start
            } else {
                Point { line: u32::MAX, col: 0 }
            };
            return Some(TextRange { start: Point { line: 0, col: 0 }, end });
        }
        if str_eq(anchor.as_str(), "^end") {
            let start = if note.headings.len() > 0 {
                note.headings[note.headings.len() - 1].range.end
            } else if note.blocks.len() > 0 {
                note.blocks[note.blocks.len() - 1].range.end
            } else {
                Point { line: 0, col: 0 }
            };
            return Some(TextRange { start, end: Point { line: u32::MAX, col: 0 } });
        }
        let a = chars_of(anchor.as_str());
        if a.len() > 0 && a[0] == '^' {
            let id = string_of(crate::text::slice_sub(a.as_slice(), 1, a.len()).as_slice());
            assert(id@ =~= anchor@.skip(1));
            let mut i: usize = 0;
            while i < note.blocks.len()
                invariant
                    self.store.notes().contains_key(link.target.0),
                    *note == self.store.notes()[link.target.0],
                    link.anchor == Some(*anchor),
                    anchor@ != "^begin"@,
                    anchor@ != "^end"@,
                    anchor@.len() > 0 && anchor@[0] == '^',
                    id@ == anchor@.skip(1),
                    i <= note.blocks@.len(),
                    first_block_with(note.blocks@, id@, 0) == first_block_with(
                        note.blocks@,
                        id@,
                        i as int,
                    ),
                decreases note.blocks@.len() - i,
            {
                if str_eq(note.blocks[i].id.as_str(), id.as_str()) {
                    return Some(note.blocks[i].range);
                }
                i = i + 1;
            }
            None
        } else {
            let wanted = slugify_heading(anchor.as_str());
            let mut i: usize = 0;
            while i < note.headings.len()
                invariant
                    self.store.notes().contains_key(link.target.0),
                    *note == self.store.notes()[link.target.0],
                    link.anchor == Some(*anchor),
                    anchor@ != "^begin"@,
                    anchor@ != "^end"@,
                    !(anchor@.len() > 0 && anchor@[0] == '^'),
                    wanted@ == slug_of(anchor@),
                    i <= note.headings@.len(),
                    first_heading_with(note.headings@, wanted@, 0) == first_heading_with(
                        note.headings@,
                        wanted@,
                        i as int,
                    ),
                decreases note.headings@.len() - i,
            {
                let slug = slugify_heading(note.headings[i].text.as_str());
                if str_eq(slug.as_str(), wanted.as_str()) {
                    return Some(note.headings[i].range);
                }
                i = i + 1;
            }
            None
        }
    }

    /// The paths of the notes linking to the note at `path`, in the order
    /// the backlinks were recorded (notes without a path are left out).
    pub fn backlinks_of(&self, path: &str) -> (r: Vec<String>)
        ensures
            r@.map_values(|s: String| s@) == (if self.store.paths().contains_key(path@) {
                stored_paths(
                    self.store.notes(),
                    crate::mutation::structural::backlink_sources(
                        self.store,
                        self.store.paths()[path@],
                    ),
                )
            } else {
                Seq::empty()
            }),
            self.store.paths().contains_key(path@) ==> {
                let ids = crate::mutation::structural::backlink_sources(
                    self.store,
                    self.store.paths()[path@],
                );
                &&& forall|j: int|
                    0 <= j < ids.len() && has_stored_path(self.store.notes(), #[trigger] ids[j])
                        ==> r@.map_values(|s: String| s@).contains(
                        self.store.notes()[ids[j].0].path->0@,
                    )
                &&& r@.len() == ids.filter(|id: NoteId| has_stored_path(self.store.notes(), id)).len()
            },
    {
        proof {
            if self.store.paths().contains_key(path@) {
                lemma_stored_paths_list_each(
                    self.store.notes(),
                    crate::mutation::structural::backlink_sources(
                        self.store,
                        self.store.paths()[path@],
                    ),
                );
            }
        }
        let id = match self.store.note_id_by_path(path) {
            Some(id) => *id,
            None => {
                let r: Vec<String> = Vec::new();
                assert(r@.map_values(|s: String| s@) =~= Seq::<Seq<char>>::empty());
                return r;
            },
        };
        let ids = self.store.backlinks_of(&id);
        let mut r: Vec<String> = Vec::new();
        let mut i: usize = 0;
        proof {
            assert(ids@.take(0) =~= Seq::<NoteId>::empty());
            assert(r@.map_values(|s: String| s@) =~= Seq::<Seq<char>>::empty());
        }
        while i < ids.len()
            invariant
                i <= ids@.len(),
                r@.map_values(|s: String| s@) == stored_paths(self.store.notes(), ids@.take(i as int)),
            decreases ids@.len() - i,
        {
            proof {
                assert(ids@.take(i + 1).drop_last() =~= ids@.take(i as int));
            }
            match self.store.get_note(&ids[i]) {
                Some(note) => match &note.path {
                    Some(p) => {
                        r.push(p.clone());
                        proof {
                            assert(r@.map_values(|s: String| s@) =~= stored_paths(
                                self.store.notes(),
                                ids@.take(i as int),
                            ).push(p@));
                        }
                    },
                    None => {},
                },
                None => {},
            }
            i = i + 1;
        }
        assert(ids@.take(ids@.len() as int) =~= ids@);
        r
    }

    /// All notes, in no particular order.
    pub fn all_notes(&self) -> (r: Vec<&Note>)
        requires
            self.wf(),
        ensures
            r@.len() == self.store.notes().len(),
            forall|i: int|
                0 <= i < r@.len() ==> self.store.notes().contains_key(#[trigger] r@[i].id.0)
                    && *r@[i] == self.store.notes()[r@[i].id.0],
            forall|k: u128|
                self.store.notes().contains_key(k) ==> exists|i: int|
                    0 <= i < r@.len() && #[trigger] r@[i].id.0 == k,
    {
        self.store.all_notes()
    }

    /// The key and display name of every note that has a key, in no
    /// particular order (see `key_entries`).
    pub fn all_note_keys(&self) -> (r: Vec<(NoteKey, String)>)
        requires
            self.wf(),
        ensures
            exists|ids: Seq<NoteId>|
                #![trigger key_entries(self.model, self.store.notes(), self.identity.ids(), ids)]
                {
                    &&& ids.no_duplicates()
                    &&& forall|id: NoteId| ids.contains(id) <==> self.store.notes().contains_key(id.0)
                    &&& r@.map_values(|e: (NoteKey, String)| (e.0@, e.1@)) == key_entries(
                        self.model,
                        self.store.notes(),
                        self.identity.ids(),
                        ids,
                    )
                },
    {
        let ids = self.store.all_note_ids();
        let mut r: Vec<(NoteKey, String)> = Vec::new();
        let mut i: usize = 0;
        proof {
            assert(ids@.take(0) =~= Seq::<NoteId>::empty());
            assert(r@.map_values(|e: (NoteKey, String)| (e.0@, e.1@)) =~= Seq::<(Seq<char>, Seq<char>)>::empty());
        }
        while i < ids.len()
            invariant
                self.wf(),
                i <= ids@.len(),
                forall|id: NoteId| ids@.contains(id) <==> self.store.notes().contains_key(id.0),
                r@.map_values(|e: (NoteKey, String)| (e.0@, e.1@)) == key_entries(
                    self.model,
                    self.store.notes(),
                    self.identity.ids(),
                    ids@.take(i as int),
                ),
            decreases ids@.len() - i,
        {
            proof {
                assert(ids@.take(i + 1).drop_last() =~= ids@.take(i as int));
                assert(ids@.contains(ids@[i as int]));
            }
            let note = self.store.get_note(&ids[i]).unwrap();
            match self.identity.key_of(&ids[i]) {
                Some(key) => {
                    let name = self.model.resolve_display_name(note);
                    let ghost before = r@.map_values(|e: (NoteKey, String)| (e.0@, e.1@));
                    r.push((key, name));
                    proof {
                        assert(r@.map_values(|e: (NoteKey, String)| (e.0@, e.1@)) =~= before.push(
                            (key@, name@),
                        ));
                    }
                },
                None => {},
            }
            i = i + 1;
        }
        assert(ids@.take(ids@.len() as int) =~= ids@);
        r
    }

    /// The note with key `key`, if it is stored.
    pub fn lookup_note(&self, key: &str) -> (r: Option<&Note>)
        ensures
            match r {
                Some(n) => self.identity.keys().contains_key(key@) && self.store.notes().contains_key(
                    self.identity.keys()[key@].0,
                ) && *n == self.store.notes()[self.identity.keys()[key@].0],
                None => !self.identity.keys().contains_key(key@) || !self.store.notes().contains_key(
                    self.identity.keys()[key@].0,
                ),
            },
    {
        let k = copy_str(key);
        match self.identity.lookup(&k) {
            Some(id) => self.store.get_note(&id),
            None => None,
        }
    }

    /// The key of `note`, if its identifier has one.
    pub fn key_of_note(&self, note: &Note) -> (r: Option<NoteKey>)
        ensures
            opt_view(r) == (if self.identity.ids().contains_key(note.id.0) {
                Some(self.identity.ids()[note.id.0])
            } else {
                None
            }),
    {
        self.identity.key_of(&note.id)
    }

    /// The path the note with key `key` would have (whether or not it
    /// exists).
    pub fn path_for_key(&self, key: &NoteKey) -> (r: String)
        requires
            self.wf(),
        ensures
            r@ == self.model.path_from_key(key@),
    {
        self.model.path_from_note_key(key)
    }

    /// The parent key of `key` in the hierarchy.
    pub fn parent_of(&self, key: &NoteKey) -> (r: Option<NoteKey>)
        requires
            self.wf(),
        ensures
            opt_view(r) == self.model.parent_key(key@),
    {
        self.model.resolve_parent(key)
    }

    /// Whether `candidate` lies below `parent` in the hierarchy.
    pub fn is_descendant(&self, candidate: &NoteKey, parent: &NoteKey) -> (r: bool)
        requires
            self.wf(),
        ensures
            r == self.model.descends(candidate@, parent@),
    {
        self.model.is_descendant(candidate, parent)
    }

    /// The name under which `note` is shown.
    pub fn display_name(&self, note: &Note) -> (r: String)
        requires
            self.wf(),
        ensures
            r@ == self.model.display_name_of(*note),
    {
        self.model.resolve_display_name(note)
    }

    /// A wiki link to `target`, with `alias` when given.
    pub fn format_wikilink(&self, target: &str, alias: Option<&str>) -> (r: String)
        requires
            self.wf(),
        ensures
            r@ == self.model.wikilink_text(
                target@,
                match alias {
                    Some(a) => Some(a@),
                    None => None,
                },
                None,
                false,
            ),
    {
        self.model.format_wikilink(target, alias, None, false)
    }

    /// The health audit of the workspace (see `calculate_audit_diagnostics`).
    pub fn audit(&self) -> (r: EditPlan)
        requires
            self.wf(),
        ensures
            r.mutation_kind == MutationKind::WorkspaceAudit,
            r@.edits.len() == 0,
            r@.preconditions.len() == 0,
            !r.reversible,
            exists|ids: Seq<NoteId>|
                #![trigger notes_diagnostics(self.model, self.store.notes(), ids)]
                {
                    &&& ids.no_duplicates()
                    &&& forall|id: NoteId| ids.contains(id) <==> self.store.notes().contains_key(id.0)
                    &&& r@.diagnostics == notes_diagnostics(self.model, self.store.notes(), ids)
                },
    {
        calculate_audit_diagnostics(&self.store, &self.model)
    }
}

} // verus!

//! The in-memory store of notes: notes by identifier, identifiers by path,
//! and the backlinks of each note.
use vstd::prelude::*;
use vstd::hash_map::StringHashMap;
use std::collections::HashMap;
use vstd::std_specs::hash::spec_keys_iter;
use vstd::std_specs::iter::IteratorSpec;
use crate::model::{Link, LinkKind, Note, NoteId, Point, TextRange, WikiLinkFormat};

verus! {

broadcast use vstd::std_specs::hash::group_hash_axioms;

/// `v` without the occurrences of `x`.
pub open spec fn without(v: Seq<NoteId>, x: NoteId) -> Seq<NoteId>
    decreases v.len(),
{
    if v.len() == 0 {
        v
    } else if v.last() == x {
        without(v.drop_last(), x)
    } else {
        without(v.drop_last(), x).push(v.last())
    }
}

/// One of the first `n` identifiers of `ids` has the value `k`.
pub open spec fn among(ids: Seq<NoteId>, n: int, k: u128) -> bool {
    exists|j: int| 0 <= j < n && j < ids.len() && ids[j].0 == k
}

proof fn lemma_among_step(ids: Seq<NoteId>, n: int, k: u128)
    requires
        0 <= n < ids.len(),
    ensures
        among(ids, n + 1, k) == (among(ids, n, k) || ids[n].0 == k),
{
    if among(ids, n + 1, k) && ids[n].0 != k {
        let j = choose|j: int| 0 <= j < n + 1 && j < ids.len() && ids[j].0 == k;
        assert(0 <= j < n && j < ids.len() && ids[j].0 == k);
    }
    if ids[n].0 == k {
        assert(0 <= n < n + 1 && n < ids.len() && ids[n].0 == k);
    }
}

/// `v` with `x` added at its end, unless it holds it already.
pub open spec fn with_member(v: Seq<NoteId>, x: NoteId) -> Seq<NoteId> {
    if v.contains(x) {
        v
    } else {
        v.push(x)
    }
}

/// The identifiers of the notes `links` point to.
pub open spec fn link_targets(links: Seq<Link>) -> Seq<NoteId> {
    links.map_values(|l: Link| l.target)
}

/// The backlinks `bl` once `source` is taken out of the lists of `olds`
/// and added to those of `targets`.
pub open spec fn relinked(
    bl: Map<u128, Seq<NoteId>>,
    source: NoteId,
    olds: Seq<NoteId>,
    targets: Seq<NoteId>,
) -> Map<u128, Seq<NoteId>> {
    added(dropped(bl, source, olds, olds.len() as int), source, targets, targets.len() as int)
}

/// The backlinks `bl` once `source` is taken out of the lists of the first
/// `n` of `olds`.
pub open spec fn dropped(bl: Map<u128, Seq<NoteId>>, source: NoteId, olds: Seq<NoteId>, n: int) -> Map<
    u128,
    Seq<NoteId>,
> {
    Map::new(
        |k: u128| bl.contains_key(k),
        |k: u128|
            if among(olds, n, k) {
                without(bl[k], source)
            } else {
                bl[k]
            },
    )
}

/// The backlinks `bl` once `source` is added to the lists of the first `n`
/// of `targets`.
pub open spec fn added(bl: Map<u128, Seq<NoteId>>, source: NoteId, targets: Seq<NoteId>, n: int) -> Map<
    u128,
    Seq<NoteId>,
> {
    Map::new(
        |k: u128| bl.contains_key(k) || among(targets, n, k),
        |k: u128|
            if among(targets, n, k) {
                with_member(
                    if bl.contains_key(k) {
                        bl[k]
                    } else {
                        Seq::empty()
                    },
                    source,
                )
            } else {
                bl[k]
            },
    )
}

/// `l` is a wiki link to `target` with nothing else known of it: no text,
/// alias or anchor, and an empty range at the start.
pub open spec fn is_placeholder_link(l: Link, target: NoteId) -> bool {
    &&& l.target == target
    &&& l.raw_target@ == Seq::<char>::empty()
    &&& l.alias is None
    &&& l.anchor is None
    &&& l.range == TextRange { start: Point { line: 0, col: 0 }, end: Point { line: 0, col: 0 } }
    &&& l.kind == LinkKind::WikiLink(WikiLinkFormat::AliasFirst)
}

/// `links` are the links `prev` of a note once their targets are
/// `targets`: the same links retargeted when there are as many, else one
/// placeholder wiki link per target.
pub open spec fn retargeted(prev: Seq<Link>, targets: Seq<NoteId>, links: Seq<Link>) -> bool {
    if prev.len() == targets.len() {
        links == Seq::new(prev.len(), |i: int| (Link { target: targets[i], ..prev[i] }))
    } else {
        &&& links.len() == targets.len()
        &&& forall|i: int| 0 <= i < links.len() ==> is_placeholder_link(#[trigger] links[i], targets[i])
    }
}

/// `f` is the store `o` without the note `id`: its path unbound, its
/// backlinks dropped and `id` taken out of every other note's backlinks;
/// `o` itself when there is no such note.
pub open spec fn note_removed(o: Store, f: Store, id: NoteId) -> bool {
    &&& !o.notes().contains_key(id.0) ==> f.notes() == o.notes() && f.paths() == o.paths()
        && f.backlinks() == o.backlinks()
    &&& o.notes().contains_key(id.0) ==> {
        &&& f.notes() == o.notes().remove(id.0)
        &&& f.paths() == match o.notes()[id.0].path {
            Some(p) => o.paths().remove(p@),
            None => o.paths(),
        }
        &&& f.backlinks().dom() == o.backlinks().dom().remove(id.0)
        &&& forall|k: u128| #[trigger]
            f.backlinks().contains_key(k) ==> f.backlinks()[k] == without(o.backlinks()[k], id)
    }
}

/// The notes of a workspace, the identifier bound to each path, and the
/// notes linking to each note.
pub struct Store {
    notes: HashMap<u128, Note>,
    path_map: StringHashMap<NoteId>,
    backlinks: HashMap<u128, Vec<NoteId>>,
}

impl Store {
    /// The notes, by the value of their identifier.
    pub closed spec fn notes(&self) -> Map<u128, Note> {
        self.notes@
    }

    /// The identifier bound to each path.
    pub closed spec fn paths(&self) -> Map<Seq<char>, NoteId> {
        self.path_map@
    }

    /// The notes linking to each note, by the value of its identifier.
    pub closed spec fn backlinks(&self) -> Map<u128, Seq<NoteId>> {
        self.backlinks@.map_values(|v: Vec<NoteId>| v@)
    }

    /// Each note is stored under its own identifier.
    pub closed spec fn wf(&self) -> bool {
        forall|k: u128| #[trigger] self.notes@.contains_key(k) ==> self.notes@[k].id.0 == k
    }

    /// An empty store.
    pub fn new() -> (r: Self)
        ensures
            r.wf(),
            r.notes() == Map::<u128, Note>::empty(),
            r.paths() == Map::<Seq<char>, NoteId>::empty(),
            r.backlinks() == Map::<u128, Seq<NoteId>>::empty(),
    {
        let r = Store {
            notes: HashMap::new(),
            path_map: StringHashMap::new(),
            backlinks: HashMap::new(),
        };
        assert(r.backlinks() =~= Map::<u128, Seq<NoteId>>::empty());
        r
    }

    /// Inserts or replaces `note`.  The path of the note it replaces is
    /// unbound when it was bound to this note; the note's own path is bound
    /// to it.
    pub fn upsert_note(&mut self, note: Note)
        requires
            old(self).wf(),
        ensures
            final(self).wf(),
            final(self).notes() == old(self).notes().insert(note.id.0, note),
            final(self).backlinks() == old(self).backlinks(),
            final(self).paths() == ({
                let unbound = match old(self).notes().get(note.id.0) {
                    Some(prev) => match prev.path {
                        Some(p) => if old(self).paths().get(p@) == Some(note.id) {
                            old(self).paths().remove(p@)
                        } else {
                            old(self).paths()
                        },
                        None => old(self).paths(),
                    },
                    None => old(self).paths(),
                };
                match note.path {
                    Some(p) => unbound.insert(p@, note.id),
                    None => unbound,
                }
            }),
    {
        let id = note.id;
        let mut stale: Option<String> = None;
        match self.notes.get(&id.0) {
            Some(prev) => match &prev.path {
                Some(p) => match self.path_map.get(p.as_str()) {
                    Some(bound) => {
                        if *bound == id {
                            stale = Some(p.clone());
                        }
                    },
                    None => {},
                },
                None => {},
            },
            None => {},
        }
        if let Some(p) = stale {
            self.path_map.remove(p.as_str());
        }
        if let Some(p) = &note.path {
            self.path_map.insert(p.clone(), id);
        }
        self.notes.insert(id.0, note);
    }

    /// Removes the note `id`, unbinds its path, and drops its backlinks and
    /// its place in the backlinks of every note.  Nothing changes when there
    /// is no such note.
    pub fn remove_note(&mut self, id: &NoteId)
        requires
            old(self).wf(),
        ensures
            final(self).wf(),
            note_removed(*old(self), *final(self), *id),
    {
        let removed = match self.notes.remove(&id.0) {
            Some(n) => n,
            None => {
                assert(self.notes@ =~= old(self).notes@);
                return ;
            },
        };
        if let Some(p) = &removed.path {
            self.path_map.remove(p.as_str());
        }
        self.backlinks.remove(&id.0);
        let keys = self.backlink_keys();
        let ghost mid = self.backlinks@;
        let ghost notes_mid = self.notes@;
        let ghost paths_mid = self.path_map@;
        assert(self.wf());
        let mut i: usize = 0;
        while i < keys.len()
            invariant
                self.wf(),
                self.notes@ == notes_mid,
                self.path_map@ == paths_mid,
                self.backlinks@.dom() == mid.dom(),
                keys@.to_set() == mid.dom(),
                keys@.no_duplicates(),
                i <= keys@.len(),
                forall|j: int|
                    #![trigger keys@[j]]
                    0 <= j < i ==> self.backlinks@[keys@[j]]@ == without(mid[keys@[j]]@, *id),
                forall|k: u128|
                    #![trigger self.backlinks@[k]]
                    mid.contains_key(k) && !keys@.take(i as int).contains(k)
                        ==> self.backlinks@[k] == mid[k],
            decreases keys@.len() - i,
        {
            let k = keys[i];
            let list = match self.backlinks.remove(&k) {
                Some(l) => l,
                None => Vec::new(),
            };
            let kept = without_id(&list, id);
            self.backlinks.insert(k, kept);
            proof {
                assert forall|k2: u128| #![trigger self.backlinks@[k2]]
                    mid.contains_key(k2) && !keys@.take(i + 1).contains(k2) implies self.backlinks@[k2]
                    == mid[k2] by {
                    assert(keys@.take(i + 1)[i as int] == k);
                    if keys@.take(i as int).contains(k2) {
                        let j = choose|j: int| 0 <= j < i && keys@.take(i as int)[j] == k2;
                        assert(keys@.take(i + 1)[j] == k2);
                    }
                }
                assert forall|j: int| #![trigger keys@[j]]
                    0 <= j < i + 1 implies self.backlinks@[keys@[j]]@ == without(
                    mid[keys@[j]]@,
                    *id,
                ) by {
                    if j < i {
                        assert(keys@[j] != keys@[i as int]);
                    } else {
                        assert(!keys@.take(i as int).contains(k)) by {
                            if keys@.take(i as int).contains(k) {
                                let j2 = choose|j2: int|
                                    0 <= j2 < i && keys@.take(i as int)[j2] == k;
                                assert(keys@[j2] == keys@[i as int]);
                            }
                        }
                        assert(mid.contains_key(k)) by {
                            assert(keys@.to_set().contains(k));
                        }
                    }
                }
            }
            i = i + 1;
        }
        proof {
            assert forall|k: u128| #[trigger]
                self.backlinks().contains_key(k) implies self.backlinks()[k] == without(
                old(self).backlinks()[k],
                *id,
            ) by {
                assert(keys@.to_set().contains(k));
                let j = choose|j: int| 0 <= j < keys@.len() && keys@[j] == k;
                assert(self.backlinks@[keys@[j]]@ == without(mid[keys@[j]]@, *id));
            }
            assert(self.backlinks().dom() =~= old(self).backlinks().dom().remove(id.0));
        }
    }

    /// The identifiers that have a backlink list, each once.
    fn backlink_keys(&self) -> (r: Vec<u128>)
        ensures
            r@.to_set() == self.backlinks@.dom(),
            r@.no_duplicates(),
    {
        let mut r: Vec<u128> = Vec::new();
        let ghost s = spec_keys_iter(&self.backlinks).remaining();
        for k in it: self.backlinks.keys()
            invariant
                it.seq() == s,
                r@ == s.take(it.index()).map_values(|k: &u128| *k),
        {
            proof {
                assert(s.take(it.index() + 1) =~= s.take(it.index()).push(k));
            }
            r.push(*k);
        }
        proof {
            assert(r@ =~= s.unref());
        }
        r
    }

    /// The note `id`, if any.
    pub fn get_note(&self, id: &NoteId) -> (r: Option<&Note>)
        ensures
            match r {
                Some(n) => self.notes().contains_key(id.0) && *n == self.notes()[id.0],
                None => !self.notes().contains_key(id.0),
            },
    {
        self.notes.get(&id.0)
    }

    /// Binds `path` to `id`.
    pub fn bind_path(&mut self, path: String, id: NoteId)
        requires
            old(self).wf(),
        ensures
            final(self).wf(),
            final(self).notes() == old(self).notes(),
            final(self).backlinks() == old(self).backlinks(),
            final(self).paths() == old(self).paths().insert(path@, id),
    {
        self.path_map.insert(path, id);
    }

    /// Moves the note `id` to `new_path`: its old path is unbound when it
    /// was bound to it, and the new one is bound.  Nothing changes when there
    /// is no such note.
    pub fn update_path(&mut self, id: &NoteId, new_path: String)
        requires
            old(self).wf(),
        ensures
            final(self).wf(),
            final(self).backlinks() == old(self).backlinks(),
            !old(self).notes().contains_key(id.0) ==> final(self).notes() == old(self).notes()
                && final(self).paths() == old(self).paths(),
            old(self).notes().contains_key(id.0) ==> {
                let prev = old(self).notes()[id.0];
                &&& final(self).notes() == old(self).notes().insert(
                    id.0,
                    (Note { path: Some(new_path), ..prev }),
                )
                &&& final(self).paths() == (match prev.path {
                    Some(p) => if old(self).paths().get(p@) == Some(*id) {
                        old(self).paths().remove(p@)
                    } else {
                        old(self).paths()
                    },
                    None => old(self).paths(),
                }).insert(new_path@, *id)
            },
    {
        let mut note = match self.notes.remove(&id.0) {
            Some(n) => n,
            None => return ,
        };
        if let Some(old_path) = &note.path {
            let unbind = match self.path_map.get(old_path.as_str()) {
                Some(bound) => *bound == *id,
                None => false,
            };
            if unbind {
                self.path_map.remove(old_path.as_str());
            }
        }
        let p = new_path.clone();
        note.path = Some(new_path);
        self.notes.insert(id.0, note);
        self.path_map.insert(p, *id);
        proof {
            assert(self.notes@ =~= old(self).notes@.insert(
                id.0,
                (Note { path: Some(p), ..old(self).notes@[id.0] }),
            ));
        }
    }

    /// The identifier bound to `path`, if any.
    pub fn note_id_by_path(&self, path: &str) -> (r: Option<&NoteId>)
        ensures
            match r {
                Some(id) => self.paths().contains_key(path@) && *id == self.paths()[path@],
                None => !self.paths().contains_key(path@),
            },
    {
        self.path_map.get(path)
    }

    /// Replaces the outgoing links of `source` by links to `targets`:
    /// `source` leaves the backlinks of its former targets and joins those
    /// of `targets`; the note's links are retargeted.
    pub fn set_outgoing_links(&mut self, source: &NoteId, targets: Vec<NoteId>)
        requires
            old(self).wf(),
        ensures
            final(self).wf(),
            final(self).paths() == old(self).paths(),
            final(self).backlinks() == relinked(
                old(self).backlinks(),
                *source,
                match old(self).notes().get(source.0) {
                    Some(n) => link_targets(n.links@),
                    None => Seq::empty(),
                },
                targets@,
            ),
            !old(self).notes().contains_key(source.0) ==> final(self).notes() == old(
                self,
            ).notes(),
            old(self).notes().contains_key(source.0) ==> {
                let prev = old(self).notes()[source.0];
                &&& final(self).notes().dom() == old(self).notes().dom()
                &&& forall|k: u128|
                    #![trigger final(self).notes()[k]]
                    final(self).notes().contains_key(k) && k != source.0 ==> final(self).notes()[k]
                        == old(self).notes()[k]
                &&& retargeted(prev.links@, targets@, final(self).notes()[source.0].links@)
                &&& final(self).notes()[source.0] == (Note {
                    links: final(self).notes()[source.0].links,
                    ..prev
                })
            },
            old(self).notes().contains_key(source.0) && backlinks_consistent(
                old(self).notes(),
                old(self).backlinks(),
            ) ==> backlinks_consistent(final(self).notes(), final(self).backlinks()),
    {
        let ghost olds = match self.notes@.get(source.0) {
            Some(n) => link_targets(n.links@),
            None => Seq::empty(),
        };
        let old_targets: Vec<NoteId> = match self.notes.get(&source.0) {
            Some(n) => targets_of(&n.links),
            None => Vec::new(),
        };
        assert(old_targets@ == olds);
        self.drop_source(source, &old_targets);
        self.add_source(source, &targets);
        let mut note = match self.notes.remove(&source.0) {
            Some(n) => n,
            None => return ,
        };
        let ghost prev = note;
        if note.links.len() == targets.len() {
            let mut i: usize = 0;
            while i < note.links.len()
                invariant
                    i <= note.links@.len(),
                    note.links@.len() == prev.links@.len() == targets@.len(),
                    note == (Note { links: note.links, ..prev }),
                    forall|j: int|
                        0 <= j < i ==> #[trigger] note.links@[j] == (Link {
                            target: targets@[j],
                            ..prev.links@[j]
                        }),
                    forall|j: int| i <= j < note.links@.len() ==> #[trigger] note.links@[j] == prev.links@[j],
                decreases note.links@.len() - i,
            {
                let mut link = note.links.remove(i);
                link.target = targets[i];
                note.links.insert(i, link);
                i = i + 1;
            }
            assert(note.links@ =~= Seq::new(prev.links@.len(), |i: int| (Link { target: targets@[i], ..prev.links@[i] })));
        } else {
            let mut links: Vec<Link> = Vec::new();
            let mut i: usize = 0;
            while i < targets.len()
                invariant
                    i <= targets@.len(),
                    links@.len() == i,
                    forall|j: int| 0 <= j < i ==> is_placeholder_link(#[trigger] links@[j], targets@[j]),
                decreases targets@.len() - i,
            {
                links.push(
                    Link {
                        target: targets[i],
                        raw_target: String::new(),
                        alias: None,
                        anchor: None,
                        range: TextRange {
                            start: Point { line: 0, col: 0 },
                            end: Point { line: 0, col: 0 },
                        },
                        kind: LinkKind::WikiLink(WikiLinkFormat::AliasFirst),
                    },
                );
                i = i + 1;
            }
            note.links = links;
        }
        self.notes.insert(source.0, note);
        proof {
            assert(self.notes@.dom() =~= old(self).notes@.dom());
            lemma_retargeted_targets(prev.links@, targets@, self.notes()[source.0].links@);
            if backlinks_consistent(old(self).notes(), old(self).backlinks()) {
                lemma_relinked_consistent(
                    old(self).notes(),
                    self.notes(),
                    old(self).backlinks(),
                    *source,
                    targets@,
                );
            }
        }
    }

    /// Takes `source` out of the backlinks of each of `olds`.
    fn drop_source(&mut self, source: &NoteId, olds: &Vec<NoteId>)
        requires
            old(self).wf(),
        ensures
            final(self).wf(),
            final(self).notes() == old(self).notes(),
            final(self).paths() == old(self).paths(),
            final(self).backlinks() == dropped(
                old(self).backlinks(),
                *source,
                olds@,
                olds@.len() as int,
            ),
    {
        let ghost b0 = old(self).backlinks();
        let mut i: usize = 0;
        proof {
            assert(self.backlinks() =~= dropped(b0, *source, olds@, 0));
        }
        while i < olds.len()
            invariant
                self.wf(),
                self.notes() == old(self).notes(),
                self.paths() == old(self).paths(),
                b0 == old(self).backlinks(),
                i <= olds@.len(),
                self.backlinks() == dropped(b0, *source, olds@, i as int),
            decreases olds@.len() - i,
        {
            let k = olds[i].0;
            let ghost before = self.backlinks();
            proof {
                lemma_among_step(olds@, i as int, k);
            }
            if let Some(list) = self.backlinks.remove(&k) {
                let kept = without_id(&list, source);
                self.backlinks.insert(k, kept);
                proof {
                    if among(olds@, i as int, k) {
                        lemma_without_idempotent(b0[k], *source);
                    }
                    assert(self.backlinks() =~= before.insert(k, without(before[k], *source)));
                }
            } else {
                assert(self.backlinks() =~= before);
            }
            proof {
                assert forall|k2: u128| #[trigger] among(olds@, i + 1, k2) == (among(olds@, i as int, k2) || olds@[i as int].0 == k2) by {
                    lemma_among_step(olds@, i as int, k2);
                }
                assert(self.backlinks() =~= dropped(b0, *source, olds@, i + 1));
            }
            i = i + 1;
        }
    }

    /// Adds `source` to the backlinks of each of `targets`.
    pub(crate) fn add_source(&mut self, source: &NoteId, targets: &Vec<NoteId>)
        requires
            old(self).wf(),
        ensures
            final(self).wf(),
            final(self).notes() == old(self).notes(),
            final(self).paths() == old(self).paths(),
            final(self).backlinks() == added(
                old(self).backlinks(),
                *source,
                targets@,
                targets@.len() as int,
            ),
    {
        let ghost b0 = old(self).backlinks();
        let mut i: usize = 0;
        proof {
            assert(self.backlinks() =~= added(b0, *source, targets@, 0));
        }
        while i < targets.len()
            invariant
                self.wf(),
                self.notes() == old(self).notes(),
                self.paths() == old(self).paths(),
                b0 == old(self).backlinks(),
                i <= targets@.len(),
                self.backlinks() == added(b0, *source, targets@, i as int),
            decreases targets@.len() - i,
        {
            let k = targets[i].0;
            let ghost before = self.backlinks();
            let mut list = match self.backlinks.remove(&k) {
                Some(l) => l,
                None => Vec::new(),
            };
            let ghost prior = list@;
            assert(prior == if before.contains_key(k) {
                before[k]
            } else {
                Seq::empty()
            });
            if !contains_id(&list, source) {
                list.push(*source);
            }
            self.backlinks.insert(k, list);
            proof {
                assert(list@ == with_member(prior, *source));
                assert(self.backlinks() =~= before.insert(k, with_member(prior, *source)));
                lemma_among_step(targets@, i as int, k);
                let base = if b0.contains_key(k) {
                    b0[k]
                } else {
                    Seq::empty()
                };
                if among(targets@, i as int, k) {
                    assert(with_member(with_member(base, *source), *source) == with_member(
                        base,
                        *source,
                    )) by {
                        if !base.contains(*source) {
                            assert(base.push(*source)[base.len() as int] == *source);
                        }
                    }
                }
                assert forall|k2: u128| #[trigger] among(targets@, i + 1, k2) == (among(targets@, i as int, k2) || targets@[i as int].0 == k2) by {
                    lemma_among_step(targets@, i as int, k2);
                }
                assert(self.backlinks() =~= added(b0, *source, targets@, i + 1));
            }
            i = i + 1;
        }
    }

    /// The notes linking to `id` (empty when none is recorded).
    pub fn backlinks_of(&self, id: &NoteId) -> (r: Vec<NoteId>)
        ensures
            r@ == (if self.backlinks().contains_key(id.0) {
                self.backlinks()[id.0]
            } else {
                Seq::empty()
            }),
    {
        match self.backlinks.get(&id.0) {
            Some(v) => v.clone(),
            None => Vec::new(),
        }
    }

    /// The identifiers of all notes, each once, in no particular order.
    pub fn all_note_ids(&self) -> (r: Vec<NoteId>)
        ensures
            r@.no_duplicates(),
            forall|id: NoteId| r@.contains(id) <==> self.notes().contains_key(id.0),
    {
        let mut r: Vec<NoteId> = Vec::new();
        let ghost s = spec_keys_iter(&self.notes).remaining();
        for k in it: self.notes.keys()
            invariant
                it.seq() == s,
                r@ == s.take(it.index()).map_values(|k: &u128| NoteId(*k)),
        {
            proof {
                assert(s.take(it.index() + 1) =~= s.take(it.index()).push(k));
            }
            r.push(NoteId(*k));
        }
        proof {
            assert(r@ =~= s.map_values(|k: &u128| NoteId(*k)));
            assert forall|id: NoteId| r@.contains(id) <==> self.notes().contains_key(id.0) by {
                if self.notes().contains_key(id.0) {
                    assert(s.unref().to_set().contains(id.0));
                    let j = choose|j: int| 0 <= j < s.len() && s.unref()[j] == id.0;
                    assert(r@[j] == id);
                }
                if r@.contains(id) {
                    let j = choose|j: int| 0 <= j < r@.len() && r@[j] == id;
                    assert(s.unref()[j] == id.0);
                    assert(s.unref().to_set().contains(id.0));
                }
            }
            assert forall|a: int, b: int| 0 <= a < b < r@.len() implies r@[a] != r@[b] by {
                assert(s.unref()[a] != s.unref()[b]);
            }
        }
        r
    }

    /// All notes, in no particular order.
    pub fn all_notes(&self) -> (r: Vec<&Note>)
        requires
            self.wf(),
        ensures
            r@.len() == self.notes().len(),
            forall|i: int| 0 <= i < r@.len() ==> self.notes().contains_key(#[trigger] r@[i].id.0)
                && *r@[i] == self.notes()[r@[i].id.0],
            forall|k: u128| self.notes().contains_key(k) ==> exists|i: int|
                0 <= i < r@.len() && #[trigger] r@[i].id.0 == k,
    {
        let ids = self.all_note_ids();
        let mut r: Vec<&Note> = Vec::new();
        let mut i: usize = 0;
        while i < ids.len()
            invariant
                self.wf(),
                i <= ids@.len(),
                r@.len() == i,
                ids@.no_duplicates(),
                forall|id: NoteId| ids@.contains(id) <==> self.notes().contains_key(id.0),
                forall|j: int| 0 <= j < i ==> #[trigger] r@[j].id == ids@[j],
                forall|j: int| 0 <= j < i ==> self.notes().contains_key(#[trigger] r@[j].id.0),
                forall|j: int| 0 <= j < i ==> *#[trigger] r@[j] == self.notes()[r@[j].id.0],
            decreases ids@.len() - i,
        {
            assert(ids@.contains(ids@[i as int]));
            let n = self.notes.get(&ids[i].0).unwrap();
            r.push(n);
            i = i + 1;
        }
        proof {
            assert forall|k: u128| self.notes().contains_key(k) implies exists|i: int|
                0 <= i < r@.len() && #[trigger] r@[i].id.0 == k by {
                assert(ids@.contains(NoteId(k)));
                let j = choose|j: int| 0 <= j < ids@.len() && ids@[j] == NoteId(k);
                assert(r@[j].id.0 == k);
            }
            assert(ids@.to_set() =~= self.notes().dom().map(|k: u128| NoteId(k)));
            assert(self.notes().dom().finite());
            ids@.unique_seq_to_set();
            vstd::set_lib::lemma_map_size(
                self.notes().dom(),
                self.notes().dom().map(|k: u128| NoteId(k)),
                |k: u128| NoteId(k),
            );
        }
        r
    }
}

proof fn lemma_without_idempotent(v: Seq<NoteId>, x: NoteId)
    ensures
        without(without(v, x), x) == without(v, x),
    decreases v.len(),
{
    if v.len() > 0 {
        lemma_without_idempotent(v.drop_last(), x);
        if v.last() != x {
            let w = without(v.drop_last(), x).push(v.last());
            assert(w.drop_last() =~= without(v.drop_last(), x));
        }
    }
}

/// `list` without the occurrences of `x`.
fn without_id(list: &Vec<NoteId>, x: &NoteId) -> (r: Vec<NoteId>)
    ensures
        r@ == without(list@, *x),
{
    let mut r: Vec<NoteId> = Vec::new();
    let mut i: usize = 0;
    proof {
        assert(list@.take(0) =~= Seq::<NoteId>::empty());
    }
    while i < list.len()
        invariant
            i <= list@.len(),
            r@ == without(list@.take(i as int), *x),
        decreases list@.len() - i,
    {
        proof {
            let t = list@.take(i + 1);
            assert(t.drop_last() =~= list@.take(i as int));
        }
        if list[i] != *x {
            r.push(list[i]);
        }
        i = i + 1;
    }
    assert(list@.take(list@.len() as int) =~= list@);
    r
}

/// Whether `list` holds `x`.
fn contains_id(list: &Vec<NoteId>, x: &NoteId) -> (r: bool)
    ensures
        r == list@.contains(*x),
{
    let mut i: usize = 0;
    while i < list.len()
        invariant
            i <= list@.len(),
            forall|j: int| 0 <= j < i ==> list@[j] != *x,
        decreases list@.len() - i,
    {
        if list[i] == *x {
            return true;
        }
        i = i + 1;
    }
    false
}

/// The targets of `links`, in order.
pub fn targets_of(links: &Vec<Link>) -> (r: Vec<NoteId>)
    ensures
        r@ == link_targets(links@),
{
    let mut r: Vec<NoteId> = Vec::new();
    let mut i: usize = 0;
    while i < links.len()
        invariant
            i <= links@.len(),
            r@ == link_targets(links@.take(i as int)),
        decreases links@.len() - i,
    {
        r.push(links[i].target);
        proof {
            assert(links@.take(i + 1) =~= links@.take(i as int).push(links@[i as int]));
            assert(link_targets(links@.take(i + 1)) =~= link_targets(links@.take(i as int)).push(
                links@[i as int].target,
            ));
        }
        i = i + 1;
    }
    assert(links@.take(links@.len() as int) =~= links@);
    r
}

proof fn lemma_without_drops(v: Seq<NoteId>, x: NoteId)
    ensures
        !without(v, x).contains(x),
        forall|y: NoteId| y != x && v.contains(y) ==> without(v, x).contains(y),
    decreases v.len(),
{
    if v.len() > 0 {
        lemma_without_drops(v.drop_last(), x);
        let w = without(v.drop_last(), x);
        assert forall|y: NoteId| y != x && v.contains(y) implies without(v, x).contains(y) by {
            let j = choose|j: int| 0 <= j < v.len() && v[j] == y;
            if j < v.len() - 1 {
                assert(v.drop_last()[j] == y);
                assert(v.drop_last().contains(y));
                assert(w.contains(y));
                let j2 = choose|j2: int| 0 <= j2 < w.len() && w[j2] == y;
                if v.last() != x {
                    assert(w.push(v.last())[j2] == y);
                }
            } else {
                assert(w.push(v.last())[w.len() as int] == y);
            }
        }
        if v.last() != x {
            assert forall|j: int| 0 <= j < w.push(v.last()).len() implies w.push(v.last())[j]
                != x by {
                if j < w.len() {
                    assert(w[j] != x);
                }
            }
        }
    }
}

/// The backlinks `bl` agree with the links of `notes`: no list holds an
/// identifier twice, and a note is listed among the backlinks of `t` exactly
/// when one of its links points to `t`.
pub open spec fn backlinks_consistent(notes: Map<u128, Note>, bl: Map<u128, Seq<NoteId>>) -> bool {
    &&& forall|t: u128| #[trigger] bl.contains_key(t) ==> bl[t].no_duplicates()
    &&& forall|s: u128, t: u128|
        #![trigger link_targets(notes[s].links@).contains(NoteId(t))]
        #![trigger notes.contains_key(s), bl[t].contains(NoteId(s))]
        notes.contains_key(s) ==> (link_targets(notes[s].links@).contains(NoteId(t)) <==> (
        bl.contains_key(t) && bl[t].contains(NoteId(s))))
}

proof fn lemma_without_within(v: Seq<NoteId>, x: NoteId)
    ensures
        forall|y: NoteId| #[trigger] without(v, x).contains(y) ==> v.contains(y),
        v.no_duplicates() ==> without(v, x).no_duplicates(),
    decreases v.len(),
{
    if v.len() > 0 {
        let u = v.drop_last();
        lemma_without_within(u, x);
        let w = without(u, x);
        assert forall|y: NoteId| #[trigger] without(v, x).contains(y) implies v.contains(y) by {
            if w.contains(y) {
                let j = choose|j: int| 0 <= j < w.len() && w[j] == y;
                assert(u.contains(y));
                let i = choose|i: int| 0 <= i < u.len() && u[i] == y;
                assert(v[i] == y);
            } else {
                assert(v[v.len() - 1] == y);
            }
        }
        if v.no_duplicates() {
            assert(u.no_duplicates()) by {
                assert forall|i: int, j: int| 0 <= i < u.len() && 0 <= j < u.len() && i != j
                    implies u[i] != u[j] by {
                    assert(u[i] == v[i] && u[j] == v[j]);
                }
            }
            if v.last() != x {
                assert forall|i: int, j: int|
                    0 <= i < w.push(v.last()).len() && 0 <= j < w.push(v.last()).len() && i != j
                    implies w.push(v.last())[i] != w.push(v.last())[j] by {
                    if i < w.len() && j < w.len() {
                    } else if i < w.len() {
                        assert(w.contains(w[i]));
                        assert(u.contains(w[i]));
                        let k = choose|k: int| 0 <= k < u.len() && u[k] == w[i];
                        assert(v[k] == w[i]);
                    } else if j < w.len() {
                        assert(w.contains(w[j]));
                        assert(u.contains(w[j]));
                        let k = choose|k: int| 0 <= k < u.len() && u[k] == w[j];
                        assert(v[k] == w[j]);
                    }
                }
            }
        }
    }
}

proof fn lemma_with_member_distinct(v: Seq<NoteId>, x: NoteId)
    requires
        v.no_duplicates(),
    ensures
        with_member(v, x).no_duplicates(),
{
    if !v.contains(x) {
        let w = v.push(x);
        assert forall|i: int, j: int| 0 <= i < w.len() && 0 <= j < w.len() && i != j implies w[i]
            != w[j] by {
            if i == v.len() {
                assert(v[j] == w[j]);
            } else if j == v.len() {
                assert(v[i] == w[i]);
            }
        }
    }
}

proof fn lemma_among_contains(ids: Seq<NoteId>, k: u128)
    ensures
        among(ids, ids.len() as int, k) == ids.contains(NoteId(k)),
{
    if ids.contains(NoteId(k)) {
        let j = choose|j: int| 0 <= j < ids.len() && ids[j] == NoteId(k);
        assert(ids[j].0 == k);
    }
    if among(ids, ids.len() as int, k) {
        let j = choose|j: int| 0 <= j < ids.len() && j < ids.len() && ids[j].0 == k;
        assert(ids[j] == NoteId(k));
    }
}

proof fn lemma_retargeted_targets(prev: Seq<Link>, targets: Seq<NoteId>, links: Seq<Link>)
    requires
        retargeted(prev, targets, links),
    ensures
        link_targets(links) == targets,
{
    assert(link_targets(links) =~= targets);
}

/// Relinking one note keeps the backlinks consistent with the links: when
/// the note `source` had the links whose targets are `olds` and now has
/// links to `targets`, and no other note changed.
proof fn lemma_relinked_consistent(
    before: Map<u128, Note>,
    after: Map<u128, Note>,
    bl: Map<u128, Seq<NoteId>>,
    source: NoteId,
    targets: Seq<NoteId>,
)
    requires
        backlinks_consistent(before, bl),
        before.contains_key(source.0),
        after.dom() == before.dom(),
        forall|k: u128| after.contains_key(k) && k != source.0 ==> #[trigger] after[k] == before[k],
        link_targets(after[source.0].links@) == targets,
    ensures
        backlinks_consistent(
            after,
            relinked(bl, source, link_targets(before[source.0].links@), targets),
        ),
{
    let olds = link_targets(before[source.0].links@);
    let d = dropped(bl, source, olds, olds.len() as int);
    let r = relinked(bl, source, olds, targets);
    assert(source == NoteId(source.0));
    // Another note is listed after the call exactly where it was before.
    assert forall|t: u128, y: NoteId| y != source implies (r.contains_key(t) && #[trigger] r[t].contains(y))
        == (bl.contains_key(t) && bl[t].contains(y)) by {
        lemma_relinked_backlinks(bl, source, olds, targets, t);
        if bl.contains_key(t) {
            lemma_without_within(bl[t], source);
        }
        if r.contains_key(t) && r[t].contains(y) {
            if among(targets, targets.len() as int, t) {
                let base = if d.contains_key(t) { d[t] } else { Seq::empty() };
                if !base.contains(source) {
                    let j = choose|j: int| 0 <= j < base.push(source).len() && base.push(source)[j] == y;
                    assert(base[j] == y);
                }
                assert(base.contains(y));
            }
        }
    }
    assert forall|t: u128| #[trigger] r.contains_key(t) implies r[t].no_duplicates() by {
        if bl.contains_key(t) {
            lemma_without_within(bl[t], source);
        }
        if among(targets, targets.len() as int, t) {
            let base = if d.contains_key(t) { d[t] } else { Seq::empty() };
            lemma_with_member_distinct(base, source);
        }
    }
    assert forall|s: u128, t: u128| after.contains_key(s) implies (link_targets(after[s].links@).contains(NoteId(t)) <==> (
        r.contains_key(t) && r[t].contains(NoteId(s)))) by {
        if s != source.0 {
            assert(NoteId(s) != source);
            assert(after[s] == before[s]);
            assert((r.contains_key(t) && r[t].contains(NoteId(s))) == (bl.contains_key(t) && bl[t].contains(NoteId(s))));
        } else {
            lemma_relinked_backlinks(bl, source, olds, targets, t);
            lemma_among_contains(targets, t);
            lemma_among_contains(olds, t);
            assert(before.contains_key(s));
        }
    }
}

/// After the outgoing links of `source` are set to `targets`, `source` is
/// among the backlinks of every target, has left those of every former
/// target that is no target any more, and every other backlink stays.
pub proof fn lemma_relinked_backlinks(
    bl: Map<u128, Seq<NoteId>>,
    source: NoteId,
    olds: Seq<NoteId>,
    targets: Seq<NoteId>,
    k: u128,
)
    ensures
        among(targets, targets.len() as int, k) ==> relinked(bl, source, olds, targets).contains_key(
            k,
        ) && relinked(bl, source, olds, targets)[k].contains(source),
        !among(targets, targets.len() as int, k) && among(olds, olds.len() as int, k)
            && bl.contains_key(k) ==> !relinked(bl, source, olds, targets)[k].contains(source),
        forall|y: NoteId|
            y != source && bl.contains_key(k) && bl[k].contains(y) ==> relinked(
                bl,
                source,
                olds,
                targets,
            )[k].contains(y),
{
    let d = dropped(bl, source, olds, olds.len() as int);
    if bl.contains_key(k) {
        lemma_without_drops(bl[k], source);
    }
    if among(targets, targets.len() as int, k) {
        let base = if d.contains_key(k) {
            d[k]
        } else {
            Seq::empty()
        };
        if !base.contains(source) {
            assert(base.push(source)[base.len() as int] == source);
        }
        assert forall|y: NoteId| base.contains(y) implies with_member(base, source).contains(y) by {
            if !base.contains(source) {
                let j = choose|j: int| 0 <= j < base.len() && base[j] == y;
                assert(base.push(source)[j] == y);
            }
        }
    }
}

} // verus!

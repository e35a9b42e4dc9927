//! The hierarchy of a workspace: which note is the parent of which, the
//! tree shown to users, and the virtual notes that fill its gaps.
use vstd::prelude::*;
use std::collections::HashMap;
use crate::identity::IdentityRegistry;
use crate::model::{Note, NoteId, NoteKey, NoteRef, TreeView, opt_view, uuid_text};
use crate::paths::main_separator;
use crate::semantic::SemanticModel;
use crate::store::Store;
use crate::text::{copy_str, push_str, str_eq};
use crate::utils::{backslashes_to_slashes, replace_backslashes};
use crate::workspace::assembler::registry_grows;
use crate::workspace::Workspace;

verus! {

broadcast use vstd::std_specs::hash::group_hash_axioms;

/// The key of `note` in the hierarchy: the key of its identifier, else the
/// key its path gives.
pub open spec fn tree_key<M: SemanticModel>(
    model: M,
    ids: Map<u128, Seq<char>>,
    note: Note,
) -> Option<Seq<char>> {
    if ids.contains_key(note.id.0) {
        Some(ids[note.id.0])
    } else {
        match note.path {
            Some(p) => Some(model.key_from_path(p@, Seq::empty())),
            None => None,
        }
    }
}

/// The identifier of the parent of the key `key`, when the parent key has
/// one.
pub open spec fn tree_parent<M: SemanticModel>(
    model: M,
    keys: Map<Seq<char>, NoteId>,
    key: Seq<char>,
) -> Option<NoteId> {
    match model.parent_key(key) {
        Some(pk) => if keys.contains_key(pk) {
            Some(keys[pk])
        } else {
            None
        },
        None => None,
    }
}

/// The parent of the stored note `k` in the hierarchy, if it has one.
pub open spec fn parent_in<M: SemanticModel>(
    model: M,
    store: Store,
    identity: IdentityRegistry,
    k: u128,
) -> Option<NoteId> {
    match tree_key(model, identity.ids(), store.notes()[k]) {
        Some(key) => tree_parent(model, identity.keys(), key),
        None => None,
    }
}

/// The stored note `k` is a root of the hierarchy: it has a key but no
/// parent.
pub open spec fn is_root_in<M: SemanticModel>(
    model: M,
    store: Store,
    identity: IdentityRegistry,
    k: u128,
) -> bool {
    &&& store.notes().contains_key(k)
    &&& tree_key(model, identity.ids(), store.notes()[k]) is Some
    &&& parent_in(model, store, identity, k) is None
}

/// `children` lists `c` among the children of `p`.
pub open spec fn has_child(children: Map<u128, Vec<NoteId>>, p: u128, c: NoteId) -> bool {
    children.contains_key(p) && children[p]@.contains(c)
}

/// The parent relation of the notes: its roots, the children of each note,
/// and the parent of each.
pub struct NoteTree {
    pub root_nodes: Vec<NoteId>,
    pub children: HashMap<u128, Vec<NoteId>>,
    pub parent: HashMap<u128, NoteId>,
}

/// The children listed for `id` in `children`.
pub open spec fn kids_of(children: Map<u128, Vec<NoteId>>, id: u128) -> Seq<NoteId> {
    if children.contains_key(id) {
        children[id]@
    } else {
        Seq::empty()
    }
}

/// `t` is the hierarchy of the stored notes of `ws`: each note with a key
/// and no parent is a root, once; each other stored note is a child of its
/// parent.
pub open spec fn is_hierarchy_tree<M: SemanticModel>(ws: Workspace<M>, t: NoteTree) -> bool {
    &&& t.root_nodes@.no_duplicates()
    &&& forall|id: NoteId|
        t.root_nodes@.contains(id) <==> is_root_in(ws.model, ws.store, ws.identity, id.0)
    &&& forall|k: u128|
        #![trigger t.parent@.contains_key(k)]
        t.parent@.contains_key(k) <==> ws.store.notes().contains_key(k) && parent_in(
            ws.model,
            ws.store,
            ws.identity,
            k,
        ) is Some
    &&& forall|k: u128|
        #![trigger t.parent@[k]]
        t.parent@.contains_key(k) ==> Some(t.parent@[k]) == parent_in(
            ws.model,
            ws.store,
            ws.identity,
            k,
        )
    &&& forall|p: u128, c: NoteId|
        #![trigger has_child(t.children@, p, c)]
        has_child(t.children@, p, c) <==> (ws.store.notes().contains_key(c.0) && parent_in(
            ws.model,
            ws.store,
            ws.identity,
            c.0,
        ) == Some(NoteId(p)))
}

/// `v` is the tree view of the stored note `id` of `ws` down to `depth`
/// levels, its children those that `children` lists for it, in that order.
pub open spec fn is_tree_view<M: SemanticModel>(
    ws: Workspace<M>,
    children: Map<u128, Vec<NoteId>>,
    v: TreeView,
    id: NoteId,
    depth: nat,
) -> bool
    decreases depth,
{
    &&& depth > 0
    &&& ws.store.notes().contains_key(id.0)
    &&& view_of_note(v.note, ws, id)
    &&& if depth == 1 {
        v.children@.len() == 0
    } else {
        &&& v.children@.len() == kids_of(children, id.0).len()
        &&& forall|i: int|
            0 <= i < v.children@.len() ==> is_tree_view(
                ws,
                children,
                #[trigger] v.children@[i],
                kids_of(children, id.0)[i],
                (depth - 1) as nat,
            )
    }
}

/// The depth to which the tree view is built: one level more than there
/// are notes.
pub open spec fn view_depth<M: SemanticModel>(ws: Workspace<M>) -> nat {
    if ws.store.notes().len() < usize::MAX {
        ws.store.notes().len() + 1
    } else {
        ws.store.notes().len()
    }
}

/// `r` describes the stored note `id` of the workspace `ws`: its identifier
/// as UUID text, its key in the hierarchy, the URI of its file, its vault
/// (for a note with a file) and its title.
pub open spec fn view_of_note<M: SemanticModel>(r: NoteRef, ws: Workspace<M>, id: NoteId) -> bool {
    let note = ws.store.notes()[id.0];
    &&& r.id@ == uuid_text(id.0)
    &&& opt_view(r.key) == tree_key(ws.model, ws.identity.ids(), note)
    &&& match note.path {
        Some(p) => r.path matches Some(u) && (u@ == file_uri(p@, '/') || u@ == file_uri(p@, '\\'))
            && r.vault_name == Some(note.vault_name),
        None => r.path is None && r.vault_name is None,
    }
    &&& r.title == note.title
}

/// The key `key` after `n` steps up the hierarchy, if there are as many.
pub open spec fn ancestor<M: SemanticModel>(model: M, key: Seq<char>, n: nat) -> Option<Seq<char>>
    decreases n,
{
    if n == 0 {
        Some(key)
    } else {
        match ancestor(model, key, (n - 1) as nat) {
            Some(a) => model.parent_key(a),
            None => None,
        }
    }
}

proof fn lemma_ancestor_stops<M: SemanticModel>(model: M, key: Seq<char>, m: nat, n: nat)
    requires
        ancestor(model, key, m) is None,
        m <= n,
    ensures
        ancestor(model, key, n) is None,
    decreases n - m,
{
    if m < n {
        lemma_ancestor_stops(model, key, m, (n - 1) as nat);
    }
}

/// The stored note `k` has a file and a key.
pub open spec fn is_real_note<M: SemanticModel>(ws: Workspace<M>, k: u128) -> bool {
    &&& ws.store.notes().contains_key(k)
    &&& ws.store.notes()[k].path is Some
    &&& ws.identity.ids().contains_key(k)
}

/// `x` is the key of a note with a file.
pub open spec fn is_real_key<M: SemanticModel>(ws: Workspace<M>, x: Seq<char>) -> bool {
    exists|k: u128| #[trigger] is_real_note(ws, k) && ws.identity.ids()[k] == x
}

/// The key `a` has a note: it is the key of a note with a file, or its
/// identifier has a stored note.
pub open spec fn key_has_note<M: SemanticModel>(ws: Workspace<M>, a: Seq<char>) -> bool {
    ||| is_real_key(ws, a)
    ||| ws.identity.keys().contains_key(a) && ws.store.notes().contains_key(ws.identity.keys()[a].0)
}

/// Every ancestor key of a note with a file has a note.
pub open spec fn hierarchy_closed<M: SemanticModel>(ws: Workspace<M>) -> bool {
    forall|k: u128, n: nat|
        #![trigger is_real_note(ws, k), ancestor(ws.model, ws.identity.ids()[k], n)]
        is_real_note(ws, k) && n >= 1 && ancestor(ws.model, ws.identity.ids()[k], n) is Some
            ==> key_has_note(ws, ancestor(ws.model, ws.identity.ids()[k], n)->0)
}

/// `n` is the virtual note `id`: no vault, file, title, front matter,
/// content, links, headings, blocks or digest.
pub open spec fn is_virtual_note(n: Note, id: u128) -> bool {
    &&& n.id == NoteId(id)
    &&& n.vault_name@.len() == 0
    &&& n.path is None
    &&& n.title is None
    &&& n.frontmatter is None
    &&& n.content_offset == 0
    &&& n.links@.len() == 0
    &&& n.headings@.len() == 0
    &&& n.blocks@.len() == 0
    &&& n.digest is None
}

/// `a` is an ancestor key of a note with a file of `ws`.
pub open spec fn is_ancestor_key<M: SemanticModel>(ws: Workspace<M>, a: Seq<char>) -> bool {
    exists|k: u128, n: nat|
        #![trigger is_real_note(ws, k), ancestor(ws.model, ws.identity.ids()[k], n)]
        is_real_note(ws, k) && n >= 1 && ancestor(ws.model, ws.identity.ids()[k], n) == Some(a)
}

/// The URI of the file at `path`: `file://` then the path (`file:///` and
/// the path with forward slashes where the separator is `\`).
pub open spec fn file_uri(path: Seq<char>, sep: char) -> Seq<char> {
    if sep == '\\' {
        "file:///"@ + backslashes_to_slashes(path)
    } else {
        "file://"@ + path
    }
}

/// Whether `v` holds the text `s`.
fn strings_contain(v: &Vec<String>, s: &str) -> (r: bool)
    ensures
        r == v@.map_values(|x: String| x@).contains(s@),
{
    let mut i: usize = 0;
    while i < v.len()
        invariant
            i <= v@.len(),
            forall|j: int| 0 <= j < i ==> v@[j]@ != s@,
        decreases v@.len() - i,
    {
        if str_eq(v[i].as_str(), s) {
            assert(v@.map_values(|x: String| x@)[i as int] == s@);
            return true;
        }
        i = i + 1;
    }
    proof {
        let vv = v@.map_values(|x: String| x@);
        if vv.contains(s@) {
            let j = choose|j: int| 0 <= j < vv.len() && vv[j] == s@;
            assert(v@[j]@ == s@);
        }
    }
    false
}

/// The URI of the file at `path`.
fn path_uri(path: &str) -> (r: String)
    ensures
        r@ == file_uri(path@, '/') || r@ == file_uri(path@, '\\'),
{
    if main_separator() == '\\' {
        let mut s = copy_str("file:///");
        push_str(&mut s, replace_backslashes(path).as_str());
        s
    } else {
        let mut s = copy_str("file://");
        push_str(&mut s, path);
        s
    }
}

impl<M: SemanticModel> Workspace<M> {
    /// The key of `note` in the hierarchy (see `tree_key`).
    fn note_tree_key(&self, note: &Note) -> (r: Option<NoteKey>)
        requires
            self.wf(),
        ensures
            opt_view(r) == tree_key(self.model, self.identity.ids(), *note),
    {
        match self.identity.key_of(&note.id) {
            Some(k) => Some(k),
            None => match &note.path {
                Some(p) => {
                    let empty = String::new();
                    Some(self.model.note_key_from_path(p.as_str(), empty.as_str()))
                },
                None => None,
            },
        }
    }

    /// The hierarchy of the stored notes: a note with a key is a root when
    /// its parent key has no identifier, else a child of that identifier.
    pub fn build_tree(&self) -> (t: NoteTree)
        requires
            self.wf(),
        ensures
            is_hierarchy_tree(*self, t),
    {
        let ids = self.store.all_note_ids();
        let mut root_nodes: Vec<NoteId> = Vec::new();
        let mut children: HashMap<u128, Vec<NoteId>> = HashMap::new();
        let mut parent: HashMap<u128, NoteId> = HashMap::new();
        let mut i: usize = 0;
        while i < ids.len()
            invariant
                self.wf(),
                i <= ids@.len(),
                ids@.no_duplicates(),
                forall|id: NoteId| ids@.contains(id) <==> self.store.notes().contains_key(id.0),
                root_nodes@.no_duplicates(),
                forall|id: NoteId|
                    root_nodes@.contains(id) <==> (ids@.take(i as int).contains(id) && is_root_in(
                        self.model,
                        self.store,
                        self.identity,
                        id.0,
                    )),
                forall|k: u128|
                    #![trigger parent@.contains_key(k)]
                    parent@.contains_key(k) <==> (ids@.take(i as int).contains(NoteId(k))
                        && parent_in(self.model, self.store, self.identity, k) is Some),
                forall|k: u128|
                    #![trigger parent@[k]]
                    parent@.contains_key(k) ==> Some(parent@[k]) == parent_in(
                        self.model,
                        self.store,
                        self.identity,
                        k,
                    ),
                forall|p: u128, c: NoteId|
                    #![trigger has_child(children@, p, c)]
                    has_child(children@, p, c) <==> (ids@.take(
                        i as int,
                    ).contains(c) && parent_in(self.model, self.store, self.identity, c.0) == Some(
                        NoteId(p),
                    )),
                forall|p: u128| #[trigger] children@.contains_key(p) ==> children@[p]@.no_duplicates(),
            decreases ids@.len() - i,
        {
            let id = ids[i];
            assert(ids@.contains(id));
            let note = self.store.get_note(&id).unwrap();
            let ghost taken = ids@.take(i as int);
            let ghost taken1 = ids@.take(i + 1);
            proof {
                assert(taken1 =~= taken.push(id));
                assert(!taken.contains(id)) by {
                    if taken.contains(id) {
                        let j = choose|j: int| 0 <= j < taken.len() && taken[j] == id;
                        assert(ids@[j] == ids@[i as int]);
                    }
                }
                assert forall|x: NoteId| taken1.contains(x) <==> (taken.contains(x) || x == id) by {
                    if taken1.contains(x) && x != id {
                        let j = choose|j: int| 0 <= j < taken1.len() && taken1[j] == x;
                        assert(taken[j] == x);
                    }
                    if taken.contains(x) {
                        let j = choose|j: int| 0 <= j < taken.len() && taken[j] == x;
                        assert(taken1[j] == x);
                    }
                    if x == id {
                        assert(taken1[i as int] == x);
                    }
                }
            }
            let ghost children0 = children@;
            let ghost parent0 = parent@;
            let ghost roots0 = root_nodes@;
            assert(self.store.notes()[id.0] == *note);
            let key = match self.note_tree_key(note) {
                Some(k) => k,
                None => {
                    proof {
                        assert(parent_in(self.model, self.store, self.identity, id.0) is None);
                        assert forall|x: NoteId| root_nodes@.contains(x) <==> (taken1.contains(x) && is_root_in(
                            self.model,
                            self.store,
                            self.identity,
                            x.0,
                        )) by {
                            assert(roots0.contains(x) <==> (taken.contains(x) && is_root_in(
                                self.model,
                                self.store,
                                self.identity,
                                x.0,
                            )));
                            
                        }

                        assert forall|p: u128, c: NoteId|
                            #![trigger has_child(children@, p, c)]
                            has_child(children@, p, c) <==> (
                            taken1.contains(c) && parent_in(self.model, self.store, self.identity, c.0)
                                == Some(NoteId(p))) by {
                            assert(has_child(children0, p, c) <==> (
                                taken.contains(c) && parent_in(self.model, self.store, self.identity, c.0)
                                    == Some(NoteId(p))));
                        }
                        assert forall|k: u128| #![trigger parent@.contains_key(k)]
                            parent@.contains_key(k) <==> (taken1.contains(NoteId(k)) && parent_in(
                                self.model,
                                self.store,
                                self.identity,
                                k,
                            ) is Some) by {
                            assert(parent0.contains_key(k) <==> (taken.contains(NoteId(k)) && parent_in(
                                self.model,
                                self.store,
                                self.identity,
                                k,
                            ) is Some));
                        }
                    }
                    i = i + 1;
                    continue;
                },
            };
            let parent_id = match self.model.resolve_parent(&key) {
                Some(pk) => self.identity.lookup(&pk),
                None => None,
            };
            assert(parent_in(self.model, self.store, self.identity, id.0) == parent_id);
            match parent_id {
                Some(pid) => {
                    let ghost before = children@;
                    let mut list = match children.remove(&pid.0) {
                        Some(l) => l,
                        None => Vec::new(),
                    };
                    let ghost prior = list@;
                    list.push(id);
                    children.insert(pid.0, list);
                    parent.insert(id.0, pid);
                    proof {
                        assert(prior.no_duplicates() && !prior.contains(id)) by {
                            if before.contains_key(pid.0) {
                                assert(before[pid.0]@ == prior);
                                assert(children0.contains_key(pid.0));
                            }
                            if prior.contains(id) {
                                assert(has_child(children0, pid.0, id));
                                assert(taken.contains(id));
                            }
                        }
                        assert forall|p: u128, c: NoteId|
                            #![trigger has_child(children@, p, c)]
                            has_child(children@, p, c) <==> (
                            taken1.contains(c) && parent_in(self.model, self.store, self.identity, c.0)
                                == Some(NoteId(p))) by {
                            assert(has_child(children0, p, c) <==> (
                                taken.contains(c) && parent_in(self.model, self.store, self.identity, c.0)
                                    == Some(NoteId(p))));
                            if p == pid.0 {
                                assert(children@[p]@ == prior.push(id));
                                if prior.push(id).contains(c) && c != id {
                                    let j = choose|j: int| 0 <= j < prior.push(id).len() && prior.push(id)[j] == c;
                                    assert(prior[j] == c);
                                }
                                if prior.contains(c) {
                                    let j = choose|j: int| 0 <= j < prior.len() && prior[j] == c;
                                    assert(prior.push(id)[j] == c);
                                }
                                if c == id {
                                    assert(prior.push(id)[prior.len() as int] == c);
                                }
                            }
                        }
                        assert forall|x: NoteId| root_nodes@.contains(x) <==> (taken1.contains(x) && is_root_in(
                            self.model,
                            self.store,
                            self.identity,
                            x.0,
                        )) by {
                            assert(roots0.contains(x) <==> (taken.contains(x) && is_root_in(
                                self.model,
                                self.store,
                                self.identity,
                                x.0,
                            )));
                            
                        }
                        assert forall|p: u128| #[trigger] children@.contains_key(p) implies children@[p]@.no_duplicates() by {
                            if p == pid.0 {
                                assert forall|a: int, b: int| 0 <= a < b < prior.push(id).len() implies prior.push(id)[a] != prior.push(id)[b] by {
                                    if b == prior.len() {
                                        assert(prior.contains(prior[a]));
                                    }
                                }
                            }
                        }
                    }
                },
                None => {
                    root_nodes.push(id);
                    proof {
                        assert forall|p: u128, c: NoteId|
                            #![trigger has_child(children@, p, c)]
                            has_child(children@, p, c) <==> (
                            taken1.contains(c) && parent_in(self.model, self.store, self.identity, c.0)
                                == Some(NoteId(p))) by {
                            assert(has_child(children0, p, c) <==> (
                                taken.contains(c) && parent_in(self.model, self.store, self.identity, c.0)
                                    == Some(NoteId(p))));
                        }
                        assert forall|k: u128| #![trigger parent@.contains_key(k)]
                            parent@.contains_key(k) <==> (taken1.contains(NoteId(k)) && parent_in(
                                self.model,
                                self.store,
                                self.identity,
                                k,
                            ) is Some) by {
                            assert(parent0.contains_key(k) <==> (taken.contains(NoteId(k)) && parent_in(
                                self.model,
                                self.store,
                                self.identity,
                                k,
                            ) is Some));
                        }
                        assert(root_nodes@ == roots0.push(id));
                        assert(!roots0.contains(id)) by {
                            if roots0.contains(id) {
                                assert(taken.contains(id));
                            }
                        }
                        assert forall|x: NoteId| root_nodes@.contains(x) <==> (taken1.contains(x) && is_root_in(
                            self.model,
                            self.store,
                            self.identity,
                            x.0,
                        )) by {
                            assert(roots0.contains(x) <==> (taken.contains(x) && is_root_in(
                                self.model,
                                self.store,
                                self.identity,
                                x.0,
                            )));
                            if root_nodes@.contains(x) && x != id {
                                let j = choose|j: int| 0 <= j < root_nodes@.len() && root_nodes@[j] == x;
                                assert(roots0[j] == x);
                            }
                            if roots0.contains(x) {
                                let j = choose|j: int| 0 <= j < roots0.len() && roots0[j] == x;
                                assert(root_nodes@[j] == x);
                            }
                            if x == id {
                                assert(root_nodes@[roots0.len() as int] == x);
                            }
                        }
                        assert forall|a: int, b: int| 0 <= a < b < root_nodes@.len() implies root_nodes@[a] != root_nodes@[b] by {
                            if b == root_nodes@.len() - 1 {
                                assert(roots0[a] == root_nodes@[a]);
                                assert(roots0.contains(roots0[a]));
                            }
                        }
                    }
                },
            }
            i = i + 1;
        }
        assert(ids@.take(ids@.len() as int) =~= ids@);
        proof {
            assert forall|p: u128, c: NoteId|
                #![trigger has_child(children@, p, c)]
                has_child(children@, p, c) <==> (
                self.store.notes().contains_key(c.0) && parent_in(
                    self.model,
                    self.store,
                    self.identity,
                    c.0,
                ) == Some(NoteId(p))) by {
                assert(ids@.contains(c) <==> self.store.notes().contains_key(c.0));
            }
        }
        NoteTree { root_nodes, children, parent }
    }

    /// The tree view of the note `id`, its children below it as far as
    /// `depth` levels; `None` when the note is not stored or no level is
    /// left.
    fn build_tree_view_node(&self, id: &NoteId, tree: &NoteTree, depth: usize) -> (r: Option<TreeView>)
        requires
            self.wf(),
            forall|p: u128, c: NoteId|
                #![trigger has_child(tree.children@, p, c)]
                has_child(tree.children@, p, c) ==> self.store.notes().contains_key(c.0),
        ensures
            match r {
                Some(v) => is_tree_view(*self, tree.children@, v, *id, depth as nat),
                None => depth == 0 || !self.store.notes().contains_key(id.0),
            },
        decreases depth,
    {
        if depth == 0 {
            return None;
        }
        let note = match self.store.get_note(id) {
            Some(n) => n,
            None => return None,
        };
        let key = self.note_tree_key(note);
        let path = match &note.path {
            Some(p) => Some(path_uri(p.as_str())),
            None => None,
        };
        let vault_name = match &note.path {
            Some(_) => Some(note.vault_name.clone()),
            None => None,
        };
        let mut children: Vec<TreeView> = Vec::new();
        if depth > 1 {
            match tree.children.get(&id.0) {
                Some(list) => {
                    let mut i: usize = 0;
                    while i < list.len()
                        invariant
                            self.wf(),
                            forall|p: u128, c: NoteId|
                                #![trigger has_child(tree.children@, p, c)]
                                has_child(tree.children@, p, c) ==> self.store.notes().contains_key(c.0),
                            tree.children@.contains_key(id.0),
                            list@ == tree.children@[id.0]@,
                            i <= list@.len(),
                            children@.len() == i,
                            depth > 1,
                            forall|j: int|
                                0 <= j < i ==> is_tree_view(
                                    *self,
                                    tree.children@,
                                    #[trigger] children@[j],
                                    list@[j],
                                    (depth - 1) as nat,
                                ),
                        decreases list@.len() - i,
                    {
                        assert(has_child(tree.children@, id.0, list@[i as int]));
                        let v = self.build_tree_view_node(&list[i], tree, depth - 1).unwrap();
                        children.push(v);
                        i = i + 1;
                    }
                },
                None => {},
            }
        }
        Some(
            TreeView {
                note: NoteRef {
                    id: id.to_uuid_string(),
                    key,
                    path,
                    vault_name,
                    title: crate::model::clone_opt(&note.title),
                },
                children,
            },
        )
    }

    /// The hierarchy as a tree view: one view per root, each note below its
    /// parent (see `build_tree`).
    pub fn get_tree_view(&self) -> (r: Vec<TreeView>)
        requires
            self.wf(),
        ensures
            exists|t: NoteTree|
                #![trigger is_hierarchy_tree(*self, t)]
                is_hierarchy_tree(*self, t) && r@.len() == t.root_nodes@.len() && forall|i: int|
                    0 <= i < r@.len() ==> is_tree_view(
                        *self,
                        t.children@,
                        #[trigger] r@[i],
                        t.root_nodes@[i],
                        view_depth(*self),
                    ),
    {
        let tree = self.build_tree();
        let depth = self.store.all_notes().len();
        let depth = if depth < usize::MAX {
            depth + 1
        } else {
            depth
        };
        let mut r: Vec<TreeView> = Vec::new();
        let mut i: usize = 0;
        while i < tree.root_nodes.len()
            invariant
                self.wf(),
                is_hierarchy_tree(*self, tree),
                depth as nat == view_depth(*self),
                i <= tree.root_nodes@.len(),
                r@.len() == i,
                forall|m: int|
                    0 <= m < i ==> is_tree_view(
                        *self,
                        tree.children@,
                        #[trigger] r@[m],
                        tree.root_nodes@[m],
                        depth as nat,
                    ),
            decreases tree.root_nodes@.len() - i,
        {
            let root = tree.root_nodes[i];
            assert(tree.root_nodes@.contains(root));
            let v = self.build_tree_view_node(&root, &tree, depth).unwrap();
            r.push(v);
            i = i + 1;
        }
        r
    }

    /// Adds a virtual note (no file, no content) for every missing level of
    /// the hierarchy: each ancestor key of a note with a file that is not
    /// itself the key of a note with a file gets an identifier and, when
    /// that identifier has no note yet, an empty note.
    pub fn fill_missing_hierarchy_levels(&mut self)
        requires
            old(self).wf(),
        ensures
            final(self).wf(),
            final(self).model == old(self).model,
            final(self).config == old(self).config,
            final(self).store.paths() == old(self).store.paths(),
            registry_grows(old(self).identity, final(self).identity),
            forall|k: u128|
                #![trigger old(self).store.notes()[k]]
                old(self).store.notes().contains_key(k) ==> final(self).store.notes().contains_key(k)
                    && final(self).store.notes()[k] == old(self).store.notes()[k],
            forall|k: u128|
                #![trigger final(self).store.notes()[k]]
                final(self).store.notes().contains_key(k) && !old(self).store.notes().contains_key(k)
                    ==> is_virtual_note(final(self).store.notes()[k], k),
            forall|k: u128|
                #![trigger final(self).store.notes()[k]]
                final(self).store.notes().contains_key(k) && !old(self).store.notes().contains_key(k)
                    ==> exists|a: Seq<char>|
                    #[trigger] final(self).identity.keys().contains_key(a) && is_ancestor_key(
                        *old(self),
                        a,
                    ) && final(self).identity.keys()[a].0 == k,
            forall|k: u128, n: nat|
                #![trigger is_real_note(*old(self), k), ancestor(old(self).model, old(self).identity.ids()[k], n)]
                is_real_note(*old(self), k) && n >= 1 && ancestor(
                    old(self).model,
                    old(self).identity.ids()[k],
                    n,
                ) is Some ==> key_has_note(
                    *final(self),
                    ancestor(old(self).model, old(self).identity.ids()[k], n)->0,
                ),
            hierarchy_closed(*final(self)),
    {
        let ghost w0 = *self;
        let ids = self.store.all_note_ids();
        let mut real_keys: Vec<String> = Vec::new();
        let mut i: usize = 0;
        while i < ids.len()
            invariant
                *self == w0,
                self.wf(),
                i <= ids@.len(),
                forall|id: NoteId| ids@.contains(id) <==> self.store.notes().contains_key(id.0),
                forall|x: Seq<char>|
                    real_keys@.map_values(|s: String| s@).contains(x) ==> is_real_key(*self, x),
                forall|j: int|
                    0 <= j < i && is_real_note(*self, (#[trigger] ids@[j]).0) ==> real_keys@.map_values(
                        |s: String| s@,
                    ).contains(self.identity.ids()[ids@[j].0]),
            decreases ids@.len() - i,
        {
            let id = ids[i];
            assert(ids@.contains(id));
            let note = self.store.get_note(&id).unwrap();
            let ghost before = real_keys@.map_values(|s: String| s@);
            if note.path.is_some() {
                match self.identity.key_of(&id) {
                    Some(k) => {
                        real_keys.push(k);
                        proof {
                            let after = real_keys@.map_values(|s: String| s@);
                            assert(after =~= before.push(self.identity.ids()[id.0]));
                            assert(is_real_note(*self, id.0));
                            assert forall|x: Seq<char>| after.contains(x) implies is_real_key(*self, x) by {
                                if x != self.identity.ids()[id.0] {
                                    let j = choose|j: int| 0 <= j < after.len() && after[j] == x;
                                    assert(before[j] == x);
                                }
                            }
                            assert forall|j: int|
                                0 <= j < i + 1 && is_real_note(*self, (#[trigger] ids@[j]).0) implies after.contains(
                                self.identity.ids()[ids@[j].0],
                            ) by {
                                if j < i {
                                    let x = self.identity.ids()[ids@[j].0];
                                    let m = choose|m: int| 0 <= m < before.len() && before[m] == x;
                                    assert(after[m] == x);
                                } else {
                                    assert(after[before.len() as int] == self.identity.ids()[id.0]);
                                }
                            }
                        }
                    },
                    None => {},
                }
            }
            i = i + 1;
        }
        let mut virt: Vec<String> = Vec::new();
        let mut r: usize = 0;
        while r < real_keys.len()
            invariant
                *self == w0,
                self.wf(),
                r <= real_keys@.len(),
                forall|x: Seq<char>|
                    real_keys@.map_values(|s: String| s@).contains(x) ==> is_real_key(*self, x),
                forall|x: Seq<char>|
                    virt@.map_values(|s: String| s@).contains(x) ==> is_ancestor_key(*self, x),
                forall|j: int, n: nat|
                    #![trigger real_keys@[j], ancestor(self.model, real_keys@[j]@, n)]
                    0 <= j < r && n >= 1 && ancestor(self.model, real_keys@[j]@, n) is Some ==> (
                    real_keys@.map_values(|s: String| s@).contains(ancestor(self.model, real_keys@[j]@, n)->0)
                        || virt@.map_values(|s: String| s@).contains(
                        ancestor(self.model, real_keys@[j]@, n)->0,
                    )),
            decreases real_keys@.len() - r,
        {
            let mut cur = real_keys[r].clone();
            let ghost start = real_keys@[r as int]@;
            assert(real_keys@.map_values(|s: String| s@)[r as int] == start);
            assert(is_real_key(*self, start));
            let ghost mut m: nat = 0;
            let ghost virt_r = virt@.map_values(|s: String| s@);
            loop
                invariant_except_break
                    *self == w0,
                    self.wf(),
                    is_real_key(*self, start),
                    forall|x: Seq<char>|
                        virt@.map_values(|s: String| s@).contains(x) ==> is_ancestor_key(*self, x),
                    cur@ == ancestor(self.model, start, m)->0,
                    ancestor(self.model, start, m) is Some,
                    forall|x: Seq<char>| #[trigger] virt_r.contains(x) ==> virt@.map_values(|s: String| s@).contains(x),
                    forall|n: nat|
                        #![trigger ancestor(self.model, start, n)]
                        1 <= n <= m ==> (real_keys@.map_values(|s: String| s@).contains(
                            ancestor(self.model, start, n)->0,
                        ) || virt@.map_values(|s: String| s@).contains(
                            ancestor(self.model, start, n)->0,
                        )),
                ensures
                    *self == w0,
                    self.wf(),
                    forall|x: Seq<char>|
                        virt@.map_values(|s: String| s@).contains(x) ==> is_ancestor_key(*self, x),
                    forall|x: Seq<char>| #[trigger] virt_r.contains(x) ==> virt@.map_values(|s: String| s@).contains(x),
                    forall|n: nat|
                        #![trigger ancestor(self.model, start, n)]
                        1 <= n && ancestor(self.model, start, n) is Some ==> (real_keys@.map_values(
                            |s: String| s@,
                        ).contains(ancestor(self.model, start, n)->0) || virt@.map_values(
                            |s: String| s@,
                        ).contains(ancestor(self.model, start, n)->0)),
                decreases cur@.len(),
            {
                proof {
                    self.model.lemma_parent_shorter(cur@);
                }
                match self.model.resolve_parent(&cur) {
                    Some(p) => {
                        let ghost vb = virt@.map_values(|s: String| s@);
                        if !strings_contain(&real_keys, p.as_str()) && !strings_contain(&virt, p.as_str()) {
                            virt.push(p.clone());
                            proof {
                                assert(virt@.map_values(|s: String| s@) =~= vb.push(p@));
                                assert(ancestor(self.model, start, m + 1) == Some(p@));
                                let k = choose|k: u128| #[trigger] is_real_note(*self, k) && self.identity.ids()[k] == start;
                                assert(is_real_note(*self, k) && ancestor(self.model, self.identity.ids()[k], m + 1) == Some(p@));
                                assert(is_ancestor_key(*self, p@));
                                assert forall|x: Seq<char>| virt@.map_values(|s: String| s@).contains(x) implies is_ancestor_key(*self, x) by {
                                    if x != p@ {
                                        let vv = virt@.map_values(|s: String| s@);
                                        let j = choose|j: int| 0 <= j < vv.len() && vv[j] == x;
                                        assert(vb[j] == x);
                                    }
                                }
                                assert forall|x: Seq<char>| vb.contains(x) implies virt@.map_values(|s: String| s@).contains(x) by {
                                    let j = choose|j: int| 0 <= j < vb.len() && vb[j] == x;
                                    assert(vb.push(p@)[j] == x);
                                }
                                assert(vb.push(p@)[vb.len() as int] == p@);
                            }
                        }
                        proof {
                            assert(ancestor(self.model, start, m + 1) == Some(p@));
                            m = m + 1;
                        }
                        cur = p;
                    },
                    None => {
                        proof {
                            assert(ancestor(self.model, start, m + 1) is None);
                            assert forall|n: nat|
                                #![trigger ancestor(self.model, start, n)]
                                1 <= n && ancestor(self.model, start, n) is Some implies n <= m by {
                                if n > m {
                                    lemma_ancestor_stops(self.model, start, m + 1, n);
                                }
                            }
                        }
                        break;
                    },
                }
            }
            proof {
                assert forall|j: int, n: nat|
                    #![trigger real_keys@[j], ancestor(self.model, real_keys@[j]@, n)]
                    0 <= j < r + 1 && n >= 1 && ancestor(self.model, real_keys@[j]@, n) is Some implies (
                    real_keys@.map_values(|s: String| s@).contains(ancestor(self.model, real_keys@[j]@, n)->0)
                        || virt@.map_values(|s: String| s@).contains(
                        ancestor(self.model, real_keys@[j]@, n)->0,
                    )) by {
                    if j < r {
                        let a = ancestor(self.model, real_keys@[j]@, n)->0;
                        if !real_keys@.map_values(|s: String| s@).contains(a) {
                            assert(virt_r.contains(a));
                        }
                    }
                }
            }
            r = r + 1;
        }
        let ghost real_view = real_keys@.map_values(|s: String| s@);
        assert(self.store.notes() == w0.store.notes());
        let mut v: usize = 0;
        while v < virt.len()
            invariant
                self.wf(),
                self.model == w0.model,
                self.config == w0.config,
                self.store.paths() == w0.store.paths(),
                registry_grows(w0.identity, self.identity),
                forall|k: u128|
                    #![trigger w0.store.notes().contains_key(k)]
                    w0.store.notes().contains_key(k) ==> self.store.notes().contains_key(k)
                        && self.store.notes()[k] == w0.store.notes()[k],
                forall|k: u128|
                    #![trigger self.store.notes()[k]]
                    self.store.notes().contains_key(k) && !w0.store.notes().contains_key(k)
                        ==> is_virtual_note(self.store.notes()[k], k),
                v <= virt@.len(),
                forall|j: int|
                    #![trigger virt@[j]]
                    0 <= j < v ==> self.identity.keys().contains_key(virt@[j]@)
                        && self.store.notes().contains_key(self.identity.keys()[virt@[j]@].0),
                forall|x: Seq<char>|
                    virt@.map_values(|s: String| s@).contains(x) ==> is_ancestor_key(w0, x),
                forall|k: u128|
                    #![trigger self.store.notes()[k]]
                    self.store.notes().contains_key(k) && !w0.store.notes().contains_key(k)
                        ==> exists|j: int|
                        0 <= j < v && #[trigger] self.identity.keys()[virt@[j]@].0 == k,
            decreases virt@.len() - v,
        {
            let ghost i0 = self.identity;
            let ghost s0 = self.store;
            let id = self.identity.get_or_create(&virt[v]);
            proof {
                assert(registry_grows(i0, self.identity));
                assert(registry_grows(w0.identity, self.identity)) by {
                    assert forall|k: Seq<char>| #[trigger] w0.identity.keys().contains_key(k) implies self.identity.keys().contains_key(k) && self.identity.keys()[k] == w0.identity.keys()[k] by {
                        assert(i0.keys().contains_key(k));
                    }
                    assert forall|n: u128| #[trigger] w0.identity.ids().contains_key(n) implies self.identity.ids().contains_key(n) && self.identity.ids()[n] == w0.identity.ids()[n] by {
                        assert(i0.ids().contains_key(n));
                    }
                }
            }
            if self.store.get_note(&id).is_none() {
                let note = Note {
                    id,
                    vault_name: String::new(),
                    path: None,
                    title: None,
                    frontmatter: None,
                    content_offset: 0,
                    links: Vec::new(),
                    headings: Vec::new(),
                    blocks: Vec::new(),
                    digest: None,
                };
                self.store.upsert_note(note);
            }
            proof {
                assert forall|k: u128|
                    #![trigger w0.store.notes().contains_key(k)]
                    w0.store.notes().contains_key(k) implies self.store.notes().contains_key(k)
                        && self.store.notes()[k] == w0.store.notes()[k] by {
                    assert(s0.notes().contains_key(k) && s0.notes()[k] == w0.store.notes()[k]);
                }
                assert(self.store.paths() =~= s0.paths());
                assert forall|j: int|
                    #![trigger virt@[j]]
                    0 <= j < v + 1 implies self.identity.keys().contains_key(virt@[j]@)
                        && self.store.notes().contains_key(self.identity.keys()[virt@[j]@].0) by {
                    if j < v {
                        assert(i0.keys().contains_key(virt@[j]@));
                        assert(s0.notes().contains_key(i0.keys()[virt@[j]@].0));
                    }
                }
                assert forall|p: Seq<char>| #[trigger] self.store.paths().contains_key(p) implies self.identity.ids().contains_key(self.store.paths()[p].0) by {
                    assert(i0.ids().contains_key(s0.paths()[p].0));
                }
            }
            v = v + 1;
        }
        proof {
            let w1 = *self;
            assert forall|k: u128|
                #![trigger w1.store.notes()[k]]
                w1.store.notes().contains_key(k) && !w0.store.notes().contains_key(k)
                    implies exists|a: Seq<char>|
                    #[trigger] w1.identity.keys().contains_key(a) && is_ancestor_key(w0, a)
                        && w1.identity.keys()[a].0 == k by {
                let j = choose|j: int| 0 <= j < virt@.len() && #[trigger] w1.identity.keys()[virt@[j]@].0 == k;
                let vv = virt@.map_values(|s: String| s@);
                assert(vv[j] == virt@[j]@);
                assert(is_ancestor_key(w0, virt@[j]@));
                assert(w1.identity.keys().contains_key(virt@[j]@));
            }
            assert forall|k: u128|
                #![trigger w0.store.notes().contains_key(k)]
                w0.store.notes().contains_key(k) implies w1.store.notes().contains_key(k)
                    && w1.store.notes()[k] == w0.store.notes()[k] by {}
            assert forall|k: u128, n: nat|
                #![trigger is_real_note(w0, k), ancestor(w0.model, w0.identity.ids()[k], n)]
                is_real_note(w0, k) && n >= 1 && ancestor(w0.model, w0.identity.ids()[k], n) is Some
                    implies key_has_note(w1, ancestor(w0.model, w0.identity.ids()[k], n)->0) by {
                let x = w0.identity.ids()[k];
                let a = ancestor(w0.model, x, n)->0;
                assert(ids@.contains(NoteId(k)));
                let j = choose|j: int| 0 <= j < ids@.len() && ids@[j] == NoteId(k);
                assert(is_real_note(w0, ids@[j].0));
                assert(real_view.contains(x));
                let jr = choose|jr: int| 0 <= jr < real_view.len() && real_view[jr] == x;
                assert(real_keys@[jr]@ == x);
                assert(ancestor(w0.model, real_keys@[jr]@, n) is Some);
                if real_view.contains(a) {
                    assert(is_real_key(w0, a));
                    let k2 = choose|k2: u128| #[trigger] is_real_note(w0, k2) && w0.identity.ids()[k2] == a;
                    assert(is_real_note(w1, k2));
                } else {
                    let vv = virt@.map_values(|s: String| s@);
                    assert(vv.contains(a));
                    let jv = choose|jv: int| 0 <= jv < vv.len() && vv[jv] == a;
                    assert(virt@[jv]@ == a);
                }
            }
            assert forall|k: u128, n: nat|
                #![trigger is_real_note(w1, k), ancestor(w1.model, w1.identity.ids()[k], n)]
                is_real_note(w1, k) && n >= 1 && ancestor(w1.model, w1.identity.ids()[k], n) is Some
                    implies key_has_note(w1, ancestor(w1.model, w1.identity.ids()[k], n)->0) by {
                assert(w0.store.notes().contains_key(k));
                assert(w0.identity.ids().contains_key(k));
                assert(is_real_note(w0, k));
                assert(w1.identity.ids()[k] == w0.identity.ids()[k]);
            }
        }
    }
}

} // verus!

//! Renaming a hierarchy: a note and all its descendants move to a new
//! prefix, with the links to them updated.
use vstd::prelude::*;
use crate::identity::IdentityRegistry;
use crate::model::{NoteId, opt_view};
use crate::mutation::structural::{
    backlink_edits, backlink_sources, calculate_structural_edits, is_structural_plan,
    structural_result, structural_source,
};
use crate::mutation::{
    Change, ChangeView, ContentProvider, EditGroup, EditGroupView, EditPlan, MutationKind,
    ResourceOperation, ResourceOperationView,
};
use crate::semantic::SemanticModel;
use crate::store::Store;
use crate::text::{chars_of, string_of};

verus! {

broadcast use vstd::seq_lib::group_to_multiset_ensures;

// ---------------------------------------------------------------------------
// The order of edit groups
// ---------------------------------------------------------------------------

/// `a` comes before `b` in the order of `String`: character by character,
/// a proper prefix first.
pub open spec fn text_less(a: Seq<char>, b: Seq<char>) -> bool
    decreases a.len(),
{
    if a.len() == 0 {
        b.len() > 0
    } else if b.len() == 0 {
        false
    } else if a[0] != b[0] {
        (a[0] as int) < (b[0] as int)
    } else {
        text_less(a.drop_first(), b.drop_first())
    }
}

proof fn lemma_text_less_irreflexive(a: Seq<char>)
    ensures
        !text_less(a, a),
    decreases a.len(),
{
    if a.len() > 0 {
        lemma_text_less_irreflexive(a.drop_first());
    }
}

proof fn lemma_text_less_total(a: Seq<char>, b: Seq<char>)
    ensures
        a == b || text_less(a, b) || text_less(b, a),
        !(text_less(a, b) && text_less(b, a)),
    decreases a.len(),
{
    if a.len() > 0 && b.len() > 0 {
        if a[0] == b[0] {
            lemma_text_less_total(a.drop_first(), b.drop_first());
            if a.drop_first() == b.drop_first() {
                assert(a =~= seq![a[0]] + a.drop_first());
                assert(b =~= seq![b[0]] + b.drop_first());
            }
        } else {
            assert((a[0] as int) != (b[0] as int));
        }
    } else if a.len() == 0 && b.len() == 0 {
        assert(a =~= b);
    }
}

proof fn lemma_text_less_transitive(a: Seq<char>, b: Seq<char>, c: Seq<char>)
    requires
        text_less(a, b),
        text_less(b, c),
    ensures
        text_less(a, c),
    decreases a.len(),
{
    if a.len() > 0 && b.len() > 0 && c.len() > 0 {
        if a[0] == b[0] && b[0] == c[0] {
            lemma_text_less_transitive(a.drop_first(), b.drop_first(), c.drop_first());
        }
    }
}

/// The group renames its file.
pub open spec fn renames_file(g: EditGroupView) -> bool {
    exists|j: int|
        0 <= j < g.changes.len() && (#[trigger] g.changes[j] matches ChangeView::ResourceOp(
            ResourceOperationView::RenameFile { .. },
        ))
}

/// `a` may come before `b`: by file, and for one file the groups that do not
/// rename it first.
pub open spec fn group_le(a: EditGroupView, b: EditGroupView) -> bool {
    text_less(a.uri, b.uri) || (a.uri == b.uri && (!renames_file(a) || renames_file(b)))
}

/// The groups are in order.
pub open spec fn groups_sorted(gs: Seq<EditGroupView>) -> bool {
    forall|i: int, j: int| 0 <= i < j < gs.len() ==> group_le(#[trigger] gs[i], #[trigger] gs[j])
}

proof fn lemma_group_le_total(a: EditGroupView, b: EditGroupView)
    ensures
        group_le(a, b) || group_le(b, a),
{
    lemma_text_less_total(a.uri, b.uri);
}

proof fn lemma_group_le_transitive(a: EditGroupView, b: EditGroupView, c: EditGroupView)
    requires
        group_le(a, b),
        group_le(b, c),
    ensures
        group_le(a, c),
{
    if text_less(a.uri, b.uri) && text_less(b.uri, c.uri) {
        lemma_text_less_transitive(a.uri, b.uri, c.uri);
    }
}

/// `a` and `b` rank alike: the same file, and both or neither renaming it.
pub open spec fn same_rank(a: EditGroupView, b: EditGroupView) -> bool {
    a.uri == b.uri && renames_file(a) == renames_file(b)
}

/// The groups of `gs` that rank like `c`, in the order of `gs`.
pub open spec fn rank_run(gs: Seq<EditGroupView>, c: EditGroupView) -> Seq<EditGroupView>
    decreases gs.len(),
{
    if gs.len() == 0 {
        gs
    } else if same_rank(gs.last(), c) {
        rank_run(gs.drop_last(), c).push(gs.last())
    } else {
        rank_run(gs.drop_last(), c)
    }
}

/// The views of `gs`.
pub open spec fn group_views(gs: Seq<EditGroup>) -> Seq<EditGroupView> {
    gs.map_values(|g: EditGroup| g@)
}

/// Inserting `g` at `p`, before groups none of which ranks like it, puts `g`
/// at the end of its run and leaves the other runs as they were.
proof fn lemma_rank_run_insert(sv: Seq<EditGroupView>, p: int, g: EditGroupView, c: EditGroupView)
    requires
        0 <= p <= sv.len(),
        forall|j: int| p <= j < sv.len() ==> !same_rank(#[trigger] sv[j], g),
    ensures
        rank_run(sv.insert(p, g), c) == if same_rank(g, c) {
            rank_run(sv, c).push(g)
        } else {
            rank_run(sv, c)
        },
    decreases sv.len(),
{
    if p == sv.len() {
        assert(sv.insert(p, g) =~= sv.push(g));
        assert(sv.push(g).drop_last() =~= sv);
    } else {
        let u = sv.drop_last();
        assert forall|j: int| p <= j < u.len() implies !same_rank(#[trigger] u[j], g) by {
            assert(u[j] == sv[j]);
        }
        lemma_rank_run_insert(u, p, g, c);
        assert(sv.insert(p, g).drop_last() =~= u.insert(p, g));
        assert(sv.insert(p, g).last() == sv.last());
        assert(!same_rank(sv[sv.len() - 1], g));
    }
}

/// Whether `a` comes before `b` in the order of `String`.
fn str_less(a: &str, b: &str) -> (r: bool)
    ensures
        r == text_less(a@, b@),
{
    let x = chars_of(a);
    let y = chars_of(b);
    let mut i: usize = 0;
    assert(x@.skip(0) =~= x@);
    assert(y@.skip(0) =~= y@);
    while i < x.len() && i < y.len() && x[i] == y[i]
        invariant
            i <= x@.len(),
            i <= y@.len(),
            text_less(a@, b@) == text_less(x@.skip(i as int), y@.skip(i as int)),
            x@ == a@,
            y@ == b@,
        decreases x@.len() - i,
    {
        proof {
            assert(x@.skip(i as int).drop_first() =~= x@.skip(i + 1));
            assert(y@.skip(i as int).drop_first() =~= y@.skip(i + 1));
        }
        i = i + 1;
    }
    if i == x.len() {
        i < y.len()
    } else if i == y.len() {
        false
    } else {
        x[i] < y[i]
    }
}

/// Whether the group renames its file.
fn group_renames_file(g: &EditGroup) -> (r: bool)
    ensures
        r == renames_file(g@),
{
    let mut i: usize = 0;
    while i < g.changes.len()
        invariant
            i <= g.changes@.len(),
            forall|j: int|
                0 <= j < i ==> !(#[trigger] g@.changes[j] matches ChangeView::ResourceOp(
                    ResourceOperationView::RenameFile { .. },
                )),
        decreases g.changes@.len() - i,
    {
        match &g.changes[i] {
            Change::ResourceOp(ResourceOperation::RenameFile { .. }) => {
                assert(g@.changes[i as int] matches ChangeView::ResourceOp(
                    ResourceOperationView::RenameFile { .. },
                ));
                return true;
            },
            _ => {},
        }
        i = i + 1;
    }
    false
}

/// Whether `a` may come before `b`.
fn groups_in_order(a: &EditGroup, b: &EditGroup) -> (r: bool)
    ensures
        r == group_le(a@, b@),
{
    if str_less(a.uri.as_str(), b.uri.as_str()) {
        return true;
    }
    let same = crate::text::str_eq(a.uri.as_str(), b.uri.as_str());
    same && (!group_renames_file(a) || group_renames_file(b))
}

/// `groups` in order, each group after those before it that may come
/// before it (a stable sort).
pub fn sort_groups(groups: Vec<EditGroup>) -> (r: Vec<EditGroup>)
    ensures
        groups_sorted(r@.map_values(|g: EditGroup| g@)),
        r@.map_values(|g: EditGroup| g@).to_multiset() == groups@.map_values(
            |g: EditGroup| g@,
        ).to_multiset(),
        forall|c: EditGroupView|
            #[trigger] rank_run(group_views(r@), c) == rank_run(group_views(groups@), c),
{
    let ghost input = groups@.map_values(|g: EditGroup| g@);
    let mut sorted: Vec<EditGroup> = Vec::new();
    let mut rest = groups;
    let mut taken: usize = 0;
    let total = rest.len();
    proof {
        assert(input.take(0) =~= Seq::<EditGroupView>::empty());
        assert(sorted@.map_values(|g: EditGroup| g@) =~= Seq::<EditGroupView>::empty());
    }
    while rest.len() > 0
        invariant
            taken + rest@.len() == total,
            total == input.len(),
            rest@.map_values(|g: EditGroup| g@) == input.skip(taken as int),
            groups_sorted(sorted@.map_values(|g: EditGroup| g@)),
            sorted@.map_values(|g: EditGroup| g@).to_multiset() == input.take(
                taken as int,
            ).to_multiset(),
            forall|c: EditGroupView|
                #[trigger] rank_run(group_views(sorted@), c) == rank_run(
                    input.take(taken as int),
                    c,
                ),
        decreases rest@.len(),
    {
        let ghost sv = sorted@.map_values(|g: EditGroup| g@);
        let ghost rv = rest@;
        proof {
            assert(sv == group_views(sorted@));
            assert(forall|c: EditGroupView| #[trigger] rank_run(sv, c) == rank_run(input.take(taken as int), c));
        }
        proof {
            assert(rv.map_values(|g: EditGroup| g@)[0] == input.skip(taken as int)[0]);
        }
        let g = rest.remove(0);
        proof {
            assert(rest@ == rv.remove(0));
            assert(g@ == input[taken as int]);
            let restv = rest@.map_values(|g: EditGroup| g@);
            let rvv = rv.map_values(|g: EditGroup| g@);
            assert forall|j: int| 0 <= j < rest@.len() implies #[trigger] restv[j] == input.skip(
                taken + 1,
            )[j] by {
                assert(rest@[j] == rv[j + 1]);
                assert(rvv[j + 1] == input.skip(taken as int)[j + 1]);
            }
            assert(restv =~= input.skip(taken + 1));
        }
        let mut p = sorted.len();
        while p > 0 && !groups_in_order(&sorted[p - 1], &g)
            invariant
                p <= sorted@.len(),
                sv == sorted@.map_values(|g: EditGroup| g@),
                forall|j: int| p <= j < sv.len() ==> !group_le(#[trigger] sv[j], g@),
            decreases p,
        {
            p = p - 1;
        }
        proof {
            assert forall|j: int| 0 <= j < p implies group_le(#[trigger] sv[j], g@) by {
                lemma_group_le_transitive(sv[j], sv[p - 1], g@);
            }
            assert forall|j: int| p <= j < sv.len() implies group_le(g@, #[trigger] sv[j]) by {
                lemma_group_le_total(sv[j], g@);
            }
        }
        sorted.insert(p, g);
        proof {
            let nv = sorted@.map_values(|g: EditGroup| g@);
            assert(nv =~= sv.insert(p as int, g@));
            assert forall|i: int, j: int| 0 <= i < j < nv.len() implies group_le(
                #[trigger] nv[i],
                #[trigger] nv[j],
            ) by {
                if j < p {
                } else if j == p {
                } else if i < p {
                    assert(nv[j] == sv[j - 1]);
                    lemma_group_le_transitive(nv[i], g@, nv[j]);
                } else if i == p {
                    assert(nv[j] == sv[j - 1]);
                } else {
                    assert(nv[i] == sv[i - 1] && nv[j] == sv[j - 1]);
                }
            }
            assert forall|j: int| p <= j < sv.len() implies !same_rank(#[trigger] sv[j], g@) by {
                assert(!group_le(sv[j], g@));
            }
            assert(input.take(taken + 1).drop_last() =~= input.take(taken as int));
            assert forall|c: EditGroupView| #[trigger] rank_run(group_views(sorted@), c) == rank_run(
                input.take(taken + 1),
                c,
            ) by {
                assert(group_views(sorted@) == nv);
                lemma_rank_run_insert(sv, p as int, g@, c);
                assert(rank_run(sv, c) == rank_run(input.take(taken as int), c));
                assert(input.take(taken + 1).last() == g@);
            }
            vstd::seq_lib::to_multiset_insert(sv, p as int, g@);
            assert(input.take(taken + 1) =~= input.take(taken as int).push(input[taken as int]));
            vstd::seq_lib::to_multiset_build(input.take(taken as int), input[taken as int]);
        }
        taken = taken + 1;
    }
    assert(input.take(total as int) =~= input);
    sorted
}

// ---------------------------------------------------------------------------
// The notes a hierarchy rename moves
// ---------------------------------------------------------------------------

/// The note `id` moves to `new_path` with the key `new_key` when the
/// hierarchy `old_prefix` is renamed `new_prefix`: it is the note with key
/// `old_prefix`, or a stored note whose key (from its path) descends from
/// `old_prefix`.
pub open spec fn is_hierarchy_target<M: SemanticModel>(
    model: M,
    store: Store,
    identity: IdentityRegistry,
    old_prefix: Seq<char>,
    new_prefix: Seq<char>,
    id: NoteId,
    new_path: Seq<char>,
    new_key: Seq<char>,
) -> bool {
    ||| {
        &&& identity.keys().contains_key(old_prefix)
        &&& id == identity.keys()[old_prefix]
        &&& new_key == new_prefix
        &&& new_path == model.path_from_key(new_prefix)
    }
    ||| is_descendant_target(model, store, old_prefix, new_prefix, id, new_path, new_key)
}

/// The note `id` is stored with a path whose key descends from
/// `old_prefix`, and moves to `new_path` with the key `new_key`.
pub open spec fn is_descendant_target<M: SemanticModel>(
    model: M,
    store: Store,
    old_prefix: Seq<char>,
    new_prefix: Seq<char>,
    id: NoteId,
    new_path: Seq<char>,
    new_key: Seq<char>,
) -> bool {
    &&& store.notes().contains_key(id.0)
    &&& store.notes()[id.0].path is Some
    &&& {
        let key = model.key_from_path(store.notes()[id.0].path->0@, Seq::empty());
        &&& model.descends(key, old_prefix)
        &&& new_key == model.reparented(key, old_prefix, new_prefix)
        &&& new_path == model.path_from_key(new_key)
    }
}

/// The targets of a hierarchy rename as text.
pub open spec fn target_views(r: Seq<(NoteId, String, String)>) -> Seq<(NoteId, Seq<char>, Seq<char>)> {
    r.map_values(|t: (NoteId, String, String)| (t.0, t.1@, t.2@))
}

/// `targets` lists the targets of renaming the hierarchy `old_prefix` to
/// `new_prefix`: the note of the key `old_prefix` first, when the key has
/// one, then each descendant once.
pub open spec fn is_target_listing<M: SemanticModel>(
    model: M,
    store: Store,
    identity: IdentityRegistry,
    old_prefix: Seq<char>,
    new_prefix: Seq<char>,
    targets: Seq<(NoteId, Seq<char>, Seq<char>)>,
) -> bool {
    let start: int = if identity.keys().contains_key(old_prefix) {
        1
    } else {
        0
    };
    &&& start <= targets.len()
    &&& identity.keys().contains_key(old_prefix) ==> targets[0] == (
        identity.keys()[old_prefix],
        model.path_from_key(new_prefix),
        new_prefix,
    )
    &&& forall|m: int|
        start <= m < targets.len() ==> is_descendant_target(
            model,
            store,
            old_prefix,
            new_prefix,
            (#[trigger] targets[m]).0,
            targets[m].1,
            targets[m].2,
        )
    &&& forall|a: int, b: int|
        start <= a < b < targets.len() ==> (#[trigger] targets[a]).0 != (#[trigger] targets[b]).0
    &&& forall|id: NoteId, p: Seq<char>, k: Seq<char>|
        #[trigger] is_descendant_target(model, store, old_prefix, new_prefix, id, p, k)
            ==> exists|m: int| start <= m < targets.len() && #[trigger] targets[m] == (id, p, k)
}

/// The edit groups of `plans`, one plan after another.
pub open spec fn plan_groups(plans: Seq<Option<EditPlan>>) -> Seq<EditGroupView>
    decreases plans.len(),
{
    if plans.len() == 0 {
        Seq::empty()
    } else {
        plan_groups(plans.drop_last()) + match plans.last() {
            Some(p) => p@.edits,
            None => Seq::empty(),
        }
    }
}

/// `plans` holds the structural plan of each of `targets`.
pub open spec fn structural_plans<M: SemanticModel>(
    model: M,
    store: Store,
    identity: IdentityRegistry,
    targets: Seq<(NoteId, Seq<char>, Seq<char>)>,
    plans: Seq<Option<EditPlan>>,
) -> bool {
    &&& plans.len() == targets.len()
    &&& forall|j: int|
        0 <= j < targets.len() ==> structural_result(
            #[trigger] plans[j],
            model,
            store,
            identity,
            targets[j].0,
            targets[j].1,
            targets[j].2,
        )
}

/// The number of edit groups the structural plan of the note `id` (to
/// `new_path`, `new_key`) has.
pub open spec fn structural_edit_count<M: SemanticModel>(
    model: M,
    store: Store,
    identity: IdentityRegistry,
    id: NoteId,
    new_path: Seq<char>,
    new_key: Seq<char>,
) -> int {
    match structural_source(store, identity, id) {
        None => 0,
        Some((old_path, old_key)) => if old_key == new_key && old_path == new_path {
            0
        } else {
            (if old_path != new_path {
                1int
            } else {
                0int
            }) + backlink_edits(
                model,
                store.notes(),
                backlink_sources(store, id),
                id,
                new_key,
                new_path,
                old_key != new_key,
                old_path != new_path,
            ).len()
        },
    }
}

/// The notes that move when the hierarchy `old_prefix` is renamed
/// `new_prefix`, with their new paths and keys: the note with key
/// `old_prefix` first, if any, then the descendants in no particular order.
pub fn hierarchy_targets<M: SemanticModel>(
    store: &Store,
    identity: &IdentityRegistry,
    model: &M,
    old_prefix: &str,
    new_prefix: &str,
) -> (r: Vec<(NoteId, String, String)>)
    requires
        model.inv(),
        store.wf(),
    ensures
        forall|i: int|
            0 <= i < r@.len() ==> is_hierarchy_target(
                *model,
                *store,
                *identity,
                old_prefix@,
                new_prefix@,
                (#[trigger] r@[i]).0,
                r@[i].1@,
                r@[i].2@,
            ),
        forall|id: NoteId, p: Seq<char>, k: Seq<char>|
            is_hierarchy_target(*model, *store, *identity, old_prefix@, new_prefix@, id, p, k)
                ==> exists|i: int|
                0 <= i < r@.len() && #[trigger] r@[i].0 == id && r@[i].1@ == p && r@[i].2@ == k,
        is_target_listing(*model, *store, *identity, old_prefix@, new_prefix@, target_views(r@)),
{
    let mut r: Vec<(NoteId, String, String)> = Vec::new();
    let old_key = string_of(chars_of(old_prefix).as_slice());
    let new_key = string_of(chars_of(new_prefix).as_slice());
    let ghost root = if identity.keys().contains_key(old_prefix@) {
        Some(identity.keys()[old_prefix@])
    } else {
        None
    };
    if let Some(root_id) = identity.lookup(&old_key) {
        let new_path = model.path_from_note_key(&new_key);
        r.push((root_id, new_path, string_of(chars_of(new_prefix).as_slice())));
    }
    let ghost start = r@.len();
    let ids = store.all_note_ids();
    let ghost mut pos: Seq<int> = Seq::empty();
    let mut i: usize = 0;
    while i < ids.len()
        invariant
            pos.len() == r@.len() - start,
            forall|q: int|
                0 <= q < pos.len() ==> 0 <= #[trigger] pos[q] < i && ids@[pos[q]] == r@[q + start].0,
            forall|a: int, b: int|
                0 <= a < b < pos.len() ==> #[trigger] pos[a] < #[trigger] pos[b],
            model.inv(),
            store.wf(),
            old_key@ == old_prefix@,
            new_key@ == new_prefix@,
            i <= ids@.len(),
            ids@.no_duplicates(),
            forall|id: NoteId| ids@.contains(id) <==> store.notes().contains_key(id.0),
            start == (if root is Some {
                1int
            } else {
                0int
            }),
            start <= r@.len(),
            root matches Some(rid) ==> r@[0].0 == rid && r@[0].1@ == model.path_from_key(
                new_prefix@,
            ) && r@[0].2@ == new_prefix@,
            forall|j: int|
                0 <= j < r@.len() ==> is_hierarchy_target(
                    *model,
                    *store,
                    *identity,
                    old_prefix@,
                    new_prefix@,
                    (#[trigger] r@[j]).0,
                    r@[j].1@,
                    r@[j].2@,
                ),
            forall|m: int|
                start <= m < r@.len() ==> is_descendant_target(
                    *model,
                    *store,
                    old_prefix@,
                    new_prefix@,
                    (#[trigger] r@[m]).0,
                    r@[m].1@,
                    r@[m].2@,
                ),
            forall|j: int|
                #![trigger ids@[j]]
                0 <= j < i && store.notes().contains_key(ids@[j].0) && store.notes()[ids@[j].0].path is Some && model.descends(
                    model.key_from_path(store.notes()[ids@[j].0].path->0@, Seq::empty()),
                    old_prefix@,
                ) ==> exists|m: int| start <= m < r@.len() && #[trigger] r@[m].0 == ids@[j],
        decreases ids@.len() - i,
    {
        let id = ids[i];
        assert(ids@.contains(id));
        let note = store.get_note(&id).unwrap();
        let ghost old_r = r@;
        if let Some(path) = &note.path {
            let empty = String::new();
            let key = model.note_key_from_path(path.as_str(), empty.as_str());
            if model.is_descendant(&key, &old_key) {
                let nk = model.reparent_key(&key, &old_key, &new_key);
                let np = model.path_from_note_key(&nk);
                r.push((id, np, nk));
                proof {
                    pos = pos.push(i as int);
                    assert(r@[r@.len() - 1].0 == id);
                    assert forall|m: int| 0 <= m < old_r.len() implies r@[m] == old_r[m] by {}
                    assert(is_descendant_target(
                        *model,
                        *store,
                        old_prefix@,
                        new_prefix@,
                        id,
                        r@[r@.len() - 1].1@,
                        r@[r@.len() - 1].2@,
                    ));
                    assert forall|j: int|
                        #![trigger ids@[j]]
                        0 <= j < i + 1 && store.notes().contains_key(ids@[j].0)
                            && store.notes()[ids@[j].0].path is Some && model.descends(
                            model.key_from_path(store.notes()[ids@[j].0].path->0@, Seq::empty()),
                            old_prefix@,
                        ) implies exists|m: int|
                        start <= m < r@.len() && #[trigger] r@[m].0 == ids@[j] by {
                        if j < i {
                            let m = choose|m: int|
                                start <= m < old_r.len() && #[trigger] old_r[m].0 == ids@[j];
                            assert(r@[m] == old_r[m]);
                        } else {
                            assert(r@[r@.len() - 1].0 == ids@[j]);
                        }
                    }
                }
            }
        }
        i = i + 1;
    }
    proof {
        assert forall|id: NoteId, p: Seq<char>, k: Seq<char>|
            is_hierarchy_target(
                *model,
                *store,
                *identity,
                old_prefix@,
                new_prefix@,
                id,
                p,
                k,
            ) implies exists|m: int|
            0 <= m < r@.len() && #[trigger] r@[m].0 == id && r@[m].1@ == p && r@[m].2@ == k by {
            if identity.keys().contains_key(old_prefix@) && id == identity.keys()[old_prefix@]
                && k == new_prefix@ && p == model.path_from_key(new_prefix@) {
                assert(r@[0].0 == id);
            } else {
                assert(ids@.contains(id));
                let j = choose|j: int| 0 <= j < ids@.len() && ids@[j] == id;
                let m = choose|m: int| start <= m < r@.len() && #[trigger] r@[m].0 == ids@[j];
                assert(is_descendant_target(
                    *model,
                    *store,
                    old_prefix@,
                    new_prefix@,
                    r@[m].0,
                    r@[m].1@,
                    r@[m].2@,
                ));
            }
        }
        let tv = target_views(r@);
        assert forall|m: int|
            start <= m < tv.len() implies is_descendant_target(
            *model,
            *store,
            old_prefix@,
            new_prefix@,
            (#[trigger] tv[m]).0,
            tv[m].1,
            tv[m].2,
        ) by {
            assert(tv[m] == (r@[m].0, r@[m].1@, r@[m].2@));
        }
        assert forall|a: int, b: int|
            start <= a < b < tv.len() implies (#[trigger] tv[a]).0 != (#[trigger] tv[b]).0 by {
            let qa = a - start;
            let qb = b - start;
            assert(pos[qa] < pos[qb]);
            assert(ids@[pos[qa]] != ids@[pos[qb]]);
            assert(r@[qa + start] == r@[a]);
            assert(r@[qb + start] == r@[b]);
        }
        assert forall|id: NoteId, p: Seq<char>, k: Seq<char>|
            #[trigger] is_descendant_target(
                *model,
                *store,
                old_prefix@,
                new_prefix@,
                id,
                p,
                k,
            ) implies exists|m: int| start <= m < tv.len() && #[trigger] tv[m] == (id, p, k) by {
            assert(ids@.contains(id));
            let j = choose|j: int| 0 <= j < ids@.len() && ids@[j] == id;
            let m = choose|m: int| start <= m < r@.len() && #[trigger] r@[m].0 == ids@[j];
            assert(is_descendant_target(
                *model,
                *store,
                old_prefix@,
                new_prefix@,
                r@[m].0,
                r@[m].1@,
                r@[m].2@,
            ));
            assert(tv[m] == (id, p, k));
        }
        if identity.keys().contains_key(old_prefix@) {
            assert(tv[0] == (r@[0].0, r@[0].1@, r@[0].2@));
        }
    }
    r
}

// ---------------------------------------------------------------------------
// The plan
// ---------------------------------------------------------------------------

/// The plan that renames the hierarchy `old_prefix` to `new_prefix`: the
/// structural plans of the note `old_prefix` and of each descendant,
/// their edit groups in order (by file, the groups that rename a file after
/// the others), groups that rank alike in the order of the plans.  `None`
/// when none of them has an edit.
pub fn calculate_hierarchy_edits<M: SemanticModel>(
    store: &Store,
    identity: &IdentityRegistry,
    content_provider: &dyn ContentProvider,
    model: &M,
    old_prefix: &str,
    new_prefix: &str,
) -> (r: Option<EditPlan>)
    requires
        model.inv(),
        store.wf(),
    ensures
        r is Some <==> exists|id: NoteId, p: Seq<char>, k: Seq<char>|
            is_hierarchy_target(*model, *store, *identity, old_prefix@, new_prefix@, id, p, k)
                && #[trigger] structural_edit_count(*model, *store, *identity, id, p, k) > 0,
        r matches Some(plan) ==> {
            &&& plan.mutation_kind == MutationKind::HierarchyRefactor
            &&& plan@.preconditions.len() == 0
            &&& plan@.diagnostics.len() == 0
            &&& plan.reversible
            &&& plan@.edits.len() > 0
            &&& groups_sorted(plan@.edits)
            &&& exists|targets: Seq<(NoteId, Seq<char>, Seq<char>)>, plans: Seq<Option<EditPlan>>|
                #![trigger is_target_listing(*model, *store, *identity, old_prefix@, new_prefix@, targets), structural_plans(*model, *store, *identity, targets, plans)]
                is_target_listing(*model, *store, *identity, old_prefix@, new_prefix@, targets)
                    && structural_plans(*model, *store, *identity, targets, plans)
                    && plan@.edits.to_multiset() == plan_groups(plans).to_multiset()
                    && forall|c: EditGroupView|
                    #[trigger] rank_run(plan@.edits, c) == rank_run(plan_groups(plans), c)
        },
{
    let targets = hierarchy_targets(store, identity, model, old_prefix, new_prefix);
    let ghost tv = target_views(targets@);
    let ghost mut plans: Seq<Option<EditPlan>> = Seq::empty();
    let mut all_edits: Vec<EditGroup> = Vec::new();
    let mut i: usize = 0;
    while i < targets.len()
        invariant
            model.inv(),
            store.wf(),
            i <= targets@.len(),
            tv == target_views(targets@),
            plans.len() == i,
            forall|j: int|
                0 <= j < i ==> structural_result(
                    #[trigger] plans[j],
                    *model,
                    *store,
                    *identity,
                    tv[j].0,
                    tv[j].1,
                    tv[j].2,
                ),
            all_edits@.map_values(|g: EditGroup| g@) == plan_groups(plans),
            forall|j: int|
                0 <= j < targets@.len() ==> is_hierarchy_target(
                    *model,
                    *store,
                    *identity,
                    old_prefix@,
                    new_prefix@,
                    (#[trigger] targets@[j]).0,
                    targets@[j].1@,
                    targets@[j].2@,
                ),
            (all_edits@.len() > 0) <==> exists|j: int|
                0 <= j < i && structural_edit_count(
                    *model,
                    *store,
                    *identity,
                    (#[trigger] targets@[j]).0,
                    targets@[j].1@,
                    targets@[j].2@,
                ) > 0,
        decreases targets@.len() - i,
    {
        let (id, new_path, new_key) = &targets[i];
        let plan = calculate_structural_edits(
            store,
            identity,
            content_provider,
            model,
            id,
            new_path.clone(),
            new_key.as_str(),
        );
        let ghost pv = plan;
        let ghost before = all_edits@;
        match plan {
            Some(p) => {
                let mut edits = p.edits;
                all_edits.append(&mut edits);
            },
            None => {},
        }
        proof {
            let old_plans = plans;
            plans = plans.push(pv);
            assert(plans.drop_last() =~= old_plans);
            assert(tv[i as int] == (targets@[i as int].0, targets@[i as int].1@, targets@[i as int].2@));
            assert(all_edits@.map_values(|g: EditGroup| g@) =~= plan_groups(plans));
            assert(structural_edit_count(
                *model,
                *store,
                *identity,
                targets@[i as int].0,
                targets@[i as int].1@,
                targets@[i as int].2@,
            ) > 0 <==> (pv is Some && pv->0@.edits.len() > 0));
            assert(all_edits@.len() == before.len() + if pv is Some {
                pv->0@.edits.len()
            } else {
                0
            });
        }
        i = i + 1;
    }
    if all_edits.len() == 0 {
        proof {
            assert forall|id: NoteId, p: Seq<char>, k: Seq<char>|
                is_hierarchy_target(*model, *store, *identity, old_prefix@, new_prefix@, id, p, k)
                    implies !(#[trigger] structural_edit_count(*model, *store, *identity, id, p, k) > 0) by {
                let j = choose|j: int|
                    0 <= j < targets@.len() && #[trigger] targets@[j].0 == id && targets@[j].1@ == p
                        && targets@[j].2@ == k;
            }
        }
        return None;
    }
    proof {
        let j = choose|j: int|
            0 <= j < targets@.len() && structural_edit_count(
                *model,
                *store,
                *identity,
                (#[trigger] targets@[j]).0,
                targets@[j].1@,
                targets@[j].2@,
            ) > 0;
        assert(is_hierarchy_target(*model, *store, *identity, old_prefix@, new_prefix@, targets@[j].0, targets@[j].1@, targets@[j].2@));
    }
    let ghost before = all_edits@.map_values(|g: EditGroup| g@);
    let sorted = sort_groups(all_edits);
    proof {
        let after = sorted@.map_values(|g: EditGroup| g@);
        assert(before.len() > 0);
        assert(before.to_multiset().len() > 0);
        assert(after.len() > 0);
        assert(structural_plans(*model, *store, *identity, tv, plans));
        assert(is_target_listing(*model, *store, *identity, old_prefix@, new_prefix@, tv));
        assert(before == plan_groups(plans));
        assert forall|c: EditGroupView| #[trigger] rank_run(after, c) == rank_run(plan_groups(plans), c) by {
            assert(after == group_views(sorted@));
            assert(rank_run(group_views(sorted@), c) == rank_run(before, c));
        }
    }
    Some(
        EditPlan {
            mutation_kind: MutationKind::HierarchyRefactor,
            edits: sorted,
            preconditions: Vec::new(),
            diagnostics: Vec::new(),
            reversible: true,
        },
    )
}

} // verus!

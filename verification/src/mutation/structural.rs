//! Renaming and moving a note: the file operation and the updates of the
//! links that point to it.
use vstd::prelude::*;
use crate::identity::IdentityRegistry;
use crate::line_map::{
    LineMap, boundary_index, byte_offset, is_boundary, lemma_boundary_index,
    lemma_byte_offset_strict, point_char_index, point_offset,
};
use crate::model::{Link, LinkKind, Note, NoteId, TextRange, clone_opt, opt_view, uuid_text};
use crate::mutation::{
    Change, ChangeView, ContentProvider, EditGroup, EditGroupView, EditPlan, MutationKind,
    Precondition, PreconditionView, ResourceOperation, ResourceOperationView, TextEdit,
};
use crate::paths::{
    components_of, file_name_of, joined_path, parent_of, path_components, path_file_name,
    path_join, path_parent,
};
use crate::semantic::{DendronModel, SemanticModel};
use crate::store::Store;
use crate::text::{chars_of, push_seq, push_str, slice_sub, str_eq, string_of, copy_str};
use crate::utils::{backslashes_to_slashes, replace_backslashes};

verus! {

// ---------------------------------------------------------------------------
// Relative paths
// ---------------------------------------------------------------------------

/// The number of leading components `a` and `b` share, from index `i` on.
pub open spec fn common_from(a: Seq<Seq<char>>, b: Seq<Seq<char>>, i: int) -> int
    decreases a.len() - i,
{
    if i < 0 || i >= a.len() || i >= b.len() || a[i] != b[i] {
        i
    } else {
        common_from(a, b, i + 1)
    }
}

/// `base` with each of `parts` pushed on, in order (as `PathBuf::push`).
pub open spec fn pushed_all(base: Seq<char>, parts: Seq<Seq<char>>) -> Seq<char>
    decreases parts.len(),
{
    if parts.len() == 0 {
        base
    } else {
        joined_path(pushed_all(base, parts.drop_last()), parts.last())
    }
}

/// The components that lead from the directory components `fc` to the
/// components `tc`: one `..` per component of `fc` not shared with `tc`,
/// then the rest of `tc`.
pub open spec fn relative_parts(fc: Seq<Seq<char>>, tc: Seq<Seq<char>>) -> Seq<Seq<char>> {
    let c = common_from(fc, tc, 0);
    Seq::new((fc.len() - c) as nat, |i: int| seq!['.', '.']) + tc.skip(c)
}

/// The components reached from the components `stack` by following
/// `parts`: each `..` leaves the last component, any other is entered.
pub open spec fn resolved(stack: Seq<Seq<char>>, parts: Seq<Seq<char>>) -> Seq<Seq<char>>
    decreases parts.len(),
{
    if parts.len() == 0 {
        stack
    } else if parts[0] == seq!['.', '.'] && stack.len() > 0 {
        resolved(stack.drop_last(), parts.drop_first())
    } else {
        resolved(stack.push(parts[0]), parts.drop_first())
    }
}

proof fn lemma_common_prefix(a: Seq<Seq<char>>, b: Seq<Seq<char>>, i: int)
    requires
        0 <= i <= a.len(),
        i <= b.len(),
        forall|j: int| 0 <= j < i ==> a[j] == b[j],
    ensures
        forall|j: int| 0 <= j < common_from(a, b, i) ==> a[j] == b[j],
    decreases a.len() - i,
{
    if i < a.len() && i < b.len() && a[i] == b[i] {
        lemma_common_prefix(a, b, i + 1);
    }
}

proof fn lemma_resolved_ups(stack: Seq<Seq<char>>, k: int, rest: Seq<Seq<char>>)
    requires
        0 <= k <= stack.len(),
    ensures
        resolved(stack, Seq::new(k as nat, |i: int| seq!['.', '.']) + rest) == resolved(
            stack.take(stack.len() - k),
            rest,
        ),
    decreases k,
{
    let ups = Seq::new(k as nat, |i: int| seq!['.', '.']);
    if k == 0 {
        assert(ups + rest =~= rest);
        assert(stack.take(stack.len() as int) =~= stack);
    } else {
        let parts = ups + rest;
        assert(parts[0] == seq!['.', '.']);
        assert(parts.drop_first() =~= Seq::new((k - 1) as nat, |i: int| seq!['.', '.']) + rest);
        lemma_resolved_ups(stack.drop_last(), k - 1, rest);
        assert(stack.drop_last().take(stack.drop_last().len() - (k - 1)) =~= stack.take(
            stack.len() - k,
        ));
    }
}

proof fn lemma_resolved_plain(stack: Seq<Seq<char>>, rest: Seq<Seq<char>>)
    requires
        forall|j: int| 0 <= j < rest.len() ==> rest[j] != seq!['.', '.'],
    ensures
        resolved(stack, rest) == stack + rest,
    decreases rest.len(),
{
    if rest.len() == 0 {
        assert(stack + rest =~= stack);
    } else {
        lemma_resolved_plain(stack.push(rest[0]), rest.drop_first());
        assert(stack.push(rest[0]) + rest.drop_first() =~= stack + rest);
    }
}

/// Following the relative components from the directory components `fc`
/// reaches the target components `tc`, when no component of `tc` is `..`.
pub proof fn lemma_relative_parts_reach(fc: Seq<Seq<char>>, tc: Seq<Seq<char>>)
    requires
        forall|j: int| 0 <= j < tc.len() ==> tc[j] != seq!['.', '.'],
    ensures
        resolved(fc, relative_parts(fc, tc)) == tc,
{
    let c = common_from(fc, tc, 0);
    lemma_common_from(fc, tc, 0);
    lemma_common_prefix(fc, tc, 0);
    lemma_resolved_ups(fc, fc.len() - c, tc.skip(c));
    assert(fc.take(fc.len() - (fc.len() - c)) =~= tc.take(c));
    lemma_resolved_plain(tc.take(c), tc.skip(c));
    assert(tc.take(c) + tc.skip(c) =~= tc);
}

/// The path of `to` relative to the directory of `from`: one `..` per
/// component of that directory not shared with `to`, then the rest of `to`;
/// the file name of `to` (else `.`) when that is empty.
pub open spec fn relative_path(from: Seq<char>, to: Seq<char>) -> Seq<char> {
    let dir = match parent_of(from) {
        Some(p) => p,
        None => Seq::empty(),
    };
    let parts = relative_parts(components_of(dir), components_of(to));
    let r = pushed_all(Seq::empty(), parts);
    if r.len() == 0 {
        match file_name_of(to) {
            Some(n) => n,
            None => seq!['.'],
        }
    } else {
        r
    }
}

proof fn lemma_common_from(a: Seq<Seq<char>>, b: Seq<Seq<char>>, i: int)
    requires
        0 <= i <= a.len(),
        i <= b.len(),
    ensures
        i <= common_from(a, b, i) <= a.len(),
        common_from(a, b, i) <= b.len(),
    decreases a.len() - i,
{
    if i < a.len() && i < b.len() && a[i] == b[i] {
        lemma_common_from(a, b, i + 1);
    }
}

/// The path of `to` relative to the directory of `from`.
pub fn calculate_relative_path(from: &str, to: &str) -> (r: String)
    ensures
        r@ == relative_path(from@, to@),
{
    let dir = match path_parent(from) {
        Some(p) => p,
        None => String::new(),
    };
    let fc = path_components(dir.as_str());
    let tc = path_components(to);
    let ghost fcv = components_of(dir@);
    let ghost tcv = components_of(to@);
    assert(fc@.len() == fcv.len());
    assert(tc@.len() == tcv.len());
    let mut c: usize = 0;
    while c < fc.len() && c < tc.len() && str_eq(fc[c].as_str(), tc[c].as_str())
        invariant
            c <= fc@.len(),
            c <= tc@.len(),
            fc@.map_values(|s: String| s@) == fcv,
            tc@.map_values(|s: String| s@) == tcv,
            common_from(fcv, tcv, 0) == common_from(fcv, tcv, c as int),
        decreases fc@.len() - c,
    {
        assert(fcv[c as int] == fc@[c as int]@);
        c = c + 1;
    }
    proof {
        if c < fc@.len() && c < tc@.len() {
            assert(fcv[c as int] == fc@[c as int]@);
            assert(tcv[c as int] == tc@[c as int]@);
        }
    }
    let ghost parts = Seq::new((fcv.len() - c) as nat, |i: int| seq!['.', '.']) + tcv.skip(
        c as int,
    );
    let mut result = String::new();
    let mut k: usize = 0;
    let ups = fc.len() - c;
    proof {
        assert(parts.take(0) =~= Seq::<Seq<char>>::empty());
    }
    while k < ups
        invariant
            ups == fcv.len() - c,
            k <= ups,
            c <= tcv.len(),
            parts == Seq::new((fcv.len() - c) as nat, |i: int| seq!['.', '.']) + tcv.skip(c as int),
            result@ == pushed_all(Seq::empty(), parts.take(k as int)),
        decreases ups - k,
    {
        let up = string_of(&['.', '.']);
        result = path_join(result.as_str(), up.as_str());
        proof {
            assert(parts.take(k + 1).drop_last() =~= parts.take(k as int));
            assert(parts.take(k + 1).last() == parts[k as int]);
            assert(up@ =~= seq!['.', '.']);
        }
        k = k + 1;
    }
    let mut j: usize = c;
    while j < tc.len()
        invariant
            ups == fcv.len() - c,
            c <= j <= tc@.len(),
            tc@.map_values(|s: String| s@) == tcv,
            parts == Seq::new((fcv.len() - c) as nat, |i: int| seq!['.', '.']) + tcv.skip(c as int),
            result@ == pushed_all(Seq::empty(), parts.take(ups + (j - c))),
        decreases tc@.len() - j,
    {
        result = path_join(result.as_str(), tc[j].as_str());
        proof {
            let n = ups + (j - c);
            assert(parts.take(n + 1).drop_last() =~= parts.take(n));
            assert(parts[n] == tcv[j as int]);
        }
        j = j + 1;
    }
    assert(parts.take(parts.len() as int) =~= parts);
    if result.as_str().is_empty() {
        match path_file_name(to) {
            Some(n) => n,
            None => string_of(&['.']),
        }
    } else {
        proof {
            assert(result@.len() != 0);
        }
        result
    }
}

// ---------------------------------------------------------------------------
// The text replaced by an edit
// ---------------------------------------------------------------------------

/// The text of `t` between the points of `range`, when both are in `t` and
/// in order.
pub open spec fn text_in_range(t: Seq<char>, range: TextRange) -> Option<Seq<char>> {
    match (point_char_index(t, range.start), point_char_index(t, range.end)) {
        (Some(a), Some(b)) => if a <= b {
            Some(t.subrange(a, b))
        } else {
            None
        },
        _ => None,
    }
}

/// The text an edit of `range` replaces in `content`, when the content is
/// known.
pub fn undo_text_of(content: Option<String>, range: TextRange) -> (r: Option<String>)
    ensures
        opt_view(r) == match content {
            Some(c) => text_in_range(c@, range),
            None => None,
        },
{
    let content = match content {
        Some(c) => c,
        None => return None,
    };
    let lm = LineMap::new(content.as_str());
    let s = match lm.point_to_offset(content.as_str(), range.start) {
        Some(s) => s,
        None => return None,
    };
    let e = match lm.point_to_offset(content.as_str(), range.end) {
        Some(e) => e,
        None => return None,
    };
    let ghost t = content@;
    let ghost a = point_char_index(t, range.start)->0;
    let ghost b = point_char_index(t, range.end)->0;
    proof {
        assert(point_offset(t, range.start) == Some(byte_offset(t, a)));
        assert(point_offset(t, range.end) == Some(byte_offset(t, b)));
        crate::line_map::lemma_point_char_index_bounds(t, range.start);
        crate::line_map::lemma_point_char_index_bounds(t, range.end);
        lemma_boundary_index(t, a);
        lemma_boundary_index(t, b);
        if a < b {
            lemma_byte_offset_strict(t, a, b);
        } else if b < a {
            lemma_byte_offset_strict(t, b, a);
        }
    }
    if s <= e {
        let ka = lm.char_index(s);
        let kb = lm.char_index(e);
        let chars = chars_of(content.as_str());
        let v = slice_sub(chars.as_slice(), ka, kb);
        Some(string_of(v.as_slice()))
    } else {
        None
    }
}

// ---------------------------------------------------------------------------
// The plan, specified
// ---------------------------------------------------------------------------

/// `[label](path)`: a Markdown link.
pub open spec fn markdown_link_text(label: Seq<char>, path: Seq<char>) -> Seq<char> {
    seq!['['] + label + seq![']', '('] + path + seq![')']
}

/// The new text of `link`, written in the note at `source_path`, once the
/// note it points to gets the key `new_key` and the path `new_path`; `None`
/// when the link stays as it is.  Wiki links follow a rename; Markdown links
/// follow a rename or a move, with the path relative to the source note.
pub open spec fn updated_link_text<M: SemanticModel>(
    model: M,
    link: Link,
    source_path: Seq<char>,
    new_key: Seq<char>,
    new_path: Seq<char>,
    is_rename: bool,
    is_move: bool,
) -> Option<Seq<char>> {
    match link.kind {
        LinkKind::WikiLink(_) => if is_rename {
            Some(model.wikilink_text(new_key, opt_view(link.alias), opt_view(link.anchor), false))
        } else {
            None
        },
        LinkKind::EmbeddedWikiLink(_) => if is_rename {
            Some(model.wikilink_text(new_key, opt_view(link.alias), opt_view(link.anchor), true))
        } else {
            None
        },
        LinkKind::MarkdownLink => if is_rename || is_move {
            Some(
                markdown_link_text(
                    match link.alias {
                        Some(a) => a@,
                        None => new_key,
                    },
                    backslashes_to_slashes(relative_path(source_path, new_path)),
                ),
            )
        } else {
            None
        },
        _ => None,
    }
}

/// In a Dendron workspace, renaming a note to `new_key` rewrites a wiki link
/// to it as `[[alias|new_key#anchor]]` (with `!` before when embedded): the
/// link keeps its own alias and anchor, and only its target changes.
pub proof fn lemma_renamed_wikilink_keeps_alias_and_anchor(
    model: DendronModel,
    link: Link,
    source_path: Seq<char>,
    new_key: Seq<char>,
    new_path: Seq<char>,
    is_move: bool,
)
    requires
        link.kind is WikiLink || link.kind is EmbeddedWikiLink,
    ensures
        updated_link_text(model, link, source_path, new_key, new_path, true, is_move) == Some(
            (if link.kind is EmbeddedWikiLink {
                seq!['!', '[', '[']
            } else {
                seq!['[', '[']
            }) + (match link.alias {
                Some(a) => a@ + seq!['|'],
                None => Seq::empty(),
            }) + new_key + (match link.anchor {
                Some(h) => seq!['#'] + h@,
                None => Seq::empty(),
            }) + seq![']', ']'],
        ),
        link.alias matches Some(a) ==> updated_link_text(
            model,
            link,
            source_path,
            new_key,
            new_path,
            true,
            is_move,
        )->0.subrange(
            if link.kind is EmbeddedWikiLink { 3int } else { 2int },
            (if link.kind is EmbeddedWikiLink { 3int } else { 2int }) + a@.len() + 1 + new_key.len(),
        ) == a@ + seq!['|'] + new_key,
        !is_move ==> updated_link_text(model, link, source_path, new_key, new_path, false, is_move)
            is None,
{
    let t = updated_link_text(model, link, source_path, new_key, new_path, true, is_move)->0;
    if let Some(a) = link.alias {
        let o: int = if link.kind is EmbeddedWikiLink { 3int } else { 2int };
        let w = a@ + seq!['|'] + new_key;
        assert forall|i: int| 0 <= i < w.len() implies #[trigger] t.subrange(o, o + w.len())[i] == w[i] by {
            assert(t[o + i] == w[i]);
        }
        assert(t.subrange(o, o + w.len()) =~= w);
    }
}

/// The ranges and new texts of the links among `links` that point to `id`
/// and change.
pub open spec fn link_edits<M: SemanticModel>(
    model: M,
    links: Seq<Link>,
    id: NoteId,
    source_path: Seq<char>,
    new_key: Seq<char>,
    new_path: Seq<char>,
    is_rename: bool,
    is_move: bool,
) -> Seq<(TextRange, Seq<char>)>
    decreases links.len(),
{
    if links.len() == 0 {
        Seq::empty()
    } else {
        let prev = link_edits(
            model,
            links.drop_last(),
            id,
            source_path,
            new_key,
            new_path,
            is_rename,
            is_move,
        );
        let l = links.last();
        if l.target == id {
            match updated_link_text(model, l, source_path, new_key, new_path, is_rename, is_move) {
                Some(t) => prev.push((l.range, t)),
                None => prev,
            }
        } else {
            prev
        }
    }
}

/// For each note of `sources` that is stored, has a path and has links to
/// `id` that change: its path and those link edits.
pub open spec fn backlink_edits<M: SemanticModel>(
    model: M,
    notes: Map<u128, Note>,
    sources: Seq<NoteId>,
    id: NoteId,
    new_key: Seq<char>,
    new_path: Seq<char>,
    is_rename: bool,
    is_move: bool,
) -> Seq<(Seq<char>, Seq<(TextRange, Seq<char>)>)>
    decreases sources.len(),
{
    if sources.len() == 0 {
        Seq::empty()
    } else {
        let prev = backlink_edits(
            model,
            notes,
            sources.drop_last(),
            id,
            new_key,
            new_path,
            is_rename,
            is_move,
        );
        let s = sources.last();
        if notes.contains_key(s.0) && notes[s.0].path is Some {
            let p = notes[s.0].path->0@;
            let es = link_edits(
                model,
                notes[s.0].links@,
                id,
                p,
                new_key,
                new_path,
                is_rename,
                is_move,
            );
            if es.len() > 0 {
                prev.push((p, es))
            } else {
                prev
            }
        } else {
            prev
        }
    }
}

/// `c` replaces the text in `e.0` by `e.1` (whatever it records as undo text).
pub open spec fn is_text_edit(c: ChangeView, e: (TextRange, Seq<char>)) -> bool {
    &&& c is TextEdit
    &&& c->TextEdit_0.range == e.0
    &&& c->TextEdit_0.new_text == e.1
}

/// `g` edits the file `uri` by the text edits `es`, in order.
pub open spec fn is_text_group(
    g: EditGroupView,
    uri: Seq<char>,
    es: Seq<(TextRange, Seq<char>)>,
) -> bool {
    &&& g.uri == uri
    &&& g.changes.len() == es.len()
    &&& forall|j: int| 0 <= j < es.len() ==> is_text_edit(#[trigger] g.changes[j], es[j])
}

/// The text an edit of `range` replaces in the content `c`, when known.
pub open spec fn undo_from(c: Option<Seq<char>>, range: TextRange) -> Option<Seq<char>> {
    match c {
        Some(t) => text_in_range(t, range),
        None => None,
    }
}

/// Each text edit of `g` records as undo text the text it replaces in the
/// content `c`.
pub open spec fn undo_texts_from(g: EditGroupView, c: Option<Seq<char>>) -> bool {
    forall|k: int|
        0 <= k < g.changes.len() && (#[trigger] g.changes[k] is TextEdit)
            ==> g.changes[k]->TextEdit_0.undo_text == undo_from(c, g.changes[k]->TextEdit_0.range)
}

/// `g` has a text edit.
pub open spec fn has_text_edit(g: EditGroupView) -> bool {
    exists|k: int| 0 <= k < g.changes.len() && (#[trigger] g.changes[k] is TextEdit)
}

/// Each text edit of `g` records as undo text the text it replaces in one
/// content that the provider `p` may give for the file `g.uri`.
pub open spec fn undo_texts_answered<P: ContentProvider + ?Sized>(g: EditGroupView, p: &P) -> bool {
    has_text_edit(g) ==> exists|c: Option<Seq<char>>|
        #[trigger] p.answers(g.uri, c) && undo_texts_from(g, c)
}

/// `g` edits the file `uri` by the text edits `es`, in order, each recording
/// as undo text the text it replaces in the content `c` read for that file.
pub open spec fn is_text_group_from(
    g: EditGroupView,
    uri: Seq<char>,
    es: Seq<(TextRange, Seq<char>)>,
    c: Option<Seq<char>>,
) -> bool {
    &&& is_text_group(g, uri, es)
    &&& forall|j: int|
        0 <= j < es.len() ==> (#[trigger] g.changes[j])->TextEdit_0.undo_text == undo_from(
            c,
            es[j].0,
        )
}

/// From index `first` on, `gs` holds one text group for each entry of `bl`
/// (a file and its link edits), with the undo texts of the content `cs[j]`
/// read for the file of entry `j`.
pub open spec fn text_groups_from(
    gs: Seq<EditGroupView>,
    first: int,
    bl: Seq<(Seq<char>, Seq<(TextRange, Seq<char>)>)>,
    cs: Seq<Option<Seq<char>>>,
) -> bool {
    &&& cs.len() == bl.len()
    &&& forall|j: int|
        0 <= j < bl.len() ==> #[trigger] is_text_group_from(gs[first + j], bl[j].0, bl[j].1, cs[j])
}

/// From index `first` on, `gs` holds the text groups of `bl`, with the undo
/// texts of some content read for each file.
pub open spec fn has_text_groups(
    gs: Seq<EditGroupView>,
    first: int,
    bl: Seq<(Seq<char>, Seq<(TextRange, Seq<char>)>)>,
) -> bool {
    exists|cs: Seq<Option<Seq<char>>>| #[trigger] text_groups_from(gs, first, bl, cs)
}

/// The group that renames the file `from` to `to`.
pub open spec fn rename_group(from: Seq<char>, to: Seq<char>) -> EditGroupView {
    EditGroupView {
        uri: from,
        changes: seq![
            ChangeView::ResourceOp(
                ResourceOperationView::RenameFile { new_uri: to, overwrite: false },
            ),
        ],
    }
}

/// The path and key of the note `id` before a structural change, when the
/// note is stored with a path and has a key.
pub open spec fn structural_source(store: Store, identity: IdentityRegistry, id: NoteId) -> Option<
    (Seq<char>, Seq<char>),
> {
    if store.notes().contains_key(id.0) && store.notes()[id.0].path is Some
        && identity.ids().contains_key(id.0) {
        Some((store.notes()[id.0].path->0@, identity.ids()[id.0]))
    } else {
        None
    }
}

/// The notes whose links to `id` are recorded.
pub open spec fn backlink_sources(store: Store, id: NoteId) -> Seq<NoteId> {
    if store.backlinks().contains_key(id.0) {
        store.backlinks()[id.0]
    } else {
        Seq::empty()
    }
}

/// `plan` renames and/or moves the note `id` from `old_path` (key
/// `old_key`) to `new_path` (key `new_key`), and updates the links to it;
/// each link edit records as undo text the text it replaces in the content
/// read for the linking note's file (none when that content is unknown).
pub open spec fn is_structural_plan<M: SemanticModel>(
    plan: EditPlan,
    model: M,
    store: Store,
    id: NoteId,
    old_path: Seq<char>,
    old_key: Seq<char>,
    new_path: Seq<char>,
    new_key: Seq<char>,
) -> bool {
    let is_rename = old_key != new_key;
    let is_move = old_path != new_path;
    let bl = backlink_edits(
        model,
        store.notes(),
        backlink_sources(store, id),
        id,
        new_key,
        new_path,
        is_rename,
        is_move,
    );
    let first = if is_move {
        1int
    } else {
        0int
    };
    &&& plan.mutation_kind == if is_rename {
        MutationKind::RenameNote
    } else {
        MutationKind::MoveNote
    }
    &&& plan@.preconditions == seq![PreconditionView::NoteExists(uuid_text(id.0))] + if is_move {
        seq![PreconditionView::PathNotExists(new_path)]
    } else {
        Seq::empty()
    }
    &&& plan@.diagnostics.len() == 0
    &&& plan.reversible
    &&& plan@.edits.len() == first + bl.len()
    &&& is_move ==> plan@.edits[0] == rename_group(old_path, new_path)
    &&& has_text_groups(plan@.edits, first, bl)
}

/// `r` is what a structural change of the note `id` to `new_path` and
/// `new_key` gives: `None` when the note is not stored with a path, has no
/// key, or neither changes; else the plan (see `is_structural_plan`).
pub open spec fn structural_result<M: SemanticModel>(
    r: Option<EditPlan>,
    model: M,
    store: Store,
    identity: IdentityRegistry,
    id: NoteId,
    new_path: Seq<char>,
    new_key: Seq<char>,
) -> bool {
    match structural_source(store, identity, id) {
        None => r is None,
        Some((old_path, old_key)) => if old_key == new_key && old_path == new_path {
            r is None
        } else {
            r matches Some(plan) && is_structural_plan(
                plan,
                model,
                store,
                id,
                old_path,
                old_key,
                new_path,
                new_key,
            )
        },
    }
}

// ---------------------------------------------------------------------------
// The plan, computed
// ---------------------------------------------------------------------------

/// The edit of `link` in the note at `source_path`, if it changes.
fn link_update<M: SemanticModel>(
    model: &M,
    link: &Link,
    source_path: &str,
    new_key: &str,
    new_path: &str,
    is_rename: bool,
    is_move: bool,
) -> (r: Option<String>)
    requires
        model.inv(),
    ensures
        opt_view(r) == updated_link_text(
            *model,
            *link,
            source_path@,
            new_key@,
            new_path@,
            is_rename,
            is_move,
        ),
{
    let alias: Option<&str> = match &link.alias {
        Some(a) => Some(a.as_str()),
        None => None,
    };
    let anchor: Option<&str> = match &link.anchor {
        Some(a) => Some(a.as_str()),
        None => None,
    };
    match link.kind {
        LinkKind::WikiLink(_) => if is_rename {
            Some(model.format_wikilink(new_key, alias, anchor, false))
        } else {
            None
        },
        LinkKind::EmbeddedWikiLink(_) => if is_rename {
            Some(model.format_wikilink(new_key, alias, anchor, true))
        } else {
            None
        },
        LinkKind::MarkdownLink => if is_rename || is_move {
            let mut text = string_of(&['[']);
            let ghost label = match &link.alias {
                Some(a) => a@,
                None => new_key@,
            };
            match &link.alias {
                Some(a) => push_str(&mut text, a.as_str()),
                None => push_str(&mut text, new_key),
            }
            push_seq(&mut text, &[']', '(']);
            let rel = calculate_relative_path(source_path, new_path);
            let rel_str = replace_backslashes(rel.as_str());
            push_str(&mut text, rel_str.as_str());
            push_seq(&mut text, &[')']);
            proof {
                assert(text@ =~= markdown_link_text(label, rel_str@));
            }
            Some(text)
        } else {
            None
        },
        _ => None,
    }
}

/// The edits of the links of `source` (stored at `source_path`) that point
/// to `id`, with their undo texts taken from `content`, the content read for
/// that path.
fn source_changes<M: SemanticModel>(
    model: &M,
    content: &Option<String>,
    source: &Note,
    source_path: &str,
    id: &NoteId,
    new_key: &str,
    new_path: &str,
    is_rename: bool,
    is_move: bool,
) -> (r: Vec<Change>)
    requires
        model.inv(),
    ensures
        ({
            let es = link_edits(
                *model,
                source.links@,
                *id,
                source_path@,
                new_key@,
                new_path@,
                is_rename,
                is_move,
            );
            &&& r@.len() == es.len()
            &&& forall|j: int| 0 <= j < es.len() ==> is_text_edit(#[trigger] r@[j]@, es[j])
            &&& forall|j: int|
                0 <= j < es.len() ==> (#[trigger] r@[j]@)->TextEdit_0.undo_text == undo_from(
                    opt_view(*content),
                    es[j].0,
                )
        }),
{
    let mut changes: Vec<Change> = Vec::new();
    let mut i: usize = 0;
    while i < source.links.len()
        invariant
            model.inv(),
            i <= source.links@.len(),
            ({
                let es = link_edits(
                    *model,
                    source.links@.take(i as int),
                    *id,
                    source_path@,
                    new_key@,
                    new_path@,
                    is_rename,
                    is_move,
                );
                &&& changes@.len() == es.len()
                &&& forall|j: int| 0 <= j < es.len() ==> is_text_edit(#[trigger] changes@[j]@, es[j])
                &&& forall|j: int|
                    0 <= j < es.len() ==> (#[trigger] changes@[j]@)->TextEdit_0.undo_text
                        == undo_from(opt_view(*content), es[j].0)
            }),
        decreases source.links@.len() - i,
    {
        let link = &source.links[i];
        proof {
            assert(source.links@.take(i + 1).drop_last() =~= source.links@.take(i as int));
            assert(source.links@.take(i + 1).last() == source.links@[i as int]);
        }
        if link.target == *id {
            match link_update(model, link, source_path, new_key, new_path, is_rename, is_move) {
                Some(new_text) => {
                    let undo_text = undo_text_of(clone_opt(content), link.range);
                    changes.push(Change::TextEdit(TextEdit { range: link.range, new_text, undo_text }));
                },
                None => {},
            }
        }
        i = i + 1;
    }
    assert(source.links@.take(source.links@.len() as int) =~= source.links@);
    changes
}

/// The plan that renames and/or moves the note `note_id` to `new_path`
/// with the key `new_key`: the file operation when the path changes, and
/// the updates of the links that point to the note, each recording as undo
/// text the text it replaces in the content the provider gives for the
/// linking note's path.  `None` when the note is not stored with a path,
/// has no key, or neither key nor path change.
pub fn calculate_structural_edits<M: SemanticModel>(
    store: &Store,
    identity: &IdentityRegistry,
    content_provider: &dyn ContentProvider,
    model: &M,
    note_id: &NoteId,
    new_path: String,
    new_key: &str,
) -> (r: Option<EditPlan>)
    requires
        model.inv(),
    ensures
        structural_result(r, *model, *store, *identity, *note_id, new_path@, new_key@),
        r matches Some(plan) ==> forall|j: int|
            0 <= j < plan@.edits.len() ==> undo_texts_answered(#[trigger] plan@.edits[j], content_provider),
{
    let note = match store.get_note(note_id) {
        Some(n) => n,
        None => return None,
    };
    let old_path = match &note.path {
        Some(p) => p,
        None => return None,
    };
    let old_key = match identity.key_of(note_id) {
        Some(k) => k,
        None => return None,
    };
    let is_rename = !str_eq(old_key.as_str(), new_key);
    let is_move = !str_eq(old_path.as_str(), new_path.as_str());
    if !is_rename && !is_move {
        return None;
    }
    let mut preconditions: Vec<Precondition> = Vec::new();
    preconditions.push(Precondition::NoteExists(note_id.to_uuid_string()));
    if is_move {
        preconditions.push(Precondition::PathNotExists(new_path.clone()));
    }
    let mut edits: Vec<EditGroup> = Vec::new();
    if is_move {
        let mut changes: Vec<Change> = Vec::new();
        changes.push(
            Change::ResourceOp(
                ResourceOperation::RenameFile { new_uri: new_path.clone(), overwrite: false },
            ),
        );
        edits.push(EditGroup { uri: old_path.clone(), changes });
        proof {
            assert(edits@[0]@.changes =~= rename_group(old_path@, new_path@).changes);
            assert(edits@[0]@ == rename_group(old_path@, new_path@));
            assert(!(edits@[0]@.changes[0] is TextEdit));
            assert(!has_text_edit(edits@[0]@));
        }
    }
    let ghost first: int = if is_move {
        1
    } else {
        0
    };
    let backlinks = store.backlinks_of(note_id);
    let ghost sources = backlinks@;
    let ghost mut cs: Seq<Option<Seq<char>>> = Seq::empty();
    let mut i: usize = 0;
    while i < backlinks.len()
        invariant
            model.inv(),
            sources == backlinks@,
            sources == backlink_sources(*store, *note_id),
            i <= sources.len(),
            first == (if is_move {
                1int
            } else {
                0int
            }),
            is_move ==> edits@.len() >= 1 && edits@[0]@ == rename_group(old_path@, new_path@),
            forall|j: int|
                0 <= j < edits@.len() ==> undo_texts_answered(#[trigger] edits@[j]@, content_provider),
            ({
                let bl = backlink_edits(
                    *model,
                    store.notes(),
                    sources.take(i as int),
                    *note_id,
                    new_key@,
                    new_path@,
                    is_rename,
                    is_move,
                );
                &&& edits@.len() == first + bl.len()
                &&& text_groups_from(edits@.map_values(|g: EditGroup| g@), first, bl, cs)
            }),
        decreases sources.len() - i,
    {
        let source_id = backlinks[i];
        proof {
            assert(sources.take(i + 1).drop_last() =~= sources.take(i as int));
            assert(sources.take(i + 1).last() == sources[i as int]);
        }
        let ghost bl_prev = backlink_edits(
            *model,
            store.notes(),
            sources.take(i as int),
            *note_id,
            new_key@,
            new_path@,
            is_rename,
            is_move,
        );
        let ghost bl_next = backlink_edits(
            *model,
            store.notes(),
            sources.take(i + 1),
            *note_id,
            new_key@,
            new_path@,
            is_rename,
            is_move,
        );
        let ghost before = edits@;
        let ghost mut got: Option<Seq<char>> = None;
        match store.get_note(&source_id) {
            Some(source) => match &source.path {
                Some(source_path) => {
                    let content = content_provider.get_content(source_path.as_str());
                    let changes = source_changes(
                        model,
                        &content,
                        source,
                        source_path.as_str(),
                        note_id,
                        new_key,
                        new_path.as_str(),
                        is_rename,
                        is_move,
                    );
                    if changes.len() > 0 {
                        edits.push(EditGroup { uri: source_path.clone(), changes });
                        proof {
                            got = opt_view(content);
                            let g = edits@[edits@.len() - 1]@;
                            assert(is_text_group_from(
                                g,
                                bl_next[bl_prev.len() as int].0,
                                bl_next[bl_prev.len() as int].1,
                                opt_view(content),
                            ));
                            assert(content_provider.answers(g.uri, opt_view(content)));
                            assert forall|j: int| 0 <= j < edits@.len() implies undo_texts_answered(#[trigger] edits@[j]@, content_provider) by {
                                if j < before.len() {
                                    assert(edits@[j] == before[j]);
                                } else {
                                    let es = bl_next[bl_prev.len() as int].1;
                                    let c = opt_view(content);
                                    assert(edits@[j]@ == g);
                                    assert forall|k: int|
                                        0 <= k < g.changes.len() && (#[trigger] g.changes[k] is TextEdit)
                                        implies g.changes[k]->TextEdit_0.undo_text == undo_from(
                                        c,
                                        g.changes[k]->TextEdit_0.range,
                                    ) by {
                                        assert(is_text_edit(g.changes[k], es[k]));
                                    }
                                    assert(undo_texts_from(g, c));
                                    assert(content_provider.answers(g.uri, c));
                                }
                            }
                            assert(bl_next.len() == bl_prev.len() + 1);
                            assert(is_text_group_from(
                                edits@[first + bl_prev.len()]@,
                                bl_next[bl_prev.len() as int].0,
                                bl_next[bl_prev.len() as int].1,
                                opt_view(content),
                            ));
                        }
                    }
                },
                None => {},
            },
            None => {},
        }
        proof {
            assert(edits@.len() == first + bl_next.len());
            let gb = before.map_values(|g: EditGroup| g@);
            let ga = edits@.map_values(|g: EditGroup| g@);
            let cs0 = cs;
            if bl_next.len() > bl_prev.len() {
                cs = cs.push(got);
            }
            assert forall|j: int|
                0 <= j < bl_next.len() implies #[trigger] is_text_group_from(
                ga[first + j],
                bl_next[j].0,
                bl_next[j].1,
                cs[j],
            ) by {
                if j < bl_prev.len() {
                    assert(bl_next[j] == bl_prev[j]);
                    assert(ga[first + j] == gb[first + j]);
                    assert(cs[j] == cs0[j]);
                    assert(is_text_group_from(gb[first + j], bl_prev[j].0, bl_prev[j].1, cs0[j]));
                } else {
                    assert(ga[first + j] == edits@[first + bl_prev.len()]@);
                }
            }
            assert(text_groups_from(ga, first, bl_next, cs));
        }
        i = i + 1;
    }
    assert(sources.take(sources.len() as int) =~= sources);
    let plan = EditPlan {
        mutation_kind: if is_rename {
            MutationKind::RenameNote
        } else {
            MutationKind::MoveNote
        },
        edits,
        preconditions,
        diagnostics: Vec::new(),
        reversible: true,
    };
    proof {
        assert(plan@.preconditions =~= seq![PreconditionView::NoteExists(uuid_text(note_id.0))]
            + if is_move {
            seq![PreconditionView::PathNotExists(new_path@)]
        } else {
            Seq::empty()
        });
        let bl = backlink_edits(
            *model,
            store.notes(),
            sources,
            *note_id,
            new_key@,
            new_path@,
            is_rename,
            is_move,
        );
        assert(plan@.edits == edits@.map_values(|g: EditGroup| g@));
        assert(text_groups_from(plan@.edits, first, bl, cs));
        let first_s = if old_path@ != new_path@ {
            1int
        } else {
            0int
        };
        let bl_s = backlink_edits(
            *model,
            store.notes(),
            backlink_sources(*store, *note_id),
            *note_id,
            new_key@,
            new_path@,
            old_key@ != new_key@,
            old_path@ != new_path@,
        );
        assert(first_s == first);
        assert(bl_s == bl);
        assert(text_groups_from(plan@.edits, first_s, bl_s, cs));
        assert(has_text_groups(plan@.edits, first_s, bl_s));
    }
    Some(plan)
}

} // verus!

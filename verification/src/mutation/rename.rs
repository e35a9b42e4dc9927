//! Renaming a note by its file: the file is renamed and every link to the
//! note is rewritten with the new key (the plan kept for callers that have
//! no identity registry).
use vstd::prelude::*;
use crate::model::{Link, LinkKind, Note, NoteId, TextRange, clone_opt, opt_view, uuid_text};
use crate::mutation::structural::{
    backlink_sources, has_text_groups, is_text_edit, is_text_group_from, markdown_link_text,
    rename_group, text_groups_from, undo_from, undo_text_of, undo_texts_answered, undo_texts_from,
    has_text_edit,
};
use crate::mutation::{
    Change, ChangeView, ContentProvider, EditGroup, EditGroupView, EditPlan, MutationKind,
    Precondition, PreconditionView, ResourceOperation,
};
use crate::semantic::{DendronModel, SemanticModel};
use crate::store::Store;
use crate::text::{push_seq, push_str, string_of};

verus! {

/// The new text of `link` once its target is renamed `new_key`: a wiki link
/// to the new key, or a Markdown link to `new_key.md`; other kinds of links
/// stay as they are.
pub open spec fn renamed_link_text<M: SemanticModel>(
    model: M,
    link: Link,
    new_key: Seq<char>,
) -> Option<Seq<char>> {
    match link.kind {
        LinkKind::WikiLink(_) => Some(
            model.wikilink_text(new_key, opt_view(link.alias), opt_view(link.anchor), false),
        ),
        LinkKind::EmbeddedWikiLink(_) => Some(
            model.wikilink_text(new_key, opt_view(link.alias), opt_view(link.anchor), true),
        ),
        LinkKind::MarkdownLink => Some(
            markdown_link_text(
                match link.alias {
                    Some(a) => a@,
                    None => new_key,
                },
                new_key + seq!['.', 'm', 'd'],
            ),
        ),
        _ => None,
    }
}

/// In a Dendron workspace, renaming a note to `new_key` rewrites a wiki link
/// to it as `[[alias|new_key#anchor]]` (with `!` before when embedded): the
/// link keeps its own alias and anchor, and only its target changes.
pub proof fn lemma_renamed_link_keeps_alias_and_anchor(model: DendronModel, link: Link, new_key: Seq<char>)
    requires
        link.kind is WikiLink || link.kind is EmbeddedWikiLink,
    ensures
        renamed_link_text(model, link, new_key) == Some(
            (if link.kind is EmbeddedWikiLink {
                seq!['!', '[', '[']
            } else {
                seq!['[', '[']
            }) + (match link.alias {
                Some(a) => a@ + seq!['|'],
                None => Seq::empty(),
            }) + new_key + (match link.anchor {
                Some(h) => seq!['#'] + h@,
                None => Seq::empty(),
            }) + seq![']', ']'],
        ),
{
}

/// The ranges and new texts of the links among `links` that point to `id`.
pub open spec fn rename_link_edits<M: SemanticModel>(
    model: M,
    links: Seq<Link>,
    id: NoteId,
    new_key: Seq<char>,
) -> Seq<(TextRange, Seq<char>)>
    decreases links.len(),
{
    if links.len() == 0 {
        Seq::empty()
    } else {
        let prev = rename_link_edits(model, links.drop_last(), id, new_key);
        let l = links.last();
        if l.target == id {
            match renamed_link_text(model, l, new_key) {
                Some(t) => prev.push((l.range, t)),
                None => prev,
            }
        } else {
            prev
        }
    }
}

/// For each note of `sources` that is stored with a path and has links to
/// `id`: its path and the edits of those links.
pub open spec fn rename_backlink_edits<M: SemanticModel>(
    model: M,
    notes: Map<u128, Note>,
    sources: Seq<NoteId>,
    id: NoteId,
    new_key: Seq<char>,
) -> Seq<(Seq<char>, Seq<(TextRange, Seq<char>)>)>
    decreases sources.len(),
{
    if sources.len() == 0 {
        Seq::empty()
    } else {
        let prev = rename_backlink_edits(model, notes, sources.drop_last(), id, new_key);
        let s = sources.last();
        if notes.contains_key(s.0) && notes[s.0].path is Some {
            let es = rename_link_edits(model, notes[s.0].links@, id, new_key);
            if es.len() > 0 {
                prev.push((notes[s.0].path->0@, es))
            } else {
                prev
            }
        } else {
            prev
        }
    }
}

/// The edit of `link`, if it changes.
fn renamed_link<M: SemanticModel>(model: &M, link: &Link, new_key: &str) -> (r: Option<String>)
    requires
        model.inv(),
    ensures
        opt_view(r) == renamed_link_text(*model, *link, new_key@),
{
    let alias: Option<&str> = match &link.alias {
        Some(a) => Some(a.as_str()),
        None => None,
    };
    let anchor: Option<&str> = match &link.anchor {
        Some(a) => Some(a.as_str()),
        None => None,
    };
    match link.kind {
        LinkKind::WikiLink(_) => Some(model.format_wikilink(new_key, alias, anchor, false)),
        LinkKind::EmbeddedWikiLink(_) => Some(model.format_wikilink(new_key, alias, anchor, true)),
        LinkKind::MarkdownLink => {
            let mut text = string_of(&['[']);
            let ghost label = match &link.alias {
                Some(a) => a@,
                None => new_key@,
            };
            match &link.alias {
                Some(a) => push_str(&mut text, a.as_str()),
                None => push_str(&mut text, new_key),
            }
            push_seq(&mut text, &[']', '(']);
            push_str(&mut text, new_key);
            push_seq(&mut text, &['.', 'm', 'd', ')']);
            proof {
                assert(text@ =~= markdown_link_text(label, new_key@ + seq!['.', 'm', 'd']));
            }
            Some(text)
        },
        _ => None,
    }
}

/// The plan that renames the file of the note `note_id` to `new_path` and
/// rewrites every link to it for the key `new_key`, each edit recording as
/// undo text the text it replaces in the content the provider gives for the
/// linking note's path; `None` when the note is not stored with a path.
pub fn calculate_rename_edits<M: SemanticModel>(
    store: &Store,
    content_provider: &dyn ContentProvider,
    model: &M,
    note_id: &NoteId,
    new_path: String,
    new_key: &str,
) -> (r: Option<EditPlan>)
    requires
        model.inv(),
    ensures
        !(store.notes().contains_key(note_id.0) && store.notes()[note_id.0].path is Some) ==> r is None,
        store.notes().contains_key(note_id.0) && store.notes()[note_id.0].path is Some ==> {
            let bl = rename_backlink_edits(
                *model,
                store.notes(),
                backlink_sources(*store, *note_id),
                *note_id,
                new_key@,
            );
            r matches Some(plan) && {
                &&& plan.mutation_kind == MutationKind::RenameNote
                &&& plan@.preconditions == seq![
                    PreconditionView::NoteExists(uuid_text(note_id.0)),
                    PreconditionView::PathNotExists(new_path@),
                ]
                &&& plan@.diagnostics.len() == 0
                &&& plan.reversible
                &&& plan@.edits.len() == 1 + bl.len()
                &&& plan@.edits[0] == rename_group(store.notes()[note_id.0].path->0@, new_path@)
                &&& has_text_groups(plan@.edits, 1, bl)
            }
        },
        r matches Some(plan) ==> forall|j: int|
            0 <= j < plan@.edits.len() ==> undo_texts_answered(#[trigger] plan@.edits[j], content_provider),
{
    let note = match store.get_note(note_id) {
        Some(n) => n,
        None => return None,
    };
    let old_path = match &note.path {
        Some(p) => p,
        None => return None,
    };
    let mut preconditions: Vec<Precondition> = Vec::new();
    preconditions.push(Precondition::NoteExists(note_id.to_uuid_string()));
    preconditions.push(Precondition::PathNotExists(new_path.clone()));
    let mut edits: Vec<EditGroup> = Vec::new();
    let mut changes: Vec<Change> = Vec::new();
    changes.push(
        Change::ResourceOp(ResourceOperation::RenameFile { new_uri: new_path.clone(), overwrite: false }),
    );
    edits.push(EditGroup { uri: old_path.clone(), changes });
    proof {
        assert(edits@[0]@.changes =~= rename_group(old_path@, new_path@).changes);
        assert(!(edits@[0]@.changes[0] is TextEdit));
        assert(!has_text_edit(edits@[0]@));
    }
    let backlinks = store.backlinks_of(note_id);
    let ghost sources = backlinks@;
    let ghost mut cs: Seq<Option<Seq<char>>> = Seq::empty();
    let mut i: usize = 0;
    while i < backlinks.len()
        invariant
            model.inv(),
            sources == backlinks@,
            sources == backlink_sources(*store, *note_id),
            i <= sources.len(),
            edits@.len() >= 1,
            edits@[0]@ == rename_group(old_path@, new_path@),
            forall|j: int|
                0 <= j < edits@.len() ==> undo_texts_answered(#[trigger] edits@[j]@, content_provider),
            ({
                let bl = rename_backlink_edits(
                    *model,
                    store.notes(),
                    sources.take(i as int),
                    *note_id,
                    new_key@,
                );
                &&& edits@.len() == 1 + bl.len()
                &&& text_groups_from(edits@.map_values(|g: EditGroup| g@), 1, bl, cs)
            }),
        decreases sources.len() - i,
    {
        let source_id = backlinks[i];
        proof {
            assert(sources.take(i + 1).drop_last() =~= sources.take(i as int));
            assert(sources.take(i + 1).last() == sources[i as int]);
        }
        let ghost bl_prev = rename_backlink_edits(
            *model,
            store.notes(),
            sources.take(i as int),
            *note_id,
            new_key@,
        );
        let ghost bl_next = rename_backlink_edits(
            *model,
            store.notes(),
            sources.take(i + 1),
            *note_id,
            new_key@,
        );
        let ghost before = edits@;
        let ghost mut got: Option<Seq<char>> = None;
        match store.get_note(&source_id) {
            Some(source) => match &source.path {
                Some(source_path) => {
                    let content = content_provider.get_content(source_path.as_str());
                    let mut changes: Vec<Change> = Vec::new();
                    let mut k: usize = 0;
                    while k < source.links.len()
                        invariant
                            model.inv(),
                            k <= source.links@.len(),
                            ({
                                let es = rename_link_edits(
                                    *model,
                                    source.links@.take(k as int),
                                    *note_id,
                                    new_key@,
                                );
                                &&& changes@.len() == es.len()
                                &&& forall|j: int|
                                    0 <= j < es.len() ==> is_text_edit(#[trigger] changes@[j]@, es[j])
                                &&& forall|j: int|
                                    0 <= j < es.len() ==> (#[trigger] changes@[j]@)->TextEdit_0.undo_text
                                        == undo_from(opt_view(content), es[j].0)
                            }),
                        decreases source.links@.len() - k,
                    {
                        let link = &source.links[k];
                        proof {
                            assert(source.links@.take(k + 1).drop_last() =~= source.links@.take(
                                k as int,
                            ));
                            assert(source.links@.take(k + 1).last() == source.links@[k as int]);
                        }
                        if link.target == *note_id {
                            match renamed_link(model, link, new_key) {
                                Some(new_text) => {
                                    let undo_text = undo_text_of(clone_opt(&content), link.range);
                                    changes.push(
                                        Change::TextEdit(
                                            crate::mutation::TextEdit {
                                                range: link.range,
                                                new_text,
                                                undo_text,
                                            },
                                        ),
                                    );
                                },
                                None => {},
                            }
                        }
                        k = k + 1;
                    }
                    assert(source.links@.take(source.links@.len() as int) =~= source.links@);
                    if changes.len() > 0 {
                        edits.push(EditGroup { uri: source_path.clone(), changes });
                        proof {
                            got = opt_view(content);
                            let g = edits@[edits@.len() - 1]@;
                            let es = bl_next[bl_prev.len() as int].1;
                            let c = opt_view(content);
                            assert(is_text_group_from(g, bl_next[bl_prev.len() as int].0, es, c));
                            assert forall|k: int|
                                0 <= k < g.changes.len() && (#[trigger] g.changes[k] is TextEdit)
                                implies g.changes[k]->TextEdit_0.undo_text == undo_from(
                                c,
                                g.changes[k]->TextEdit_0.range,
                            ) by {
                                assert(is_text_edit(g.changes[k], es[k]));
                            }
                            assert(undo_texts_from(g, c));
                            assert(content_provider.answers(g.uri, c));
                            assert forall|j: int| 0 <= j < edits@.len() implies undo_texts_answered(#[trigger] edits@[j]@, content_provider) by {
                                if j < before.len() {
                                    assert(edits@[j] == before[j]);
                                }
                            }
                            assert(bl_next.len() == bl_prev.len() + 1);
                            assert(is_text_group_from(
                                edits@[1 + bl_prev.len() as int]@,
                                bl_next[bl_prev.len() as int].0,
                                bl_next[bl_prev.len() as int].1,
                                opt_view(content),
                            ));
                        }
                    }
                },
                None => {},
            },
            None => {},
        }
        proof {
            assert(edits@.len() == 1 + bl_next.len());
            let gb = before.map_values(|g: EditGroup| g@);
            let ga = edits@.map_values(|g: EditGroup| g@);
            let cs0 = cs;
            if bl_next.len() > bl_prev.len() {
                cs = cs.push(got);
            }
            assert forall|j: int|
                0 <= j < bl_next.len() implies #[trigger] is_text_group_from(
                ga[1 + j],
                bl_next[j].0,
                bl_next[j].1,
                cs[j],
            ) by {
                if j < bl_prev.len() {
                    assert(bl_next[j] == bl_prev[j]);
                    assert(ga[1 + j] == gb[1 + j]);
                    assert(cs[j] == cs0[j]);
                    assert(is_text_group_from(gb[1 + j], bl_prev[j].0, bl_prev[j].1, cs0[j]));
                } else {
                    assert(ga[1 + j] == edits@[1 + bl_prev.len() as int]@);
                }
            }
            assert(text_groups_from(ga, 1, bl_next, cs));
        }
        i = i + 1;
    }
    assert(sources.take(sources.len() as int) =~= sources);
    let plan = EditPlan {
        mutation_kind: MutationKind::RenameNote,
        edits,
        preconditions,
        diagnostics: Vec::new(),
        reversible: true,
    };
    proof {
        assert(plan@.preconditions =~= seq![
            PreconditionView::NoteExists(uuid_text(note_id.0)),
            PreconditionView::PathNotExists(new_path@),
        ]);
        let bl = rename_backlink_edits(
            *model,
            store.notes(),
            backlink_sources(*store, *note_id),
            *note_id,
            new_key@,
        );
        assert(plan@.edits == edits@.map_values(|g: EditGroup| g@));
        assert(text_groups_from(plan@.edits, 1, bl, cs));
        assert(has_text_groups(plan@.edits, 1, bl));
    }
    Some(plan)
}

} // verus!

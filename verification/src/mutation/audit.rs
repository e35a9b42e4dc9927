//! The health audit of a workspace: broken links, anchors that lead
//! nowhere, and links a model forbids.
use vstd::prelude::*;
use crate::model::{Link, LinkKind, ModelId, Note, NoteId, opt_view};
use crate::mutation::{Diagnostic, DiagnosticSeverity, DiagnosticView, EditPlan, MutationKind};
use crate::semantic::SemanticModel;
use crate::store::Store;
use crate::text::{
    chars_of, copy_str, push_str, seq_starts_with, slice_starts_with, slice_sub, str_eq, string_of,
};
use crate::utils::{lowercase_of, to_lowercase};

verus! {

// ---------------------------------------------------------------------------
// What the audit reports, specified
// ---------------------------------------------------------------------------

/// The target of a link is a web or mail address (in lower case).
pub open spec fn is_external_target(lower: Seq<char>) -> bool {
    ||| seq_starts_with(lower, "http://"@)
    ||| seq_starts_with(lower, "https://"@)
    ||| seq_starts_with(lower, "mailto:"@)
}

/// The anchor `anchor` names something in `target`: `^id` the block `id`
/// (block ids are stored without the `^`), any other anchor a heading text.
pub open spec fn anchor_found(target: Note, anchor: Seq<char>) -> bool {
    if anchor.len() > 0 && anchor[0] == '^' {
        exists|i: int|
            0 <= i < target.blocks@.len() && #[trigger] target.blocks@[i].id@ == anchor.skip(1)
    } else {
        exists|i: int|
            0 <= i < target.headings@.len() && #[trigger] target.headings@[i].text@ == anchor
    }
}

/// An error about the link at `link` in the note at `uri`.
pub open spec fn link_error(uri: Option<Seq<char>>, link: Link, message: Seq<char>) -> DiagnosticView {
    DiagnosticView {
        severity: DiagnosticSeverity::Error,
        message,
        uri,
        range: Some(link.range),
    }
}

pub open spec fn broken_link_message() -> Seq<char> {
    "Broken link: Target note not found."@
}

pub open spec fn invalid_anchor_message(anchor: Seq<char>) -> Seq<char> {
    "Invalid anchor: '"@ + anchor + "' not found in target note."@
}

pub open spec fn bare_anchor_message(raw: Seq<char>) -> Seq<char> {
    "Dendron strictly forbids bare anchor links like '"@ + raw + "'. Use '[[note#anchor]]'."@
}

/// The findings about `link`, written in the note at `uri`: a link of an
/// audited kind to a note that is not stored is broken; one to a stored note
/// with an anchor that names nothing there has an invalid anchor; and a
/// Dendron link whose target begins with `#` is a forbidden bare anchor.
/// Links to web and mail addresses are not audited.
pub open spec fn link_diagnostics<M: SemanticModel>(
    model: M,
    notes: Map<u128, Note>,
    uri: Option<Seq<char>>,
    link: Link,
) -> Seq<DiagnosticView> {
    if !model.audited_kinds().contains(link.kind) {
        Seq::empty()
    } else if is_external_target(lowercase_of(link.raw_target@)) {
        Seq::empty()
    } else {
        let broken = !notes.contains_key(link.target.0);
        let d1 = if broken {
            seq![link_error(uri, link, broken_link_message())]
        } else {
            Seq::empty()
        };
        let d2 = if !broken && link.anchor is Some && !anchor_found(
            notes[link.target.0],
            link.anchor->0@,
        ) {
            seq![link_error(uri, link, invalid_anchor_message(link.anchor->0@))]
        } else {
            Seq::empty()
        };
        let d3 = if model.model_id().0@ == "Dendron"@ && link.raw_target@.len() > 0
            && link.raw_target@[0] == '#' {
            seq![link_error(uri, link, bare_anchor_message(link.raw_target@))]
        } else {
            Seq::empty()
        };
        d1 + d2 + d3
    }
}

proof fn lemma_invalid_anchor_not_bare(uri: Option<Seq<char>>, link: Link, a: Seq<char>, raw: Seq<char>)
    ensures
        link_error(uri, link, invalid_anchor_message(a)) != link_error(uri, link, bare_anchor_message(raw)),
{
    reveal_strlit("Invalid anchor: '");
    reveal_strlit("Dendron strictly forbids bare anchor links like '");
    assert(invalid_anchor_message(a)[0] == 'I');
    assert(bare_anchor_message(raw)[0] == 'D');
}

/// A link of an audited kind, to a stored note, whose anchor `a` does not
/// begin with `^`, gets an invalid-anchor finding exactly when no heading of
/// that note has the text `a` (the whole of it).
pub proof fn lemma_heading_anchor_reported<M: SemanticModel>(
    model: M,
    notes: Map<u128, Note>,
    uri: Option<Seq<char>>,
    link: Link,
    a: Seq<char>,
)
    requires
        model.audited_kinds().contains(link.kind),
        !is_external_target(lowercase_of(link.raw_target@)),
        notes.contains_key(link.target.0),
        link.anchor matches Some(x) && x@ == a,
        !(a.len() > 0 && a[0] == '^'),
    ensures
        link_diagnostics(model, notes, uri, link).contains(
            link_error(uri, link, invalid_anchor_message(a)),
        ) <==> forall|i: int|
            0 <= i < notes[link.target.0].headings@.len()
                ==> #[trigger] notes[link.target.0].headings@[i].text@ != a,
{
    let d = link_diagnostics(model, notes, uri, link);
    let e = link_error(uri, link, invalid_anchor_message(a));
    if forall|i: int|
        0 <= i < notes[link.target.0].headings@.len()
            ==> #[trigger] notes[link.target.0].headings@[i].text@ != a {
        assert(!anchor_found(notes[link.target.0], a));
        assert(d[0] == e);
    } else {
        assert(anchor_found(notes[link.target.0], a));
        lemma_invalid_anchor_not_bare(uri, link, a, link.raw_target@);
        if d.contains(e) {
            let k = choose|k: int| 0 <= k < d.len() && d[k] == e;
            assert(d[k] == link_error(uri, link, bare_anchor_message(link.raw_target@)));
        }
    }
}

/// A link of an audited kind, to a stored note, whose anchor is `^` then
/// `id`, gets an invalid-anchor finding exactly when no block of that note
/// has the id `id`.
pub proof fn lemma_block_anchor_reported<M: SemanticModel>(
    model: M,
    notes: Map<u128, Note>,
    uri: Option<Seq<char>>,
    link: Link,
    id: Seq<char>,
)
    requires
        model.audited_kinds().contains(link.kind),
        !is_external_target(lowercase_of(link.raw_target@)),
        notes.contains_key(link.target.0),
        link.anchor matches Some(x) && x@ == seq!['^'] + id,
    ensures
        link_diagnostics(model, notes, uri, link).contains(
            link_error(uri, link, invalid_anchor_message(seq!['^'] + id)),
        ) <==> forall|i: int|
            0 <= i < notes[link.target.0].blocks@.len()
                ==> #[trigger] notes[link.target.0].blocks@[i].id@ != id,
{
    let a = seq!['^'] + id;
    let d = link_diagnostics(model, notes, uri, link);
    let e = link_error(uri, link, invalid_anchor_message(a));
    assert(a.skip(1) =~= id);
    if forall|i: int|
        0 <= i < notes[link.target.0].blocks@.len()
            ==> #[trigger] notes[link.target.0].blocks@[i].id@ != id {
        assert(!anchor_found(notes[link.target.0], a));
        assert(d[0] == e);
    } else {
        assert(anchor_found(notes[link.target.0], a));
        lemma_invalid_anchor_not_bare(uri, link, a, link.raw_target@);
        if d.contains(e) {
            let k = choose|k: int| 0 <= k < d.len() && d[k] == e;
            assert(d[k] == link_error(uri, link, bare_anchor_message(link.raw_target@)));
        }
    }
}

/// A link of an audited kind whose target is not a web or mail address gets
/// the broken-link finding exactly when its target note is not stored.
pub proof fn lemma_broken_link_reported<M: SemanticModel>(
    model: M,
    notes: Map<u128, Note>,
    uri: Option<Seq<char>>,
    link: Link,
)
    requires
        model.audited_kinds().contains(link.kind),
        !is_external_target(lowercase_of(link.raw_target@)),
    ensures
        link_diagnostics(model, notes, uri, link).contains(
            link_error(uri, link, broken_link_message()),
        ) <==> !notes.contains_key(link.target.0),
{
    let d = link_diagnostics(model, notes, uri, link);
    let e = link_error(uri, link, broken_link_message());
    reveal_strlit("Broken link: Target note not found.");
    reveal_strlit("Dendron strictly forbids bare anchor links like '");
    reveal_strlit("Invalid anchor: '");
    if !notes.contains_key(link.target.0) {
        assert(d[0] == e);
    } else if d.contains(e) {
        let k = choose|k: int| 0 <= k < d.len() && d[k] == e;
        assert(broken_link_message()[0] == 'B');
        if link.anchor is Some {
            assert(invalid_anchor_message(link.anchor->0@)[0] == 'I');
        }
        assert(bare_anchor_message(link.raw_target@)[0] == 'D');
        assert(d[k].message[0] != 'B');
    }
}

/// Links to web and mail addresses, and links of kinds the model does not
/// audit, get no finding.
pub proof fn lemma_unaudited_links_pass<M: SemanticModel>(
    model: M,
    notes: Map<u128, Note>,
    uri: Option<Seq<char>>,
    link: Link,
)
    requires
        !model.audited_kinds().contains(link.kind) || is_external_target(
            lowercase_of(link.raw_target@),
        ),
    ensures
        link_diagnostics(model, notes, uri, link).len() == 0,
{
}

/// The findings about the first `n` links of `note`.
pub open spec fn note_diagnostics<M: SemanticModel>(
    model: M,
    notes: Map<u128, Note>,
    note: Note,
    n: int,
) -> Seq<DiagnosticView>
    decreases n,
{
    if n <= 0 || n > note.links@.len() {
        Seq::empty()
    } else {
        note_diagnostics(model, notes, note, n - 1) + link_diagnostics(
            model,
            notes,
            opt_view(note.path),
            note.links@[n - 1],
        )
    }
}

/// The findings about the notes `ids`, in order.
pub open spec fn notes_diagnostics<M: SemanticModel>(
    model: M,
    notes: Map<u128, Note>,
    ids: Seq<NoteId>,
) -> Seq<DiagnosticView>
    decreases ids.len(),
{
    if ids.len() == 0 {
        Seq::empty()
    } else {
        let note = notes[ids.last().0];
        notes_diagnostics(model, notes, ids.drop_last()) + note_diagnostics(
            model,
            notes,
            note,
            note.links@.len() as int,
        )
    }
}

// ---------------------------------------------------------------------------
// The audit
// ---------------------------------------------------------------------------

/// Whether `anchor` names something in `target`.
fn find_anchor(target: &Note, anchor: &str) -> (r: bool)
    ensures
        r == anchor_found(*target, anchor@),
{
    let a = chars_of(anchor);
    if a.len() > 0 && a[0] == '^' {
        let id = string_of(slice_sub(a.as_slice(), 1, a.len()).as_slice());
        assert(id@ =~= anchor@.skip(1));
        let mut i: usize = 0;
        while i < target.blocks.len()
            invariant
                a@ == anchor@,
                a@.len() > 0 && a@[0] == '^',
                id@ == anchor@.skip(1),
                i <= target.blocks@.len(),
                forall|j: int| 0 <= j < i ==> target.blocks@[j].id@ != anchor@.skip(1),
            decreases target.blocks@.len() - i,
        {
            if str_eq(target.blocks[i].id.as_str(), id.as_str()) {
                assert(target.blocks@[i as int].id@ == anchor@.skip(1));
                return true;
            }
            i = i + 1;
        }
        false
    } else {
        let mut i: usize = 0;
        while i < target.headings.len()
            invariant
                a@ == anchor@,
                !(a@.len() > 0 && a@[0] == '^'),
                i <= target.headings@.len(),
                forall|j: int| 0 <= j < i ==> target.headings@[j].text@ != anchor@,
            decreases target.headings@.len() - i,
        {
            if str_eq(target.headings[i].text.as_str(), anchor) {
                assert(target.headings@[i as int].text@ == anchor@);
                return true;
            }
            i = i + 1;
        }
        false
    }
}

/// Whether `kinds` holds `k`.
fn kinds_contain(kinds: &Vec<LinkKind>, k: LinkKind) -> (r: bool)
    ensures
        r == kinds@.contains(k),
{
    let mut i: usize = 0;
    while i < kinds.len()
        invariant
            i <= kinds@.len(),
            forall|j: int| 0 <= j < i ==> kinds@[j] != k,
        decreases kinds@.len() - i,
    {
        if kinds[i] == k {
            return true;
        }
        i = i + 1;
    }
    false
}

/// An error about `link` in the note at `uri`.
fn error_at(uri: &Option<String>, link: &Link, message: String) -> (d: Diagnostic)
    ensures
        d@ == link_error(opt_view(*uri), *link, message@),
{
    Diagnostic {
        severity: DiagnosticSeverity::Error,
        message,
        uri: crate::model::clone_opt(uri),
        range: Some(link.range),
    }
}

/// Whether `s` begins with the text `p`.
fn begins_with(s: &str, p: &str) -> (r: bool)
    ensures
        r == seq_starts_with(s@, p@),
{
    let a = chars_of(s);
    let b = chars_of(p);
    slice_starts_with(a.as_slice(), b.as_slice())
}

/// The findings about `link`, written in the note at `uri`.
fn audit_link<M: SemanticModel>(
    model: &M,
    store: &Store,
    kinds: &Vec<LinkKind>,
    is_dendron: bool,
    uri: &Option<String>,
    link: &Link,
    out: &mut Vec<Diagnostic>,
)
    requires
        model.inv(),
        kinds@ == model.audited_kinds(),
        is_dendron == (model.model_id().0@ == "Dendron"@),
    ensures
        final(out)@.map_values(|d: Diagnostic| d@) == old(out)@.map_values(|d: Diagnostic| d@)
            + link_diagnostics(*model, store.notes(), opt_view(*uri), *link),
{
    let ghost start = out@.map_values(|d: Diagnostic| d@);
    let ghost expected = link_diagnostics(*model, store.notes(), opt_view(*uri), *link);
    if !kinds_contain(kinds, link.kind) {
        assert(out@.map_values(|d: Diagnostic| d@) =~= start + expected);
        return ;
    }
    let lower = to_lowercase(link.raw_target.as_str());
    if begins_with(lower.as_str(), "http://") || begins_with(lower.as_str(), "https://")
        || begins_with(lower.as_str(), "mailto:") {
        assert(out@.map_values(|d: Diagnostic| d@) =~= start + expected);
        return ;
    }
    let ghost notes = store.notes();
    let target = store.get_note(&link.target);
    let broken = target.is_none();
    if broken {
        out.push(error_at(uri, link, copy_str("Broken link: Target note not found.")));
    }
    let ghost after1 = out@.map_values(|d: Diagnostic| d@);
    if !broken {
        match (target, &link.anchor) {
            (Some(t), Some(anchor)) => {
                if !find_anchor(t, anchor.as_str()) {
                    let mut message = copy_str("Invalid anchor: '");
                    push_str(&mut message, anchor.as_str());
                    push_str(&mut message, "' not found in target note.");
                    out.push(error_at(uri, link, message));
                }
            },
            _ => {},
        }
    }
    let ghost after2 = out@.map_values(|d: Diagnostic| d@);
    let raw = chars_of(link.raw_target.as_str());
    if is_dendron && raw.len() > 0 && raw[0] == '#' {
        let mut message = copy_str("Dendron strictly forbids bare anchor links like '");
        push_str(&mut message, link.raw_target.as_str());
        push_str(&mut message, "'. Use '[[note#anchor]]'.");
        out.push(error_at(uri, link, message));
    }
    proof {
        let broken_s = !notes.contains_key(link.target.0);
        let d1 = if broken_s {
            seq![link_error(opt_view(*uri), *link, broken_link_message())]
        } else {
            Seq::empty()
        };
        let d2 = if !broken_s && link.anchor is Some && !anchor_found(
            notes[link.target.0],
            link.anchor->0@,
        ) {
            seq![link_error(opt_view(*uri), *link, invalid_anchor_message(link.anchor->0@))]
        } else {
            Seq::empty()
        };
        assert(after1 =~= start + d1);
        assert(after2 =~= start + d1 + d2);
        assert(out@.map_values(|d: Diagnostic| d@) =~= start + expected);
    }
}

/// The audit of the workspace: for each stored note, in no particular
/// order, the findings about its links (see `link_diagnostics`).  The plan
/// has no edits and cannot be reversed.
pub fn calculate_audit_diagnostics<M: SemanticModel>(store: &Store, model: &M) -> (r: EditPlan)
    requires
        model.inv(),
        store.wf(),
    ensures
        r.mutation_kind == MutationKind::WorkspaceAudit,
        r@.edits.len() == 0,
        r@.preconditions.len() == 0,
        !r.reversible,
        exists|ids: Seq<NoteId>|
            #![trigger notes_diagnostics(*model, store.notes(), ids)]
            {
                &&& ids.no_duplicates()
                &&& forall|id: NoteId| ids.contains(id) <==> store.notes().contains_key(id.0)
                &&& r@.diagnostics == notes_diagnostics(*model, store.notes(), ids)
            },
{
    let kinds = model.audited_link_kinds();
    let id = model.id();
    let is_dendron = str_eq(id.0, "Dendron");
    let ids = store.all_note_ids();
    let mut diagnostics: Vec<Diagnostic> = Vec::new();
    let mut i: usize = 0;
    while i < ids.len()
        invariant
            model.inv(),
            store.wf(),
            kinds@ == model.audited_kinds(),
            is_dendron == (model.model_id().0@ == "Dendron"@),
            i <= ids@.len(),
            forall|id: NoteId| ids@.contains(id) <==> store.notes().contains_key(id.0),
            diagnostics@.map_values(|d: Diagnostic| d@) == notes_diagnostics(
                *model,
                store.notes(),
                ids@.take(i as int),
            ),
        decreases ids@.len() - i,
    {
        assert(ids@.contains(ids@[i as int]));
        let note = store.get_note(&ids[i]).unwrap();
        let ghost before = diagnostics@.map_values(|d: Diagnostic| d@);
        let mut j: usize = 0;
        while j < note.links.len()
            invariant
                model.inv(),
                kinds@ == model.audited_kinds(),
                is_dendron == (model.model_id().0@ == "Dendron"@),
                j <= note.links@.len(),
                diagnostics@.map_values(|d: Diagnostic| d@) == before + note_diagnostics(
                    *model,
                    store.notes(),
                    *note,
                    j as int,
                ),
            decreases note.links@.len() - j,
        {
            audit_link(model, store, &kinds, is_dendron, &note.path, &note.links[j], &mut diagnostics);
            proof {
                assert(before + note_diagnostics(*model, store.notes(), *note, j + 1) =~= before
                    + note_diagnostics(*model, store.notes(), *note, j as int) + link_diagnostics(
                    *model,
                    store.notes(),
                    opt_view(note.path),
                    note.links@[j as int],
                ));
            }
            j = j + 1;
        }
        proof {
            let t = ids@.take(i + 1);
            assert(t.drop_last() =~= ids@.take(i as int));
            assert(t.last() == ids@[i as int]);
        }
        i = i + 1;
    }
    assert(ids@.take(ids@.len() as int) =~= ids@);
    EditPlan {
        mutation_kind: MutationKind::WorkspaceAudit,
        edits: Vec::new(),
        preconditions: Vec::new(),
        diagnostics,
        reversible: false,
    }
}

} // verus!

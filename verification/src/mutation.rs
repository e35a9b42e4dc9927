//! Edit plans: what a mutation of the workspace asks the client to apply,
//! and how a plan is inverted to undo it.
pub mod structural;
pub mod split;
pub mod hierarchy;
pub mod audit;
pub mod rename;
use vstd::prelude::*;
use crate::model::{clone_opt, opt_view, Point, TextRange};
use crate::text::{chars_of, copy_str};

verus! {

/// Supplies the current content of a file, when it can.
pub trait ContentProvider {
    /// `content` is an answer the provider may give when asked for `uri`
    /// (a provider may answer differently at different times).
    closed spec fn answers(&self, uri: Seq<char>, content: Option<Seq<char>>) -> bool {
        true
    }

    fn get_content(&self, uri: &str) -> (r: Option<String>)
        ensures
            self.answers(uri@, opt_view(r)),
    ;
}

/// What a plan does.
#[derive(Debug, Clone, Copy, PartialEq, Eq, Structural)]
pub enum MutationKind {
    RenameNote,
    MoveNote,
    SplitNote,
    WorkspaceAudit,
    HierarchyRefactor,
    CreateNote,
    DeleteNote,
}

/// Replace the text in `range` by `new_text`; `undo_text` is the text replaced.
#[derive(Debug, Clone, PartialEq, Eq)]
pub struct TextEdit {
    pub range: TextRange,
    pub new_text: String,
    pub undo_text: Option<String>,
}

/// An operation on a whole file.
#[derive(Debug, Clone, PartialEq, Eq)]
pub enum ResourceOperation {
    CreateFile { content: Option<String> },
    DeleteFile { ignore_if_not_exists: bool },
    RenameFile { new_uri: String, overwrite: bool },
}

/// One change of a file.
#[derive(Debug, Clone, PartialEq, Eq)]
pub enum Change {
    TextEdit(TextEdit),
    ResourceOp(ResourceOperation),
}

/// The changes of one file.
#[derive(Debug, Clone, PartialEq, Eq)]
pub struct EditGroup {
    pub uri: String,
    pub changes: Vec<Change>,
}

/// A condition the workspace must meet for a plan to apply.
#[derive(Debug, Clone, PartialEq, Eq)]
pub enum Precondition {
    NoteExists(String),
    PathNotExists(String),
    /// path, checksum
    ContentUnchanged(String, String),
}

#[derive(Debug, Clone, Copy, PartialEq, Eq, Structural)]
pub enum DiagnosticSeverity {
    Info,
    Warning,
    Error,
}

/// A finding about the workspace.
#[derive(Debug, Clone, PartialEq, Eq)]
pub struct Diagnostic {
    pub severity: DiagnosticSeverity,
    pub message: String,
    pub uri: Option<String>,
    pub range: Option<TextRange>,
}

/// The edits a mutation asks for, with their preconditions and findings.
#[derive(Debug, Clone, PartialEq, Eq)]
pub struct EditPlan {
    pub mutation_kind: MutationKind,
    pub edits: Vec<EditGroup>,
    pub preconditions: Vec<Precondition>,
    pub diagnostics: Vec<Diagnostic>,
    pub reversible: bool,
}

// ---------------------------------------------------------------------------
// Views
// ---------------------------------------------------------------------------

pub struct TextEditView {
    pub range: TextRange,
    pub new_text: Seq<char>,
    pub undo_text: Option<Seq<char>>,
}

pub enum ResourceOperationView {
    CreateFile { content: Option<Seq<char>> },
    DeleteFile { ignore_if_not_exists: bool },
    RenameFile { new_uri: Seq<char>, overwrite: bool },
}

pub enum ChangeView {
    TextEdit(TextEditView),
    ResourceOp(ResourceOperationView),
}

pub struct EditGroupView {
    pub uri: Seq<char>,
    pub changes: Seq<ChangeView>,
}

pub enum PreconditionView {
    NoteExists(Seq<char>),
    PathNotExists(Seq<char>),
    ContentUnchanged(Seq<char>, Seq<char>),
}

pub struct DiagnosticView {
    pub severity: DiagnosticSeverity,
    pub message: Seq<char>,
    pub uri: Option<Seq<char>>,
    pub range: Option<TextRange>,
}

pub struct EditPlanView {
    pub mutation_kind: MutationKind,
    pub edits: Seq<EditGroupView>,
    pub preconditions: Seq<PreconditionView>,
    pub diagnostics: Seq<DiagnosticView>,
    pub reversible: bool,
}

impl View for TextEdit {
    type V = TextEditView;

    open spec fn view(&self) -> TextEditView {
        TextEditView { range: self.range, new_text: self.new_text@, undo_text: opt_view(self.undo_text) }
    }
}

impl View for ResourceOperation {
    type V = ResourceOperationView;

    open spec fn view(&self) -> ResourceOperationView {
        match self {
            ResourceOperation::CreateFile { content } => ResourceOperationView::CreateFile {
                content: opt_view(*content),
            },
            ResourceOperation::DeleteFile { ignore_if_not_exists } =>
                ResourceOperationView::DeleteFile { ignore_if_not_exists: *ignore_if_not_exists },
            ResourceOperation::RenameFile { new_uri, overwrite } =>
                ResourceOperationView::RenameFile { new_uri: new_uri@, overwrite: *overwrite },
        }
    }
}

impl View for Change {
    type V = ChangeView;

    open spec fn view(&self) -> ChangeView {
        match self {
            Change::TextEdit(t) => ChangeView::TextEdit(t@),
            Change::ResourceOp(r) => ChangeView::ResourceOp(r@),
        }
    }
}

impl View for EditGroup {
    type V = EditGroupView;

    open spec fn view(&self) -> EditGroupView {
        EditGroupView { uri: self.uri@, changes: self.changes@.map_values(|c: Change| c@) }
    }
}

impl View for Precondition {
    type V = PreconditionView;

    open spec fn view(&self) -> PreconditionView {
        match self {
            Precondition::NoteExists(s) => PreconditionView::NoteExists(s@),
            Precondition::PathNotExists(s) => PreconditionView::PathNotExists(s@),
            Precondition::ContentUnchanged(a, b) => PreconditionView::ContentUnchanged(a@, b@),
        }
    }
}

impl View for Diagnostic {
    type V = DiagnosticView;

    open spec fn view(&self) -> DiagnosticView {
        DiagnosticView {
            severity: self.severity,
            message: self.message@,
            uri: opt_view(self.uri),
            range: self.range,
        }
    }
}

impl View for EditPlan {
    type V = EditPlanView;

    open spec fn view(&self) -> EditPlanView {
        EditPlanView {
            mutation_kind: self.mutation_kind,
            edits: self.edits@.map_values(|g: EditGroup| g@),
            preconditions: self.preconditions@.map_values(|p: Precondition| p@),
            diagnostics: self.diagnostics@.map_values(|d: Diagnostic| d@),
            reversible: self.reversible,
        }
    }
}

// ---------------------------------------------------------------------------
// Inversion, specified
// ---------------------------------------------------------------------------

/// The point reached from `p` after writing `t`: a newline moves to column 0
/// of the next line, any other character one column right.  `None` when a
/// coordinate leaves the `u32` range on the way.
pub open spec fn advance_point(p: Point, t: Seq<char>) -> Option<Point>
    decreases t.len(),
{
    if t.len() == 0 {
        Some(p)
    } else {
        match advance_point(p, t.drop_last()) {
            None => None,
            Some(q) => if t.last() == '\n' {
                if q.line < u32::MAX {
                    Some(Point { line: (q.line + 1) as u32, col: 0 })
                } else {
                    None
                }
            } else {
                if q.col < u32::MAX {
                    Some(Point { line: q.line, col: (q.col + 1) as u32 })
                } else {
                    None
                }
            },
        }
    }
}

/// A text edit can be inverted: it records the text it replaces, and the
/// end of its new text is a valid point.
pub open spec fn text_edit_invertible(e: TextEditView) -> bool {
    e.undo_text is Some && advance_point(e.range.start, e.new_text) is Some
}

/// The edit that undoes `e`: it replaces the new text, which starts where `e`
/// starts, by the text `e` replaced.
pub open spec fn inverted_text_edit(e: TextEditView) -> TextEditView {
    TextEditView {
        range: TextRange { start: e.range.start, end: advance_point(e.range.start, e.new_text)->0 },
        new_text: e.undo_text->0,
        undo_text: Some(e.new_text),
    }
}

/// The operation that undoes `op`, applied to the file `uri`, given the content
/// that file had (for re-creating a deleted file).
pub open spec fn inverted_resource_op(
    op: ResourceOperationView,
    uri: Seq<char>,
    content: Option<Seq<char>>,
) -> ResourceOperationView {
    match op {
        ResourceOperationView::RenameFile { .. } => ResourceOperationView::RenameFile {
            new_uri: uri,
            overwrite: false,
        },
        ResourceOperationView::CreateFile { .. } => ResourceOperationView::DeleteFile {
            ignore_if_not_exists: true,
        },
        ResourceOperationView::DeleteFile { .. } => ResourceOperationView::CreateFile { content },
    }
}

/// `r` undoes `op` on `uri` for some content of the file, which is `None`
/// when no content could be asked for.
pub open spec fn resource_op_inverse_of(
    op: ResourceOperationView,
    uri: Seq<char>,
    r: ResourceOperationView,
    may_fetch: bool,
) -> bool {
    exists|c: Option<Seq<char>>|
        (may_fetch || c is None) && r == inverted_resource_op(op, uri, c)
}

/// When `op` deletes the file `uri` and there is a provider `p`, the
/// re-creating `r` carries one content that `p` may give for `uri`.
pub open spec fn fetch_answered(
    op: ResourceOperationView,
    uri: Seq<char>,
    r: ResourceOperationView,
    p: Option<&dyn ContentProvider>,
) -> bool {
    op is DeleteFile ==> (p matches Some(cp) ==> exists|c: Option<Seq<char>>|
        #[trigger] cp.answers(uri, c) && r == inverted_resource_op(op, uri, c))
}

/// Each deleted file of the change `c` of `uri`, undone by `r`, is re-created
/// with content the provider `p` may give for it (see `fetch_answered`).
pub open spec fn change_fetch_answered(
    c: ChangeView,
    uri: Seq<char>,
    r: ChangeView,
    p: Option<&dyn ContentProvider>,
) -> bool {
    match (c, r) {
        (ChangeView::ResourceOp(op), ChangeView::ResourceOp(rop)) => fetch_answered(op, uri, rop, p),
        _ => true,
    }
}

/// Each deleted file of the group `g`, undone by `r`, is re-created with
/// content the provider `p` may give for it.
pub open spec fn group_fetch_answered(
    g: EditGroupView,
    r: EditGroupView,
    p: Option<&dyn ContentProvider>,
) -> bool {
    forall|i: int|
        0 <= i < g.changes.len() ==> change_fetch_answered(
            #[trigger] g.changes[i],
            g.uri,
            r.changes[i],
            p,
        )
}

/// Each deleted file of the plan `pl`, undone by `r`, is re-created with
/// content the provider `p` may give for it.
pub open spec fn plan_fetch_answered(
    pl: EditPlanView,
    r: EditPlanView,
    p: Option<&dyn ContentProvider>,
) -> bool {
    forall|i: int| 0 <= i < pl.edits.len() ==> group_fetch_answered(#[trigger] pl.edits[i], r.edits[i], p)
}

pub open spec fn change_invertible(c: ChangeView) -> bool {
    match c {
        ChangeView::TextEdit(t) => text_edit_invertible(t),
        ChangeView::ResourceOp(_) => true,
    }
}

/// `r` undoes the change `c` of file `uri`.
pub open spec fn change_inverse_of(
    c: ChangeView,
    uri: Seq<char>,
    r: ChangeView,
    may_fetch: bool,
) -> bool {
    match c {
        ChangeView::TextEdit(t) => r == ChangeView::TextEdit(inverted_text_edit(t)),
        ChangeView::ResourceOp(op) => match r {
            ChangeView::ResourceOp(rop) => resource_op_inverse_of(op, uri, rop, may_fetch),
            _ => false,
        },
    }
}

/// The file a group acts on once applied: the target of its last rename,
/// else its own file.
pub open spec fn group_final_uri(uri: Seq<char>, changes: Seq<ChangeView>) -> Seq<char>
    decreases changes.len(),
{
    if changes.len() == 0 {
        uri
    } else {
        match changes.last() {
            ChangeView::ResourceOp(ResourceOperationView::RenameFile { new_uri, .. }) => new_uri,
            _ => group_final_uri(uri, changes.drop_last()),
        }
    }
}

pub open spec fn group_invertible(g: EditGroupView) -> bool {
    forall|i: int| 0 <= i < g.changes.len() ==> change_invertible(#[trigger] g.changes[i])
}

/// `r` undoes the group `g`: it acts on the file `g` leaves behind, and undoes
/// each change of `g`, in the same order.
pub open spec fn group_inverse_of(g: EditGroupView, r: EditGroupView, may_fetch: bool) -> bool {
    &&& r.uri == group_final_uri(g.uri, g.changes)
    &&& r.changes.len() == g.changes.len()
    &&& forall|i: int|
        0 <= i < g.changes.len() ==> change_inverse_of(
            #[trigger] g.changes[i],
            g.uri,
            r.changes[i],
            may_fetch,
        )
}

pub open spec fn plan_invertible(p: EditPlanView) -> bool {
    forall|i: int| 0 <= i < p.edits.len() ==> group_invertible(#[trigger] p.edits[i])
}

/// `r` undoes the plan `p`: same kind, findings and reversibility, no
/// preconditions, and each group undone in place.
pub open spec fn plan_inverse_of(p: EditPlanView, r: EditPlanView, may_fetch: bool) -> bool {
    &&& r.mutation_kind == p.mutation_kind
    &&& r.preconditions.len() == 0
    &&& r.diagnostics == p.diagnostics
    &&& r.reversible == p.reversible
    &&& r.edits.len() == p.edits.len()
    &&& forall|i: int|
        0 <= i < p.edits.len() ==> group_inverse_of(#[trigger] p.edits[i], r.edits[i], may_fetch)
}

// ---------------------------------------------------------------------------
// Inversion, implemented
// ---------------------------------------------------------------------------

/// Asks the provider, if there is one, for the content of `uri`.
fn fetch_content(content_provider: Option<&dyn ContentProvider>, uri: &str) -> (r: Option<String>)
    ensures
        content_provider is None ==> r is None,
        content_provider matches Some(cp) ==> cp.answers(uri@, opt_view(r)),
{
    match content_provider {
        Some(cp) => cp.get_content(uri),
        None => None,
    }
}

impl TextEdit {
    /// The edit that undoes this one.
    pub fn invert(self) -> (r: Self)
        requires
            text_edit_invertible(self@),
        ensures
            r@ == inverted_text_edit(self@),
    {
        let old_text = match self.undo_text {
            Some(t) => t,
            None => {
                assert(false);
                String::new()
            },
        };
        let new_text = self.new_text;
        let chars = chars_of(new_text.as_str());
        let mut end = self.range.start;
        let mut i: usize = 0;
        while i < chars.len()
            invariant
                i <= chars@.len(),
                chars@ == new_text@,
                advance_point(self.range.start, new_text@) is Some,
                advance_point(self.range.start, chars@.take(i as int)) == Some(end),
            decreases chars@.len() - i,
        {
            proof {
                lemma_advance_prefix_some(self.range.start, chars@, i as int + 1);
                assert(chars@.take(i as int + 1).drop_last() =~= chars@.take(i as int));
            }
            if chars[i] == '\n' {
                end.line = end.line + 1;
                end.col = 0;
            } else {
                end.col = end.col + 1;
            }
            i = i + 1;
        }
        assert(chars@.take(chars@.len() as int) =~= chars@);
        TextEdit {
            range: TextRange { start: self.range.start, end },
            new_text: old_text,
            undo_text: Some(new_text),
        }
    }
}

/// If writing `t` from `p` stays in range, so does writing any prefix of `t`.
pub proof fn lemma_advance_prefix_some(p: Point, t: Seq<char>, k: int)
    requires
        0 <= k <= t.len(),
        advance_point(p, t) is Some,
    ensures
        advance_point(p, t.take(k)) is Some,
    decreases t.len() - k,
{
    if k < t.len() {
        assert(t.drop_last().len() == t.len() - 1);
        lemma_advance_prefix_some(p, t.drop_last(), k);
        assert(t.drop_last().take(k) =~= t.take(k));
    } else {
        assert(t.take(k) =~= t);
    }
}

impl ResourceOperation {
    /// The operation that undoes this one on the file `original_uri`, given the
    /// content that file had before the operation.
    pub fn invert_with_content(self, original_uri: &str, content: Option<String>) -> (r: Self)
        ensures
            r@ == inverted_resource_op(self@, original_uri@, opt_view(content)),
    {
        match self {
            ResourceOperation::RenameFile { .. } => ResourceOperation::RenameFile {
                new_uri: copy_str(original_uri),
                overwrite: false,
            },
            ResourceOperation::CreateFile { .. } => ResourceOperation::DeleteFile {
                ignore_if_not_exists: true,
            },
            ResourceOperation::DeleteFile { .. } => ResourceOperation::CreateFile { content },
        }
    }

    /// The operation that undoes this one on the file `original_uri`; a deleted
    /// file is re-created with the content the provider gives for it.
    pub fn invert(
        self,
        original_uri: &str,
        content_provider: Option<&dyn ContentProvider>,
    ) -> (r: Self)
        ensures
            resource_op_inverse_of(self@, original_uri@, r@, content_provider is Some),
            fetch_answered(self@, original_uri@, r@, content_provider),
    {
        let content = match self {
            ResourceOperation::DeleteFile { .. } => fetch_content(content_provider, original_uri),
            _ => None,
        };
        let r = self.invert_with_content(original_uri, content);
        assert((content_provider is Some || opt_view(content) is None) && r@ == inverted_resource_op(
            self@,
            original_uri@,
            opt_view(content),
        ));
        r
    }
}

impl Change {
    /// The change that undoes this one on the file `original_uri`.
    pub fn invert(
        self,
        original_uri: &str,
        content_provider: Option<&dyn ContentProvider>,
    ) -> (r: Self)
        requires
            change_invertible(self@),
        ensures
            change_inverse_of(self@, original_uri@, r@, content_provider is Some),
            change_fetch_answered(self@, original_uri@, r@, content_provider),
    {
        match self {
            Change::TextEdit(t) => Change::TextEdit(t.invert()),
            Change::ResourceOp(r) => Change::ResourceOp(r.invert(original_uri, content_provider)),
        }
    }

    /// The text edit, if this change is one.
    pub fn text_edit(self) -> (r: Option<TextEdit>)
        ensures
            match self {
                Change::TextEdit(t) => r == Some(t),
                _ => r is None,
            },
    {
        match self {
            Change::TextEdit(t) => Some(t),
            _ => None,
        }
    }

    /// The resource operation, if this change is one.
    pub fn resource_op(self) -> (r: Option<ResourceOperation>)
        ensures
            match self {
                Change::ResourceOp(op) => r == Some(op),
                _ => r is None,
            },
    {
        match self {
            Change::ResourceOp(r) => Some(r),
            _ => None,
        }
    }
}

impl EditGroup {
    /// The group that undoes this one; a deleted file is re-created with the
    /// content the provider gives for its path.
    pub fn invert(self, content_provider: Option<&dyn ContentProvider>) -> (r: Self)
        requires
            group_invertible(self@),
        ensures
            group_inverse_of(self@, r@, content_provider is Some),
            group_fetch_answered(self@, r@, content_provider),
    {
        let ghost g = self@;
        let mut target_uri = self.uri.clone();
        let mut k: usize = 0;
        while k < self.changes.len()
            invariant
                k <= self.changes@.len(),
                g == self@,
                target_uri@ == group_final_uri(self.uri@, g.changes.take(k as int)),
            decreases self.changes@.len() - k,
        {
            proof {
                assert(g.changes.take(k as int + 1).drop_last() =~= g.changes.take(k as int));
                assert(g.changes.take(k as int + 1).last() == self.changes@[k as int]@);
            }
            match &self.changes[k] {
                Change::ResourceOp(ResourceOperation::RenameFile { new_uri, .. }) => {
                    target_uri = new_uri.clone();
                },
                _ => {},
            }
            k = k + 1;
        }
        assert(g.changes.take(self.changes@.len() as int) =~= g.changes);
        let uri = self.uri;
        let changes = self.changes;
        let mut out: Vec<Change> = Vec::new();
        let mut i: usize = 0;
        while i < changes.len()
            invariant
                i <= changes@.len(),
                g.uri == uri@,
                g.changes == changes@.map_values(|c: Change| c@),
                group_invertible(g),
                out@.len() == i,
                forall|j: int|
                    0 <= j < i ==> change_inverse_of(
                        #[trigger] g.changes[j],
                        uri@,
                        out@[j]@,
                        content_provider is Some,
                    ),
                forall|j: int|
                    0 <= j < i ==> change_fetch_answered(
                        #[trigger] g.changes[j],
                        uri@,
                        out@[j]@,
                        content_provider,
                    ),
            decreases changes@.len() - i,
        {
            let c = changes[i].clone_change();
            assert(g.changes[i as int] == changes@[i as int]@);
            let r = c.invert(uri.as_str(), content_provider);
            out.push(r);
            i = i + 1;
        }
        let r = EditGroup { uri: target_uri, changes: out };
        assert(r@.changes.len() == g.changes.len());
        assert forall|i: int| 0 <= i < g.changes.len() implies change_inverse_of(
            #[trigger] g.changes[i],
            g.uri,
            r@.changes[i],
            content_provider is Some,
        ) by {
            assert(r@.changes[i] == out@[i]@);
        }
        assert forall|i: int| 0 <= i < g.changes.len() implies change_fetch_answered(
            #[trigger] g.changes[i],
            g.uri,
            r@.changes[i],
            content_provider,
        ) by {
            assert(r@.changes[i] == out@[i]@);
        }
        r
    }
}

impl Change {
    /// A copy of this change.
    pub fn clone_change(&self) -> (r: Self)
        ensures
            r@ == self@,
    {
        match self {
            Change::TextEdit(t) => Change::TextEdit(
                TextEdit { range: t.range, new_text: t.new_text.clone(), undo_text: clone_opt(&t.undo_text) },
            ),
            Change::ResourceOp(op) => Change::ResourceOp(
                match op {
                    ResourceOperation::CreateFile { content } => ResourceOperation::CreateFile {
                        content: clone_opt(content),
                    },
                    ResourceOperation::DeleteFile { ignore_if_not_exists } =>
                        ResourceOperation::DeleteFile { ignore_if_not_exists: *ignore_if_not_exists },
                    ResourceOperation::RenameFile { new_uri, overwrite } =>
                        ResourceOperation::RenameFile { new_uri: new_uri.clone(), overwrite: *overwrite },
                },
            ),
        }
    }
}

impl EditPlan {
    /// The plan that undoes this one; a deleted file is re-created with the
    /// content the provider gives for its path.
    pub fn invert(self, content_provider: Option<&dyn ContentProvider>) -> (r: Self)
        requires
            plan_invertible(self@),
        ensures
            plan_inverse_of(self@, r@, content_provider is Some),
            plan_fetch_answered(self@, r@, content_provider),
    {
        let ghost p = self@;
        let edits = self.edits;
        let mut out: Vec<EditGroup> = Vec::new();
        let mut i: usize = 0;
        while i < edits.len()
            invariant
                i <= edits@.len(),
                p.edits == edits@.map_values(|g: EditGroup| g@),
                plan_invertible(p),
                out@.len() == i,
                forall|j: int|
                    0 <= j < i ==> group_inverse_of(
                        #[trigger] p.edits[j],
                        out@[j]@,
                        content_provider is Some,
                    ),
                forall|j: int|
                    0 <= j < i ==> group_fetch_answered(
                        #[trigger] p.edits[j],
                        out@[j]@,
                        content_provider,
                    ),
            decreases edits@.len() - i,
        {
            let g = edits[i].clone_group();
            assert(p.edits[i as int] == edits@[i as int]@);
            let r = g.invert(content_provider);
            out.push(r);
            i = i + 1;
        }
        let r = EditPlan {
            mutation_kind: self.mutation_kind,
            edits: out,
            preconditions: Vec::new(),
            diagnostics: self.diagnostics,
            reversible: self.reversible,
        };
        assert forall|i: int| 0 <= i < p.edits.len() implies group_inverse_of(
            #[trigger] p.edits[i],
            r@.edits[i],
            content_provider is Some,
        ) by {
            assert(r@.edits[i] == out@[i]@);
        }
        assert forall|i: int| 0 <= i < p.edits.len() implies group_fetch_answered(
            #[trigger] p.edits[i],
            r@.edits[i],
            content_provider,
        ) by {
            assert(r@.edits[i] == out@[i]@);
        }
        assert(r@.preconditions =~= Seq::<PreconditionView>::empty());
        r
    }
}

impl EditGroup {
    /// A copy of this group.
    pub fn clone_group(&self) -> (r: Self)
        ensures
            r@ == self@,
    {
        let mut changes: Vec<Change> = Vec::new();
        let mut i: usize = 0;
        while i < self.changes.len()
            invariant
                i <= self.changes@.len(),
                changes@.len() == i,
                forall|j: int| 0 <= j < i ==> (#[trigger] changes@[j])@ == self.changes@[j]@,
            decreases self.changes@.len() - i,
        {
            changes.push(self.changes[i].clone_change());
            i = i + 1;
        }
        let r = EditGroup { uri: self.uri.clone(), changes };
        assert(r@.changes =~= self@.changes);
        r
    }
}

// ---------------------------------------------------------------------------
// Laws
// ---------------------------------------------------------------------------

/// Undoing the undo of a text edit gives the edit back, when the edit's range
/// is exactly the text it replaces.
pub proof fn lemma_text_edit_double_inverse(e: TextEditView)
    requires
        text_edit_invertible(e),
        advance_point(e.range.start, e.undo_text->0) == Some(e.range.end),
    ensures
        text_edit_invertible(inverted_text_edit(e)),
        inverted_text_edit(inverted_text_edit(e)) == e,
{
}

/// A change that its double inverse gives back: a text edit whose range is
/// exactly the text it replaces, or a rename to `target` that does not overwrite.
pub open spec fn change_round_trips(c: ChangeView, target: Seq<char>) -> bool {
    match c {
        ChangeView::TextEdit(e) => text_edit_invertible(e) && advance_point(
            e.range.start,
            e.undo_text->0,
        ) == Some(e.range.end),
        ChangeView::ResourceOp(ResourceOperationView::RenameFile { new_uri, overwrite }) =>
            new_uri == target && !overwrite,
        _ => false,
    }
}

proof fn lemma_final_uri_of_inverse(g: EditGroupView, r: EditGroupView, may_fetch: bool, k: int)
    requires
        0 <= k <= g.changes.len(),
        r.changes.len() == g.changes.len(),
        forall|i: int|
            0 <= i < g.changes.len() ==> change_inverse_of(
                #[trigger] g.changes[i],
                g.uri,
                r.changes[i],
                may_fetch,
            ),
        forall|i: int|
            0 <= i < g.changes.len() ==> change_round_trips(
                #[trigger] g.changes[i],
                group_final_uri(g.uri, g.changes),
            ),
    ensures
        (exists|i: int| 0 <= i < k && g.changes[i] is ResourceOp) ==> group_final_uri(
            r.uri,
            r.changes.take(k),
        ) == g.uri,
        (forall|i: int| 0 <= i < k ==> !(g.changes[i] is ResourceOp)) ==> group_final_uri(
            g.uri,
            g.changes.take(k),
        ) == g.uri && group_final_uri(r.uri, r.changes.take(k)) == r.uri,
    decreases k,
{
    if k > 0 {
        lemma_final_uri_of_inverse(g, r, may_fetch, k - 1);
        assert(g.changes.take(k).drop_last() =~= g.changes.take(k - 1));
        assert(r.changes.take(k).drop_last() =~= r.changes.take(k - 1));
        assert(g.changes.take(k).last() == g.changes[k - 1]);
        assert(r.changes.take(k).last() == r.changes[k - 1]);
        assert(change_inverse_of(g.changes[k - 1], g.uri, r.changes[k - 1], may_fetch));
        assert(change_round_trips(g.changes[k - 1], group_final_uri(g.uri, g.changes)));
        assert((exists|i: int| 0 <= i < k && g.changes[i] is ResourceOp) ==> (
        g.changes[k - 1] is ResourceOp || (exists|i: int|
            0 <= i < k - 1 && g.changes[i] is ResourceOp)));
    }
}

/// Undoing the undo of a group gives the group back, when each of its changes
/// round-trips: text edits whose ranges are exactly the text they replace, and
/// renames, all to the file the group leaves behind, that do not overwrite.
pub proof fn lemma_group_double_inverse(
    g: EditGroupView,
    r: EditGroupView,
    rr: EditGroupView,
    fetch1: bool,
    fetch2: bool,
)
    requires
        forall|i: int|
            0 <= i < g.changes.len() ==> change_round_trips(
                #[trigger] g.changes[i],
                group_final_uri(g.uri, g.changes),
            ),
        group_inverse_of(g, r, fetch1),
        group_inverse_of(r, rr, fetch2),
    ensures
        rr == g,
{
    lemma_final_uri_of_inverse(g, r, fetch1, g.changes.len() as int);
    assert(g.changes.take(g.changes.len() as int) =~= g.changes);
    assert(r.changes.take(r.changes.len() as int) =~= r.changes);
    assert(rr.uri == g.uri);
    assert forall|i: int| 0 <= i < g.changes.len() implies rr.changes[i] == g.changes[i] by {
        assert(change_round_trips(g.changes[i], group_final_uri(g.uri, g.changes)));
        assert(change_inverse_of(g.changes[i], g.uri, r.changes[i], fetch1));
        assert(change_inverse_of(r.changes[i], r.uri, rr.changes[i], fetch2));
        match g.changes[i] {
            ChangeView::TextEdit(e) => {
                lemma_text_edit_double_inverse(e);
            },
            ChangeView::ResourceOp(op) => {
                let c1 = choose|c: Option<Seq<char>>| #![trigger inverted_resource_op(op, g.uri, c)]
                    (fetch1 || c is None) && r.changes[i]->ResourceOp_0 == inverted_resource_op(
                        op,
                        g.uri,
                        c,
                    );
                let c2 = choose|c: Option<Seq<char>>| #![trigger inverted_resource_op(r.changes[i]->ResourceOp_0, r.uri, c)]
                    (fetch2 || c is None) && rr.changes[i]->ResourceOp_0 == inverted_resource_op(
                        r.changes[i]->ResourceOp_0,
                        r.uri,
                        c,
                    );
                assert(g.changes[i] is ResourceOp);
                assert(exists|j: int| 0 <= j < g.changes.len() && g.changes[j] is ResourceOp);
            },
        }
    }
    assert(rr.changes =~= g.changes);
}


/// Undoing the undo of a plan gives back its kind, groups, findings and
/// reversibility (not its preconditions, which an undo does not carry), when
/// every change of every group round-trips (see `lemma_group_double_inverse`).
pub proof fn lemma_plan_double_inverse(
    p: EditPlanView,
    r: EditPlanView,
    rr: EditPlanView,
    fetch1: bool,
    fetch2: bool,
)
    requires
        forall|i: int, j: int|
            0 <= i < p.edits.len() && 0 <= j < p.edits[i].changes.len() ==> change_round_trips(
                #[trigger] p.edits[i].changes[j],
                group_final_uri(p.edits[i].uri, p.edits[i].changes),
            ),
        plan_inverse_of(p, r, fetch1),
        plan_inverse_of(r, rr, fetch2),
    ensures
        rr.mutation_kind == p.mutation_kind,
        rr.edits == p.edits,
        rr.diagnostics == p.diagnostics,
        rr.reversible == p.reversible,
        rr.preconditions.len() == 0,
{
    assert forall|i: int| 0 <= i < p.edits.len() implies rr.edits[i] == p.edits[i] by {
        let g = p.edits[i];
        assert forall|j: int| 0 <= j < g.changes.len() implies change_round_trips(
            #[trigger] g.changes[j],
            group_final_uri(g.uri, g.changes),
        ) by {
            assert(p.edits[i].changes[j] == g.changes[j]);
        }
        assert(group_inverse_of(p.edits[i], r.edits[i], fetch1));
        assert(group_inverse_of(r.edits[i], rr.edits[i], fetch2));
        lemma_group_double_inverse(g, r.edits[i], rr.edits[i], fetch1, fetch2);
    }
    assert(rr.edits =~= p.edits);
}

} // verus!

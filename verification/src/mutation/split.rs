//! Splitting a note: a selection moves into a new note and a link to it
//! takes its place.
use vstd::prelude::*;
use crate::frontmatter::{lemma_next_newline, line_text_end, next_newline};
use crate::line_map::{boundary_index, byte_offset, is_boundary, lemma_byte_offset_strict};
use crate::model::{NoteId, TextRange, opt_view};
use crate::mutation::{
    Change, ChangeView, ContentProvider, EditGroup, EditGroupView, EditPlan, MutationKind,
    ResourceOperation, ResourceOperationView, TextEdit, TextEditView,
};
use crate::identity::IdentityRegistry;
use crate::semantic::SemanticModel;
use crate::store::Store;
use crate::text::{
    chars_of, push_char, push_seq, slice_sub, string_of, utf8_len, utf8_len_of_prefix,
    lemma_utf8_len_take_step, lemma_utf8_len_take_mono, lemma_utf8_len_concat,
};

verus! {

// ---------------------------------------------------------------------------
// Lines and selections
// ---------------------------------------------------------------------------

/// The lines of `t` from the line beginning at `s` on, as `str::lines`
/// gives them (without `\n`, nor a `\r` before it).
pub open spec fn lines_from(t: Seq<char>, s: int) -> Seq<Seq<char>>
    decreases t.len() + 1 - s,
{
    if s < 0 || s >= t.len() {
        Seq::empty()
    } else {
        proof {
            lemma_next_newline(t, s);
        }
        seq![t.subrange(s, line_text_end(t, s))] + lines_from(t, next_newline(t, s) + 1)
    }
}

/// The lines of `t`, as `str::lines` gives them.
pub open spec fn lines_of(t: Seq<char>) -> Seq<Seq<char>> {
    lines_from(t, 0)
}

/// The lines `ls[from..to]`, each followed by `\n`.
pub open spec fn lines_joined(ls: Seq<Seq<char>>, from: int, to: int) -> Seq<char>
    decreases to - from,
{
    if to <= from {
        Seq::empty()
    } else {
        lines_joined(ls, from, to - 1) + ls[to - 1] + seq!['\n']
    }
}

/// The character index in `line` of the byte offset `col`.
pub open spec fn col_index(line: Seq<char>, col: int) -> int {
    boundary_index(line, col)
}

/// The selection `range` of `t` can be cut: the columns (byte offsets
/// within their lines) that are used fall on character boundaries, and on
/// a single line the start does not pass the end.
pub open spec fn selection_cuttable(t: Seq<char>, range: TextRange) -> bool {
    let ls = lines_of(t);
    let sl = range.start.line as int;
    let el = range.end.line as int;
    let sc = range.start.col as int;
    let ec = range.end.col as int;
    sl < ls.len() && el < ls.len() ==> if sl == el {
        sc <= utf8_len(ls[sl]) && ec <= utf8_len(ls[sl]) ==> is_boundary(ls[sl], sc)
            && is_boundary(ls[sl], ec) && sc <= ec
    } else {
        &&& sc <= utf8_len(ls[sl]) ==> is_boundary(ls[sl], sc)
        &&& ec <= utf8_len(ls[el]) ==> is_boundary(ls[el], ec)
    }
}

/// The text of `t` in the selection `range` (lines, and byte columns within
/// them): on one line, the text between the columns; over several, the rest
/// of the first line, the lines between, and the start of the last, joined
/// by `\n`.  A column past its line leaves that line's part out; `None` when
/// a line of the range is not in `t`, or on one line a column is past it.
pub open spec fn extracted_text(t: Seq<char>, range: TextRange) -> Option<Seq<char>> {
    let ls = lines_of(t);
    let sl = range.start.line as int;
    let el = range.end.line as int;
    let sc = range.start.col as int;
    let ec = range.end.col as int;
    if sl >= ls.len() || el >= ls.len() {
        None
    } else if sl == el {
        if sc > utf8_len(ls[sl]) || ec > utf8_len(ls[sl]) {
            None
        } else {
            Some(ls[sl].subrange(col_index(ls[sl], sc), col_index(ls[sl], ec)))
        }
    } else {
        let first = if sc <= utf8_len(ls[sl]) {
            ls[sl].skip(col_index(ls[sl], sc)) + seq!['\n']
        } else {
            Seq::empty()
        };
        let last = if ec <= utf8_len(ls[el]) {
            ls[el].take(col_index(ls[el], ec))
        } else {
            Seq::empty()
        };
        Some(first + lines_joined(ls, sl + 1, el) + last)
    }
}

/// On one line, the text of a selection is exactly the characters of that
/// line between its columns: the line is some text of `start.col` bytes,
/// then the selected text of `end.col - start.col` bytes, then the rest.
pub proof fn lemma_single_line_selection(t: Seq<char>, range: TextRange)
    requires
        selection_cuttable(t, range),
        range.start.line == range.end.line,
        (range.start.line as int) < lines_of(t).len(),
        range.start.col as int <= utf8_len(lines_of(t)[range.start.line as int]),
        range.end.col as int <= utf8_len(lines_of(t)[range.start.line as int]),
    ensures
        extracted_text(t, range) matches Some(x) && {
            let line = lines_of(t)[range.start.line as int];
            &&& utf8_len(x) == range.end.col - range.start.col
            &&& exists|k: int|
                0 <= k <= line.len() && utf8_len(#[trigger] line.take(k)) == range.start.col
                    && line.skip(k).take(x.len() as int) == x
        },
{
    let line = lines_of(t)[range.start.line as int];
    let sc = range.start.col as int;
    let ec = range.end.col as int;
    let a = col_index(line, sc);
    let b = col_index(line, ec);
    assert(0 <= a <= line.len() && byte_offset(line, a) == sc);
    assert(0 <= b <= line.len() && byte_offset(line, b) == ec);
    if b < a {
        lemma_byte_offset_strict(line, b, a);
    }
    let x = line.subrange(a, b);
    assert(line.take(b) =~= line.take(a) + x);
    lemma_utf8_len_concat(line.take(a), x);
    assert(line.skip(a).take(x.len() as int) =~= x);
}

/// The lines of `t`.
pub fn lines_of_text(t: &[char]) -> (r: Vec<Vec<char>>)
    ensures
        r@.map_values(|l: Vec<char>| l@) == lines_of(t@),
{
    let mut r: Vec<Vec<char>> = Vec::new();
    let mut s: usize = 0;
    while s < t.len()
        invariant
            s <= t@.len(),
            r@.map_values(|l: Vec<char>| l@) + lines_from(t@, s as int) == lines_of(t@),
        decreases t@.len() - s,
    {
        let mut e = s;
        while e < t.len() && t[e] != '\n'
            invariant
                s <= e <= t@.len(),
                next_newline(t@, s as int) == next_newline(t@, e as int),
            decreases t@.len() - e,
        {
            e = e + 1;
        }
        proof {
            lemma_next_newline(t@, s as int);
        }
        let le = if e < t.len() && e > s && t[e - 1] == '\r' {
            e - 1
        } else {
            e
        };
        let line = slice_sub(t, s, le);
        let ghost before = r@.map_values(|l: Vec<char>| l@);
        r.push(line);
        proof {
            assert(r@.map_values(|l: Vec<char>| l@) =~= before.push(line@));
            assert(lines_from(t@, s as int) == seq![line@] + lines_from(t@, e + 1));
            assert(before.push(line@) + lines_from(t@, e + 1) =~= before + (seq![line@]
                + lines_from(t@, e + 1)));
        }
        if e >= t.len() {
            proof {
                assert(lines_from(t@, e + 1) =~= Seq::<Seq<char>>::empty());
                assert(r@.map_values(|l: Vec<char>| l@) + lines_from(t@, e + 1) =~= r@.map_values(
                    |l: Vec<char>| l@,
                ));
            }
            return r;
        }
        s = e + 1;
    }
    proof {
        assert(lines_from(t@, s as int) =~= Seq::<Seq<char>>::empty());
        assert(r@.map_values(|l: Vec<char>| l@) + lines_from(t@, s as int) =~= r@.map_values(
            |l: Vec<char>| l@,
        ));
    }
    r
}

/// The character index of the byte offset `col` in `line`, when `col`
/// falls on a character boundary.
fn col_to_index(line: &[char], col: usize) -> (r: usize)
    requires
        is_boundary(line@, col as int),
    ensures
        r as int == col_index(line@, col as int),
        r <= line@.len(),
{
    let ghost k = boundary_index(line@, col as int);
    let mut i: usize = 0;
    let mut off: usize = 0;
    proof {
        assert(line@.take(0) =~= Seq::<char>::empty());
    }
    while off < col
        invariant
            0 <= k <= line@.len(),
            byte_offset(line@, k) == col,
            i <= line@.len(),
            off == byte_offset(line@, i as int),
            off <= col,
            i <= k,
        decreases col - off,
    {
        proof {
            if i == line@.len() {
                assert(i >= k);
            }
            lemma_utf8_len_take_step(line@, i as int);
            if k < i + 1 {
                assert(false);
            } else if k > i + 1 {
                lemma_byte_offset_strict(line@, i + 1, k);
            }
        }
        off = off + crate::text::char_utf8_width(line[i]);
        i = i + 1;
    }
    proof {
        if i < k {
            lemma_byte_offset_strict(line@, i as int, k);
        }
    }
    i
}

/// Whether the selection `range` of the text with lines `ls` can be cut.
fn cuttable(ls: &Vec<Vec<char>>, range: TextRange) -> (r: bool)
    ensures
        r == ({
            let lv = ls@.map_values(|l: Vec<char>| l@);
            let sl = range.start.line as int;
            let el = range.end.line as int;
            let sc = range.start.col as int;
            let ec = range.end.col as int;
            sl < lv.len() && el < lv.len() ==> if sl == el {
                sc <= utf8_len(lv[sl]) && ec <= utf8_len(lv[sl]) ==> is_boundary(lv[sl], sc)
                    && is_boundary(lv[sl], ec) && sc <= ec
            } else {
                &&& sc <= utf8_len(lv[sl]) ==> is_boundary(lv[sl], sc)
                &&& ec <= utf8_len(lv[el]) ==> is_boundary(lv[el], ec)
            }
        }),
{
    let ghost lv = ls@.map_values(|l: Vec<char>| l@);
    let sl = range.start.line as usize;
    let el = range.end.line as usize;
    assert(sl == range.start.line as int);
    assert(el == range.end.line as int);
    if sl >= ls.len() || el >= ls.len() {
        return true;
    }
    let sc = range.start.col as usize;
    let ec = range.end.col as usize;
    if sl == el {
        let line = ls[sl].as_slice();
        if col_within(line, sc) && col_within(line, ec) {
            is_char_boundary(line, sc) && is_char_boundary(line, ec) && sc <= ec
        } else {
            true
        }
    } else {
        let first = ls[sl].as_slice();
        let last = ls[el].as_slice();
        let ok_first = !col_within(first, sc) || is_char_boundary(first, sc);
        let ok_last = !col_within(last, ec) || is_char_boundary(last, ec);
        ok_first && ok_last
    }
}

/// Whether the length of `line` in UTF-8 bytes is at most `limit`.
fn fits_in(line: &[char], limit: usize) -> (r: bool)
    ensures
        r == (utf8_len(line@) <= limit),
{
    let mut n: usize = 0;
    let mut i: usize = 0;
    proof {
        assert(line@.take(0) =~= Seq::<char>::empty());
    }
    while i < line.len()
        invariant
            i <= line@.len(),
            n == utf8_len(line@.take(i as int)),
            n <= limit,
        decreases line@.len() - i,
    {
        proof {
            lemma_utf8_len_take_step(line@, i as int);
        }
        let w = crate::text::char_utf8_width(line[i]);
        if w > limit - n {
            proof {
                lemma_utf8_len_take_mono(line@, i + 1, line@.len() as int);
                assert(line@.take(line@.len() as int) =~= line@);
            }
            return false;
        }
        n = n + w;
        i = i + 1;
    }
    assert(line@.take(line@.len() as int) =~= line@);
    true
}

/// Whether the byte offset `col` lies within `line` (at most its length).
fn col_within(line: &[char], col: usize) -> (r: bool)
    ensures
        r == (col <= utf8_len(line@)),
{
    if col == 0 {
        true
    } else {
        !fits_in(line, col - 1)
    }
}

/// Whether the byte offset `off` falls on a character boundary of `line`.
fn is_char_boundary(line: &[char], off: usize) -> (r: bool)
    ensures
        r == is_boundary(line@, off as int),
{
    let mut i: usize = 0;
    let mut pos: usize = 0;
    proof {
        assert(line@.take(0) =~= Seq::<char>::empty());
    }
    while i < line.len() && pos < off
        invariant
            i <= line@.len(),
            pos == byte_offset(line@, i as int),
            pos <= off,
            forall|j: int| 0 <= j < i ==> byte_offset(line@, j) < off,
        decreases line@.len() - i,
    {
        proof {
            lemma_utf8_len_take_step(line@, i as int);
        }
        let w = crate::text::char_utf8_width(line[i]);
        if w > off - pos {
            proof {
                assert forall|j: int| 0 <= j <= line@.len() implies byte_offset(line@, j) != off by {
                    if j > i {
                        if j > i + 1 {
                            lemma_byte_offset_strict(line@, i + 1, j);
                        }
                    }
                }
            }
            return false;
        }
        pos = pos + w;
        i = i + 1;
    }
    if pos == off {
        return true;
    }
    proof {
        assert forall|j: int| 0 <= j <= line@.len() implies byte_offset(line@, j) != off by {
            if j < i {
            } else if j > i {
                assert(i == line@.len());
            }
        }
    }
    false
}

/// The text of `content` in the selection `range` (see `extracted_text`).
pub fn extract_text(content: &str, range: TextRange) -> (r: Option<String>)
    requires
        selection_cuttable(content@, range),
    ensures
        opt_view(r) == extracted_text(content@, range),
        range.start.line == range.end.line ==> (r matches Some(x) ==> utf8_len(x@) == range.end.col
            - range.start.col),
{
    proof {
        let ls = lines_of(content@);
        let sl = range.start.line as int;
        if range.start.line == range.end.line && sl < ls.len() && range.start.col as int
            <= utf8_len(ls[sl]) && range.end.col as int <= utf8_len(ls[sl]) {
            lemma_single_line_selection(content@, range);
        }
    }
    let chars = chars_of(content);
    let lines = lines_of_text(chars.as_slice());
    let ghost ls = lines_of(content@);
    let start_line = range.start.line as usize;
    let end_line = range.end.line as usize;
    if start_line >= lines.len() || end_line >= lines.len() {
        return None;
    }
    assert(lines@[start_line as int]@ == ls[start_line as int]);
    assert(lines@[end_line as int]@ == ls[end_line as int]);
    let sc = range.start.col as usize;
    let ec = range.end.col as usize;
    if start_line == end_line {
        let line = lines[start_line].as_slice();
        if !col_within(line, sc) || !col_within(line, ec) {
            return None;
        }
        let a = col_to_index(line, sc);
        let b = col_to_index(line, ec);
        proof {
            if b < a {
                lemma_byte_offset_strict(line@, b as int, a as int);
            }
        }
        let v = slice_sub(line, a, b);
        return Some(string_of(v.as_slice()));
    }
    let mut result = String::new();
    let first = lines[start_line].as_slice();
    let ghost first_part = if sc <= utf8_len(ls[start_line as int]) {
        ls[start_line as int].skip(col_index(ls[start_line as int], sc as int)) + seq!['\n']
    } else {
        Seq::empty()
    };
    if col_within(first, sc) {
        let a = col_to_index(first, sc);
        let v = slice_sub(first, a, first.len());
        push_seq(&mut result, v.as_slice());
        push_char(&mut result, '\n');
        assert(result@ =~= first_part);
    }
    assert(result@ == first_part);
    let mut i = start_line + 1;
    proof {
        assert(lines_joined(ls, start_line + 1, start_line + 1) =~= Seq::<char>::empty());
        assert(result@ =~= first_part + lines_joined(ls, start_line + 1, start_line + 1));
    }
    while i < end_line
        invariant
            start_line < i <= end_line || (end_line < start_line && i == start_line + 1),
            end_line < lines@.len(),
            lines@.map_values(|l: Vec<char>| l@) == ls,
            result@ == first_part + lines_joined(ls, start_line + 1, i as int),
        decreases end_line - i,
    {
        assert(lines@[i as int]@ == ls[i as int]);
        push_seq(&mut result, lines[i].as_slice());
        push_char(&mut result, '\n');
        proof {
            assert(result@ =~= first_part + lines_joined(ls, start_line + 1, i + 1));
        }
        i = i + 1;
    }
    proof {
        if end_line < start_line {
            assert(lines_joined(ls, start_line + 1, end_line as int) =~= Seq::<char>::empty());
            assert(lines_joined(ls, start_line + 1, i as int) =~= Seq::<char>::empty());
        }
    }
    assert(result@ == first_part + lines_joined(ls, start_line + 1, end_line as int));
    let last = lines[end_line].as_slice();
    let ghost mid = result@;
    if col_within(last, ec) {
        let b = col_to_index(last, ec);
        let v = slice_sub(last, 0, b);
        push_seq(&mut result, v.as_slice());
        assert(v@ =~= ls[end_line as int].take(b as int));
    }
    proof {
        if !(ec <= utf8_len(ls[end_line as int])) {
            assert(result@ =~= mid + Seq::<char>::empty());
        }
    }
    Some(result)
}

// ---------------------------------------------------------------------------
// The plan
// ---------------------------------------------------------------------------

/// `plan` moves the selection `selection` of the note at `source_path`,
/// whose text there is `text`, into a new note at `new_path`, and replaces
/// it by `link`.
pub open spec fn is_split_plan(
    plan: EditPlan,
    source_path: Seq<char>,
    new_path: Seq<char>,
    selection: TextRange,
    text: Seq<char>,
    link: Seq<char>,
) -> bool {
    &&& plan.mutation_kind == MutationKind::SplitNote
    &&& plan@.preconditions.len() == 0
    &&& plan@.diagnostics.len() == 0
    &&& plan.reversible
    &&& plan@.edits == seq![
        EditGroupView {
            uri: new_path,
            changes: seq![
                ChangeView::ResourceOp(ResourceOperationView::CreateFile { content: Some(text) }),
            ],
        },
        EditGroupView {
            uri: source_path,
            changes: seq![
                ChangeView::TextEdit(
                    TextEditView { range: selection, new_text: link, undo_text: Some(text) },
                ),
            ],
        },
    ]
}

/// The split plan for the note at `source_path` with content `content`;
/// `None` when a column of the selection falls inside a character, or the
/// selection is not in the content.
pub fn split_plan<M: SemanticModel>(
    model: &M,
    source_path: &str,
    content: &str,
    selection: TextRange,
    new_note_title: &str,
) -> (r: Option<EditPlan>)
    requires
        model.inv(),
    ensures
        !selection_cuttable(content@, selection) ==> r is None,
        selection_cuttable(content@, selection) ==> match extracted_text(content@, selection) {
            None => r is None,
            Some(text) => r matches Some(plan) && is_split_plan(
                plan,
                source_path@,
                model.path_from_key(new_note_title@),
                selection,
                text,
                model.wikilink_text(new_note_title@, None, None, false),
            ),
        },
{
    let chars = chars_of(content);
    let lines = lines_of_text(chars.as_slice());
    if !cuttable(&lines, selection) {
        return None;
    }
    let extracted = match extract_text(content, selection) {
        Some(t) => t,
        None => return None,
    };
    let title = string_of(chars_of(new_note_title).as_slice());
    let new_path = model.path_from_note_key(&title);
    let link_text = model.format_wikilink(new_note_title, None, None, false);
    let mut edits: Vec<EditGroup> = Vec::new();
    let mut create: Vec<Change> = Vec::new();
    create.push(Change::ResourceOp(ResourceOperation::CreateFile { content: Some(extracted.clone()) }));
    edits.push(EditGroup { uri: new_path, changes: create });
    let mut replace: Vec<Change> = Vec::new();
    replace.push(
        Change::TextEdit(
            TextEdit { range: selection, new_text: link_text, undo_text: Some(extracted) },
        ),
    );
    edits.push(EditGroup { uri: string_of(chars_of(source_path).as_slice()), changes: replace });
    let plan = EditPlan {
        mutation_kind: MutationKind::SplitNote,
        edits,
        preconditions: Vec::new(),
        diagnostics: Vec::new(),
        reversible: true,
    };
    proof {
        assert(plan@.edits[0].changes =~= seq![
            ChangeView::ResourceOp(
                ResourceOperationView::CreateFile {
                    content: Some(extracted_text(content@, selection)->0),
                },
            ),
        ]);
        assert(plan@.edits[1].changes =~= seq![
            ChangeView::TextEdit(
                TextEditView {
                    range: selection,
                    new_text: model.wikilink_text(new_note_title@, None, None, false),
                    undo_text: Some(extracted_text(content@, selection)->0),
                },
            ),
        ]);
        assert(plan@.edits =~= seq![plan@.edits[0], plan@.edits[1]]);
    }
    Some(plan)
}

/// The plan that extracts the selection `selection` of the note
/// `source_id` into a new note titled `new_note_title` and links to it in
/// its place.  `None` when the note is not stored with a path, its content
/// is not available, the selection is not in it, or a column of the
/// selection falls inside a character.  The plan is that of the content the
/// provider gave for the note's path.
pub fn calculate_split_edits<M: SemanticModel>(
    store: &Store,
    identity: &IdentityRegistry,
    content_provider: &dyn ContentProvider,
    model: &M,
    source_id: &NoteId,
    selection: TextRange,
    new_note_title: &str,
) -> (r: Option<EditPlan>)
    requires
        model.inv(),
    ensures
        r matches Some(plan) ==> {
            &&& store.notes().contains_key(source_id.0)
            &&& store.notes()[source_id.0].path is Some
            &&& exists|content: Seq<char>|
                #![trigger extracted_text(content, selection)]
                content_provider.answers(store.notes()[source_id.0].path->0@, Some(content))
                    && selection_cuttable(content, selection) && extracted_text(content, selection) is Some
                    && is_split_plan(
                    plan,
                    store.notes()[source_id.0].path->0@,
                    model.path_from_key(new_note_title@),
                    selection,
                    extracted_text(content, selection)->0,
                    model.wikilink_text(new_note_title@, None, None, false),
                )
        },
        !store.notes().contains_key(source_id.0) || store.notes()[source_id.0].path is None
            ==> r is None,
{
    let source_note = match store.get_note(source_id) {
        Some(n) => n,
        None => return None,
    };
    let source_path = match &source_note.path {
        Some(p) => p,
        None => return None,
    };
    let content = match content_provider.get_content(source_path.as_str()) {
        Some(c) => c,
        None => return None,
    };
    let r = split_plan(model, source_path.as_str(), content.as_str(), selection, new_note_title);
    proof {
        if r is Some {
            assert(extracted_text(content@, selection) is Some);
        }
    }
    r
}

} // verus!

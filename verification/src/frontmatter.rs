//! The `updated:` field of a note's front matter: where its value stands.
use vstd::prelude::*;
use crate::line_map::{LineMap, boundary_index, is_boundary, lemma_boundary_index, point_at};
use crate::model::TextRange;
use crate::text::{
    byte_len_of, chars_of, find_sub, first_occurrence, lemma_first_occurrence, occurs_at, slice_sub, trim_seq,
    trim_slice, utf8_len, utf8_len_of_prefix,
};

verus! {


/// Index of the first `\n` of `a` at or after `s`, else the length of `a`.
pub open spec fn next_newline(a: Seq<char>, s: int) -> int
    decreases a.len() - s,
{
    if s >= a.len() {
        a.len() as int
    } else if a[s] == '\n' {
        s
    } else {
        next_newline(a, s + 1)
    }
}

pub proof fn lemma_next_newline(a: Seq<char>, s: int)
    requires
        0 <= s,
    ensures
        s <= a.len() ==> s <= next_newline(a, s) <= a.len(),
        s > a.len() ==> next_newline(a, s) == a.len(),
        next_newline(a, s) < a.len() ==> a[next_newline(a, s)] == '\n',
        forall|j: int| s <= j < next_newline(a, s) ==> a[j] != '\n',
    decreases a.len() - s,
{
    if s < a.len() && a[s] != '\n' {
        lemma_next_newline(a, s + 1);
    }
}

/// Where the text of the line beginning at `s` ends: before its `\n`, and
/// before a `\r` that precedes that `\n` (as `str::lines` cuts lines).
pub open spec fn line_text_end(a: Seq<char>, s: int) -> int {
    let e = next_newline(a, s);
    if e < a.len() && e > s && a[e - 1] == '\r' {
        e - 1
    } else {
        e
    }
}

/// The text `updated:`.
#[verifier::opaque]
pub open spec fn updated_tag() -> Seq<char> {
    seq!['u', 'p', 'd', 'a', 't', 'e', 'd', ':']
}

/// The character range, within `line`, of the value of an `updated:` field:
/// the text after the first `updated:`, trimmed, at its place after the key;
/// when that text is blank, the whole rest of the line after the key.
/// `None` when the line holds no `updated:`.
pub open spec fn line_value(line: Seq<char>) -> Option<(int, int)> {
    match first_occurrence(line, updated_tag()) {
        Some(pos) => {
            let vs = pos + 8;
            let value = line.skip(vs);
            let tr = trim_seq(value);
            if tr.len() == 0 {
                Some((vs, vs + value.len()))
            } else {
                match first_occurrence(value, tr) {
                    Some(vp) => Some((vs + vp, vs + vp + tr.len())),
                    None => Some((vs, vs + value.len())),
                }
            }
        },
        None => None,
    }
}

/// The character range of the value of the first line, from the line that
/// begins at `s` on, holding `updated:` (see `line_value`).
pub open spec fn updated_value_from(a: Seq<char>, s: int) -> Option<(int, int)>
    decreases a.len() + 1 - s,
{
    if s < 0 || s >= a.len() {
        None
    } else {
        match line_value(a.subrange(s, line_text_end(a, s))) {
            Some((b, e)) => Some((s + b, s + e)),
            None => {
                proof {
                    lemma_next_newline(a, s);
                }
                updated_value_from(a, next_newline(a, s) + 1)
            },
        }
    }
}

proof fn lemma_updated_tag_len()
    ensures
        updated_tag().len() == 8,
{
    reveal(updated_tag);
}

proof fn lemma_line_value_bounds(line: Seq<char>)
    ensures
        line_value(line) matches Some((b, e)) ==> 0 <= b <= e <= line.len(),
{
    lemma_first_occurrence(line, updated_tag());
    lemma_updated_tag_len();
    lemma_first_occurrence(line, updated_tag());
    if let Some(pos) = first_occurrence(line, updated_tag()) {
        let tr = trim_seq(line.skip(pos + 8));
        lemma_first_occurrence(line.skip(pos + 8), tr);
    }
}

/// The smaller of `limit` and the length of `t` in bytes.
pub open spec fn clamped_limit(t: Seq<char>, limit: int) -> int {
    if limit < utf8_len(t) {
        limit
    } else {
        utf8_len(t) as int
    }
}

/// The range of the value of the `updated:` field in the first `limit` bytes
/// of `t`.
pub open spec fn updated_field_range(t: Seq<char>, limit: int) -> Option<TextRange> {
    let a = t.take(boundary_index(t, clamped_limit(t, limit)));
    match updated_value_from(a, 0) {
        Some((b, e)) => Some(TextRange { start: point_at(t, b), end: point_at(t, e) }),
        None => None,
    }
}

proof fn lemma_updated_value_bounds(a: Seq<char>, s: int)
    ensures
        updated_value_from(a, s) matches Some((b, e)) ==> 0 <= b <= e <= a.len(),
    decreases a.len() + 1 - s,
{
    if 0 <= s < a.len() {
        lemma_next_newline(a, s);
        let line = a.subrange(s, line_text_end(a, s));
        lemma_line_value_bounds(line);
        if line_value(line) is None {
            lemma_updated_value_bounds(a, next_newline(a, s) + 1);
        }
    }
}

/// The value range of an `updated:` field in `line` (see `line_value`).
fn value_in_line(line: &[char], tag: &[char]) -> (r: Option<(usize, usize)>)
    requires
        tag@ == updated_tag(),
    ensures
        match r {
            Some((b, e)) => line_value(line@) == Some((b as int, e as int)) && b <= e <= line@.len(),
            None => line_value(line@) is None,
        },
{
    proof {
        lemma_line_value_bounds(line@);
    }
    match find_sub(line, tag) {
        Some(pos) => {
            proof {
                lemma_first_occurrence(line@, updated_tag());
                lemma_updated_tag_len();
                assert(first_occurrence(line@, updated_tag()) == Some(pos as int));
                assert(pos + updated_tag().len() <= line@.len());
            }
            let ln = line.len();
            let vs = pos + tag.len();
            let value = slice_sub(line, vs, line.len());
            assert(value@ =~= line@.skip(vs as int));
            let tr = trim_slice(value.as_slice());
            if tr.len() == 0 {
                return Some((vs, vs + value.len()));
            }
            match find_sub(value.as_slice(), tr.as_slice()) {
                Some(vp) => {
                    proof {
                        lemma_first_occurrence(value@, tr@);
                    }
                    Some((vs + vp, vs + vp + tr.len()))
                },
                None => Some((vs, vs + value.len())),
            }
        },
        None => None,
    }
}

/// Finds the line holding `updated:` within the first `limit` bytes of `text`
/// and gives the range of its value.
pub fn get_updated_field_range(text: &str, limit: usize) -> (r: Option<TextRange>)
    requires
        is_boundary(text@, clamped_limit(text@, limit as int)),
    ensures
        r == updated_field_range(text@, limit as int),
{
    let lm = LineMap::new(text);
    let total = byte_len_of(text);
    let lim = if limit < total {
        limit
    } else {
        total
    };
    let a_len = lm.char_index(lim);
    let chars = chars_of(text);
    let ghost a = text@.take(a_len as int);
    let tag: Vec<char> = vec!['u', 'p', 'd', 'a', 't', 'e', 'd', ':'];
    assert(tag@ =~= updated_tag()) by {
        reveal(updated_tag);
    }
    let mut s: usize = 0;
    while s < a_len
        invariant
            lm.wf(),
            lm@ == text@,
            chars@ == text@,
            a_len <= text@.len(),
            a == text@.take(a_len as int),
            utf8_len(text@) <= usize::MAX,
            tag@ == updated_tag(),
            s <= a_len,
            updated_value_from(a, s as int) == updated_value_from(a, 0),
            updated_field_range(text@, limit as int) == match updated_value_from(a, 0) {
                Some((b, e)) => Some(TextRange { start: point_at(text@, b), end: point_at(text@, e) }),
                None => None,
            },
        decreases a_len - s,
    {
        let mut e = s;
        while e < a_len && chars[e] != '\n'
            invariant
                s <= e <= a_len <= chars@.len(),
                next_newline(a, s as int) == next_newline(a, e as int),
                a == chars@.take(a_len as int),
            decreases a_len - e,
        {
            e = e + 1;
        }
        proof {
            lemma_next_newline(a, s as int);
        }
        let le = if e < a_len && e > s && chars[e - 1] == '\r' {
            e - 1
        } else {
            e
        };
        assert(le == line_text_end(a, s as int));
        let line = slice_sub(chars.as_slice(), s, le);
        assert(line@ =~= a.subrange(s as int, le as int));
        match value_in_line(line.as_slice(), tag.as_slice()) {
            Some((lb, le2)) => {
                let b = s + lb;
                let en = s + le2;
                assert(updated_value_from(a, s as int) == Some((b as int, en as int)));
                proof {
                    lemma_boundary_index(text@, b as int);
                    lemma_boundary_index(text@, en as int);
                }
                let bo = utf8_len_of_prefix(chars.as_slice(), b);
                let eo = utf8_len_of_prefix(chars.as_slice(), en);
                let start = lm.offset_to_point(text, bo);
                let end = lm.offset_to_point(text, eo);
                return Some(TextRange { start, end });
            },
            None => {
                assert(line_value(line@) is None);
                if e >= a_len {
                    proof {
                        assert(updated_value_from(a, s as int) == updated_value_from(a, e + 1));
                    }
                    return None;
                }
                s = e + 1;
            },
        }
    }
    None
}

} // verus!

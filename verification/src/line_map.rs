//! Conversion between byte offsets of a text and (line, UTF-16 column) points.
use vstd::prelude::*;
use crate::model::Point;
use crate::text::{
    byte_len_of, char_utf16_width, char_utf8_width, chars_of, lemma_utf16_le_utf8, lemma_utf16_len_take_mono,
    lemma_utf16_len_take_step, lemma_utf8_len_take_mono, lemma_utf8_len_take_step, utf16_len,
    utf16_width, utf8_len, utf8_width,
};

verus! {

/// Number of newlines in `s`.
pub open spec fn nl_count(s: Seq<char>) -> nat
    decreases s.len(),
{
    if s.len() == 0 {
        0
    } else {
        nl_count(s.drop_last()) + if s.last() == '\n' {
            1nat
        } else {
            0nat
        }
    }
}

/// Character indices at which the lines of `t` begin: 0, and the index after
/// each newline.
pub open spec fn line_start_chars(t: Seq<char>) -> Seq<int>
    decreases t.len(),
{
    if t.len() == 0 {
        seq![0int]
    } else {
        let p = line_start_chars(t.drop_last());
        if t.last() == '\n' {
            p.push(t.len() as int)
        } else {
            p
        }
    }
}

/// Byte offset of the character index `k` of `t`.
pub open spec fn byte_offset(t: Seq<char>, k: int) -> int {
    utf8_len(t.take(k)) as int
}

/// `off` is the byte offset of some character index of `t` (a char boundary).
pub open spec fn is_boundary(t: Seq<char>, off: int) -> bool {
    exists|k: int| 0 <= k <= t.len() && byte_offset(t, k) == off
}

/// The character index whose byte offset is `off`.
pub open spec fn boundary_index(t: Seq<char>, off: int) -> int {
    choose|k: int| 0 <= k <= t.len() && byte_offset(t, k) == off
}

/// Index of the line holding the character index `k`.
pub open spec fn line_of(t: Seq<char>, k: int) -> int {
    nl_count(t.take(k)) as int
}

/// Character index at which the line holding `k` begins.
pub open spec fn line_begin(t: Seq<char>, k: int) -> int
    decreases k,
{
    if k <= 0 {
        0
    } else if t[k - 1] == '\n' {
        k
    } else {
        line_begin(t, k - 1)
    }
}

/// The point of the character index `k`: its line, and the UTF-16 length of
/// the text between the start of that line and `k` (both truncated to `u32`).
pub open spec fn point_at(t: Seq<char>, k: int) -> Point {
    Point {
        line: line_of(t, k) as u32,
        col: (utf16_len(t.take(k)) - utf16_len(t.take(line_begin(t, k)))) as u32,
    }
}

/// Character index of the last position of line `l` (its newline, or the end
/// of the text).
pub open spec fn line_end(t: Seq<char>, l: int) -> int {
    if l + 1 < line_start_chars(t).len() {
        line_start_chars(t)[l + 1] - 1
    } else {
        t.len() as int
    }
}

/// The character index on line `p.line` at UTF-16 column `p.col`, if any.
pub open spec fn point_char_index(t: Seq<char>, p: Point) -> Option<int> {
    let ls = line_start_chars(t);
    let l = p.line as int;
    if l >= ls.len() {
        None
    } else if exists|k: int|
        ls[l] <= k <= line_end(t, l) && #[trigger] utf16_len(t.take(k)) - utf16_len(t.take(ls[l]))
            == p.col {
        Some(
            choose|k: int|
                ls[l] <= k <= line_end(t, l) && #[trigger] utf16_len(t.take(k)) - utf16_len(
                    t.take(ls[l]),
                ) == p.col,
        )
    } else {
        None
    }
}

/// The byte offset of the point `p`, if `p` lies within a line of `t`.
pub open spec fn point_offset(t: Seq<char>, p: Point) -> Option<int> {
    match point_char_index(t, p) {
        Some(k) => Some(byte_offset(t, k)),
        None => None,
    }
}

// ---------------------------------------------------------------------------
// Lemmas on the line structure
// ---------------------------------------------------------------------------

proof fn lemma_take_prefix(t: Seq<char>, k: int)
    requires
        t.len() > 0,
        0 <= k <= t.len() - 1,
    ensures
        t.take(k) == t.drop_last().take(k),
{
    assert(t.take(k) =~= t.drop_last().take(k));
}

/// The shape of the line starts: they begin with 0, increase strictly, stay
/// within the text, and there is one per newline plus one.
pub proof fn lemma_line_starts_shape(t: Seq<char>)
    ensures
        line_start_chars(t).len() == nl_count(t) + 1,
        line_start_chars(t)[0] == 0,
        forall|i: int, j: int|
            0 <= i < j < line_start_chars(t).len() ==> line_start_chars(t)[i]
                < line_start_chars(t)[j],
        forall|i: int|
            0 <= i < line_start_chars(t).len() ==> 0 <= #[trigger] line_start_chars(t)[i]
                <= t.len(),
        forall|i: int|
            0 < i < line_start_chars(t).len() ==> t[#[trigger] line_start_chars(t)[i] - 1] == '\n',
    decreases t.len(),
{
    if t.len() > 0 {
        lemma_line_starts_shape(t.drop_last());
    }
}

/// A point found in `t` is a character index of `t`.
pub proof fn lemma_point_char_index_bounds(t: Seq<char>, p: Point)
    ensures
        point_char_index(t, p) matches Some(k) ==> 0 <= k <= t.len(),
{
    lemma_line_starts_shape(t);
    let ls = line_start_chars(t);
    let l = p.line as int;
    if l < ls.len() {
        if l + 1 < ls.len() {
            assert(ls[l + 1] <= t.len());
        }
    }
}

/// The line holding `k` is found in the line starts: it begins at or before
/// `k`, and the next line begins after `k`.
pub proof fn lemma_line_of(t: Seq<char>, k: int)
    requires
        0 <= k <= t.len(),
    ensures
        0 <= line_of(t, k) < line_start_chars(t).len(),
        line_start_chars(t)[line_of(t, k)] == line_begin(t, k),
        line_begin(t, k) <= k,
        line_of(t, k) + 1 < line_start_chars(t).len() ==> k < line_start_chars(t)[line_of(t, k)
            + 1],
    decreases t.len(),
{
    lemma_line_starts_shape(t);
    if t.len() == 0 {
        assert(t.take(k) =~= Seq::<char>::empty());
    } else {
        let t2 = t.drop_last();
        lemma_line_starts_shape(t2);
        if k < t.len() {
            lemma_line_of(t2, k);
            lemma_take_prefix(t, k);
            lemma_line_begin_prefix(t, k);
        } else {
            assert(t.take(k) =~= t);
            lemma_line_of(t2, k - 1);
            lemma_take_prefix(t, k - 1);
            lemma_line_begin_prefix(t, k - 1);
            assert(t.take(k - 1) =~= t2);
            assert(t2.take(k - 1) =~= t2);
            if t.last() != '\n' {
                assert(line_begin(t, k) == line_begin(t, k - 1));
            }
        }
    }
}

proof fn lemma_line_begin_prefix(t: Seq<char>, k: int)
    requires
        t.len() > 0,
        0 <= k <= t.len() - 1,
    ensures
        line_begin(t, k) == line_begin(t.drop_last(), k),
        line_begin(t, k) <= k,
    decreases k,
{
    if k > 0 {
        lemma_line_begin_prefix(t, k - 1);
    }
}

/// The characters of line `l` all lie on line `l`.
pub proof fn lemma_line_of_within(t: Seq<char>, l: int, k: int)
    requires
        0 <= l < line_start_chars(t).len(),
        line_start_chars(t)[l] <= k <= line_end(t, l),
    ensures
        line_of(t, k) == l,
        line_begin(t, k) == line_start_chars(t)[l],
{
    lemma_line_starts_shape(t);
    lemma_line_of(t, k);
    let m = line_of(t, k);
    let ls = line_start_chars(t);
    if m < l {
        if m + 1 < l {
            assert(ls[m + 1] < ls[l]);
        }
        assert(k < ls[m + 1]);
    } else if m > l {
        assert(ls[l + 1] <= ls[m]);
    }
}

/// Byte offsets grow strictly with the character index.
pub proof fn lemma_byte_offset_strict(t: Seq<char>, i: int, j: int)
    requires
        0 <= i < j <= t.len(),
    ensures
        byte_offset(t, i) < byte_offset(t, j),
{
    lemma_utf8_len_take_mono(t, i, j);
}

/// A byte offset belongs to a single character index.
pub proof fn lemma_boundary_index(t: Seq<char>, k: int)
    requires
        0 <= k <= t.len(),
    ensures
        is_boundary(t, byte_offset(t, k)),
        boundary_index(t, byte_offset(t, k)) == k,
{
    assert(0 <= k <= t.len() && byte_offset(t, k) == byte_offset(t, k));
    let j = boundary_index(t, byte_offset(t, k));
    if j < k {
        lemma_byte_offset_strict(t, j, k);
    } else if j > k {
        lemma_byte_offset_strict(t, k, j);
    }
}

// ---------------------------------------------------------------------------
// The map
// ---------------------------------------------------------------------------

/// Byte offsets and character indices of the line starts of a text.
pub struct LineMap {
    line_starts: Vec<usize>,
    line_start_chars: Vec<usize>,
    chars: Vec<char>,
}

impl View for LineMap {
    type V = Seq<char>;

    /// The text the map was built from.
    closed spec fn view(&self) -> Seq<char> {
        self.chars@
    }
}

impl LineMap {
    /// The byte offsets at which the lines of the text begin, in order.
    pub closed spec fn line_start_offsets(&self) -> Seq<int> {
        self.line_starts@.map_values(|b: usize| b as int)
    }

    /// The map agrees with its text.
    pub closed spec fn wf(&self) -> bool {
        let t = self.chars@;
        let ls = line_start_chars(t);
        &&& utf8_len(t) <= usize::MAX
        &&& self.line_starts@.len() == ls.len()
        &&& self.line_start_chars@.len() == ls.len()
        &&& forall|i: int|
            0 <= i < ls.len() ==> #[trigger] self.line_start_chars@[i] as int == ls[i]
                && self.line_starts@[i] as int == byte_offset(t, ls[i])
    }

    /// Builds the map of `text`: a line begins at offset 0 and after each
    /// newline.
    pub fn new(text: &str) -> (r: Self)
        ensures
            r.wf(),
            r@ == text@,
            r.line_start_offsets() == line_start_chars(text@).map_values(
                |k: int| byte_offset(text@, k),
            ),
    {
        let _total = byte_len_of(text);
        let chars = chars_of(text);
        let ghost t = chars@;
        let mut line_starts: Vec<usize> = Vec::new();
        let mut starts_chars: Vec<usize> = Vec::new();
        line_starts.push(0);
        starts_chars.push(0);
        let mut i: usize = 0;
        let mut b: usize = 0;
        proof {
            assert(t.take(0) =~= Seq::<char>::empty());
        }
        while i < chars.len()
            invariant
                t == chars@,
                utf8_len(t) <= usize::MAX,
                i <= t.len(),
                b as int == byte_offset(t, i as int),
                line_starts@.len() == line_start_chars(t.take(i as int)).len(),
                starts_chars@.len() == line_start_chars(t.take(i as int)).len(),
                forall|j: int|
                    0 <= j < starts_chars@.len() ==> #[trigger] starts_chars@[j] as int
                        == line_start_chars(t.take(i as int))[j] && line_starts@[j] as int
                        == byte_offset(t, line_start_chars(t.take(i as int))[j]),
            decreases t.len() - i,
        {
            let c = chars[i];
            proof {
                lemma_utf8_len_take_step(t, i as int);
                lemma_utf8_len_take_mono(t, i as int + 1, t.len() as int);
                assert(t.take(t.len() as int) =~= t);
                assert(t.take(i as int + 1).drop_last() =~= t.take(i as int));
                assert(t.take(i as int + 1).last() == c);
            }
            b = b + char_utf8_width(c);
            i = i + 1;
            if c == '\n' {
                line_starts.push(b);
                starts_chars.push(i);
            }
        }
        proof {
            assert(t.take(t.len() as int) =~= t);
        }
        let r = LineMap { line_starts, line_start_chars: starts_chars, chars };
        assert(r.wf());
        assert(t == text@);
        assert forall|i: int| 0 <= i < r.line_starts@.len() implies #[trigger] r.line_start_offsets()[i]
            == byte_offset(t, line_start_chars(t)[i]) by {
            assert(r.line_start_chars@[i] as int == line_start_chars(t)[i]);
        }
        assert(r.line_start_offsets() =~= line_start_chars(text@).map_values(
            |k: int| byte_offset(text@, k),
        ));
        r
    }

    /// Index of the last line starting at or before `offset`.
    fn line_index(&self, offset: usize) -> (l: usize)
        requires
            self.wf(),
        ensures
            l < self.line_starts@.len(),
            self.line_starts@[l as int] <= offset,
            l + 1 < self.line_starts@.len() ==> offset < self.line_starts@[l + 1],
    {
        proof {
            self.lemma_sorted();
        }
        let mut lo: usize = 0;
        let mut hi: usize = self.line_starts.len();
        while hi - lo > 1
            invariant
                self.wf(),
                forall|i: int, j: int|
                    0 <= i < j < self.line_starts@.len() ==> self.line_starts@[i]
                        < self.line_starts@[j],
                0 <= lo < hi <= self.line_starts@.len(),
                self.line_starts@[lo as int] <= offset,
                hi < self.line_starts@.len() ==> offset < self.line_starts@[hi as int],
            decreases hi - lo,
        {
            let mid = lo + (hi - lo) / 2;
            if self.line_starts[mid] <= offset {
                lo = mid;
            } else {
                hi = mid;
            }
        }
        lo
    }

    proof fn lemma_sorted(&self)
        requires
            self.wf(),
        ensures
            self.line_starts@.len() > 0,
            self.line_starts@[0] == 0,
            forall|i: int, j: int|
                0 <= i < j < self.line_starts@.len() ==> self.line_starts@[i]
                    < self.line_starts@[j],
    {
        let t = self.chars@;
        let ls = line_start_chars(t);
        lemma_line_starts_shape(t);
        assert(self.line_start_chars@[0] as int == ls[0]);
        assert(t.take(0) =~= Seq::<char>::empty());
        assert forall|i: int, j: int|
            0 <= i < j < self.line_starts@.len() implies self.line_starts@[i]
            < self.line_starts@[j] by {
            assert(self.line_start_chars@[i] as int == ls[i]);
            assert(self.line_start_chars@[j] as int == ls[j]);
            lemma_byte_offset_strict(t, ls[i], ls[j]);
        }
    }

    /// The point of the byte offset `offset` of `text`.
    pub fn offset_to_point(&self, text: &str, offset: usize) -> (p: Point)
        requires
            self.wf(),
            text@ == self@,
            is_boundary(text@, offset as int),
        ensures
            p == point_at(text@, boundary_index(text@, offset as int)),
    {
        let ghost t = self.chars@;
        let ghost k = boundary_index(t, offset as int);
        let ghost ls = line_start_chars(t);
        proof {
            lemma_line_starts_shape(t);
            lemma_line_of(t, k);
        }
        let l = self.line_index(offset);
        proof {
            // the line found is the line of `k`
            let m = line_of(t, k);
            assert(self.line_start_chars@[l as int] as int == ls[l as int]);
            assert(self.line_start_chars@[m] as int == ls[m]);
            if ls[l as int] > k {
                lemma_byte_offset_strict(t, k, ls[l as int]);
            }
            if l + 1 < ls.len() {
                assert(self.line_start_chars@[l + 1] as int == ls[l + 1]);
                if ls[l + 1] <= k {
                    if ls[l + 1] < k {
                        lemma_byte_offset_strict(t, ls[l + 1], k);
                    }
                }
            }
            if (l as int) < m {
                if l + 1 < m {
                    assert(ls[l + 1] < ls[m]);
                }
            } else if (l as int) > m {
                assert(ls[m + 1] <= ls[l as int]);
            }
            assert(l as int == m);
        }
        let mut c = self.line_start_chars[l];
        let mut b = self.line_starts[l];
        let mut col: usize = 0;
        proof {
            lemma_utf16_len_take_mono(t, c as int, k);
            lemma_utf8_len_take_mono(t, k, t.len() as int);
            assert(t.take(t.len() as int) =~= t);
            lemma_utf16_le_utf8(t.take(k));
            lemma_utf16_le_utf8(t);
        }
        while b < offset
            invariant
                t == self.chars@,
                self.wf(),
                0 <= k <= t.len(),
                byte_offset(t, k) == offset,
                line_begin(t, k) <= c <= k,
                b as int == byte_offset(t, c as int),
                col as int == utf16_len(t.take(c as int)) - utf16_len(t.take(line_begin(t, k))),
                utf16_len(t.take(k)) <= utf8_len(t),
                utf8_len(t) <= usize::MAX,
                t.len() <= usize::MAX,
            decreases k - c,
        {
            proof {
                if c as int == k {
                    assert(b == offset);
                }
                lemma_utf8_len_take_step(t, c as int);
                lemma_utf16_len_take_step(t, c as int);
                lemma_utf16_len_take_mono(t, c as int + 1, k);
                lemma_utf8_len_take_mono(t, c as int + 1, t.len() as int);
                assert(t.take(t.len() as int) =~= t);
            }
            let ch = self.chars[c];
            b = b + char_utf8_width(ch);
            col = col + char_utf16_width(ch) as usize;
            c = c + 1;
        }
        proof {
            if (c as int) < k {
                lemma_byte_offset_strict(t, c as int, k);
            }
        }
        Point { line: #[verifier::truncate] (l as u32), col: #[verifier::truncate] (col as u32) }
    }

    /// Whether `offset` is the byte offset of a character index of the text.
    pub fn is_char_boundary(&self, offset: usize) -> (r: bool)
        requires
            self.wf(),
        ensures
            r == is_boundary(self@, offset as int),
    {
        let ghost t = self.chars@;
        let ghost ls = line_start_chars(t);
        proof {
            lemma_line_starts_shape(t);
            self.lemma_sorted();
            lemma_utf16_le_utf8(t);
        }
        let l = self.line_index(offset);
        let mut c = self.line_start_chars[l];
        let mut b = self.line_starts[l];
        proof {
            assert(self.line_start_chars@[l as int] as int == ls[l as int]);
            assert forall|j: int| 0 <= j < c implies byte_offset(t, j) < offset by {
                lemma_byte_offset_strict(t, j, c as int);
            }
        }
        while b < offset && c < self.chars.len()
            invariant
                t == self.chars@,
                self.wf(),
                c <= t.len(),
                b as int == byte_offset(t, c as int),
                forall|j: int| 0 <= j < c ==> byte_offset(t, j) < offset,
                utf8_len(t) <= usize::MAX,
                t.len() <= usize::MAX,
            decreases t.len() - c,
        {
            proof {
                lemma_utf8_len_take_step(t, c as int);
                lemma_utf8_len_take_mono(t, c as int + 1, t.len() as int);
                assert(t.take(t.len() as int) =~= t);
            }
            let ch = self.chars[c];
            b = b + char_utf8_width(ch);
            c = c + 1;
        }
        if b == offset {
            proof {
                assert(0 <= c <= t.len() && byte_offset(t, c as int) == offset);
            }
            true
        } else {
            proof {
                if is_boundary(t, offset as int) {
                    let k = choose|k: int| 0 <= k <= t.len() && byte_offset(t, k) == offset;
                    if k > c {
                        lemma_byte_offset_strict(t, c as int, k);
                    }
                }
            }
            false
        }
    }

    /// The character index of the byte offset `offset` of the text.
    pub fn char_index(&self, offset: usize) -> (k: usize)
        requires
            self.wf(),
            is_boundary(self@, offset as int),
        ensures
            k as int == boundary_index(self@, offset as int),
            k <= self@.len(),
    {
        let ghost t = self.chars@;
        let ghost k = boundary_index(t, offset as int);
        let ghost ls = line_start_chars(t);
        proof {
            lemma_line_starts_shape(t);
        }
        let l = self.line_index(offset);
        proof {
            assert(self.line_start_chars@[l as int] as int == ls[l as int]);
            if ls[l as int] > k {
                lemma_byte_offset_strict(t, k, ls[l as int]);
            }
            lemma_utf8_len_take_mono(t, k, t.len() as int);
            assert(t.take(t.len() as int) =~= t);
            lemma_utf16_le_utf8(t);
        }
        let mut c = self.line_start_chars[l];
        let mut b = self.line_starts[l];
        while b < offset
            invariant
                t == self.chars@,
                self.wf(),
                0 <= k <= t.len(),
                byte_offset(t, k) == offset,
                c <= k,
                b as int == byte_offset(t, c as int),
                utf8_len(t) <= usize::MAX,
                t.len() <= usize::MAX,
            decreases k - c,
        {
            proof {
                if c as int == k {
                    assert(b == offset);
                }
                lemma_utf8_len_take_step(t, c as int);
                lemma_utf8_len_take_mono(t, c as int + 1, t.len() as int);
                assert(t.take(t.len() as int) =~= t);
            }
            let ch = self.chars[c];
            b = b + char_utf8_width(ch);
            c = c + 1;
        }
        proof {
            if (c as int) < k {
                lemma_byte_offset_strict(t, c as int, k);
            }
        }
        c
    }

    /// The byte offset of the point `point` of `text`, if it lies within a line.
    pub fn point_to_offset(&self, text: &str, point: Point) -> (r: Option<usize>)
        requires
            self.wf(),
            text@ == self@,
        ensures
            match r {
                Some(o) => point_offset(text@, point) == Some(o as int),
                None => point_offset(text@, point) is None,
            },
    {
        let ghost t = self.chars@;
        let ghost ls = line_start_chars(t);
        proof {
            lemma_line_starts_shape(t);
        }
        let l = point.line as usize;
        if l >= self.line_starts.len() {
            return None;
        }
        let line_start = self.line_starts[l];
        let s = self.line_start_chars[l];
        proof {
            assert(self.line_start_chars@[l as int] as int == ls[l as int]);
            if l + 1 < ls.len() {
                assert(self.line_start_chars@[l + 1] as int == ls[l + 1]);
            }
            assert(t.take(t.len() as int) =~= t);
        }
        let mut i = s;
        let mut b = line_start;
        let mut current_col: u32 = 0;
        while i < self.chars.len()
            invariant
                t == self.chars@,
                self.wf(),
                ls == line_start_chars(t),
                0 <= l < ls.len(),
                text@ == t,
                l as int == point.line as int,
                s as int == ls[l as int],
                s <= i <= line_end(t, l as int),
                line_end(t, l as int) <= t.len(),
                b as int == byte_offset(t, i as int),
                current_col as int == utf16_len(t.take(i as int)) - utf16_len(t.take(s as int)),
                current_col <= point.col,
                forall|k: int|
                    s <= k < i ==> #[trigger] utf16_len(t.take(k)) - utf16_len(t.take(s as int)) < point.col,
                utf8_len(t) <= usize::MAX,
            decreases t.len() - i,
        {
            if current_col == point.col {
                proof {
                    self.lemma_point_found(t, l as int, i as int, point);
                }
                return Some(b);
            }
            let c = self.chars[i];
            if c == '\n' {
                proof {
                    self.lemma_point_missing_at_newline(t, l as int, i as int, point);
                }
                return None;
            }
            proof {
                lemma_utf8_len_take_step(t, i as int);
                lemma_utf16_len_take_step(t, i as int);
                lemma_utf8_len_take_mono(t, i as int + 1, t.len() as int);
                assert(t.take(t.len() as int) =~= t);
                lemma_line_starts_shape(t);
                if l + 1 < ls.len() {
                    // a line ends at its newline
                    assert(t[ls[l + 1] - 1] == '\n');
                    assert(i as int != ls[l + 1] - 1);
                }
            }
            let w = char_utf16_width(c);
            b = b + char_utf8_width(c);
            i = i + 1;
            if w > point.col - current_col {
                proof {
                    lemma_cols_exceed(t, s as int, i as int, line_end(t, l as int), point.col as int);
                    self.lemma_point_missing(t, l as int, point);
                }
                return None;
            }
            current_col = current_col + w;
        }
        if current_col == point.col {
            proof {
                self.lemma_point_found(t, l as int, i as int, point);
            }
            Some(b)
        } else {
            proof {
                assert(line_end(t, l as int) == t.len());
                self.lemma_point_missing(t, l as int, point);
            }
            None
        }
    }

    proof fn lemma_point_found(&self, t: Seq<char>, l: int, i: int, point: Point)
        requires
            0 <= l < line_start_chars(t).len(),
            l == point.line as int,
            line_start_chars(t)[l] <= i <= line_end(t, l),
            utf16_len(t.take(i)) - utf16_len(t.take(line_start_chars(t)[l])) == point.col,
            line_end(t, l) <= t.len(),
        ensures
            point_offset(t, point) == Some(byte_offset(t, i)),
    {
        lemma_line_starts_shape(t);
        let s = line_start_chars(t)[l];
        let k = choose|k: int|
            s <= k <= line_end(t, l) && #[trigger] utf16_len(t.take(k)) - utf16_len(t.take(s)) == point.col;
        if k < i {
            lemma_utf16_len_take_mono(t, k, i);
        } else if k > i {
            lemma_utf16_len_take_mono(t, i, k);
        }
    }

    proof fn lemma_point_missing_at_newline(&self, t: Seq<char>, l: int, i: int, point: Point)
        requires
            0 <= l < line_start_chars(t).len(),
            l == point.line as int,
            line_start_chars(t)[l] <= i <= line_end(t, l),
            i < t.len(),
            t[i] == '\n',
            forall|k: int|
                line_start_chars(t)[l] <= k <= i ==> #[trigger] utf16_len(t.take(k)) - utf16_len(
                    t.take(line_start_chars(t)[l]),
                ) != point.col,
        ensures
            point_offset(t, point) is None,
    {
        lemma_line_starts_shape(t);
        let ls = line_start_chars(t);
        // the newline at `i` ends line `l`
        lemma_line_of(t, i + 1);
        lemma_line_of_within(t, l, i);
        assert(t.take(i + 1).drop_last() =~= t.take(i));
        assert(line_of(t, i + 1) == l + 1);
        assert(line_begin(t, i + 1) == i + 1);
        assert(line_end(t, l) == i);
    }

    proof fn lemma_point_missing(&self, t: Seq<char>, l: int, point: Point)
        requires
            0 <= l < line_start_chars(t).len(),
            l == point.line as int,
            forall|k: int|
                line_start_chars(t)[l] <= k <= line_end(t, l) ==> #[trigger] utf16_len(t.take(k)) - utf16_len(
                    t.take(line_start_chars(t)[l]),
                ) != point.col,
        ensures
            point_offset(t, point) is None,
    {
    }
}

proof fn lemma_cols_exceed(t: Seq<char>, s: int, i: int, e: int, col: int)
    requires
        0 <= s < i <= t.len(),
        e <= t.len(),
        forall|k: int| s <= k < i - 1 ==> #[trigger] utf16_len(t.take(k)) - utf16_len(t.take(s)) < col,
        utf16_len(t.take(i)) - utf16_len(t.take(s)) > col,
        utf16_len(t.take(i - 1)) - utf16_len(t.take(s)) < col,
    ensures
        forall|k: int| s <= k <= e ==> #[trigger] utf16_len(t.take(k)) - utf16_len(t.take(s)) != col,
{
    assert forall|k: int| s <= k <= e implies #[trigger] utf16_len(t.take(k)) - utf16_len(t.take(s)) != col by {
        if k >= i {
            lemma_utf16_len_take_mono(t, i, k);
        } else if k < i - 1 {
        } else {
        }
    }
}

// ---------------------------------------------------------------------------
// Laws
// ---------------------------------------------------------------------------

/// A character index goes to its point and back: the offset of the point of
/// the offset of `k` is that offset, when line and column fit in `u32`.
pub proof fn lemma_point_round_trip(t: Seq<char>, k: int)
    requires
        0 <= k <= t.len(),
        line_of(t, k) <= u32::MAX,
        utf16_len(t.take(k)) - utf16_len(t.take(line_begin(t, k))) <= u32::MAX,
    ensures
        point_offset(t, point_at(t, boundary_index(t, byte_offset(t, k)))) == Some(byte_offset(t, k)),
{
    lemma_boundary_index(t, k);
    lemma_line_of(t, k);
    lemma_line_starts_shape(t);
    let p = point_at(t, k);
    let l = line_of(t, k);
    let ls = line_start_chars(t);
    assert(p.line as int == l);
    assert(k <= line_end(t, l));
    lemma_utf16_len_take_mono(t, line_begin(t, k), k);
    let j = choose|j: int|
        ls[l] <= j <= line_end(t, l) && #[trigger] utf16_len(t.take(j)) - utf16_len(t.take(ls[l])) == p.col;
    if j < k {
        lemma_utf16_len_take_mono(t, j, k);
    } else if j > k {
        lemma_utf16_len_take_mono(t, k, j);
    }
}

/// A point that lies within a line goes to its offset and back.
pub proof fn lemma_offset_round_trip(t: Seq<char>, p: Point)
    requires
        point_offset(t, p) is Some,
    ensures
        is_boundary(t, point_offset(t, p)->0),
        point_at(t, boundary_index(t, point_offset(t, p)->0)) == p,
{
    lemma_line_starts_shape(t);
    let k = point_char_index(t, p)->0;
    let l = p.line as int;
    let ls = line_start_chars(t);
    assert(ls[l] <= k <= line_end(t, l));
    if l + 1 < ls.len() {
        assert(ls[l + 1] <= t.len());
    }
    assert(0 <= ls[l]);
    lemma_boundary_index(t, k);
    lemma_line_of_within(t, l, k);
}

} // verus!

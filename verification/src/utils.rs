//! Note identifiers from paths, heading anchors, fresh ids and the clock.
use vstd::prelude::*;
use crate::paths::main_separator;
use crate::text::{
    char_is_whitespace, chars_of, is_white_space, seq_ends_with, slice_sub, string_of,
};

verus! {

// ---------------------------------------------------------------------------
// normalize_path_to_id
// ---------------------------------------------------------------------------

/// `s` without its ".md" extension, if it has one.
pub open spec fn trim_md_suffix(s: Seq<char>) -> Seq<char> {
    if s.len() >= 3 && seq_ends_with(s, seq!['.', 'm', 'd']) {
        s.take(s.len() - 3)
    } else {
        s
    }
}

/// `s` with every `\` replaced by `/`.
pub open spec fn backslashes_to_slashes(s: Seq<char>) -> Seq<char> {
    s.map_values(|c: char| if c == '\\' { '/' } else { c })
}

/// `path` as a note ID, where `sep` is the platform's path separator: with
/// `\` as separator, backslashes become forward slashes; then the `.md`
/// extension is removed.
pub open spec fn normalized_id(path: Seq<char>, sep: char) -> Seq<char> {
    if sep == '\\' {
        trim_md_suffix(backslashes_to_slashes(path))
    } else {
        trim_md_suffix(path)
    }
}

/// The characters of `path` with every backslash turned into a slash.
fn slashed_chars(path: &str) -> (s: Vec<char>)
    ensures
        s@ == backslashes_to_slashes(path@),
{
    let mut s = chars_of(path);
    let mut i: usize = 0;
    let ghost orig = s@;
    while i < s.len()
        invariant
            orig == path@,
            s@.len() == orig.len(),
            i <= s@.len(),
            forall|j: int| 0 <= j < i ==> s@[j] == (if orig[j] == '\\' { '/' } else { orig[j] }),
            forall|j: int| i <= j < s@.len() ==> s@[j] == orig[j],
        decreases s@.len() - i,
    {
        if s[i] == '\\' {
            s.set(i, '/');
        }
        i = i + 1;
    }
    assert(s@ =~= backslashes_to_slashes(path@));
    s
}

/// `path` with every backslash turned into a slash.
pub fn replace_backslashes(path: &str) -> (r: String)
    ensures
        r@ == backslashes_to_slashes(path@),
{
    let s = slashed_chars(path);
    string_of(s.as_slice())
}

/// Normalize a file path to a note ID, for the path separator `sep`.
pub fn normalize_path_with_separator(path: &str, sep: char) -> (r: String)
    ensures
        r@ == normalized_id(path@, sep),
{
    let mut s = chars_of(path);
    if sep == '\\' {
        s = slashed_chars(path);
    }
    let mut n = s.len();
    if n >= 3 && s[n - 3] == '.' && s[n - 2] == 'm' && s[n - 1] == 'd' {
        proof {
            assert(s@.skip(s@.len() - 3) =~= seq!['.', 'm', 'd']);
        }
        n = n - 3;
    } else {
        proof {
            if s@.len() >= 3 && seq_ends_with(s@, seq!['.', 'm', 'd']) {
                assert(s@.skip(s@.len() - 3)[0] == '.');
                assert(s@.skip(s@.len() - 3)[1] == 'm');
                assert(s@.skip(s@.len() - 3)[2] == 'd');
            }
        }
    }
    let v = slice_sub(s.as_slice(), 0, n);
    assert(v@ =~= s@.take(n as int));
    string_of(v.as_slice())
}

/// Normalize a file path to a note ID: on Windows backslashes become forward
/// slashes, and the `.md` extension is removed.
///
/// ```
/// use dendrite_core::utils::normalize_path_to_id;
///
/// assert_eq!(normalize_path_to_id("foo/bar.md"), "foo/bar");
/// assert_eq!(normalize_path_to_id("note.md"), "note");
/// ```
pub fn normalize_path_to_id(path: &str) -> (r: String)
    ensures
        r@ == normalized_id(path@, '/') || r@ == normalized_id(path@, '\\'),
{
    normalize_path_with_separator(path, main_separator())
}

// ---------------------------------------------------------------------------
// slugify_heading
// ---------------------------------------------------------------------------

/// What `str::to_lowercase` gives for `s`.
pub uninterp spec fn lowercase_of(s: Seq<char>) -> Seq<char>;

/// What `char::is_alphabetic` gives for `c` (the Unicode `Alphabetic` property).
pub uninterp spec fn alphabetic_char(c: char) -> bool;

/// What `char::is_numeric` gives for `c` (Unicode general categories Nd, Nl, No).
pub uninterp spec fn numeric_char(c: char) -> bool;

/// Every character of `s` is ASCII.
pub open spec fn ascii_text(s: Seq<char>) -> bool {
    forall|i: int| 0 <= i < s.len() ==> (#[trigger] s[i] as u32) < 128
}

/// `c` with an ASCII capital letter made small.
pub open spec fn ascii_lower_char(c: char) -> char {
    if 'A' <= c && c <= 'Z' {
        ((c as u32) + 32) as char
    } else {
        c
    }
}

/// `s` with each ASCII capital letter made small.
pub open spec fn ascii_lowered(s: Seq<char>) -> Seq<char> {
    s.map_values(|c: char| ascii_lower_char(c))
}

/// `str::to_lowercase`: the lowercase of `s` by the Unicode `Lowercase`
/// mapping.  Stated here only for ASCII text, where it makes each capital
/// letter `A`-`Z` small and leaves every other character as it is (the
/// mapping of every other character is left to the name `lowercase_of`).
#[verifier::external_body]
pub(crate) fn to_lowercase(s: &str) -> (r: String)
    ensures
        r@ == lowercase_of(s@),
        ascii_text(s@) ==> r@ == ascii_lowered(s@),
{
    s.to_lowercase()
}

/// `char::is_alphabetic`: whether `c` has the Unicode `Alphabetic`
/// property, which among ASCII characters the letters `A`-`Z` and `a`-`z`
/// have, and no other.
#[verifier::external_body]
pub(crate) fn char_is_alphabetic(c: char) -> (r: bool)
    ensures
        r == alphabetic_char(c),
        (c as u32) < 128 ==> r == (('a' <= c && c <= 'z') || ('A' <= c && c <= 'Z')),
{
    c.is_alphabetic()
}

/// `char::is_numeric`: whether `c` is in one of the Unicode general
/// categories `Nd`, `Nl` and `No`, which among ASCII characters the digits
/// `0`-`9` are, and no other.
#[verifier::external_body]
pub(crate) fn char_is_numeric(c: char) -> (r: bool)
    ensures
        r == numeric_char(c),
        (c as u32) < 128 ==> r == ('0' <= c && c <= '9'),
{
    c.is_numeric()
}

/// A character that an anchor keeps as it is.
pub open spec fn slug_kept(c: char) -> bool {
    alphabetic_char(c) || numeric_char(c) || c == '-' || c == '_'
}

/// What a character becomes in an anchor: kept, a hyphen for white space,
/// else nothing.
pub open spec fn slug_piece(c: char) -> Seq<char> {
    if slug_kept(c) {
        seq![c]
    } else if is_white_space(c) {
        seq!['-']
    } else {
        Seq::empty()
    }
}

/// The characters of `s`, each replaced by its piece of an anchor.
pub open spec fn slug_pieces(s: Seq<char>) -> Seq<char>
    decreases s.len(),
{
    if s.len() == 0 {
        Seq::empty()
    } else {
        slug_pieces(s.drop_last()) + slug_piece(s.last())
    }
}

/// Index of the first character of `s` at or after `from` that is not `-`.
pub open spec fn first_non_hyphen(s: Seq<char>, from: int) -> int
    decreases s.len() - from,
{
    if from >= s.len() {
        s.len() as int
    } else if s[from] == '-' {
        first_non_hyphen(s, from + 1)
    } else {
        from
    }
}

/// Index past the last character of `s[lo..hi]` that is not `-` (or `lo`).
pub open spec fn last_non_hyphen_end(s: Seq<char>, lo: int, hi: int) -> int
    decreases hi - lo,
{
    if hi <= lo {
        lo
    } else if s[hi - 1] == '-' {
        last_non_hyphen_end(s, lo, hi - 1)
    } else {
        hi
    }
}

/// `s` without leading and trailing hyphens.
pub open spec fn trim_hyphens(s: Seq<char>) -> Seq<char> {
    let lo = first_non_hyphen(s, 0);
    s.subrange(lo, last_non_hyphen_end(s, lo, s.len() as int))
}

/// The anchor of a heading text.
pub open spec fn slug_of(text: Seq<char>) -> Seq<char> {
    trim_hyphens(slug_pieces(lowercase_of(text)))
}

proof fn lemma_first_non_hyphen(s: Seq<char>, from: int)
    requires
        0 <= from <= s.len(),
    ensures
        from <= first_non_hyphen(s, from) <= s.len(),
        first_non_hyphen(s, from) < s.len() ==> s[first_non_hyphen(s, from)] != '-',
    decreases s.len() - from,
{
    if from < s.len() && s[from] == '-' {
        lemma_first_non_hyphen(s, from + 1);
    }
}

proof fn lemma_last_non_hyphen_end(s: Seq<char>, lo: int, hi: int)
    requires
        0 <= lo <= hi <= s.len(),
        lo < s.len() ==> s[lo] != '-',
    ensures
        lo <= last_non_hyphen_end(s, lo, hi) <= hi,
        lo < last_non_hyphen_end(s, lo, hi) ==> s[last_non_hyphen_end(s, lo, hi) - 1] != '-',
    decreases hi - lo,
{
    if hi > lo && s[hi - 1] == '-' {
        lemma_last_non_hyphen_end(s, lo, hi - 1);
    }
}

proof fn lemma_slug_pieces_chars(s: Seq<char>)
    ensures
        forall|i: int|
            0 <= i < slug_pieces(s).len() ==> slug_kept(#[trigger] slug_pieces(s)[i])
                || slug_pieces(s)[i] == '-',
    decreases s.len(),
{
    if s.len() > 0 {
        lemma_slug_pieces_chars(s.drop_last());
        let a = slug_pieces(s.drop_last());
        let b = slug_piece(s.last());
        assert forall|i: int| 0 <= i < (a + b).len() implies slug_kept(#[trigger] (a + b)[i]) || (a
            + b)[i] == '-' by {
            if i >= a.len() {
                assert((a + b)[i] == b[i - a.len()]);
            } else {
                assert((a + b)[i] == a[i]);
            }
        }
    }
}

/// An ASCII character that an anchor keeps: a letter, a digit, `-` or `_`.
pub open spec fn ascii_kept(c: char) -> bool {
    ('a' <= c && c <= 'z') || ('A' <= c && c <= 'Z') || ('0' <= c && c <= '9') || c == '-' || c
        == '_'
}

/// What an ASCII character becomes in an anchor.
pub open spec fn ascii_piece(c: char) -> Seq<char> {
    if ascii_kept(c) {
        seq![c]
    } else if is_white_space(c) {
        seq!['-']
    } else {
        Seq::empty()
    }
}

/// The characters of the ASCII text `s`, each replaced by its piece of an
/// anchor.
pub open spec fn ascii_pieces(s: Seq<char>) -> Seq<char>
    decreases s.len(),
{
    if s.len() == 0 {
        Seq::empty()
    } else {
        ascii_pieces(s.drop_last()) + ascii_piece(s.last())
    }
}

/// The anchor of an ASCII heading text: its ASCII lowercase, each character
/// replaced by its piece, without leading and trailing hyphens.
pub open spec fn ascii_slug(text: Seq<char>) -> Seq<char> {
    trim_hyphens(ascii_pieces(ascii_lowered(text)))
}

proof fn lemma_ascii_pieces_from(s: Seq<char>)
    ensures
        forall|i: int|
            0 <= i < ascii_pieces(s).len() ==> ascii_kept(#[trigger] ascii_pieces(s)[i]) && (
            ascii_pieces(s)[i] == '-' || s.contains(ascii_pieces(s)[i])),
    decreases s.len(),
{
    if s.len() > 0 {
        let u = s.drop_last();
        lemma_ascii_pieces_from(u);
        let a = ascii_pieces(u);
        let b = ascii_piece(s.last());
        assert forall|i: int| 0 <= i < (a + b).len() implies ascii_kept(#[trigger] (a + b)[i]) && (
        (a + b)[i] == '-' || s.contains((a + b)[i])) by {
            if i >= a.len() {
                assert((a + b)[i] == b[i - a.len()]);
                if (a + b)[i] != '-' {
                    assert(s[s.len() - 1] == s.last());
                }
            } else {
                assert((a + b)[i] == a[i]);
                if a[i] != '-' {
                    let j = choose|j: int| 0 <= j < u.len() && u[j] == a[i];
                    assert(s[j] == u[j]);
                }
            }
        }
    }
}

proof fn lemma_ascii_pieces_keep(s: Seq<char>)
    requires
        forall|i: int| 0 <= i < s.len() ==> ascii_kept(#[trigger] s[i]),
    ensures
        ascii_pieces(s) == s,
    decreases s.len(),
{
    if s.len() > 0 {
        let u = s.drop_last();
        assert forall|i: int| 0 <= i < u.len() implies ascii_kept(#[trigger] u[i]) by {
            assert(u[i] == s[i]);
        }
        lemma_ascii_pieces_keep(u);
        assert(ascii_kept(s[s.len() - 1]));
        assert(u + seq![s.last()] =~= s);
    }
}

/// Slugifying ASCII text twice gives what slugifying it once gives: the
/// anchor of an ASCII heading is ASCII and is its own anchor.
pub proof fn lemma_ascii_slug_idempotent(text: Seq<char>)
    requires
        ascii_text(text),
    ensures
        ascii_text(ascii_slug(text)),
        ascii_slug(ascii_slug(text)) == ascii_slug(text),
{
    let lower = ascii_lowered(text);
    let p = ascii_pieces(lower);
    let r = ascii_slug(text);
    let lo = first_non_hyphen(p, 0);
    let hi = last_non_hyphen_end(p, lo, p.len() as int);
    lemma_first_non_hyphen(p, 0);
    lemma_last_non_hyphen_end(p, lo, p.len() as int);
    lemma_ascii_pieces_from(lower);
    assert(r == p.subrange(lo, hi));
    // Each character of the anchor is ASCII, no capital, and kept.
    assert forall|i: int| 0 <= i < r.len() implies {
        &&& (#[trigger] r[i] as u32) < 128
        &&& ascii_lower_char(r[i]) == r[i]
        &&& ascii_kept(r[i])
    } by {
        assert(r[i] == p[lo + i]);
        assert(ascii_kept(p[lo + i]));
        if p[lo + i] != '-' {
            assert(lower.contains(p[lo + i]));
            let j = choose|j: int| 0 <= j < lower.len() && lower[j] == p[lo + i];
            assert(lower[j] == ascii_lower_char(text[j]));
            assert((text[j] as u32) < 128);
        }
    }
    assert(ascii_lowered(r) =~= r);
    lemma_ascii_pieces_keep(r);
    if r.len() > 0 {
        assert(r[0] == p[lo]);
        assert(r[r.len() - 1] == p[hi - 1]);
        assert(first_non_hyphen(r, 0) == 0);
        assert(last_non_hyphen_end(r, 0, r.len() as int) == r.len());
    } else {
        assert(first_non_hyphen(r, 0) == 0);
    }
    assert(r.subrange(0, r.len() as int) =~= r);
}

/// Slugify a heading text to create a URL-safe anchor ID: lowercase it, keep
/// letters, digits, `-` and `_`, turn white space into `-`, drop every other
/// character (emoji, ASCII punctuation), and trim leading and trailing `-`.
///
/// ```
/// use dendrite_core::utils::slugify_heading;
///
/// assert_eq!(slugify_heading("My Cool Header"), "my-cool-header");
/// assert_eq!(slugify_heading("Hello (World)!"), "hello-world");
/// assert_eq!(slugify_heading("A  B"), "a--b");
/// assert_eq!(slugify_heading("-Hello-"), "hello");
/// assert_eq!(slugify_heading("!!!"), "");
/// ```
pub fn slugify_heading(text: &str) -> (r: String)
    ensures
        r@ == slug_of(text@),
        ascii_text(text@) ==> r@ == ascii_slug(text@),
        r@.len() > 0 ==> r@[0] != '-' && r@.last() != '-',
        forall|i: int| 0 <= i < r@.len() ==> slug_kept(#[trigger] r@[i]) || r@[i] == '-',
{
    let lower = to_lowercase(text);
    let cs = chars_of(lower.as_str());
    let mut pieces: Vec<char> = Vec::new();
    let mut i: usize = 0;
    while i < cs.len()
        invariant
            i <= cs@.len(),
            pieces@ == slug_pieces(cs@.take(i as int)),
            cs@ == lowercase_of(text@),
            ascii_text(text@) ==> cs@ == ascii_lowered(text@) && pieces@ == ascii_pieces(
                cs@.take(i as int),
            ),
        decreases cs@.len() - i,
    {
        let c = cs[i];
        proof {
            assert(cs@.take(i as int + 1).drop_last() =~= cs@.take(i as int));
            assert(cs@.take(i as int + 1).last() == c);
        }
        if char_is_alphabetic(c) || char_is_numeric(c) || c == '-' || c == '_' {
            pieces.push(c);
        } else if char_is_whitespace(c) {
            pieces.push('-');
        }
        proof {
            assert(pieces@ =~= slug_pieces(cs@.take(i as int)) + slug_piece(c));
            if ascii_text(text@) {
                assert(cs@[i as int] == ascii_lower_char(text@[i as int]));
                assert((text@[i as int] as u32) < 128);
                assert((c as u32) < 128);
                assert(pieces@ =~= ascii_pieces(cs@.take(i as int)) + ascii_piece(c));
            }
        }
        i = i + 1;
    }
    proof {
        assert(cs@.take(cs@.len() as int) =~= cs@);
    }
    let ghost p = pieces@;
    let mut lo: usize = 0;
    while lo < pieces.len() && pieces[lo] == '-'
        invariant
            lo <= p.len(),
            p == pieces@,
            first_non_hyphen(p, 0) == first_non_hyphen(p, lo as int),
        decreases p.len() - lo,
    {
        lo = lo + 1;
    }
    let mut hi: usize = pieces.len();
    while hi > lo && pieces[hi - 1] == '-'
        invariant
            lo <= hi <= p.len(),
            p == pieces@,
            last_non_hyphen_end(p, lo as int, p.len() as int) == last_non_hyphen_end(
                p,
                lo as int,
                hi as int,
            ),
        decreases hi,
    {
        hi = hi - 1;
    }
    proof {
        lemma_first_non_hyphen(p, 0);
        lemma_last_non_hyphen_end(p, lo as int, p.len() as int);
        lemma_slug_pieces_chars(cs@);
    }
    let v = slice_sub(pieces.as_slice(), lo, hi);
    let r = string_of(v.as_slice());
    proof {
        assert forall|i: int| 0 <= i < r@.len() implies slug_kept(#[trigger] r@[i]) || r@[i]
            == '-' by {
            assert(r@[i] == p[lo + i]);
        }
    }
    r
}

// ---------------------------------------------------------------------------
// Fresh identifiers and the clock
// ---------------------------------------------------------------------------

/// A character of nanoid's URL-safe alphabet `_-0-9a-zA-Z`.
pub open spec fn url_safe_char(c: char) -> bool {
    c == '_' || c == '-' || ('0' <= c && c <= '9') || ('a' <= c && c <= 'z') || ('A' <= c && c
        <= 'Z')
}

/// A new random 23-character URL-safe note id, as Dendron makes them
/// (`nanoid::format` with nanoid's default random source and its `SAFE` alphabet).
#[verifier::external_body]
pub fn generate_id() -> (r: String)
    ensures
        r@.len() == 23,
        forall|i: int| 0 <= i < r@.len() ==> url_safe_char(#[trigger] r@[i]),
{
    nanoid::format(nanoid::rngs::default, &nanoid::alphabet::SAFE, 23)
}

/// The current time in milliseconds since the Unix epoch (`SystemTime::now`
/// and `SystemTime::duration_since`); `None` when the clock reads a time
/// before the epoch.  Nothing is stated of the value: it depends on the clock.
#[verifier::external_body]
pub fn now() -> Option<u64> {
    match std::time::SystemTime::now().duration_since(std::time::UNIX_EPOCH) {
        Ok(d) => Some(d.as_millis() as u64),
        Err(_) => None,
    }
}

} // verus!

//! The data model: notes, links, headings, blocks and text coordinates.
use vstd::prelude::*;
use crate::digest::hex_digit;

verus! {

/// Stable identifier of a note, the 128-bit value of a UUID.
///
/// It is the only identifier that survives renames and moves of the file.
#[derive(Debug, Clone, Copy, PartialEq, Eq, Hash, Structural, Default)]
pub struct NoteId(pub u128);

impl NoteId {
    /// A new random identifier (a version-4 UUID).
    pub fn new() -> (r: Self)
        ensures
            r.0 & 0xF000_C000_0000_0000_0000u128 == 0x4000_8000_0000_0000_0000u128,
    {
        NoteId(random_uuid())
    }

    /// The identifier as UUID text (`xxxxxxxx-xxxx-xxxx-xxxx-xxxxxxxxxxxx`).
    pub fn to_uuid_string(&self) -> (r: String)
        ensures
            r@ == uuid_text(self.0),
    {
        uuid_string(self.0)
    }
}

/// Draws a random version-4 UUID with `uuid::Uuid::new_v4` and gives its
/// 128-bit value.  The value is random; the contract states only the version
/// and variant bits that `new_v4` sets.
#[verifier::external_body]
fn random_uuid() -> (r: u128)
    ensures
        r & 0xF000_C000_0000_0000_0000u128 == 0x4000_8000_0000_0000_0000u128,
{
    uuid::Uuid::new_v4().as_u128()
}

/// The `i`-th of the 32 hexadecimal digits of `v`, most significant first.
pub open spec fn uuid_nibble(v: u128, i: int) -> u8 {
    ((v >> ((124 - 4 * i) as u128)) & 15u128) as u8
}

/// Which of the 32 digits character `k` of UUID text shows, for a `k` that
/// is not one of the hyphens at 8, 13, 18 and 23.
pub open spec fn uuid_digit_index(k: int) -> int {
    if k < 8 {
        k
    } else if k < 13 {
        k - 1
    } else if k < 18 {
        k - 2
    } else if k < 23 {
        k - 3
    } else {
        k - 4
    }
}

/// UUID text of `v`: its 32 lowercase hexadecimal digits, most significant
/// first, in groups of 8, 4, 4, 4 and 12 separated by hyphens.
pub open spec fn uuid_text(v: u128) -> Seq<char> {
    Seq::new(
        36,
        |k: int|
            if k == 8 || k == 13 || k == 18 || k == 23 {
                '-'
            } else {
                hex_digit(uuid_nibble(v, uuid_digit_index(k)))
            },
    )
}

/// Formats `v` as a UUID with `uuid::Uuid::from_u128` and its `Display`,
/// which writes the hyphenated lowercase form of the big-endian bytes of
/// `v`: the contract states that text.
#[verifier::external_body]
fn uuid_string(v: u128) -> (r: String)
    ensures
        r@ == uuid_text(v),
{
    uuid::Uuid::from_u128(v).to_string()
}

/// Changeable name of a note.
pub type NoteKey = String;

/// Name of a semantic model (e.g. "Dendron").
#[derive(Debug, Clone, Copy, PartialEq, Eq, Hash)]
pub struct ModelId(pub &'static str);

/// A position in a document: 0-based line, and column in UTF-16 code units.
#[derive(Debug, Clone, Copy, PartialEq, Eq, Structural, Default)]
pub struct Point {
    pub line: u32,
    pub col: u32,
}

/// A range between two points of a document.
#[derive(Debug, Clone, Copy, PartialEq, Eq, Structural, Default)]
pub struct TextRange {
    pub start: Point,
    pub end: Point,
}

/// A heading of a document.
#[derive(Debug, Clone, Default)]
pub struct Heading {
    pub level: u8,
    pub text: String,
    pub range: TextRange,
}

/// A block carrying an identifier (`... ^block-id`).
#[derive(Debug, Clone, Default)]
pub struct Block {
    pub id: String,
    pub range: TextRange,
}

/// Order of alias and target inside a wiki link.
#[derive(Debug, Clone, Copy, PartialEq, Eq, Structural, Default)]
pub enum WikiLinkFormat {
    /// `[[alias|target]]`
    #[default]
    AliasFirst,
    /// `[[target|alias]]`
    TargetFirst,
}

/// The syntactic kind of a link.
#[derive(Debug, Clone, Copy, PartialEq, Eq, Structural)]
pub enum LinkKind {
    WikiLink(WikiLinkFormat),
    EmbeddedWikiLink(WikiLinkFormat),
    /// `[label](target)`
    MarkdownLink,
    /// `![alt](target)`
    MarkdownImage,
    /// `<http://example.com>`
    AutoLink,
}

impl Default for LinkKind {
    fn default() -> (r: Self)
        ensures
            r == LinkKind::WikiLink(WikiLinkFormat::AliasFirst),
    {
        LinkKind::WikiLink(WikiLinkFormat::AliasFirst)
    }
}

/// A link of a note to another note.
#[derive(Debug, Clone, Default)]
pub struct Link {
    pub target: NoteId,
    pub raw_target: String,
    pub alias: Option<String>,
    pub anchor: Option<String>,
    pub range: TextRange,
    pub kind: LinkKind,
}

/// A note: a document of the workspace, or a virtual note standing for a
/// missing level of the hierarchy (then it has no path).
#[derive(Debug, Clone, Default)]
pub struct Note {
    pub id: NoteId,
    pub vault_name: String,
    /// The file path, as text.
    pub path: Option<String>,
    pub title: Option<String>,
    /// The front matter, as JSON text.
    pub frontmatter: Option<String>,
    pub content_offset: u32,
    pub links: Vec<Link>,
    pub headings: Vec<Heading>,
    pub blocks: Vec<Block>,
    pub digest: Option<String>,
}

/// Reference to a note in a tree view.
#[derive(Debug, Clone)]
pub struct NoteRef {
    /// Note ID as a UUID string.
    pub id: String,
    pub key: Option<NoteKey>,
    /// File path as a URI string.
    pub path: Option<String>,
    pub vault_name: Option<String>,
    pub title: Option<String>,
}

/// A node of the hierarchy tree view.
#[derive(Debug)]
pub struct TreeView {
    pub note: NoteRef,
    pub children: Vec<TreeView>,
}

/// The optional string `o`, by its characters.
pub open spec fn opt_view(o: Option<String>) -> Option<Seq<char>> {
    match o {
        Some(s) => Some(s@),
        None => None,
    }
}

/// A copy of an optional string.
pub fn clone_opt(o: &Option<String>) -> (r: Option<String>)
    ensures
        r == *o,
{
    match o {
        Some(s) => Some(s.clone()),
        None => None,
    }
}

} // verus!

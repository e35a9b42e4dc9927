//! Semantic models: how a vault's files are read as notes, keys and
//! hierarchy, and how links are written.
use vstd::prelude::*;
use crate::model::{LinkKind, ModelId, Note, NoteKey, WikiLinkFormat, opt_view};
use crate::paths::{
    components_of, file_stem_of, is_absolute_path, joined_path, main_separator, parent_of,
    path_file_stem, path_is_absolute, path_join, path_parent,
};
use crate::text::{
    byte_len_of, chars_of, push_seq, push_str, seq_starts_with, slice_contains,
    slice_starts_with, slice_sub, string_of, utf8_len,
};
use crate::utils::{normalize_path_with_separator, normalized_id};

verus! {

/// The rules of a vault format (Dendron, Obsidian, ...): identity of notes,
/// their hierarchy, and the syntax of links.
pub trait SemanticModel {
    /// The model's own consistency.
    spec fn inv(&self) -> bool;

    /// The name of the model.
    spec fn model_id(&self) -> ModelId;

    /// The root directory of the vault.
    spec fn root_path(&self) -> Seq<char>;

    /// The key of the note stored at `path` with `content`.
    spec fn key_from_path(&self, path: Seq<char>, content: Seq<char>) -> Seq<char>;

    /// The key a link `raw` written in the note `source` points to.
    spec fn key_from_link(&self, source: Seq<char>, raw: Seq<char>) -> Seq<char>;

    /// The path of the note with key `key`.
    spec fn path_from_key(&self, key: Seq<char>) -> Seq<char>;

    /// The parent key of `key` in the hierarchy, if any.
    spec fn parent_key(&self, key: Seq<char>) -> Option<Seq<char>>;

    /// `candidate` lies below `parent` in the hierarchy.
    spec fn descends(&self, candidate: Seq<char>, parent: Seq<char>) -> bool;

    /// The key of `key` once its ancestor `old_parent` is renamed `new_parent`.
    spec fn reparented(&self, key: Seq<char>, old_parent: Seq<char>, new_parent: Seq<char>) -> Seq<
        char,
    >;

    /// The text of a wiki link.
    spec fn wikilink_text(
        &self,
        target: Seq<char>,
        alias: Option<Seq<char>>,
        anchor: Option<Seq<char>>,
        is_embed: bool,
    ) -> Seq<char>;

    /// The name under which `note` is shown.
    spec fn display_name_of(&self, note: Note) -> Seq<char>;

    /// The link kinds the model parses.
    spec fn link_kinds(&self) -> Seq<LinkKind>;

    /// The link kinds whose health is audited.
    spec fn audited_kinds(&self) -> Seq<LinkKind>;

    /// The file extensions of notes.
    spec fn extensions(&self) -> Seq<Seq<char>>;

    /// The content of a new note with key `key`.
    spec fn new_note_content(&self, key: Seq<char>) -> Seq<char>;

    /// A parent key is shorter than its child, so walking up the hierarchy
    /// ends.
    proof fn lemma_parent_shorter(&self, key: Seq<char>)
        requires
            self.inv(),
        ensures
            self.parent_key(key) matches Some(p) ==> p.len() < key.len(),
    ;

    fn id(&self) -> (r: ModelId)
        ensures
            r == self.model_id(),
    ;

    fn root(&self) -> (r: &str)
        ensures
            r@ == self.root_path(),
    ;

    fn note_key_from_path(&self, path: &str, content: &str) -> (r: NoteKey)
        requires
            self.inv(),
        ensures
            r@ == self.key_from_path(path@, content@),
    ;

    fn note_key_from_link(&self, source: &NoteKey, raw: &str) -> (r: NoteKey)
        requires
            self.inv(),
        ensures
            r@ == self.key_from_link(source@, raw@),
    ;

    fn path_from_note_key(&self, key: &NoteKey) -> (r: String)
        requires
            self.inv(),
        ensures
            r@ == self.path_from_key(key@),
    ;

    fn resolve_parent(&self, note: &NoteKey) -> (r: Option<NoteKey>)
        requires
            self.inv(),
        ensures
            opt_view(r) == self.parent_key(note@),
    ;

    fn is_descendant(&self, candidate: &NoteKey, parent: &NoteKey) -> (r: bool)
        requires
            self.inv(),
        ensures
            r == self.descends(candidate@, parent@),
    ;

    fn reparent_key(&self, key: &NoteKey, old_parent: &NoteKey, new_parent: &NoteKey) -> (r: NoteKey)
        requires
            self.inv(),
        ensures
            r@ == self.reparented(key@, old_parent@, new_parent@),
    ;

    fn resolve_display_name(&self, note: &Note) -> (r: String)
        requires
            self.inv(),
        ensures
            r@ == self.display_name_of(*note),
    ;

    fn format_wikilink(
        &self,
        target: &str,
        alias: Option<&str>,
        anchor: Option<&str>,
        is_embed: bool,
    ) -> (r: String)
        requires
            self.inv(),
        ensures
            r@ == self.wikilink_text(
                target@,
                match alias {
                    Some(a) => Some(a@),
                    None => None,
                },
                match anchor {
                    Some(a) => Some(a@),
                    None => None,
                },
                is_embed,
            ),
    ;

    fn supported_link_kinds(&self) -> (r: Vec<LinkKind>)
        requires
            self.inv(),
        ensures
            r@ == self.link_kinds(),
    ;

    fn audited_link_kinds(&self) -> (r: Vec<LinkKind>)
        requires
            self.inv(),
        ensures
            r@ == self.audited_kinds(),
    ;

    fn supported_extensions(&self) -> (r: Vec<String>)
        requires
            self.inv(),
        ensures
            r@.map_values(|s: String| s@) == self.extensions(),
    ;

    fn generate_new_note_content(&self, key: &NoteKey) -> (r: String)
        requires
            self.inv(),
        ensures
            r@ == self.new_note_content(key@),
    ;
}

// ---------------------------------------------------------------------------
// Dendron
// ---------------------------------------------------------------------------

/// Index of the last `.` of `s`, if any.
pub open spec fn last_dot(s: Seq<char>) -> Option<int>
    decreases s.len(),
{
    if s.len() == 0 {
        None
    } else if s.last() == '.' {
        Some(s.len() - 1)
    } else {
        last_dot(s.drop_last())
    }
}

/// The Dendron parent of a key: the key up to its last `.`
/// (`foo.bar.baz` -> `foo.bar`, `foo` -> none).
pub open spec fn dendron_parent(key: Seq<char>) -> Option<Seq<char>> {
    match last_dot(key) {
        Some(i) => Some(key.take(i)),
        None => None,
    }
}

/// The Dendron descendant test: `candidate` is longer than `parent` in bytes,
/// starts with it, and has a `.` at the character index given by `parent`'s
/// length in bytes.
pub open spec fn dendron_descends(candidate: Seq<char>, parent: Seq<char>) -> bool {
    &&& utf8_len(candidate) > utf8_len(parent)
    &&& seq_starts_with(candidate, parent)
    &&& utf8_len(parent) < candidate.len()
    &&& candidate[utf8_len(parent) as int] == '.'
}

/// `key` moved from below `old_parent` to below `new_parent`.
pub open spec fn dendron_reparented(
    key: Seq<char>,
    old_parent: Seq<char>,
    new_parent: Seq<char>,
) -> Seq<char> {
    if dendron_descends(key, old_parent) {
        new_parent + key.skip(old_parent.len() as int)
    } else {
        key
    }
}

/// A Dendron wiki link: `[[alias|target#anchor]]`, with `!` before when embedded.
pub open spec fn dendron_wikilink(
    target: Seq<char>,
    alias: Option<Seq<char>>,
    anchor: Option<Seq<char>>,
    is_embed: bool,
) -> Seq<char> {
    (if is_embed {
        seq!['!', '[', '[']
    } else {
        seq!['[', '[']
    }) + (match alias {
        Some(a) => a + seq!['|'],
        None => Seq::empty(),
    }) + target + (match anchor {
        Some(a) => seq!['#'] + a,
        None => Seq::empty(),
    }) + seq![']', ']']
}

/// The Dendron model: a note's key is its file name without extension, and
/// dots in keys make the hierarchy (`a.b` is a child of `a`).
pub struct DendronModel {
    root: String,
    sep: char,
}

impl DendronModel {
    /// A Dendron model of the vault rooted at `root`.
    pub fn new(root: String) -> (r: Self)
        ensures
            r.inv(),
            r.root_path() == root@,
    {
        DendronModel { root, sep: main_separator() }
    }

    /// The platform's path separator, as the model was built with.
    pub closed spec fn separator(&self) -> char {
        self.sep
    }
}

/// `LinkKind`s a Dendron vault is parsed for.
pub open spec fn dendron_link_kinds() -> Seq<LinkKind> {
    seq![
        LinkKind::WikiLink(WikiLinkFormat::AliasFirst),
        LinkKind::EmbeddedWikiLink(WikiLinkFormat::AliasFirst),
        LinkKind::MarkdownLink,
    ]
}

impl SemanticModel for DendronModel {
    closed spec fn inv(&self) -> bool {
        self.sep == '/' || self.sep == '\\'
    }

    open spec fn model_id(&self) -> ModelId {
        ModelId("Dendron")
    }

    closed spec fn root_path(&self) -> Seq<char> {
        self.root@
    }

    /// The file stem of `path`, else `path` normalized.
    closed spec fn key_from_path(&self, path: Seq<char>, content: Seq<char>) -> Seq<char> {
        match file_stem_of(path) {
            Some(s) => s,
            None => normalized_id(path, self.sep),
        }
    }

    /// A link holding a path is normalized as it is; another one is resolved
    /// relative to the directory of the source key.
    closed spec fn key_from_link(&self, source: Seq<char>, raw: Seq<char>) -> Seq<char> {
        if is_absolute_path(raw) || raw.contains('/') || raw.contains('\\') {
            normalized_id(raw, self.sep)
        } else {
            match parent_of(source) {
                Some(p) => normalized_id(joined_path(p, raw), self.sep),
                None => normalized_id(raw, self.sep),
            }
        }
    }

    /// `root/key.md`.
    closed spec fn path_from_key(&self, key: Seq<char>) -> Seq<char> {
        joined_path(self.root@, key + seq!['.', 'm', 'd'])
    }

    open spec fn parent_key(&self, key: Seq<char>) -> Option<Seq<char>> {
        dendron_parent(key)
    }

    open spec fn descends(&self, candidate: Seq<char>, parent: Seq<char>) -> bool {
        dendron_descends(candidate, parent)
    }

    open spec fn reparented(
        &self,
        key: Seq<char>,
        old_parent: Seq<char>,
        new_parent: Seq<char>,
    ) -> Seq<char> {
        dendron_reparented(key, old_parent, new_parent)
    }

    open spec fn wikilink_text(
        &self,
        target: Seq<char>,
        alias: Option<Seq<char>>,
        anchor: Option<Seq<char>>,
        is_embed: bool,
    ) -> Seq<char> {
        dendron_wikilink(target, alias, anchor, is_embed)
    }

    /// The title, or the empty string.
    open spec fn display_name_of(&self, note: Note) -> Seq<char> {
        match note.title {
            Some(t) => t@,
            None => Seq::empty(),
        }
    }

    open spec fn link_kinds(&self) -> Seq<LinkKind> {
        dendron_link_kinds()
    }

    open spec fn audited_kinds(&self) -> Seq<LinkKind> {
        dendron_link_kinds()
    }

    open spec fn extensions(&self) -> Seq<Seq<char>> {
        seq![seq!['m', 'd']]
    }

    open spec fn new_note_content(&self, key: Seq<char>) -> Seq<char> {
        seq!['#', ' ', 'N', 'e', 'w', ' ', 'N', 'o', 't', 'e']
    }

    proof fn lemma_parent_shorter(&self, key: Seq<char>) {
        lemma_last_dot(key);
    }

    fn id(&self) -> (r: ModelId) {
        ModelId("Dendron")
    }

    fn root(&self) -> (r: &str) {
        self.root.as_str()
    }

    fn note_key_from_path(&self, path: &str, content: &str) -> (r: NoteKey) {
        match path_file_stem(path) {
            Some(stem) => stem,
            None => normalize_path_with_separator(path, self.sep),
        }
    }

    fn note_key_from_link(&self, source: &NoteKey, raw: &str) -> (r: NoteKey) {
        let rc = chars_of(raw);
        if path_is_absolute(raw) || slice_contains(rc.as_slice(), '/') || slice_contains(
            rc.as_slice(),
            '\\',
        ) {
            normalize_path_with_separator(raw, self.sep)
        } else {
            match path_parent(source.as_str()) {
                Some(parent) => {
                    let resolved = path_join(parent.as_str(), raw);
                    normalize_path_with_separator(resolved.as_str(), self.sep)
                },
                None => normalize_path_with_separator(raw, self.sep),
            }
        }
    }

    fn path_from_note_key(&self, key: &NoteKey) -> (r: String) {
        let mut file = key.clone();
        push_seq(&mut file, &['.', 'm', 'd']);
        assert(key@ + seq!['.', 'm', 'd'] =~= file@);
        path_join(self.root.as_str(), file.as_str())
    }

    fn resolve_parent(&self, note: &NoteKey) -> (r: Option<NoteKey>) {
        let cs = chars_of(note.as_str());
        match rfind_dot(cs.as_slice()) {
            Some(i) => {
                let v = slice_sub(cs.as_slice(), 0, i);
                assert(v@ =~= cs@.take(i as int));
                Some(string_of(v.as_slice()))
            },
            None => None,
        }
    }

    fn is_descendant(&self, candidate: &NoteKey, parent: &NoteKey) -> (r: bool) {
        let c = chars_of(candidate.as_str());
        let p = chars_of(parent.as_str());
        let clen = byte_len_of(candidate.as_str());
        let plen = byte_len_of(parent.as_str());
        if clen <= plen {
            return false;
        }
        slice_starts_with(c.as_slice(), p.as_slice()) && plen < c.len() && c[plen] == '.'
    }

    fn reparent_key(&self, key: &NoteKey, old_parent: &NoteKey, new_parent: &NoteKey) -> (r: NoteKey) {
        if !self.is_descendant(key, old_parent) {
            return key.clone();
        }
        let k = chars_of(key.as_str());
        let o = chars_of(old_parent.as_str());
        let suffix = slice_sub(k.as_slice(), o.len(), k.len());
        let mut r = new_parent.clone();
        push_seq(&mut r, suffix.as_slice());
        assert(suffix@ =~= k@.skip(o@.len() as int));
        r
    }

    fn resolve_display_name(&self, note: &Note) -> (r: String) {
        match &note.title {
            Some(t) => t.clone(),
            None => String::new(),
        }
    }

    fn format_wikilink(
        &self,
        target: &str,
        alias: Option<&str>,
        anchor: Option<&str>,
        is_embed: bool,
    ) -> (r: String) {
        let mut text = String::new();
        if is_embed {
            push_seq(&mut text, &['!', '[', '[']);
        } else {
            push_seq(&mut text, &['[', '[']);
        }
        let ghost opening = text@;
        if let Some(a) = alias {
            push_str(&mut text, a);
            push_seq(&mut text, &['|']);
        }
        let ghost with_alias = text@;
        push_str(&mut text, target);
        let ghost with_target = text@;
        if let Some(anc) = anchor {
            push_seq(&mut text, &['#']);
            push_str(&mut text, anc);
        }
        let ghost with_anchor = text@;
        push_seq(&mut text, &[']', ']']);
        proof {
            let a = match alias {
                Some(a) => Some(a@),
                None => None,
            };
            let an = match anchor {
                Some(a) => Some(a@),
                None => None,
            };
            let open_seq = if is_embed {
                seq!['!', '[', '[']
            } else {
                seq!['[', '[']
            };
            assert(opening =~= open_seq);
            let alias_seq = match a {
                Some(x) => x + seq!['|'],
                None => Seq::<char>::empty(),
            };
            assert(with_alias =~= open_seq + alias_seq);
            let anchor_seq = match an {
                Some(x) => seq!['#'] + x,
                None => Seq::<char>::empty(),
            };
            assert(with_anchor =~= open_seq + alias_seq + target@ + anchor_seq);
            assert(text@ =~= dendron_wikilink(target@, a, an, is_embed));
        }
        text
    }

    fn supported_link_kinds(&self) -> (r: Vec<LinkKind>) {
        let r = vec![
            LinkKind::WikiLink(WikiLinkFormat::AliasFirst),
            LinkKind::EmbeddedWikiLink(WikiLinkFormat::AliasFirst),
            LinkKind::MarkdownLink,
        ];
        assert(r@ =~= dendron_link_kinds());
        r
    }

    fn audited_link_kinds(&self) -> (r: Vec<LinkKind>) {
        self.supported_link_kinds()
    }

    fn supported_extensions(&self) -> (r: Vec<String>) {
        let mut md = String::new();
        push_seq(&mut md, &['m', 'd']);
        let r = vec![md];
        assert(r@.map_values(|s: String| s@) =~= seq![seq!['m', 'd']]);
        r
    }

    fn generate_new_note_content(&self, key: &NoteKey) -> (r: String) {
        let mut s = String::new();
        push_seq(&mut s, &['#', ' ', 'N', 'e', 'w', ' ', 'N', 'o', 't', 'e']);
        s
    }
}

/// Index of the last `.` of `s`, if any.
fn rfind_dot(s: &[char]) -> (r: Option<usize>)
    ensures
        match r {
            Some(i) => last_dot(s@) == Some(i as int) && i < s@.len(),
            None => last_dot(s@) is None,
        },
{
    let mut n = s.len();
    proof {
        assert(s@.take(n as int) =~= s@);
    }
    while n > 0
        invariant
            n <= s@.len(),
            last_dot(s@) == last_dot(s@.take(n as int)),
        decreases n,
    {
        proof {
            assert(s@.take(n as int).drop_last() =~= s@.take(n - 1));
        }
        if s[n - 1] == '.' {
            return Some(n - 1);
        }
        n = n - 1;
    }
    None
}

// ---------------------------------------------------------------------------
// Laws of the Dendron hierarchy
// ---------------------------------------------------------------------------

proof fn lemma_last_dot(s: Seq<char>)
    ensures
        last_dot(s) matches Some(i) ==> 0 <= i < s.len() && s[i] == '.',
        last_dot(s) is None ==> !s.contains('.'),
    decreases s.len(),
{
    if s.len() > 0 {
        lemma_last_dot(s.drop_last());
        if s.last() != '.' {
            if s.contains('.') {
                let j = choose|j: int| 0 <= j < s.len() && s[j] == '.';
                assert(s.drop_last()[j] == '.');
            }
        }
    }
}

/// A key lies below its parent: when `parent` is the Dendron parent of `key`
/// and is written in ASCII, `key` descends from `parent`.
pub proof fn lemma_parent_is_ancestor(key: Seq<char>, parent: Seq<char>)
    requires
        dendron_parent(key) == Some(parent),
        utf8_len(parent) == parent.len(),
    ensures
        dendron_descends(key, parent),
{
    lemma_last_dot(key);
    let i = last_dot(key)->0;
    assert(parent =~= key.take(i));
    crate::text::lemma_utf8_len_concat(key.take(i), key.skip(i));
    assert(key.take(i) + key.skip(i) =~= key);
    crate::text::lemma_utf8_len_take_mono(key.skip(i), 0, key.skip(i).len() as int);
    assert(key.skip(i).take(key.skip(i).len() as int) =~= key.skip(i));
    assert(key.skip(i).take(0) =~= Seq::<char>::empty());
}

/// Moving a key from below `old_parent` to below `new_parent` puts it below
/// `new_parent`, and moving it back gives the key again (parents in ASCII).
pub proof fn lemma_reparent_round_trip(key: Seq<char>, old_parent: Seq<char>, new_parent: Seq<char>)
    requires
        dendron_descends(key, old_parent),
        utf8_len(old_parent) == old_parent.len(),
        utf8_len(new_parent) == new_parent.len(),
    ensures
        dendron_descends(dendron_reparented(key, old_parent, new_parent), new_parent),
        dendron_reparented(dendron_reparented(key, old_parent, new_parent), new_parent, old_parent)
            == key,
{
    let suffix = key.skip(old_parent.len() as int);
    let r = new_parent + suffix;
    assert(dendron_reparented(key, old_parent, new_parent) == r);
    assert(suffix.len() > 0);
    crate::text::lemma_utf8_len_concat(new_parent, suffix);
    crate::text::lemma_utf8_len_take_mono(suffix, 0, suffix.len() as int);
    assert(suffix.take(suffix.len() as int) =~= suffix);
    assert(suffix.take(0) =~= Seq::<char>::empty());
    assert(r.take(new_parent.len() as int) =~= new_parent);
    assert(r[new_parent.len() as int] == suffix[0]);
    assert(dendron_descends(r, new_parent));
    assert(r.skip(new_parent.len() as int) =~= suffix);
    assert(old_parent + suffix =~= key) by {
        assert(key.take(old_parent.len() as int) == old_parent);
    }
}

} // verus!

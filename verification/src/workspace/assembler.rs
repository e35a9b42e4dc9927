//! Turning what the parser read of a file into a note: its links resolved
//! to the identifiers of their targets.
use vstd::prelude::*;
use crate::identity::IdentityRegistry;
use crate::model::{Block, Heading, Link, Note, NoteId, opt_view};
use crate::parser::{DocLink, DocLinkView, ParseResult, block_view, heading_view, holds_reading, parsed};
use crate::semantic::SemanticModel;
use crate::text::copy_str;

verus! {

/// The key a link written `target` in the note with key `source_key` points
/// to: the note itself when the target is empty (`[[#anchor]]`), else the
/// key the model resolves.
pub open spec fn link_key<M: SemanticModel>(
    model: M,
    source_key: Seq<char>,
    target: Seq<char>,
) -> Seq<char> {
    if target.len() == 0 {
        source_key
    } else {
        model.key_from_link(source_key, target)
    }
}

/// The registry `after` extends `before`: every key keeps its identifier and
/// every identifier its key.
pub open spec fn registry_grows(before: IdentityRegistry, after: IdentityRegistry) -> bool {
    &&& forall|k: Seq<char>|
        #[trigger] before.keys().contains_key(k) ==> after.keys().contains_key(k) && after.keys()[k]
            == before.keys()[k]
    &&& forall|i: u128|
        #[trigger] before.ids().contains_key(i) ==> after.ids().contains_key(i) && after.ids()[i]
            == before.ids()[i]
}

/// `link` is `dl` resolved: its target is the identifier of `key`.
pub open spec fn resolved_link(link: Link, dl: DocLink, identity: IdentityRegistry, key: Seq<char>) -> bool {
    &&& identity.keys().contains_key(key)
    &&& link.target == identity.keys()[key]
    &&& link.raw_target == dl.raw_target
    &&& link.alias == dl.alias
    &&& link.anchor == dl.anchor
    &&& link.range == dl.range
    &&& link.kind == dl.kind
}

/// `link` is the read link `dl` resolved: its target is the identifier of
/// `key`, the rest is as read.
pub open spec fn resolves_read_link(
    link: Link,
    dl: DocLinkView,
    identity: IdentityRegistry,
    key: Seq<char>,
) -> bool {
    &&& identity.keys().contains_key(key)
    &&& link.target == identity.keys()[key]
    &&& link.raw_target@ == dl.raw_target
    &&& opt_view(link.alias) == dl.alias
    &&& opt_view(link.anchor) == dl.anchor
    &&& link.range == dl.range
    &&& link.kind == dl.kind
}

/// `note` holds what reading `content` with the link kinds of `model` gives
/// (see `parsed`): its title, front matter, headings, blocks and content
/// offset, and its links resolved in `identity` from the key of `path`.
pub open spec fn holds_parse<M: SemanticModel>(
    note: Note,
    model: M,
    identity: IdentityRegistry,
    path: Seq<char>,
    content: Seq<char>,
) -> bool {
    let s = parsed(content, model.link_kinds());
    &&& opt_view(note.title) == s.title
    &&& opt_view(note.frontmatter) == s.frontmatter
    &&& note.headings@.map_values(|h: Heading| heading_view(h)) == s.headings
    &&& note.blocks@.map_values(|b: Block| block_view(b)) == s.blocks
    &&& note.content_offset == s.content_start_offset as u32
    &&& note.links@.len() == s.links.len()
    &&& forall|i: int|
        0 <= i < note.links@.len() ==> resolves_read_link(
            #[trigger] note.links@[i],
            s.links[i],
            identity,
            link_key(model, model.key_from_path(path, Seq::empty()), s.links[i].target),
        )
}

/// A note assembled from a reading of `content` holds that reading.
pub proof fn lemma_assembled_holds_parse<M: SemanticModel>(
    note: Note,
    parse_result: ParseResult,
    model: M,
    identity: IdentityRegistry,
    path: Seq<char>,
    content: Seq<char>,
)
    requires
        holds_reading(parse_result, parsed(content, model.link_kinds())),
        note.title == parse_result.title,
        note.frontmatter == parse_result.frontmatter,
        note.content_offset == #[verifier::truncate] (parse_result.content_start_offset as u32),
        note.headings == parse_result.headings,
        note.blocks == parse_result.blocks,
        note.links@.len() == parse_result.links@.len(),
        forall|i: int|
            0 <= i < note.links@.len() ==> resolved_link(
                #[trigger] note.links@[i],
                parse_result.links@[i],
                identity,
                link_key(model, model.key_from_path(path, Seq::empty()), parse_result.links@[i].target@),
            ),
    ensures
        holds_parse(note, model, identity, path, content),
{
    let s = parsed(content, model.link_kinds());
    assert forall|i: int| 0 <= i < note.links@.len() implies resolves_read_link(
        #[trigger] note.links@[i],
        s.links[i],
        identity,
        link_key(model, model.key_from_path(path, Seq::empty()), s.links[i].target),
    ) by {
        assert(s.links[i] == parse_result.links@[i]@);
        assert(resolved_link(
            note.links@[i],
            parse_result.links@[i],
            identity,
            link_key(model, model.key_from_path(path, Seq::empty()), parse_result.links@[i].target@),
        ));
    }
}

/// The note `note_id` of the vault `vault_name`, stored at `path`, from what
/// the parser read of it: each link points to the identifier of the key it
/// resolves to (see `link_key`), created in the registry when missing.
pub fn assemble<M: SemanticModel>(
    model: &M,
    identity: &mut IdentityRegistry,
    parse_result: ParseResult,
    path: &str,
    note_id: &NoteId,
    vault_name: String,
) -> (note: Note)
    requires
        model.inv(),
        old(identity).wf(),
    ensures
        final(identity).wf(),
        registry_grows(*old(identity), *final(identity)),
        note.id == *note_id,
        note.path matches Some(p) && p@ == path@,
        note.vault_name == vault_name,
        note.title == parse_result.title,
        note.frontmatter == parse_result.frontmatter,
        note.content_offset == #[verifier::truncate] (parse_result.content_start_offset as u32),
        note.headings == parse_result.headings,
        note.blocks == parse_result.blocks,
        note.digest == Some(parse_result.digest),
        note.links@.len() == parse_result.links@.len(),
        forall|i: int|
            0 <= i < note.links@.len() ==> resolved_link(
                #[trigger] note.links@[i],
                parse_result.links@[i],
                *final(identity),
                link_key(
                    *model,
                    model.key_from_path(path@, Seq::empty()),
                    parse_result.links@[i].target@,
                ),
            ),
{
    let empty = String::new();
    let source_key = model.note_key_from_path(path, empty.as_str());
    let mut links: Vec<Link> = Vec::new();
    let mut i: usize = 0;
    let ghost start = *identity;
    while i < parse_result.links.len()
        invariant
            model.inv(),
            identity.wf(),
            registry_grows(start, *identity),
            start == *old(identity),
            source_key@ == model.key_from_path(path@, Seq::empty()),
            i <= parse_result.links@.len(),
            links@.len() == i,
            forall|j: int|
                0 <= j < i ==> resolved_link(
                    #[trigger] links@[j],
                    parse_result.links@[j],
                    *identity,
                    link_key(*model, source_key@, parse_result.links@[j].target@),
                ),
        decreases parse_result.links@.len() - i,
    {
        let dl = &parse_result.links[i];
        let key = if dl.target.as_str().is_empty() {
            source_key.clone()
        } else {
            model.note_key_from_link(&source_key, dl.target.as_str())
        };
        let ghost before = *identity;
        let target = identity.get_or_create(&key);
        proof {
            assert forall|j: int| 0 <= j < i implies resolved_link(
                #[trigger] links@[j],
                parse_result.links@[j],
                *identity,
                link_key(*model, source_key@, parse_result.links@[j].target@),
            ) by {
                let kj = link_key(*model, source_key@, parse_result.links@[j].target@);
                assert(resolved_link(links@[j], parse_result.links@[j], before, kj));
                assert(before.keys().contains_key(kj));
            }
            assert forall|k: Seq<char>| #[trigger] start.keys().contains_key(k) implies identity.keys().contains_key(k) && identity.keys()[k] == start.keys()[k] by {
                assert(before.keys().contains_key(k));
            }
            assert forall|n: u128| #[trigger] start.ids().contains_key(n) implies identity.ids().contains_key(n) && identity.ids()[n] == start.ids()[n] by {
                assert(before.ids().contains_key(n));
            }
        }
        links.push(
            Link {
                target,
                raw_target: dl.raw_target.clone(),
                alias: crate::model::clone_opt(&dl.alias),
                anchor: crate::model::clone_opt(&dl.anchor),
                range: dl.range,
                kind: dl.kind,
            },
        );
        i = i + 1;
    }
    Note {
        id: *note_id,
        vault_name,
        path: Some(copy_str(path)),
        title: parse_result.title,
        frontmatter: parse_result.frontmatter,
        content_offset: #[verifier::truncate] (parse_result.content_start_offset as u32),
        links,
        headings: parse_result.headings,
        blocks: parse_result.blocks,
        digest: Some(parse_result.digest),
    }
}

} // verus!

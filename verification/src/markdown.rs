//! The events of a Markdown document, as pulldown-cmark reports them.
use vstd::prelude::*;
use pulldown_cmark::{Event, LinkType, MetadataBlockKind, Options, Parser, Tag, TagEnd};

verus! {

#[verifier::external_type_specification]
#[verifier::external_body]
pub struct ExEvent<'a>(Event<'a>);

#[verifier::external_type_specification]
#[verifier::external_body]
pub struct ExTag<'a>(Tag<'a>);

#[verifier::external_type_specification]
#[verifier::external_body]
pub struct ExTagEnd(TagEnd);

#[verifier::external_type_specification]
#[verifier::external_body]
pub struct ExLinkType(LinkType);

/// The kind of a Markdown link.
#[derive(Debug, Clone, Copy, PartialEq, Eq, Structural)]
pub enum MdLinkType {
    /// `<http://...>`
    Autolink,
    /// `<someone@example.com>`
    Email,
    /// `[[...]]`
    WikiLink,
    /// Inline, reference and shortcut links.
    Other,
}

/// A parser event: the events the library reads, and `Other` for the rest.
#[derive(Debug, Clone, PartialEq, Eq)]
pub enum MdEvent {
    StartParagraph,
    EndParagraph,
    StartItem,
    EndItem,
    /// Start of a `---` front matter block.
    StartYamlMetadata,
    EndYamlMetadata,
    /// Start of a heading of the given level (1 to 6).
    StartHeading(u8),
    EndHeading,
    StartLink { link_type: MdLinkType, dest_url: String },
    StartImage { link_type: MdLinkType, dest_url: String },
    EndLink,
    EndImage,
    Text(String),
    Other,
}

/// An event with the byte range of the source it covers.
#[derive(Debug, Clone, PartialEq, Eq)]
pub struct MdSpanned {
    pub event: MdEvent,
    pub start: usize,
    pub end: usize,
}

pub enum MdEventView {
    StartParagraph,
    EndParagraph,
    StartItem,
    EndItem,
    StartYamlMetadata,
    EndYamlMetadata,
    StartHeading(u8),
    EndHeading,
    StartLink { link_type: MdLinkType, dest_url: Seq<char> },
    StartImage { link_type: MdLinkType, dest_url: Seq<char> },
    EndLink,
    EndImage,
    Text(Seq<char>),
    Other,
}

pub struct MdSpannedView {
    pub event: MdEventView,
    pub start: int,
    pub end: int,
}

impl View for MdEvent {
    type V = MdEventView;

    open spec fn view(&self) -> MdEventView {
        match self {
            MdEvent::StartParagraph => MdEventView::StartParagraph,
            MdEvent::EndParagraph => MdEventView::EndParagraph,
            MdEvent::StartItem => MdEventView::StartItem,
            MdEvent::EndItem => MdEventView::EndItem,
            MdEvent::StartYamlMetadata => MdEventView::StartYamlMetadata,
            MdEvent::EndYamlMetadata => MdEventView::EndYamlMetadata,
            MdEvent::StartHeading(l) => MdEventView::StartHeading(*l),
            MdEvent::EndHeading => MdEventView::EndHeading,
            MdEvent::StartLink { link_type, dest_url } => MdEventView::StartLink {
                link_type: *link_type,
                dest_url: dest_url@,
            },
            MdEvent::StartImage { link_type, dest_url } => MdEventView::StartImage {
                link_type: *link_type,
                dest_url: dest_url@,
            },
            MdEvent::EndLink => MdEventView::EndLink,
            MdEvent::EndImage => MdEventView::EndImage,
            MdEvent::Text(s) => MdEventView::Text(s@),
            MdEvent::Other => MdEventView::Other,
        }
    }
}

impl View for MdSpanned {
    type V = MdSpannedView;

    open spec fn view(&self) -> MdSpannedView {
        MdSpannedView { event: self.event@, start: self.start as int, end: self.end as int }
    }
}

/// The events pulldown-cmark gives for `text`, with tables, footnotes,
/// strikethrough, task lists and YAML front matter enabled, and wiki links
/// when `wikilinks` holds.
pub uninterp spec fn markdown_events_of(text: Seq<char>, wikilinks: bool) -> Seq<MdSpannedView>;

/// Runs pulldown-cmark (`Parser::new_ext` and `into_offset_iter`) on `text`
/// with tables, footnotes, strikethrough, task lists and YAML front matter
/// enabled, and wiki links when `enable_wikilinks` holds.  The contract names
/// the result; it states nothing of what the parser finds.
#[verifier::external_body]
pub(crate) fn markdown_events(text: &str, enable_wikilinks: bool) -> (r: Vec<MdSpanned>)
    ensures
        r@.map_values(|e: MdSpanned| e@) == markdown_events_of(text@, enable_wikilinks),
{
    let mut options = Options::ENABLE_TABLES | Options::ENABLE_FOOTNOTES
        | Options::ENABLE_STRIKETHROUGH | Options::ENABLE_TASKLISTS
        | Options::ENABLE_YAML_STYLE_METADATA_BLOCKS;
    options.set(Options::ENABLE_WIKILINKS, enable_wikilinks);
    let mut out = Vec::new();
    for (event, range) in Parser::new_ext(text, options).into_offset_iter() {
        out.push(MdSpanned { event: convert_event(event), start: range.start, end: range.end });
    }
    out
}

/// Converts a pulldown-cmark event, variant by variant.
#[verifier::external_body]
fn convert_event(event: Event) -> MdEvent {
    match event {
        Event::Start(tag) => convert_start(tag),
        Event::End(tag) => convert_end(tag),
        Event::Text(text) => MdEvent::Text(text.to_string()),
        _ => MdEvent::Other,
    }
}

/// Converts the tag of a start event, variant by variant.
#[verifier::external_body]
fn convert_start(tag: Tag) -> MdEvent {
    match tag {
        Tag::Paragraph => MdEvent::StartParagraph,
        Tag::Item => MdEvent::StartItem,
        Tag::MetadataBlock(MetadataBlockKind::YamlStyle) => MdEvent::StartYamlMetadata,
        Tag::Heading { level, .. } => MdEvent::StartHeading(level as u8),
        Tag::Link { link_type, dest_url, .. } => MdEvent::StartLink {
            link_type: convert_link_type(link_type),
            dest_url: dest_url.to_string(),
        },
        Tag::Image { link_type, dest_url, .. } => MdEvent::StartImage {
            link_type: convert_link_type(link_type),
            dest_url: dest_url.to_string(),
        },
        _ => MdEvent::Other,
    }
}

/// Converts the tag of an end event, variant by variant.
#[verifier::external_body]
fn convert_end(tag: TagEnd) -> MdEvent {
    match tag {
        TagEnd::Paragraph => MdEvent::EndParagraph,
        TagEnd::Item => MdEvent::EndItem,
        TagEnd::MetadataBlock(MetadataBlockKind::YamlStyle) => MdEvent::EndYamlMetadata,
        TagEnd::Heading(_) => MdEvent::EndHeading,
        TagEnd::Link => MdEvent::EndLink,
        TagEnd::Image => MdEvent::EndImage,
        _ => MdEvent::Other,
    }
}

/// Converts a link type, variant by variant.
#[verifier::external_body]
fn convert_link_type(link_type: LinkType) -> MdLinkType {
    match link_type {
        LinkType::Autolink => MdLinkType::Autolink,
        LinkType::Email => MdLinkType::Email,
        LinkType::WikiLink { .. } => MdLinkType::WikiLink,
        _ => MdLinkType::Other,
    }
}

} // verus!

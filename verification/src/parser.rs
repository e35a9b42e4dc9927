//! Reading a Markdown document: its links, headings, blocks, title and front
//! matter, from the events of the Markdown parser.
use vstd::prelude::*;
use crate::digest::{compute_digest, digest_of, parse_front_matter, yaml_front_matter_of};
use crate::line_map::{
    LineMap, boundary_index, byte_offset, is_boundary, lemma_boundary_index,
    lemma_byte_offset_strict, point_at,
};
use crate::markdown::{
    MdEvent, MdEventView, MdLinkType, MdSpanned, MdSpannedView, markdown_events,
    markdown_events_of,
};
use crate::model::{Block, Heading, LinkKind, Point, TextRange, WikiLinkFormat, opt_view};
use crate::text::{
    chars_of, first_index_of, find_char, is_white_space, push_char, push_str, slice_eq,
    slice_sub, string_of, trim_seq, trim_slice, utf8_len, utf8_width,
};
use crate::utils::{alphabetic_char, char_is_alphabetic, char_is_numeric, numeric_char};

verus! {

/// A link as written in a document, before its target is resolved.
#[derive(Debug, Clone)]
pub struct DocLink {
    pub target: String,
    pub raw_target: String,
    pub alias: Option<String>,
    pub anchor: Option<String>,
    pub range: TextRange,
    pub kind: LinkKind,
}

/// What a document holds.
#[derive(Debug, Clone)]
pub struct ParseResult {
    pub links: Vec<DocLink>,
    pub headings: Vec<Heading>,
    pub blocks: Vec<Block>,
    pub title: Option<String>,
    /// The front matter, as JSON text.
    pub frontmatter: Option<String>,
    pub content_start_offset: usize,
    pub digest: String,
}

pub struct DocLinkView {
    pub target: Seq<char>,
    pub raw_target: Seq<char>,
    pub alias: Option<Seq<char>>,
    pub anchor: Option<Seq<char>>,
    pub range: TextRange,
    pub kind: LinkKind,
}

pub struct HeadingView {
    pub level: u8,
    pub text: Seq<char>,
    pub range: TextRange,
}

pub struct BlockView {
    pub id: Seq<char>,
    pub range: TextRange,
}

impl View for DocLink {
    type V = DocLinkView;

    open spec fn view(&self) -> DocLinkView {
        DocLinkView {
            target: self.target@,
            raw_target: self.raw_target@,
            alias: opt_view(self.alias),
            anchor: opt_view(self.anchor),
            range: self.range,
            kind: self.kind,
        }
    }
}

pub open spec fn heading_view(h: Heading) -> HeadingView {
    HeadingView { level: h.level, text: h.text@, range: h.range }
}

pub open spec fn block_view(b: Block) -> BlockView {
    BlockView { id: b.id@, range: b.range }
}

// ---------------------------------------------------------------------------
// The reading of events, specified
// ---------------------------------------------------------------------------

/// A link whose end event has not come yet.
pub struct PendingLinkView {
    pub raw_left: Seq<char>,
    pub start_point: Point,
    pub is_embedded: bool,
    pub is_wikilink: bool,
    pub collector: Seq<char>,
}

/// What has been read so far, and where the reading stands.
pub struct ParseStateView {
    pub links: Seq<DocLinkView>,
    pub headings: Seq<HeadingView>,
    pub blocks: Seq<BlockView>,
    pub title: Option<Seq<char>>,
    pub frontmatter: Option<Seq<char>>,
    pub content_start_offset: int,
    pub in_heading: bool,
    pub heading_level: u8,
    pub pending_heading: Option<(Seq<char>, Point)>,
    pub in_frontmatter: bool,
    pub frontmatter_content: Seq<char>,
    pub pending_link: Option<PendingLinkView>,
    pub block_text: Seq<char>,
    pub block_start: Option<Point>,
    pub in_block: bool,
}

/// Nothing read yet.
pub open spec fn initial_state() -> ParseStateView {
    ParseStateView {
        links: Seq::empty(),
        headings: Seq::empty(),
        blocks: Seq::empty(),
        title: None,
        frontmatter: None,
        content_start_offset: 0,
        in_heading: false,
        heading_level: 0,
        pending_heading: None,
        in_frontmatter: false,
        frontmatter_content: Seq::empty(),
        pending_link: None,
        block_text: Seq::empty(),
        block_start: None,
        in_block: false,
    }
}

/// Whether wiki links are parsed, and their format: the format of the last
/// wiki link kind among `kinds`.
pub open spec fn wiki_config(kinds: Seq<LinkKind>) -> (bool, WikiLinkFormat)
    decreases kinds.len(),
{
    if kinds.len() == 0 {
        (false, WikiLinkFormat::AliasFirst)
    } else {
        match kinds.last() {
            LinkKind::WikiLink(f) => (true, f),
            LinkKind::EmbeddedWikiLink(f) => (true, f),
            _ => wiki_config(kinds.drop_last()),
        }
    }
}

/// The point of the byte offset `off` of `t`.
pub open spec fn pt(t: Seq<char>, off: int) -> Point {
    point_at(t, boundary_index(t, off))
}

/// Index just past the run of `]` starting at character index `k`.
pub open spec fn skip_brackets(t: Seq<char>, k: int) -> int
    decreases t.len() - k,
{
    if 0 <= k < t.len() && t[k] == ']' {
        skip_brackets(t, k + 1)
    } else {
        k
    }
}

/// A character allowed in a block id.
pub open spec fn block_id_char(c: char) -> bool {
    alphabetic_char(c) || numeric_char(c) || c == '-'
}

/// Index of the last ` ^` in `s`, if any.
pub open spec fn last_caret_marker(s: Seq<char>) -> Option<int>
    decreases s.len(),
{
    if s.len() < 2 {
        None
    } else if s[s.len() - 2] == ' ' && s[s.len() - 1] == '^' {
        Some(s.len() - 2)
    } else {
        last_caret_marker(s.drop_last())
    }
}

/// The block id written at the end of a paragraph's text (`... ^id`): the
/// trimmed text after the last ` ^`, when it is not empty and made of letters,
/// digits and `-`.
pub open spec fn block_id_of(text: Seq<char>) -> Option<Seq<char>> {
    match last_caret_marker(text) {
        Some(p) => {
            let id = trim_seq(text.skip(p + 2));
            if id.len() > 0 && forall|i: int| 0 <= i < id.len() ==> block_id_char(#[trigger] id[i]) {
                Some(id)
            } else {
                None
            }
        },
        None => None,
    }
}

/// Target and alias of a wiki link from the text before and after its `|`.
pub open spec fn wiki_target_alias(left: Seq<char>, right: Seq<char>, fmt: WikiLinkFormat) -> (
    Seq<char>,
    Option<Seq<char>>,
) {
    if left == right || right.len() == 0 {
        (left, None)
    } else {
        match fmt {
            WikiLinkFormat::AliasFirst => (right, Some(left)),
            WikiLinkFormat::TargetFirst => (left, Some(right)),
        }
    }
}

/// The link a pending link becomes at its end event (at byte `end`), if its
/// kind is among `kinds`: its target is split at the first `#` into target and
/// anchor.
pub open spec fn finished_link(
    t: Seq<char>,
    kinds: Seq<LinkKind>,
    fmt: WikiLinkFormat,
    p: PendingLinkView,
    end: int,
) -> Option<DocLinkView> {
    let end_k = if p.is_wikilink {
        skip_brackets(t, boundary_index(t, end))
    } else {
        boundary_index(t, end)
    };
    let left = trim_seq(p.raw_left);
    let right = trim_seq(p.collector);
    let (target, alias, kind) = if p.is_wikilink {
        let (tg, al) = wiki_target_alias(left, right, fmt);
        (
            tg,
            al,
            if p.is_embedded {
                LinkKind::EmbeddedWikiLink(fmt)
            } else {
                LinkKind::WikiLink(fmt)
            },
        )
    } else {
        (
            left,
            if right.len() == 0 {
                None
            } else {
                Some(right)
            },
            if p.is_embedded {
                LinkKind::MarkdownImage
            } else {
                LinkKind::MarkdownLink
            },
        )
    };
    if kinds.contains(kind) {
        let (tg, anchor) = match first_index_of(target, '#') {
            Some(i) => (target.take(i), Some(target.skip(i + 1))),
            None => (target, None),
        };
        Some(
            DocLinkView {
                target: tg,
                raw_target: left,
                alias,
                anchor,
                range: TextRange { start: p.start_point, end: point_at(t, end_k) },
                kind,
            },
        )
    } else {
        None
    }
}

/// The start of a link or image: an autolink is read at once; a wiki link
/// when wiki links are off is ignored; another link waits for its end.
pub open spec fn start_link(
    t: Seq<char>,
    wiki: bool,
    s: ParseStateView,
    e: MdSpannedView,
    link_type: MdLinkType,
    dest: Seq<char>,
    embedded: bool,
) -> ParseStateView {
    if !embedded && (link_type == MdLinkType::Autolink || link_type == MdLinkType::Email) {
        ParseStateView {
            links: s.links.push(
                DocLinkView {
                    target: dest,
                    raw_target: dest,
                    alias: None,
                    anchor: None,
                    range: TextRange { start: pt(t, e.start), end: pt(t, e.end) },
                    kind: LinkKind::AutoLink,
                },
            ),
            ..s
        }
    } else if link_type == MdLinkType::WikiLink && !wiki {
        s
    } else {
        ParseStateView {
            pending_link: Some(
                PendingLinkView {
                    raw_left: dest,
                    start_point: pt(t, e.start),
                    is_embedded: embedded,
                    is_wikilink: link_type == MdLinkType::WikiLink,
                    collector: Seq::empty(),
                },
            ),
            ..s
        }
    }
}

/// Text goes to the front matter, else to the pending link, else to the
/// heading (words joined by a space); and also to the current block.
pub open spec fn read_text(s: ParseStateView, x: Seq<char>) -> ParseStateView {
    let s2 = if s.in_frontmatter {
        ParseStateView { frontmatter_content: s.frontmatter_content + x, ..s }
    } else if s.pending_link is Some {
        let p = s.pending_link->0;
        ParseStateView {
            pending_link: Some(PendingLinkView { collector: p.collector + x, ..p }),
            ..s
        }
    } else if s.in_heading && s.pending_heading is Some {
        let (h, sp) = s.pending_heading->0;
        ParseStateView {
            pending_heading: Some(
                (
                    if h.len() > 0 {
                        h + seq![' '] + x
                    } else {
                        h + x
                    },
                    sp,
                ),
            ),
            ..s
        }
    } else {
        s
    };
    if s.in_block {
        ParseStateView { block_text: s2.block_text + x, ..s2 }
    } else {
        s2
    }
}

/// The end of a paragraph or list item: a block id at its end makes a block.
pub open spec fn end_block(t: Seq<char>, s: ParseStateView, e: MdSpannedView) -> ParseStateView {
    let s2 = if s.in_block && block_id_of(s.block_text) is Some {
        ParseStateView {
            blocks: s.blocks.push(
                BlockView {
                    id: block_id_of(s.block_text)->0,
                    range: TextRange {
                        start: match s.block_start {
                            Some(p) => p,
                            None => Point { line: 0, col: 0 },
                        },
                        end: pt(t, e.end),
                    },
                },
            ),
            ..s
        }
    } else {
        s
    };
    ParseStateView { in_block: false, ..s2 }
}

/// The end of the front matter: parsed as YAML, it gives the front matter and
/// maybe the title; the content starts after it.
pub open spec fn end_front_matter(s: ParseStateView, e: MdSpannedView) -> ParseStateView {
    let s2 = match yaml_front_matter_of(s.frontmatter_content) {
        Some((json, title)) => ParseStateView {
            title: if title is Some {
                title
            } else {
                s.title
            },
            frontmatter: Some(json),
            ..s
        },
        None => s,
    };
    ParseStateView { in_frontmatter: false, content_start_offset: e.end, ..s2 }
}

/// The end of a heading: its trimmed text, when not empty, makes a heading,
/// and the first level-1 heading is the title.
pub open spec fn end_heading(t: Seq<char>, s: ParseStateView, e: MdSpannedView) -> ParseStateView {
    let s2 = match s.pending_heading {
        Some((h, sp)) => {
            let tr = trim_seq(h);
            if tr.len() > 0 {
                ParseStateView {
                    headings: s.headings.push(
                        HeadingView {
                            level: s.heading_level,
                            text: tr,
                            range: TextRange { start: sp, end: pt(t, e.end) },
                        },
                    ),
                    title: if s.heading_level == 1 && s.title is None {
                        Some(tr)
                    } else {
                        s.title
                    },
                    pending_heading: None,
                    ..s
                }
            } else {
                ParseStateView { pending_heading: None, ..s }
            }
        },
        None => s,
    };
    ParseStateView { in_heading: false, ..s2 }
}

/// The end of a link or image.
pub open spec fn end_link(
    t: Seq<char>,
    kinds: Seq<LinkKind>,
    fmt: WikiLinkFormat,
    s: ParseStateView,
    e: MdSpannedView,
) -> ParseStateView {
    match s.pending_link {
        Some(p) => match finished_link(t, kinds, fmt, p, e.end) {
            Some(l) => ParseStateView { links: s.links.push(l), pending_link: None, ..s },
            None => ParseStateView { pending_link: None, ..s },
        },
        None => s,
    }
}

/// Reading one event.
pub open spec fn step(
    t: Seq<char>,
    kinds: Seq<LinkKind>,
    s: ParseStateView,
    e: MdSpannedView,
) -> ParseStateView {
    let (wiki, fmt) = wiki_config(kinds);
    match e.event {
        MdEventView::StartParagraph | MdEventView::StartItem => ParseStateView {
            in_block: true,
            block_start: Some(pt(t, e.start)),
            block_text: Seq::empty(),
            ..s
        },
        MdEventView::EndParagraph | MdEventView::EndItem => end_block(t, s, e),
        MdEventView::StartYamlMetadata => ParseStateView { in_frontmatter: true, ..s },
        MdEventView::EndYamlMetadata => end_front_matter(s, e),
        MdEventView::StartHeading(level) => ParseStateView {
            in_heading: true,
            heading_level: level,
            pending_heading: Some((Seq::empty(), pt(t, e.start))),
            ..s
        },
        MdEventView::EndHeading => end_heading(t, s, e),
        MdEventView::StartLink { link_type, dest_url } => start_link(
            t,
            wiki,
            s,
            e,
            link_type,
            dest_url,
            false,
        ),
        MdEventView::StartImage { link_type, dest_url } => start_link(
            t,
            wiki,
            s,
            e,
            link_type,
            dest_url,
            true,
        ),
        MdEventView::EndLink | MdEventView::EndImage => end_link(t, kinds, fmt, s, e),
        MdEventView::Text(x) => read_text(s, x),
        MdEventView::Other => s,
    }
}

/// Reading the events `events` in order.
pub open spec fn read_events(
    t: Seq<char>,
    kinds: Seq<LinkKind>,
    events: Seq<MdSpannedView>,
) -> ParseStateView
    decreases events.len(),
{
    if events.len() == 0 {
        initial_state()
    } else {
        step(t, kinds, read_events(t, kinds, events.drop_last()), events.last())
    }
}

/// `title` is the text of the first heading of level 1 among `hs`, or
/// `None` when none of them has level 1.
pub open spec fn is_first_level1_title(title: Option<Seq<char>>, hs: Seq<HeadingView>) -> bool {
    match title {
        Some(x) => exists|i: int|
            0 <= i < hs.len() && (#[trigger] hs[i]).level == 1 && hs[i].text == x && forall|j: int|
                0 <= j < i ==> (#[trigger] hs[j]).level != 1,
        None => forall|i: int| 0 <= i < hs.len() ==> (#[trigger] hs[i]).level != 1,
    }
}

proof fn lemma_step_title(t: Seq<char>, kinds: Seq<LinkKind>, s: ParseStateView, e: MdSpannedView)
    requires
        s.frontmatter is None ==> is_first_level1_title(s.title, s.headings),
    ensures
        step(t, kinds, s, e).frontmatter is None ==> is_first_level1_title(
            step(t, kinds, s, e).title,
            step(t, kinds, s, e).headings,
        ),
{
    let r = step(t, kinds, s, e);
    match e.event {
        MdEventView::EndHeading => {
            if s.frontmatter is None {
                match s.pending_heading {
                    Some((h, sp)) => {
                        let tr = trim_seq(h);
                        if tr.len() > 0 {
                            let hs = s.headings;
                            let hv = r.headings[hs.len() as int];
                            assert(r.headings == hs.push(hv));
                            match s.title {
                                Some(x) => {
                                    let i = choose|i: int|
                                        0 <= i < hs.len() && (#[trigger] hs[i]).level == 1
                                            && hs[i].text == x && forall|j: int|
                                            0 <= j < i ==> (#[trigger] hs[j]).level != 1;
                                    assert(r.headings[i] == hs[i]);
                                    assert forall|j: int| 0 <= j < i implies (
                                    #[trigger] r.headings[j]).level != 1 by {
                                        assert(r.headings[j] == hs[j]);
                                    }
                                },
                                None => {
                                    if s.heading_level == 1 {
                                        assert forall|j: int| 0 <= j < hs.len() implies (
                                        #[trigger] r.headings[j]).level != 1 by {
                                            assert(r.headings[j] == hs[j]);
                                        }
                                        assert(r.headings[hs.len() as int].level == 1);
                                    } else {
                                        assert forall|j: int| 0 <= j < r.headings.len() implies (
                                        #[trigger] r.headings[j]).level != 1 by {
                                            if j < hs.len() {
                                                assert(r.headings[j] == hs[j]);
                                            }
                                        }
                                    }
                                },
                            }
                        }
                    },
                    None => {},
                }
            }
        },
        _ => {},
    }
}

/// When no front matter was read, the title of a reading is the text of
/// its first heading of level 1, and there is none when no heading has
/// level 1.
pub proof fn lemma_read_events_title(t: Seq<char>, kinds: Seq<LinkKind>, evs: Seq<MdSpannedView>)
    ensures
        read_events(t, kinds, evs).frontmatter is None ==> is_first_level1_title(
            read_events(t, kinds, evs).title,
            read_events(t, kinds, evs).headings,
        ),
    decreases evs.len(),
{
    if evs.len() > 0 {
        lemma_read_events_title(t, kinds, evs.drop_last());
        lemma_step_title(t, kinds, read_events(t, kinds, evs.drop_last()), evs.last());
    }
}

proof fn lemma_event_outside_text(t: Seq<char>, evs: Seq<MdSpannedView>, i: int)
    requires
        0 <= i < evs.len(),
        !(is_boundary(t, evs[i].start) && is_boundary(t, evs[i].end)),
    ensures
        !events_in_text(t, evs),
{
}

/// Every event covers a range of whole characters of `t`.
pub open spec fn events_in_text(t: Seq<char>, events: Seq<MdSpannedView>) -> bool {
    forall|i: int|
        0 <= i < events.len() ==> is_boundary(t, #[trigger] events[i].start) && is_boundary(
            t,
            events[i].end,
        )
}

// ---------------------------------------------------------------------------
// The reading of events, implemented
// ---------------------------------------------------------------------------

pub struct PendingLink {
    pub raw_left: String,
    pub start_point: Point,
    pub is_embedded: bool,
    pub is_wikilink: bool,
    pub collector: String,
}

impl View for PendingLink {
    type V = PendingLinkView;

    open spec fn view(&self) -> PendingLinkView {
        PendingLinkView {
            raw_left: self.raw_left@,
            start_point: self.start_point,
            is_embedded: self.is_embedded,
            is_wikilink: self.is_wikilink,
            collector: self.collector@,
        }
    }
}

pub struct ParseState {
    pub links: Vec<DocLink>,
    pub headings: Vec<Heading>,
    pub blocks: Vec<Block>,
    pub title: Option<String>,
    pub frontmatter: Option<String>,
    pub content_start_offset: usize,
    pub in_heading: bool,
    pub heading_level: u8,
    pub pending_heading: Option<(String, Point)>,
    pub in_frontmatter: bool,
    pub frontmatter_content: String,
    pub pending_link: Option<PendingLink>,
    pub block_text: String,
    pub block_start: Option<Point>,
    pub in_block: bool,
}

impl View for ParseState {
    type V = ParseStateView;

    open spec fn view(&self) -> ParseStateView {
        ParseStateView {
            links: self.links@.map_values(|l: DocLink| l@),
            headings: self.headings@.map_values(|h: Heading| heading_view(h)),
            blocks: self.blocks@.map_values(|b: Block| block_view(b)),
            title: opt_view(self.title),
            frontmatter: opt_view(self.frontmatter),
            content_start_offset: self.content_start_offset as int,
            in_heading: self.in_heading,
            heading_level: self.heading_level,
            pending_heading: match self.pending_heading {
                Some((h, p)) => Some((h@, p)),
                None => None,
            },
            in_frontmatter: self.in_frontmatter,
            frontmatter_content: self.frontmatter_content@,
            pending_link: match self.pending_link {
                Some(p) => Some(p@),
                None => None,
            },
            block_text: self.block_text@,
            block_start: self.block_start,
            in_block: self.in_block,
        }
    }
}

/// Whether wiki links are parsed, and their format.
fn wiki_config_of(kinds: &[LinkKind]) -> (r: (bool, WikiLinkFormat))
    ensures
        r == wiki_config(kinds@),
{
    let mut r = (false, WikiLinkFormat::AliasFirst);
    let mut i: usize = 0;
    proof {
        assert(kinds@.take(0) =~= Seq::<LinkKind>::empty());
    }
    while i < kinds.len()
        invariant
            i <= kinds@.len(),
            r == wiki_config(kinds@.take(i as int)),
        decreases kinds@.len() - i,
    {
        proof {
            assert(kinds@.take(i as int + 1).drop_last() =~= kinds@.take(i as int));
        }
        match kinds[i] {
            LinkKind::WikiLink(f) => {
                r = (true, f);
            },
            LinkKind::EmbeddedWikiLink(f) => {
                r = (true, f);
            },
            _ => {},
        }
        i = i + 1;
    }
    proof {
        assert(kinds@.take(kinds@.len() as int) =~= kinds@);
    }
    r
}

fn kinds_contain(kinds: &[LinkKind], kind: LinkKind) -> (r: bool)
    ensures
        r == kinds@.contains(kind),
{
    let mut i: usize = 0;
    while i < kinds.len()
        invariant
            i <= kinds@.len(),
            forall|j: int| 0 <= j < i ==> kinds@[j] != kind,
        decreases kinds@.len() - i,
    {
        if kinds[i] == kind {
            return true;
        }
        i = i + 1;
    }
    false
}

/// Index of the last ` ^` in `s`, if any.
fn find_caret_marker(s: &[char]) -> (r: Option<usize>)
    ensures
        match r {
            Some(p) => last_caret_marker(s@) == Some(p as int) && p + 2 <= s@.len(),
            None => last_caret_marker(s@) is None,
        },
{
    let mut n = s.len();
    proof {
        assert(s@.take(n as int) =~= s@);
    }
    while n >= 2
        invariant
            n <= s@.len(),
            last_caret_marker(s@) == last_caret_marker(s@.take(n as int)),
        decreases n,
    {
        proof {
            assert(s@.take(n as int).drop_last() =~= s@.take(n - 1));
        }
        if s[n - 2] == ' ' && s[n - 1] == '^' {
            return Some(n - 2);
        }
        n = n - 1;
    }
    None
}

fn block_id_from(text: &String) -> (r: Option<String>)
    ensures
        opt_view(r) == block_id_of(text@),
{
    let cs = chars_of(text.as_str());
    match find_caret_marker(cs.as_slice()) {
        Some(p) => {
            let n = cs.len();
            assert(p + 2 <= n);
            let rest = slice_sub(cs.as_slice(), p + 2, n);
            assert(rest@ =~= cs@.skip(p + 2));
            let id = trim_slice(rest.as_slice());
            if id.len() == 0 {
                return None;
            }
            let mut i: usize = 0;
            while i < id.len()
                invariant
                    i <= id@.len(),
                    id@.len() > 0,
                    id@ == trim_seq(text@.skip(p + 2)),
                    last_caret_marker(text@) == Some(p as int),
                    forall|j: int| 0 <= j < i ==> block_id_char(#[trigger] id@[j]),
                decreases id@.len() - i,
            {
                let c = id[i];
                if !(char_is_alphabetic(c) || char_is_numeric(c) || c == '-') {
                    assert(!block_id_char(id@[i as int]));
                    return None;
                }
                i = i + 1;
            }
            Some(string_of(id.as_slice()))
        },
        None => None,
    }
}

fn trimmed(s: &str) -> (r: Vec<char>)
    ensures
        r@ == trim_seq(s@),
{
    let cs = chars_of(s);
    trim_slice(cs.as_slice())
}

proof fn lemma_skip_brackets_bound(t: Seq<char>, k: int)
    requires
        0 <= k <= t.len(),
    ensures
        k <= skip_brackets(t, k) <= t.len(),
    decreases t.len() - k,
{
    if k < t.len() && t[k] == ']' {
        lemma_skip_brackets_bound(t, k + 1);
    }
}

/// Index just past the run of `]` starting at character index `k`, and the
/// byte offset of that index.
fn skip_brackets_from(cs: &[char], k: usize, b: usize) -> (r: (usize, usize))
    requires
        k <= cs@.len(),
        b as int == byte_offset(cs@, k as int),
        utf8_len(cs@) <= usize::MAX,
    ensures
        r.0 as int == skip_brackets(cs@, k as int),
        r.1 as int == byte_offset(cs@, r.0 as int),
{
    let mut i = k;
    let mut o = b;
    while i < cs.len() && cs[i] == ']'
        invariant
            k <= i <= cs@.len(),
            o as int == byte_offset(cs@, i as int),
            skip_brackets(cs@, k as int) == skip_brackets(cs@, i as int),
            utf8_len(cs@) <= usize::MAX,
        decreases cs@.len() - i,
    {
        proof {
            crate::text::lemma_utf8_len_take_step(cs@, i as int);
            crate::text::lemma_utf8_len_take_mono(cs@, i as int + 1, cs@.len() as int);
            assert(cs@.take(cs@.len() as int) =~= cs@);
        }
        i = i + 1;
        o = o + 1;
    }
    (i, o)
}

impl ParseState {
    fn new() -> (r: Self)
        ensures
            r@ == initial_state(),
    {
        let r = ParseState {
            links: Vec::new(),
            headings: Vec::new(),
            blocks: Vec::new(),
            title: None,
            frontmatter: None,
            content_start_offset: 0,
            in_heading: false,
            heading_level: 0,
            pending_heading: None,
            in_frontmatter: false,
            frontmatter_content: String::new(),
            pending_link: None,
            block_text: String::new(),
            block_start: None,
            in_block: false,
        };
        assert(r@.links =~= Seq::<DocLinkView>::empty());
        assert(r@.headings =~= Seq::<HeadingView>::empty());
        assert(r@.blocks =~= Seq::<BlockView>::empty());
        r
    }

    fn read_text(&mut self, x: &String)
        ensures
            final(self)@ == read_text(old(self)@, x@),
    {
        let ghost s = self@;
        if self.in_frontmatter {
            push_str(&mut self.frontmatter_content, x.as_str());
        } else if self.pending_link.is_some() {
            match &mut self.pending_link {
                Some(p) => {
                    push_str(&mut p.collector, x.as_str());
                },
                None => {},
            }
        } else if self.in_heading && self.pending_heading.is_some() {
            match &mut self.pending_heading {
                Some((h, _)) => {
                    if !h.as_str().is_empty() {
                        push_char(h, ' ');
                    }
                    push_str(h, x.as_str());
                },
                None => {},
            }
        }
        if self.in_block {
            push_str(&mut self.block_text, x.as_str());
        }
        proof {
            let r = read_text(s, x@);
            assert(self@.links =~= r.links);
            assert(self@.headings =~= r.headings);
            assert(self@.blocks =~= r.blocks);
            if s.in_heading && s.pending_heading is Some && !s.in_frontmatter && s.pending_link is None {
                let (h, sp) = s.pending_heading->0;
                if h.len() > 0 {
                    assert(h.push(' ') + x@ =~= h + seq![' '] + x@);
                }
            }
        }
    }

    fn end_block(&mut self, lm: &LineMap, text: &str, e: &MdSpanned)
        requires
            old(self)@.in_block ==> is_boundary(text@, e.end as int),
            lm.wf(),
            lm@ == text@,
        ensures
            final(self)@ == end_block(text@, old(self)@, e@),
    {
        let ghost s = self@;
        if self.in_block {
            match block_id_from(&self.block_text) {
                Some(id) => {
                    let start = match self.block_start {
                        Some(p) => p,
                        None => Point { line: 0, col: 0 },
                    };
                    let end = lm.offset_to_point(text, e.end);
                    self.blocks.push(Block { id, range: TextRange { start, end } });
                },
                None => {},
            }
        }
        self.in_block = false;
        proof {
            let r = end_block(text@, s, e@);
            assert(self@.blocks =~= r.blocks);
            assert(self@.links =~= r.links);
            assert(self@.headings =~= r.headings);
        }
    }

    fn end_front_matter(&mut self, e: &MdSpanned)
        ensures
            final(self)@ == end_front_matter(old(self)@, e@),
    {
        let ghost s = self@;
        match parse_front_matter(self.frontmatter_content.as_str()) {
            Some((json, title)) => {
                if title.is_some() {
                    self.title = title;
                }
                self.frontmatter = Some(json);
            },
            None => {},
        }
        self.in_frontmatter = false;
        self.content_start_offset = e.end;
        proof {
            let r = end_front_matter(s, e@);
            assert(self@.links =~= r.links);
            assert(self@.headings =~= r.headings);
            assert(self@.blocks =~= r.blocks);
        }
    }

    fn end_heading(&mut self, lm: &LineMap, text: &str, e: &MdSpanned)
        requires
            old(self)@.pending_heading is Some ==> is_boundary(text@, e.end as int),
            lm.wf(),
            lm@ == text@,
        ensures
            final(self)@ == end_heading(text@, old(self)@, e@),
    {
        let ghost s = self@;
        match self.pending_heading.take() {
            Some((h, sp)) => {
                let tr = trimmed(h.as_str());
                if tr.len() > 0 {
                    let end = lm.offset_to_point(text, e.end);
                    let t = string_of(tr.as_slice());
                    if self.heading_level == 1 && self.title.is_none() {
                        self.title = Some(t.clone());
                    }
                    self.headings.push(
                        Heading { level: self.heading_level, text: t, range: TextRange { start: sp, end } },
                    );
                }
            },
            None => {},
        }
        self.in_heading = false;
        proof {
            let r = end_heading(text@, s, e@);
            assert(self@.headings =~= r.headings);
            assert(self@.links =~= r.links);
            assert(self@.blocks =~= r.blocks);
        }
    }

    fn start_link(
        &mut self,
        lm: &LineMap,
        text: &str,
        wiki: bool,
        e: &MdSpanned,
        link_type: MdLinkType,
        dest: &String,
        embedded: bool,
    )
        requires
            is_boundary(text@, e.start as int),
            is_boundary(text@, e.end as int),
            lm.wf(),
            lm@ == text@,
        ensures
            final(self)@ == start_link(text@, wiki, old(self)@, e@, link_type, dest@, embedded),
    {
        let ghost s = self@;
        if !embedded && (link_type == MdLinkType::Autolink || link_type == MdLinkType::Email) {
            let start = lm.offset_to_point(text, e.start);
            let end = lm.offset_to_point(text, e.end);
            self.links.push(
                DocLink {
                    target: dest.clone(),
                    raw_target: dest.clone(),
                    alias: None,
                    anchor: None,
                    range: TextRange { start, end },
                    kind: LinkKind::AutoLink,
                },
            );
        } else if link_type == MdLinkType::WikiLink && !wiki {
        } else {
            let start = lm.offset_to_point(text, e.start);
            self.pending_link = Some(
                PendingLink {
                    raw_left: dest.clone(),
                    start_point: start,
                    is_embedded: embedded,
                    is_wikilink: link_type == MdLinkType::WikiLink,
                    collector: String::new(),
                },
            );
        }
        proof {
            let r = start_link(text@, wiki, s, e@, link_type, dest@, embedded);
            assert(self@.links =~= r.links);
            assert(self@.headings =~= r.headings);
            assert(self@.blocks =~= r.blocks);
        }
    }

    fn end_link(
        &mut self,
        lm: &LineMap,
        cs: &Vec<char>,
        text: &str,
        kinds: &[LinkKind],
        fmt: WikiLinkFormat,
        e: &MdSpanned,
    )
        requires
            is_boundary(text@, e.end as int),
            lm.wf(),
            lm@ == text@,
            cs@ == text@,
        ensures
            final(self)@ == end_link(text@, kinds@, fmt, old(self)@, e@),
    {
        let ghost s = self@;
        match self.pending_link.take() {
            Some(p) => {
                match finish_link(lm, cs, text, kinds, fmt, &p, e.end) {
                    Some(l) => {
                        self.links.push(l);
                    },
                    None => {},
                }
            },
            None => {},
        }
        proof {
            let r = end_link(text@, kinds@, fmt, s, e@);
            assert(self@.links =~= r.links);
            assert(self@.headings =~= r.headings);
            assert(self@.blocks =~= r.blocks);
        }
    }

    fn step(
        &mut self,
        lm: &LineMap,
        cs: &Vec<char>,
        text: &str,
        kinds: &[LinkKind],
        wiki: bool,
        fmt: WikiLinkFormat,
        e: &MdSpanned,
    )
        requires
            is_boundary(text@, e.start as int),
            is_boundary(text@, e.end as int),
            lm.wf(),
            lm@ == text@,
            cs@ == text@,
            (wiki, fmt) == wiki_config(kinds@),
        ensures
            final(self)@ == step(text@, kinds@, old(self)@, e@),
    {
        let ghost s = self@;
        match &e.event {
            MdEvent::StartParagraph | MdEvent::StartItem => {
                let p = lm.offset_to_point(text, e.start);
                self.in_block = true;
                self.block_start = Some(p);
                self.block_text = String::new();
                proof {
                    assert(self@.links =~= step(text@, kinds@, s, e@).links);
                    assert(self@.headings =~= step(text@, kinds@, s, e@).headings);
                    assert(self@.blocks =~= step(text@, kinds@, s, e@).blocks);
                }
            },
            MdEvent::EndParagraph | MdEvent::EndItem => {
                self.end_block(lm, text, e);
            },
            MdEvent::StartYamlMetadata => {
                self.in_frontmatter = true;
                proof {
                    assert(self@.links =~= step(text@, kinds@, s, e@).links);
                    assert(self@.headings =~= step(text@, kinds@, s, e@).headings);
                    assert(self@.blocks =~= step(text@, kinds@, s, e@).blocks);
                }
            },
            MdEvent::EndYamlMetadata => {
                self.end_front_matter(e);
            },
            MdEvent::StartHeading(level) => {
                let p = lm.offset_to_point(text, e.start);
                self.in_heading = true;
                self.heading_level = *level;
                self.pending_heading = Some((String::new(), p));
                proof {
                    assert(self@.links =~= step(text@, kinds@, s, e@).links);
                    assert(self@.headings =~= step(text@, kinds@, s, e@).headings);
                    assert(self@.blocks =~= step(text@, kinds@, s, e@).blocks);
                }
            },
            MdEvent::EndHeading => {
                self.end_heading(lm, text, e);
            },
            MdEvent::StartLink { link_type, dest_url } => {
                self.start_link(lm, text, wiki, e, *link_type, dest_url, false);
            },
            MdEvent::StartImage { link_type, dest_url } => {
                self.start_link(lm, text, wiki, e, *link_type, dest_url, true);
            },
            MdEvent::EndLink | MdEvent::EndImage => {
                self.end_link(lm, cs, text, kinds, fmt, e);
            },
            MdEvent::Text(x) => {
                self.read_text(x);
            },
            MdEvent::Other => {},
        }
    }
}

/// The link a pending link becomes at its end, if its kind is parsed.
fn finish_link(
    lm: &LineMap,
    cs: &Vec<char>,
    text: &str,
    kinds: &[LinkKind],
    fmt: WikiLinkFormat,
    p: &PendingLink,
    end: usize,
) -> (r: Option<DocLink>)
    requires
        is_boundary(text@, end as int),
        lm.wf(),
        lm@ == text@,
        cs@ == text@,
    ensures
        match r {
            Some(l) => finished_link(text@, kinds@, fmt, p@, end as int) == Some(l@),
            None => finished_link(text@, kinds@, fmt, p@, end as int) is None,
        },
{
    let ghost t = text@;
    let _total = crate::text::byte_len_of(text);
    let end_offset = if p.is_wikilink {
        let k = lm.char_index(end);
        proof {
            lemma_boundary_index(t, k as int);
        }
        let (_k2, o) = skip_brackets_from(cs.as_slice(), k, end);
        proof {
            lemma_skip_brackets_bound(t, k as int);
            lemma_boundary_index(t, _k2 as int);
        }
        o
    } else {
        end
    };
    let left = trimmed(p.raw_left.as_str());
    let right = trimmed(p.collector.as_str());
    let (target, alias, kind) = if p.is_wikilink {
        let kind = if p.is_embedded {
            LinkKind::EmbeddedWikiLink(fmt)
        } else {
            LinkKind::WikiLink(fmt)
        };
        if slice_eq(left.as_slice(), right.as_slice()) || right.len() == 0 {
            (string_of(left.as_slice()), None, kind)
        } else {
            match fmt {
                WikiLinkFormat::AliasFirst => (
                    string_of(right.as_slice()),
                    Some(string_of(left.as_slice())),
                    kind,
                ),
                WikiLinkFormat::TargetFirst => (
                    string_of(left.as_slice()),
                    Some(string_of(right.as_slice())),
                    kind,
                ),
            }
        }
    } else {
        let kind = if p.is_embedded {
            LinkKind::MarkdownImage
        } else {
            LinkKind::MarkdownLink
        };
        (
            string_of(left.as_slice()),
            if right.len() == 0 {
                None
            } else {
                Some(string_of(right.as_slice()))
            },
            kind,
        )
    };
    if !kinds_contain(kinds, kind) {
        return None;
    }
    let tc = chars_of(target.as_str());
    let (final_target, anchor) = match find_char(tc.as_slice(), '#') {
        Some(i) => {
            assert(i < tc.len());
            let a = slice_sub(tc.as_slice(), 0, i);
            let b = slice_sub(tc.as_slice(), i + 1, tc.len());
            assert(a@ =~= tc@.take(i as int));
            assert(b@ =~= tc@.skip(i + 1));
            (string_of(a.as_slice()), Some(string_of(b.as_slice())))
        },
        None => (target, None),
    };
    let end_point = lm.offset_to_point(text, end_offset);
    let l = DocLink {
        target: final_target,
        raw_target: string_of(left.as_slice()),
        alias,
        anchor,
        range: TextRange { start: p.start_point, end: end_point },
        kind,
    };
    proof {
        if p.is_wikilink {
            let k = boundary_index(t, end as int);
            lemma_boundary_index(t, skip_brackets(t, k));
        }
    }
    Some(l)
}

/// Reads the events of `text` in order.
pub fn parse_events(text: &str, events: &[MdSpanned], supported_kinds: &[LinkKind]) -> (r:
    ParseResult)
    requires
        events_in_text(text@, events@.map_values(|e: MdSpanned| e@)),
    ensures
        ({
            let s = read_events(text@, supported_kinds@, events@.map_values(|e: MdSpanned| e@));
            &&& r.links@.map_values(|l: DocLink| l@) == s.links
            &&& r.headings@.map_values(|h: Heading| heading_view(h)) == s.headings
            &&& r.blocks@.map_values(|b: Block| block_view(b)) == s.blocks
            &&& opt_view(r.title) == s.title
            &&& opt_view(r.frontmatter) == s.frontmatter
            &&& r.content_start_offset as int == s.content_start_offset
            &&& r.digest@ == digest_of(text@)
        }),
{
    let ghost evs = events@.map_values(|e: MdSpanned| e@);
    let lm = LineMap::new(text);
    let cs = chars_of(text);
    let (wiki, fmt) = wiki_config_of(supported_kinds);
    let mut st = ParseState::new();
    let mut i: usize = 0;
    proof {
        assert(evs.take(0) =~= Seq::<MdSpannedView>::empty());
    }
    while i < events.len()
        invariant
            i <= events@.len(),
            evs == events@.map_values(|e: MdSpanned| e@),
            events_in_text(text@, evs),
            lm.wf(),
            lm@ == text@,
            cs@ == text@,
            (wiki, fmt) == wiki_config(supported_kinds@),
            st@ == read_events(text@, supported_kinds@, evs.take(i as int)),
        decreases events@.len() - i,
    {
        proof {
            assert(evs.take(i as int + 1).drop_last() =~= evs.take(i as int));
            assert(evs[i as int] == events@[i as int]@);
            assert(is_boundary(text@, evs[i as int].start));
        }
        st.step(&lm, &cs, text, supported_kinds, wiki, fmt, &events[i]);
        i = i + 1;
    }
    proof {
        assert(evs.take(events@.len() as int) =~= evs);
    }
    ParseResult {
        links: st.links,
        headings: st.headings,
        blocks: st.blocks,
        title: st.title,
        frontmatter: st.frontmatter,
        content_start_offset: st.content_start_offset,
        digest: compute_digest(text),
    }
}

/// Whether every event covers a range of whole characters of `text`.
pub fn events_within(text: &str, events: &[MdSpanned]) -> (r: bool)
    ensures
        r == events_in_text(text@, events@.map_values(|e: MdSpanned| e@)),
{
    let ghost evs = events@.map_values(|e: MdSpanned| e@);
    let lm = LineMap::new(text);
    let mut i: usize = 0;
    while i < events.len()
        invariant
            i <= events@.len(),
            evs == events@.map_values(|e: MdSpanned| e@),
            lm.wf(),
            lm@ == text@,
            forall|j: int|
                0 <= j < i ==> is_boundary(text@, #[trigger] evs[j].start) && is_boundary(
                    text@,
                    evs[j].end,
                ),
        decreases events@.len() - i,
    {
        let e = &events[i];
        assert(evs[i as int] == e@);
        if !lm.is_char_boundary(e.start) || !lm.is_char_boundary(e.end) {
            proof {
                assert(evs.len() == events@.len());
                lemma_event_outside_text(text@, evs, i as int);
            }
            return false;
        }
        i = i + 1;
    }
    assert(evs.len() == events@.len());
    true
}

/// What reading `text` keeping the links of `kinds` gives: the state after
/// its events, or the empty reading when an event does not fall between
/// characters.
pub open spec fn parsed(text: Seq<char>, kinds: Seq<LinkKind>) -> ParseStateView {
    let evs = markdown_events_of(text, wiki_config(kinds).0);
    if events_in_text(text, evs) {
        read_events(text, kinds, evs)
    } else {
        initial_state()
    }
}

/// `r` holds the links, headings, blocks, title, front matter and content
/// offset of the reading `s`.
pub open spec fn holds_reading(r: ParseResult, s: ParseStateView) -> bool {
    &&& r.links@.map_values(|l: DocLink| l@) == s.links
    &&& r.headings@.map_values(|h: Heading| heading_view(h)) == s.headings
    &&& r.blocks@.map_values(|b: Block| block_view(b)) == s.blocks
    &&& opt_view(r.title) == s.title
    &&& opt_view(r.frontmatter) == s.frontmatter
    &&& r.content_start_offset as int == s.content_start_offset
}

/// Parse Markdown content into its links, headings, blocks, title and front
/// matter, keeping the links of the kinds in `supported_kinds` (autolinks are
/// always kept); wiki links are parsed when a wiki link kind is supported.
///
/// The events come from pulldown-cmark; when one of them does not cover whole
/// characters of `text`, nothing is read from them.
pub fn parse_markdown(text: &str, supported_kinds: &[LinkKind]) -> (r: ParseResult)
    ensures
        ({
            let evs = markdown_events_of(text@, wiki_config(supported_kinds@).0);
            let s = read_events(text@, supported_kinds@, evs);
            if events_in_text(text@, evs) {
                &&& r.links@.map_values(|l: DocLink| l@) == s.links
                &&& r.headings@.map_values(|h: Heading| heading_view(h)) == s.headings
                &&& r.blocks@.map_values(|b: Block| block_view(b)) == s.blocks
                &&& opt_view(r.title) == s.title
                &&& opt_view(r.frontmatter) == s.frontmatter
                &&& r.content_start_offset as int == s.content_start_offset
            } else {
                &&& r.links@.len() == 0
                &&& r.headings@.len() == 0
                &&& r.blocks@.len() == 0
                &&& r.title is None
                &&& r.frontmatter is None
                &&& r.content_start_offset == 0
            }
        }),
        r.digest@ == digest_of(text@),
        holds_reading(r, parsed(text@, supported_kinds@)),
        r.frontmatter is None ==> is_first_level1_title(
            opt_view(r.title),
            r.headings@.map_values(|h: Heading| heading_view(h)),
        ),
{
    let (wiki, _fmt) = wiki_config_of(supported_kinds);
    let events = markdown_events(text, wiki);
    proof {
        lemma_read_events_title(
            text@,
            supported_kinds@,
            markdown_events_of(text@, wiki_config(supported_kinds@).0),
        );
    }
    if events_within(text, events.as_slice()) {
        parse_events(text, events.as_slice(), supported_kinds)
    } else {
        let r = ParseResult {
            links: Vec::new(),
            headings: Vec::new(),
            blocks: Vec::new(),
            title: None,
            frontmatter: None,
            content_start_offset: 0,
            digest: compute_digest(text),
        };
        assert(r.links@.map_values(|l: DocLink| l@) =~= Seq::<DocLinkView>::empty());
        assert(r.headings@.map_values(|h: Heading| heading_view(h)) =~= Seq::<HeadingView>::empty());
        assert(r.blocks@.map_values(|b: Block| block_view(b)) =~= Seq::<BlockView>::empty());
        r
    }
}


} // verus!

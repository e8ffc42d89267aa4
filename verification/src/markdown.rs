//! Markdown to HTML.

use pulldown_cmark::{html, Event, Options, Parser, Tag, TagEnd};
use vstd::prelude::*;

use crate::pattern;
use crate::pattern::{Match, MatchView, Pattern};
use crate::table::TextMap;
use crate::text;

verus! {

/// An event of a Markdown document, as far as the bridge tells events apart.
pub enum MarkdownEvent {
    CodeBlockStart,
    CodeBlockEnd,
    SoftBreak,
    Text(String),
    Other,
}

/// What an event says.
pub enum MarkdownEventView {
    CodeBlockStart,
    CodeBlockEnd,
    SoftBreak,
    Text(Seq<char>),
    Other,
}

impl View for MarkdownEvent {
    type V = MarkdownEventView;

    open spec fn view(&self) -> MarkdownEventView {
        match self {
            MarkdownEvent::CodeBlockStart => MarkdownEventView::CodeBlockStart,
            MarkdownEvent::CodeBlockEnd => MarkdownEventView::CodeBlockEnd,
            MarkdownEvent::SoftBreak => MarkdownEventView::SoftBreak,
            MarkdownEvent::Text(s) => MarkdownEventView::Text(s@),
            MarkdownEvent::Other => MarkdownEventView::Other,
        }
    }
}

/// What the events of a document say.
pub open spec fn event_views(events: Seq<MarkdownEvent>) -> Seq<MarkdownEventView> {
    Seq::new(events.len(), |i: int| events[i]@)
}

/// What is handed to the HTML writer: an event of the document by its place, or one of the bridge's
/// own.
pub enum HtmlPiece {
    Source(usize),
    Text(String),
    Html(String),
    HardBreak,
}

/// What a piece says.
pub enum HtmlPieceView {
    Source(int),
    Text(Seq<char>),
    Html(Seq<char>),
    HardBreak,
}

impl View for HtmlPiece {
    type V = HtmlPieceView;

    open spec fn view(&self) -> HtmlPieceView {
        match self {
            HtmlPiece::Source(i) => HtmlPieceView::Source(*i as int),
            HtmlPiece::Text(s) => HtmlPieceView::Text(s@),
            HtmlPiece::Html(s) => HtmlPieceView::Html(s@),
            HtmlPiece::HardBreak => HtmlPieceView::HardBreak,
        }
    }
}

/// What pieces say.
pub open spec fn piece_views(pieces: Seq<HtmlPiece>) -> Seq<HtmlPieceView> {
    Seq::new(pieces.len(), |i: int| pieces[i]@)
}

/// The events of a Markdown document, read with or without strikethrough and tables.
pub uninterp spec fn markdown_events(
    strikethrough: bool,
    tables: bool,
    document: Seq<char>,
) -> Seq<MarkdownEventView>;

/// The HTML that pieces give, where places are those of the document's events.
pub uninterp spec fn markdown_html(
    strikethrough: bool,
    tables: bool,
    document: Seq<char>,
    pieces: Seq<HtmlPieceView>,
) -> Seq<char>;

/// Reads Markdown with `pulldown_cmark::Parser::new_ext` and tells the events apart. Trusted: the
/// events depend on the document and the options alone.
#[verifier::external_body]
fn read_events(strikethrough: bool, tables: bool, document: &str) -> (events: Vec<MarkdownEvent>)
    ensures
        event_views(events@) == markdown_events(strikethrough, tables, document@),
{
    let mut options = Options::empty();
    options.set(Options::ENABLE_STRIKETHROUGH, strikethrough);
    options.set(Options::ENABLE_TABLES, tables);
    Parser::new_ext(document, options).map(|event| match event {
        Event::Start(Tag::CodeBlock(_)) => MarkdownEvent::CodeBlockStart,
        Event::End(TagEnd::CodeBlock) => MarkdownEvent::CodeBlockEnd,
        Event::SoftBreak => MarkdownEvent::SoftBreak,
        Event::Text(s) => MarkdownEvent::Text(s.into_string()),
        _ => MarkdownEvent::Other,
    }).collect()
}

/// Writes HTML with `pulldown_cmark::html::push_html`, taking events by their places from the
/// document, which is read as in [`read_events`]. Trusted: the HTML depends on the document, the
/// options and the pieces alone.
#[verifier::external_body]
fn write_html(strikethrough: bool, tables: bool, document: &str, pieces: &Vec<HtmlPiece>) -> (out:
    String)
    requires
        sources_within(
            piece_views(pieces@),
            markdown_events(strikethrough, tables, document@).len() as int,
        ),
    ensures
        out@ == markdown_html(strikethrough, tables, document@, piece_views(pieces@)),
{
    let mut options = Options::empty();
    options.set(Options::ENABLE_STRIKETHROUGH, strikethrough);
    options.set(Options::ENABLE_TABLES, tables);
    let events: Vec<Event> = Parser::new_ext(document, options).collect();
    let mut out = String::new();
    html::push_html(&mut out, pieces.iter().map(|piece| match piece {
        HtmlPiece::Source(i) => events[*i].clone(),
        HtmlPiece::Text(s) => Event::Text(s.as_str().into()),
        HtmlPiece::Html(s) => Event::Html(s.as_str().into()),
        HtmlPiece::HardBreak => Event::HardBreak,
    }));
    out
}

/// Whether all places are places of a document with `count` events.
pub open spec fn sources_within(pieces: Seq<HtmlPieceView>, count: int) -> bool {
    forall|i: int|
        0 <= i < pieces.len() ==> ((#[trigger] pieces[i]) matches HtmlPieceView::Source(at) ==> 0
            <= at < count)
}

/// The events of a document with `count` of them, from place `from` on.
pub open spec fn all_sources(from: int, count: int) -> Seq<HtmlPieceView> {
    Seq::new((count - from) as nat, |i: int| HtmlPieceView::Source(from + i))
}

/// The HTML of a document as it is, with strikethrough and tables.
pub open spec fn plain_html(document: Seq<char>) -> Seq<char> {
    markdown_html(
        true,
        true,
        document,
        all_sources(0, markdown_events(true, true, document).len() as int),
    )
}

/// Turns a document into HTML, with strikethrough and tables.
pub fn to_html(document: &str) -> (out: String)
    ensures
        out@ == plain_html(document@),
{
    let events = read_events(true, true, document);
    let count: usize = events.len();
    let mut pieces: Vec<HtmlPiece> = Vec::new();
    let mut i: usize = 0;
    while i < count
        invariant
            i <= count,
            pieces@.len() == i,
            forall|j: int| 0 <= j < i ==> (#[trigger] pieces@[j])@ == HtmlPieceView::Source(j),
        decreases count - i,
    {
        pieces.push(HtmlPiece::Source(i));
        i += 1;
    }
    proof {
        assert(event_views(events@).len() == count);
        assert(piece_views(pieces@) =~= all_sources(0, count as int));
    }
    write_html(true, true, document, &pieces)
}

/// The image that shows an emote.
pub open spec fn emote_image(name: Seq<char>, url: Seq<char>) -> Seq<char> {
    "<img alt=\":"@ + name + ":\" title=\":"@ + name + ":\" height=\"32\" src=\""@ + url
        + "\" data-mx-emoticon />"@
}

/// A part of a text from `from` on, with images in place of the known emotes among `found`.
pub open spec fn part_pieces(
    part: Seq<char>,
    found: Seq<MatchView>,
    from: int,
    emotes: Map<Seq<char>, Seq<char>>,
) -> Seq<HtmlPieceView>
    decreases found.len(),
{
    if found.len() == 0 {
        if from < part.len() {
            seq![HtmlPieceView::Text(part.skip(from))]
        } else {
            Seq::empty()
        }
    } else if emotes.contains_key(found[0].groups[1]) {
        let name = found[0].groups[1];
        let before = if found[0].start > from {
            seq![HtmlPieceView::Text(part.subrange(from, found[0].start))]
        } else {
            Seq::empty()
        };
        before + seq![HtmlPieceView::Html(emote_image(name, emotes[name]))] + part_pieces(
            part,
            found.drop_first(),
            found[0].end,
            emotes,
        )
    } else {
        part_pieces(part, found.drop_first(), from, emotes)
    }
}

/// What opens or closes a spoiler.
pub open spec fn spoiler_tag(open: bool) -> Seq<char> {
    if open {
        "</span>"@
    } else {
        "<span data-mx-spoiler>"@
    }
}

/// The parts of a text from the second one on, each after a spoiler mark.
pub open spec fn marked_pieces(
    parts: Seq<Seq<char>>,
    spoiler: bool,
    emotes: Map<Seq<char>, Seq<char>>,
) -> Seq<HtmlPieceView>
    decreases parts.len(),
{
    if parts.len() == 0 {
        Seq::empty()
    } else {
        seq![HtmlPieceView::Html(spoiler_tag(spoiler))] + part_pieces(
            parts[0],
            pattern::matches_of(Pattern::Shortcode, parts[0]),
            0,
            emotes,
        ) + marked_pieces(parts.drop_first(), !spoiler, emotes)
    }
}

/// The pieces of a text, cut at its spoiler marks.
pub open spec fn text_pieces(
    parts: Seq<Seq<char>>,
    spoiler: bool,
    emotes: Map<Seq<char>, Seq<char>>,
) -> Seq<HtmlPieceView> {
    part_pieces(
        parts[0],
        pattern::matches_of(Pattern::Shortcode, parts[0]),
        0,
        emotes,
    ) + marked_pieces(parts.drop_first(), spoiler, emotes)
}

/// Whether a spoiler is open after a text with `marks` marks.
pub open spec fn spoiler_after(spoiler: bool, marks: int) -> bool {
    if marks % 2 == 0 {
        spoiler
    } else {
        !spoiler
    }
}

/// The pieces of the events from place `at` on, and whether a spoiler is open at the end. A soft
/// break becomes a hard one; in text outside code blocks `||` opens and closes spoilers, and known
/// emotes become images.
pub open spec fn rewritten(
    events: Seq<MarkdownEventView>,
    at: int,
    code: bool,
    spoiler: bool,
    emotes: Map<Seq<char>, Seq<char>>,
) -> (Seq<HtmlPieceView>, bool)
    decreases events.len() - at,
{
    if at >= events.len() || at < 0 {
        (Seq::empty(), spoiler)
    } else {
        match events[at] {
            MarkdownEventView::CodeBlockStart => {
                let rest = rewritten(events, at + 1, true, spoiler, emotes);
                (seq![HtmlPieceView::Source(at)] + rest.0, rest.1)
            },
            MarkdownEventView::CodeBlockEnd => {
                let rest = rewritten(events, at + 1, false, spoiler, emotes);
                (seq![HtmlPieceView::Source(at)] + rest.0, rest.1)
            },
            MarkdownEventView::SoftBreak => {
                let rest = rewritten(events, at + 1, code, spoiler, emotes);
                (seq![HtmlPieceView::HardBreak] + rest.0, rest.1)
            },
            MarkdownEventView::Text(s) => if code {
                let rest = rewritten(events, at + 1, code, spoiler, emotes);
                (seq![HtmlPieceView::Source(at)] + rest.0, rest.1)
            } else {
                let parts = text::split_text(s, "||"@);
                let after = spoiler_after(spoiler, parts.len() - 1);
                let rest = rewritten(events, at + 1, code, after, emotes);
                (text_pieces(parts, spoiler, emotes) + rest.0, rest.1)
            },
            MarkdownEventView::Other => {
                let rest = rewritten(events, at + 1, code, spoiler, emotes);
                (seq![HtmlPieceView::Source(at)] + rest.0, rest.1)
            },
        }
    }
}

/// Writes the image that shows an emote.
fn make_emote_image(name: &str, url: &str) -> (s: String)
    ensures
        s@ == emote_image(name@, url@),
{
    "<img alt=\":".to_owned().concat(name).concat(":\" title=\":").concat(name).concat(
        ":\" height=\"32\" src=\"",
    ).concat(url).concat("\" data-mx-emoticon />")
}

/// Adds the pieces of a part of a text, given where shortcodes stand in it.
pub fn push_part(
    pieces: &mut Vec<HtmlPiece>,
    part: &str,
    found: &Vec<Match>,
    emotes: &TextMap<String>,
)
    requires
        pattern::well_placed(pattern::match_views(found@), part@, 1),
    ensures
        piece_views(final(pieces)@) == piece_views(old(pieces)@) + part_pieces(
            part@,
            pattern::match_views(found@),
            0,
            emotes@,
        ),
{
    let chars = text::chars_of(part);
    let length: usize = chars.len();
    let count: usize = found.len();
    let ghost views = pattern::match_views(found@);
    let ghost goal = piece_views(pieces@) + part_pieces(part@, views, 0, emotes@);
    let mut from: usize = 0;
    let mut i: usize = 0;
    assert(views.skip(0) =~= views);
    while i < count
        invariant
            chars@ == part@,
            length == chars@.len(),
            count == found@.len(),
            views == pattern::match_views(found@),
            pattern::well_placed(views, part@, 1),
            i <= count,
            from <= length,
            forall|j: int| i <= j < count ==> from <= (#[trigger] views[j]).start,
            piece_views(pieces@) + part_pieces(part@, views.skip(i as int), from as int, emotes@)
                == goal,
        decreases count - i,
    {
        let ghost before = piece_views(pieces@);
        let m = &found[i];
        proof {
            assert(views[i as int] == m@);
            assert(views.skip(i as int)[0] == m@);
            assert(views.skip(i as int).drop_first() =~= views.skip(i + 1));
            assert(m@.groups[1] == m.groups@[1]@);
        }
        match emotes.get(m.groups[1].as_str()) {
            Some(url) => {
                let ghost rest = part_pieces(part@, views.skip(i + 1), m.end as int, emotes@);
                let image = make_emote_image(m.groups[1].as_str(), url.as_str());
                if m.start > from {
                    let between = text::string_of(&chars, from, m.start);
                    pieces.push(HtmlPiece::Text(between));
                    pieces.push(HtmlPiece::Html(image));
                    proof {
                        let added = seq![
                            HtmlPieceView::Text(part@.subrange(from as int, m.start as int)),
                        ] + seq![HtmlPieceView::Html(image@)];
                        assert(piece_views(pieces@) =~= before + added);
                        assert(piece_views(pieces@) + rest =~= before + (added + rest));
                    }
                } else {
                    pieces.push(HtmlPiece::Html(image));
                    proof {
                        let added = Seq::<HtmlPieceView>::empty() + seq![
                            HtmlPieceView::Html(image@),
                        ];
                        assert(piece_views(pieces@) =~= before + added);
                        assert(piece_views(pieces@) + rest =~= before + (added + rest));
                    }
                }
                from = m.end;
            },
            None => {},
        }
        i += 1;
    }
    if from < length {
        let ghost before = piece_views(pieces@);
        let tail = text::string_of(&chars, from, length);
        pieces.push(HtmlPiece::Text(tail));
        proof {
            assert(tail@ =~= part@.skip(from as int));
            assert(piece_views(pieces@) =~= before + seq![HtmlPieceView::Text(tail@)]);
        }
    } else {
        assert(piece_views(pieces@) + Seq::<HtmlPieceView>::empty() =~= piece_views(pieces@));
    }
}

/// Adds the pieces of a text, cut at its spoiler marks, and says whether a spoiler is open after it.
fn push_text(
    pieces: &mut Vec<HtmlPiece>,
    s: &str,
    spoiler: bool,
    emotes: &TextMap<String>,
) -> (after: bool)
    ensures
        after == spoiler_after(spoiler, text::split_text(s@, "||"@).len() - 1),
        piece_views(final(pieces)@) == piece_views(old(pieces)@) + text_pieces(
            text::split_text(s@, "||"@),
            spoiler,
            emotes@,
        ),
{
    proof {
        reveal_strlit("||");
        text::lemma_split_not_empty(s@, "||"@);
    }
    let parts = text::split(s, "||");
    let count: usize = parts.len();
    let ghost views = text::texts(parts@);
    assert(views.len() == count);
    let ghost start = piece_views(pieces@);
    let found = pattern::find_all(Pattern::Shortcode, parts[0].as_str());
    push_part(pieces, parts[0].as_str(), &found, emotes);
    let ghost goal = start + text_pieces(views, spoiler, emotes@);
    let mut open = spoiler;
    let mut i: usize = 1;
    proof {
        assert(views.drop_first() =~= views.skip(1));
        assert(views[0] == parts@[0]@);
        let first = part_pieces(
            views[0],
            pattern::matches_of(Pattern::Shortcode, views[0]),
            0,
            emotes@,
        );
        let rest = marked_pieces(views.skip(1), spoiler, emotes@);
        assert((start + first) + rest =~= start + (first + rest));
    }
    while i < count
        invariant
            count == parts@.len(),
            views == text::texts(parts@),
            1 <= i <= count,
            open == spoiler_after(spoiler, i - 1),
            piece_views(pieces@) + marked_pieces(views.skip(i as int), open, emotes@) == goal,
        decreases count - i,
    {
        let ghost before = piece_views(pieces@);
        let ghost tag = spoiler_tag(open);
        proof {
            assert(views.skip(i as int)[0] == parts@[i as int]@);
            assert(views.skip(i as int).drop_first() =~= views.skip(i + 1));
        }
        if open {
            pieces.push(HtmlPiece::Html("</span>".to_owned()));
        } else {
            pieces.push(HtmlPiece::Html("<span data-mx-spoiler>".to_owned()));
        }
        assert(piece_views(pieces@) =~= before + seq![HtmlPieceView::Html(tag)]);
        let found = pattern::find_all(Pattern::Shortcode, parts[i].as_str());
        push_part(pieces, parts[i].as_str(), &found, emotes);
        proof {
            let part = part_pieces(
                parts@[i as int]@,
                pattern::matches_of(Pattern::Shortcode, parts@[i as int]@),
                0,
                emotes@,
            );
            let rest = marked_pieces(views.skip(i + 1), !open, emotes@);
            assert(((before + seq![HtmlPieceView::Html(tag)]) + part) + rest =~= before + (seq![
                HtmlPieceView::Html(tag),
            ] + part + rest));
        }
        open = !open;
        i += 1;
    }
    assert(views.skip(count as int) =~= Seq::<Seq<char>>::empty());
    assert(piece_views(pieces@) + Seq::<HtmlPieceView>::empty() =~= piece_views(pieces@));
    open
}

/// Rewrites the events of a document into pieces, and says whether a spoiler is open at the end.
pub fn rewrite(events: &Vec<MarkdownEvent>, emotes: &TextMap<String>) -> (res: (
    Vec<HtmlPiece>,
    bool,
))
    ensures
        (piece_views(res.0@), res.1) == rewritten(event_views(events@), 0, false, false, emotes@),
        sources_within(piece_views(res.0@), events@.len() as int),
{
    let count: usize = events.len();
    let ghost views = event_views(events@);
    let ghost goal = rewritten(views, 0, false, false, emotes@);
    let mut pieces: Vec<HtmlPiece> = Vec::new();
    let mut code = false;
    let mut spoiler = false;
    let mut i: usize = 0;
    assert(piece_views(pieces@) + goal.0 =~= goal.0);
    while i < count
        invariant
            count == events@.len(),
            views == event_views(events@),
            i <= count,
            piece_views(pieces@) + rewritten(views, i as int, code, spoiler, emotes@).0 == goal.0,
            rewritten(views, i as int, code, spoiler, emotes@).1 == goal.1,
            sources_within(piece_views(pieces@), count as int),
        decreases count - i,
    {
        let ghost before = piece_views(pieces@);
        assert(views[i as int] == events@[i as int]@);
        match &events[i] {
            MarkdownEvent::CodeBlockStart => {
                code = true;
                pieces.push(HtmlPiece::Source(i));
                proof {
                    lemma_one_more(before, HtmlPieceView::Source(i as int), count as int);
                    assert(piece_views(pieces@) =~= before + seq![HtmlPieceView::Source(i as int)]);
                }
            },
            MarkdownEvent::CodeBlockEnd => {
                code = false;
                pieces.push(HtmlPiece::Source(i));
                proof {
                    lemma_one_more(before, HtmlPieceView::Source(i as int), count as int);
                    assert(piece_views(pieces@) =~= before + seq![HtmlPieceView::Source(i as int)]);
                }
            },
            MarkdownEvent::SoftBreak => {
                pieces.push(HtmlPiece::HardBreak);
                proof {
                    lemma_one_more(before, HtmlPieceView::HardBreak, count as int);
                    assert(piece_views(pieces@) =~= before + seq![HtmlPieceView::HardBreak]);
                }
            },
            MarkdownEvent::Text(s) => {
                if code {
                    pieces.push(HtmlPiece::Source(i));
                    proof {
                        lemma_one_more(before, HtmlPieceView::Source(i as int), count as int);
                        assert(piece_views(pieces@) =~= before + seq![
                            HtmlPieceView::Source(i as int),
                        ]);
                    }
                } else {
                    let ghost was = spoiler;
                    spoiler = push_text(&mut pieces, s.as_str(), spoiler, emotes);
                    proof {
                        let parts = text::split_text(s@, "||"@);
                        lemma_text_pieces(parts, was, emotes@, count as int);
                        lemma_joined(before, text_pieces(parts, was, emotes@), count as int);
                    }
                }
            },
            MarkdownEvent::Other => {
                pieces.push(HtmlPiece::Source(i));
                proof {
                    lemma_one_more(before, HtmlPieceView::Source(i as int), count as int);
                    assert(piece_views(pieces@) =~= before + seq![HtmlPieceView::Source(i as int)]);
                }
            },
        }
        proof {
            let all = rewritten(views, i + 1, code, spoiler, emotes@).0;
            let added = piece_views(pieces@).skip(before.len() as int);
            assert(piece_views(pieces@) =~= before + added);
            assert((before + added) + all =~= before + (added + all));
        }
        i += 1;
    }
    assert(piece_views(pieces@) + Seq::<HtmlPieceView>::empty() =~= piece_views(pieces@));
    (pieces, spoiler)
}

proof fn lemma_one_more(pieces: Seq<HtmlPieceView>, piece: HtmlPieceView, count: int)
    requires
        sources_within(pieces, count),
        piece matches HtmlPieceView::Source(at) ==> 0 <= at < count,
    ensures
        sources_within(pieces + seq![piece], count),
{
}

proof fn lemma_joined(a: Seq<HtmlPieceView>, b: Seq<HtmlPieceView>, count: int)
    requires
        sources_within(a, count),
        sources_within(b, count),
    ensures
        sources_within(a + b, count),
{
    assert forall|i: int| 0 <= i < (a + b).len() implies ((
    #[trigger] (a + b)[i]) matches HtmlPieceView::Source(at) ==> 0 <= at < count) by {
        if i < a.len() {
            assert((a + b)[i] == a[i]);
        } else {
            assert((a + b)[i] == b[i - a.len()]);
        }
    }
}

/// The pieces of a text name no place of the document.
proof fn lemma_text_pieces(
    parts: Seq<Seq<char>>,
    spoiler: bool,
    emotes: Map<Seq<char>, Seq<char>>,
    count: int,
)
    ensures
        sources_within(text_pieces(parts, spoiler, emotes), count),
{
    let found = pattern::matches_of(Pattern::Shortcode, parts[0]);
    lemma_part_pieces(parts[0], found, 0, emotes, count);
    lemma_marked_pieces(parts.drop_first(), spoiler, emotes, count);
    lemma_joined(
        part_pieces(parts[0], found, 0, emotes),
        marked_pieces(parts.drop_first(), spoiler, emotes),
        count,
    );
}

proof fn lemma_marked_pieces(
    parts: Seq<Seq<char>>,
    spoiler: bool,
    emotes: Map<Seq<char>, Seq<char>>,
    count: int,
)
    ensures
        sources_within(marked_pieces(parts, spoiler, emotes), count),
    decreases parts.len(),
{
    if parts.len() > 0 {
        let found = pattern::matches_of(Pattern::Shortcode, parts[0]);
        let tag = seq![HtmlPieceView::Html(spoiler_tag(spoiler))];
        let part = part_pieces(parts[0], found, 0, emotes);
        lemma_part_pieces(parts[0], found, 0, emotes, count);
        lemma_marked_pieces(parts.drop_first(), !spoiler, emotes, count);
        lemma_joined(tag, part, count);
        lemma_joined(tag + part, marked_pieces(parts.drop_first(), !spoiler, emotes), count);
    }
}

proof fn lemma_part_pieces(
    part: Seq<char>,
    found: Seq<MatchView>,
    from: int,
    emotes: Map<Seq<char>, Seq<char>>,
    count: int,
)
    ensures
        sources_within(part_pieces(part, found, from, emotes), count),
    decreases found.len(),
{
    if found.len() > 0 {
        let name = found[0].groups[1];
        if emotes.contains_key(name) {
            let before = if found[0].start > from {
                seq![HtmlPieceView::Text(part.subrange(from, found[0].start))]
            } else {
                Seq::empty()
            };
            let image = seq![HtmlPieceView::Html(emote_image(name, emotes[name]))];
            lemma_joined(before, image, count);
            lemma_part_pieces(part, found.drop_first(), found[0].end, emotes, count);
            lemma_joined(
                before + image,
                part_pieces(part, found.drop_first(), found[0].end, emotes),
                count,
            );
        } else {
            lemma_part_pieces(part, found.drop_first(), from, emotes, count);
        }
    }
}

/// The HTML of a message with its emotes and spoilers, as the writer gives it, and whether a spoiler
/// is open at its end.
pub open spec fn message_html(
    message: Seq<char>,
    emotes: Map<Seq<char>, Seq<char>>,
) -> (Seq<char>, bool) {
    let pieces = rewritten(markdown_events(true, true, message), 0, false, false, emotes);
    (markdown_html(true, true, message, pieces.0), pieces.1)
}

/// Turns a message into HTML with its emotes and spoilers, and says whether a spoiler is open at its
/// end.
pub fn message_to_html(message: &str, emotes: &TextMap<String>) -> (res: (String, bool))
    ensures
        (res.0@, res.1) == message_html(message@, emotes@),
{
    let events = read_events(true, true, message);
    let (pieces, spoiler) = rewrite(&events, emotes);
    proof {
        assert(event_views(events@).len() == events@.len());
    }
    (write_html(true, true, message, &pieces), spoiler)
}

/// How many more spoilers the pieces open than they close.
pub open spec fn open_spoilers(pieces: Seq<HtmlPieceView>) -> int
    decreases pieces.len(),
{
    if pieces.len() == 0 {
        0
    } else {
        open_spoilers(pieces.drop_last()) + match pieces.last() {
            HtmlPieceView::Html(tag) => if tag == "<span data-mx-spoiler>"@ {
                1
            } else if tag == "</span>"@ {
                -1int
            } else {
                0
            },
            _ => 0,
        }
    }
}

proof fn lemma_open_spoilers(a: Seq<HtmlPieceView>, b: Seq<HtmlPieceView>)
    ensures
        open_spoilers(a + b) == open_spoilers(a) + open_spoilers(b),
    decreases b.len(),
{
    if b.len() == 0 {
        assert(a + b =~= a);
    } else {
        lemma_open_spoilers(a, b.drop_last());
        assert((a + b).drop_last() =~= a + b.drop_last());
        assert((a + b).last() == b.last());
    }
}

/// Whether pieces, with `depth` spoilers open before them, never open a spoiler inside another and
/// never close one that is not open.
pub open spec fn never_nests(pieces: Seq<HtmlPieceView>, depth: int) -> bool {
    forall|k: int|
        0 <= k <= pieces.len() ==> 0 <= depth + #[trigger] open_spoilers(pieces.take(k)) <= 1
}

proof fn lemma_nesting_joins(a: Seq<HtmlPieceView>, b: Seq<HtmlPieceView>, depth: int)
    requires
        never_nests(a, depth),
        never_nests(b, depth + open_spoilers(a)),
    ensures
        never_nests(a + b, depth),
        open_spoilers(a + b) == open_spoilers(a) + open_spoilers(b),
{
    lemma_open_spoilers(a, b);
    assert forall|k: int| 0 <= k <= (a + b).len() implies 0 <= depth + #[trigger] open_spoilers(
        (a + b).take(k),
    ) <= 1 by {
        if k <= a.len() {
            assert((a + b).take(k) =~= a.take(k));
        } else {
            assert((a + b).take(k) =~= a + b.take(k - a.len()));
            lemma_open_spoilers(a, b.take(k - a.len()));
        }
    }
}

proof fn lemma_nesting_of_one(piece: HtmlPieceView, depth: int)
    requires
        0 <= depth <= 1,
        0 <= depth + open_spoilers(seq![piece]) <= 1,
    ensures
        never_nests(seq![piece], depth),
{
    let one = seq![piece];
    assert(open_spoilers(Seq::<HtmlPieceView>::empty()) == 0);
    assert forall|k: int| 0 <= k <= one.len() implies 0 <= depth + #[trigger] open_spoilers(
        one.take(k),
    ) <= 1 by {
        if k == 0 {
            assert(one.take(0) =~= Seq::<HtmlPieceView>::empty());
        } else {
            assert(one.take(k) =~= one);
        }
    }
}

proof fn lemma_nothing_nests(depth: int)
    requires
        0 <= depth <= 1,
    ensures
        never_nests(Seq::empty(), depth),
        open_spoilers(Seq::empty()) == 0,
{
    assert forall|k: int| 0 <= k <= Seq::<HtmlPieceView>::empty().len() implies 0 <= depth
        + #[trigger] open_spoilers(Seq::<HtmlPieceView>::empty().take(k)) <= 1 by {
        assert(Seq::<HtmlPieceView>::empty().take(k) =~= Seq::<HtmlPieceView>::empty());
    }
}

proof fn lemma_open_of_one(piece: HtmlPieceView)
    ensures
        piece !is Html ==> open_spoilers(seq![piece]) == 0,
        piece == HtmlPieceView::Html(spoiler_tag(true)) ==> open_spoilers(seq![piece]) == -1,
        piece == HtmlPieceView::Html(spoiler_tag(false)) ==> open_spoilers(seq![piece]) == 1,
        forall|name: Seq<char>, url: Seq<char>|
            piece == HtmlPieceView::Html(#[trigger] emote_image(name, url)) ==> open_spoilers(
                seq![piece],
            ) == 0,
{
    reveal_strlit("<span data-mx-spoiler>");
    reveal_strlit("</span>");
    reveal_strlit("<img alt=\":");
    assert(seq![piece].drop_last() =~= Seq::<HtmlPieceView>::empty());
    assert(open_spoilers(Seq::<HtmlPieceView>::empty()) == 0);
    assert("</span>"@[1] == '/' && "<span data-mx-spoiler>"@[1] == 's');
    assert forall|name: Seq<char>, url: Seq<char>|
        piece == HtmlPieceView::Html(#[trigger] emote_image(name, url)) implies open_spoilers(
        seq![piece],
    ) == 0 by {
        assert(emote_image(name, url)[1] == 'i');
    }
}

proof fn lemma_part_opens_nothing(
    part: Seq<char>,
    found: Seq<MatchView>,
    from: int,
    emotes: Map<Seq<char>, Seq<char>>,
    depth: int,
)
    requires
        0 <= depth <= 1,
    ensures
        open_spoilers(part_pieces(part, found, from, emotes)) == 0,
        never_nests(part_pieces(part, found, from, emotes), depth),
    decreases found.len(),
{
    lemma_nothing_nests(depth);
    if found.len() == 0 {
        if from < part.len() {
            lemma_open_of_one(HtmlPieceView::Text(part.skip(from)));
            lemma_nesting_of_one(HtmlPieceView::Text(part.skip(from)), depth);
        }
    } else {
        let name = found[0].groups[1];
        if emotes.contains_key(name) {
            let between = HtmlPieceView::Text(part.subrange(from, found[0].start));
            let before = if found[0].start > from {
                seq![between]
            } else {
                Seq::empty()
            };
            let image = HtmlPieceView::Html(emote_image(name, emotes[name]));
            let rest = part_pieces(part, found.drop_first(), found[0].end, emotes);
            lemma_open_of_one(between);
            lemma_nesting_of_one(between, depth);
            lemma_open_of_one(image);
            lemma_nesting_of_one(image, depth);
            lemma_part_opens_nothing(part, found.drop_first(), found[0].end, emotes, depth);
            lemma_nesting_joins(before, seq![image], depth);
            lemma_nesting_joins(before + seq![image], rest, depth);
        } else {
            lemma_part_opens_nothing(part, found.drop_first(), from, emotes, depth);
        }
    }
}

/// One where a spoiler is open, or else zero.
pub open spec fn spoiler_depth(spoiler: bool) -> int {
    if spoiler {
        1
    } else {
        0
    }
}

proof fn lemma_marks_balance(
    parts: Seq<Seq<char>>,
    spoiler: bool,
    emotes: Map<Seq<char>, Seq<char>>,
)
    ensures
        spoiler_depth(spoiler) + open_spoilers(marked_pieces(parts, spoiler, emotes))
            == spoiler_depth(spoiler_after(spoiler, parts.len() as int)),
        never_nests(marked_pieces(parts, spoiler, emotes), spoiler_depth(spoiler)),
    decreases parts.len(),
{
    lemma_nothing_nests(spoiler_depth(spoiler));
    if parts.len() > 0 {
        let tag = HtmlPieceView::Html(spoiler_tag(spoiler));
        let found = pattern::matches_of(Pattern::Shortcode, parts[0]);
        let part = part_pieces(parts[0], found, 0, emotes);
        let rest = marked_pieces(parts.drop_first(), !spoiler, emotes);
        lemma_open_of_one(tag);
        lemma_nesting_of_one(tag, spoiler_depth(spoiler));
        lemma_part_opens_nothing(parts[0], found, 0, emotes, spoiler_depth(!spoiler));
        lemma_marks_balance(parts.drop_first(), !spoiler, emotes);
        lemma_nesting_joins(seq![tag], part, spoiler_depth(spoiler));
        lemma_nesting_joins(seq![tag] + part, rest, spoiler_depth(spoiler));
    }
}

/// What a piece that is no spoiler tag adds to pieces that balance.
proof fn lemma_plain_piece(piece: HtmlPieceView, rest: Seq<HtmlPieceView>, spoiler: bool)
    requires
        piece !is Html,
        never_nests(rest, spoiler_depth(spoiler)),
    ensures
        never_nests(seq![piece] + rest, spoiler_depth(spoiler)),
        open_spoilers(seq![piece] + rest) == open_spoilers(rest),
{
    lemma_open_of_one(piece);
    lemma_nesting_of_one(piece, spoiler_depth(spoiler));
    lemma_nesting_joins(seq![piece], rest, spoiler_depth(spoiler));
}

proof fn lemma_rewriting_balances(
    events: Seq<MarkdownEventView>,
    at: int,
    code: bool,
    spoiler: bool,
    emotes: Map<Seq<char>, Seq<char>>,
)
    ensures
        spoiler_depth(spoiler) + open_spoilers(rewritten(events, at, code, spoiler, emotes).0)
            == spoiler_depth(rewritten(events, at, code, spoiler, emotes).1),
        never_nests(rewritten(events, at, code, spoiler, emotes).0, spoiler_depth(spoiler)),
    decreases events.len() - at,
{
    if at < 0 || at >= events.len() {
        lemma_nothing_nests(spoiler_depth(spoiler));
    } else {
        match events[at] {
            MarkdownEventView::CodeBlockStart => {
                let rest = rewritten(events, at + 1, true, spoiler, emotes);
                lemma_rewriting_balances(events, at + 1, true, spoiler, emotes);
                lemma_plain_piece(HtmlPieceView::Source(at), rest.0, spoiler);
            },
            MarkdownEventView::CodeBlockEnd => {
                let rest = rewritten(events, at + 1, false, spoiler, emotes);
                lemma_rewriting_balances(events, at + 1, false, spoiler, emotes);
                lemma_plain_piece(HtmlPieceView::Source(at), rest.0, spoiler);
            },
            MarkdownEventView::SoftBreak => {
                let rest = rewritten(events, at + 1, code, spoiler, emotes);
                lemma_rewriting_balances(events, at + 1, code, spoiler, emotes);
                lemma_plain_piece(HtmlPieceView::HardBreak, rest.0, spoiler);
            },
            MarkdownEventView::Text(s) => {
                if code {
                    let rest = rewritten(events, at + 1, code, spoiler, emotes);
                    lemma_rewriting_balances(events, at + 1, code, spoiler, emotes);
                    lemma_plain_piece(HtmlPieceView::Source(at), rest.0, spoiler);
                } else {
                    reveal_strlit("||");
                    text::lemma_split_not_empty(s, "||"@);
                    let parts = text::split_text(s, "||"@);
                    let after = spoiler_after(spoiler, parts.len() - 1);
                    let rest = rewritten(events, at + 1, code, after, emotes);
                    let found = pattern::matches_of(Pattern::Shortcode, parts[0]);
                    let first = part_pieces(parts[0], found, 0, emotes);
                    let marked = marked_pieces(parts.drop_first(), spoiler, emotes);
                    let depth = spoiler_depth(spoiler);
                    lemma_rewriting_balances(events, at + 1, code, after, emotes);
                    lemma_part_opens_nothing(parts[0], found, 0, emotes, depth);
                    lemma_marks_balance(parts.drop_first(), spoiler, emotes);
                    lemma_nesting_joins(first, marked, depth);
                    lemma_nesting_joins(first + marked, rest.0, depth);
                }
            },
            MarkdownEventView::Other => {
                let rest = rewritten(events, at + 1, code, spoiler, emotes);
                lemma_rewriting_balances(events, at + 1, code, spoiler, emotes);
                lemma_plain_piece(HtmlPieceView::Source(at), rest.0, spoiler);
            },
        }
    }
}

/// Spoilers never nest, none is closed that is not open, and they are closed as often as they are
/// opened: of the pieces of a message, at most one spoiler is left open, and then the rewriting says
/// so.
pub proof fn law_spoilers_balance(
    events: Seq<MarkdownEventView>,
    emotes: Map<Seq<char>, Seq<char>>,
)
    ensures
        never_nests(rewritten(events, 0, false, false, emotes).0, 0),
        open_spoilers(rewritten(events, 0, false, false, emotes).0) == if rewritten(
            events,
            0,
            false,
            false,
            emotes,
        ).1 {
            1int
        } else {
            0int
        },
{
    lemma_rewriting_balances(events, 0, false, false, emotes);
}

/// Whether a place lies in a code block: one begins before it and does not end before it.
pub open spec fn in_code(events: Seq<MarkdownEventView>, at: int) -> bool {
    exists|k: int|
        0 <= k < at && (#[trigger] events[k]) is CodeBlockStart && no_block_ends(events, k + 1, at)
}

/// Whether no code block ends between two places.
pub open spec fn no_block_ends(events: Seq<MarkdownEventView>, from: int, to: int) -> bool {
    forall|m: int| from <= m < to ==> (#[trigger] events[m]) !is CodeBlockEnd
}

/// Whether a place lies in a code block, where `code` says it of place `from`.
spec fn in_code_since(events: Seq<MarkdownEventView>, from: int, at: int, code: bool) -> bool {
    ||| exists|k: int|
        from <= k < at && (#[trigger] events[k]) is CodeBlockStart && no_block_ends(
            events,
            k + 1,
            at,
        )
    ||| code && no_block_ends(events, from, at)
}

proof fn lemma_code_goes_on(events: Seq<MarkdownEventView>, from: int, at: int, code: bool)
    requires
        0 <= from < at <= events.len(),
    ensures
        in_code_since(events, from, at, code) == in_code_since(
            events,
            from + 1,
            at,
            match events[from] {
                MarkdownEventView::CodeBlockStart => true,
                MarkdownEventView::CodeBlockEnd => false,
                _ => code,
            },
        ),
{
    let next = match events[from] {
        MarkdownEventView::CodeBlockStart => true,
        MarkdownEventView::CodeBlockEnd => false,
        _ => code,
    };
    if in_code_since(events, from, at, code) {
        if code && no_block_ends(events, from, at) {
            assert(events[from] !is CodeBlockEnd);
            assert(no_block_ends(events, from + 1, at));
        } else {
            let k = choose|k: int|
                from <= k < at && (#[trigger] events[k]) is CodeBlockStart && no_block_ends(
                    events,
                    k + 1,
                    at,
                );
            assert(k == from || k >= from + 1);
        }
    }
    if in_code_since(events, from + 1, at, next) {
        if next && no_block_ends(events, from + 1, at) {
            if events[from] is CodeBlockStart {
                assert(in_code_since(events, from, at, code));
            } else {
                assert(no_block_ends(events, from, at));
            }
        } else {
            let k = choose|k: int|
                from + 1 <= k < at && (#[trigger] events[k]) is CodeBlockStart && no_block_ends(
                    events,
                    k + 1,
                    at,
                );
            assert(from <= k);
        }
    }
}

/// A document can be rewritten up to a place, and from there on.
#[verifier::rlimit(40)]
proof fn lemma_rewriting_splits(
    events: Seq<MarkdownEventView>,
    n: int,
    at: int,
    code: bool,
    spoiler: bool,
    emotes: Map<Seq<char>, Seq<char>>,
)
    requires
        0 <= at <= n <= events.len(),
    ensures
        ({
            let done = rewritten(events.take(n), at, code, spoiler, emotes);
            let rest = rewritten(events, n, in_code_since(events, at, n, code), done.1, emotes);
            rewritten(events, at, code, spoiler, emotes) == (done.0 + rest.0, rest.1)
        }),
    decreases n - at,
{
    let done = rewritten(events.take(n), at, code, spoiler, emotes);
    let rest = rewritten(events, n, in_code_since(events, at, n, code), done.1, emotes);
    if at == n {
        assert(in_code_since(events, at, n, code) == code);
        assert(done.0 + rest.0 =~= rest.0);
    } else {
        assert(events.take(n)[at] == events[at]);
        let next = match events[at] {
            MarkdownEventView::CodeBlockStart => true,
            MarkdownEventView::CodeBlockEnd => false,
            _ => code,
        };
        let after = match events[at] {
            MarkdownEventView::Text(s) => if code {
                spoiler
            } else {
                spoiler_after(spoiler, text::split_text(s, "||"@).len() - 1)
            },
            _ => spoiler,
        };
        let added = match events[at] {
            MarkdownEventView::Text(s) => if code {
                seq![HtmlPieceView::Source(at)]
            } else {
                text_pieces(text::split_text(s, "||"@), spoiler, emotes)
            },
            MarkdownEventView::SoftBreak => seq![HtmlPieceView::HardBreak],
            _ => seq![HtmlPieceView::Source(at)],
        };
        lemma_code_goes_on(events, at, n, code);
        lemma_rewriting_splits(events, n, at + 1, next, after, emotes);
        let between = rewritten(events.take(n), at + 1, next, after, emotes);
        assert(done == (added + between.0, between.1));
        assert(added + (between.0 + rest.0) =~= (added + between.0) + rest.0);
    }
}

/// A document is rewritten event by event. A soft break becomes a hard one. Text outside a code
/// block, that is where none has begun or the last one has ended, is cut at its `||`, each of which
/// opens or closes a spoiler. Every other event, text inside a code block among them, stays as it
/// is.
pub proof fn law_each_event_adds_its_pieces(
    events: Seq<MarkdownEventView>,
    at: int,
    emotes: Map<Seq<char>, Seq<char>>,
)
    requires
        0 <= at < events.len(),
    ensures
        ({
            let before = rewritten(events.take(at), 0, false, false, emotes);
            let with = rewritten(events.take(at + 1), 0, false, false, emotes);
            match events[at] {
                MarkdownEventView::SoftBreak => with == (
                    before.0.push(HtmlPieceView::HardBreak),
                    before.1,
                ),
                MarkdownEventView::Text(s) if !in_code(events, at) => {
                    &&& with.0 == before.0 + text_pieces(
                        text::split_text(s, "||"@),
                        before.1,
                        emotes,
                    )
                    &&& with.1 == (before.1 != (text::occurrences(s, "||"@) % 2 == 1))
                },
                _ => with == (before.0.push(HtmlPieceView::Source(at)), before.1),
            }
        }),
        rewritten(Seq::empty(), 0, false, false, emotes) == (Seq::<HtmlPieceView>::empty(), false),
{
    let some = events.take(at + 1);
    assert(some.take(at) =~= events.take(at));
    assert(some[at] == events[at]);
    lemma_rewriting_splits(some, at, 0, false, false, emotes);
    assert(in_code_since(some, 0, at, false) == in_code(events, at)) by {
        if in_code(events, at) {
            let k = choose|k: int|
                0 <= k < at && (#[trigger] events[k]) is CodeBlockStart && no_block_ends(
                    events,
                    k + 1,
                    at,
                );
            assert(some[k] is CodeBlockStart);
            assert forall|m: int| k + 1 <= m < at implies (#[trigger] some[m]) !is CodeBlockEnd by {
                assert(events[m] !is CodeBlockEnd);
            }
            assert(no_block_ends(some, k + 1, at));
        }
        if in_code_since(some, 0, at, false) {
            let k = choose|k: int|
                0 <= k < at && (#[trigger] some[k]) is CodeBlockStart && no_block_ends(
                    some,
                    k + 1,
                    at,
                );
            assert(events[k] is CodeBlockStart);
            assert forall|m: int| k + 1 <= m < at implies (
            #[trigger] events[m]) !is CodeBlockEnd by {
                assert(some[m] !is CodeBlockEnd);
            }
            assert(no_block_ends(events, k + 1, at));
        }
    }
    let before = rewritten(events.take(at), 0, false, false, emotes);
    let code = in_code(events, at);
    let rest = rewritten(some, at, code, before.1, emotes);
    assert(rewritten(some, at + 1, true, before.1, emotes).0 =~= Seq::empty());
    assert(rewritten(some, at + 1, false, before.1, emotes).0 =~= Seq::empty());
    assert(rewritten(some, at + 1, code, before.1, emotes) == (
        Seq::<HtmlPieceView>::empty(),
        before.1,
    ));
    match events[at] {
        MarkdownEventView::SoftBreak => {
            assert(before.0 + rest.0 =~= before.0.push(HtmlPieceView::HardBreak));
        },
        MarkdownEventView::Text(s) if !code => {
            let parts = text::split_text(s, "||"@);
            let added = text_pieces(parts, before.1, emotes);
            let after = spoiler_after(before.1, parts.len() - 1);
            assert(rewritten(some, at + 1, code, after, emotes).0 =~= Seq::empty());
            assert(rest.0 =~= added);
            reveal_strlit("||");
            text::lemma_split_not_empty(s, "||"@);
        },
        _ => {
            assert(rest.0 =~= seq![HtmlPieceView::Source(at)]);
            assert(before.0 + rest.0 =~= before.0.push(HtmlPieceView::Source(at)));
        },
    }
}

/// Whether an event is handed on as it is: all but soft breaks, and text outside code blocks.
pub open spec fn is_handed_on(events: Seq<MarkdownEventView>, at: int) -> bool {
    match events[at] {
        MarkdownEventView::SoftBreak => false,
        MarkdownEventView::Text(_) => in_code(events, at),
        _ => true,
    }
}

/// Whether pieces name places in rising order.
pub open spec fn in_rising_order(pieces: Seq<HtmlPieceView>) -> bool {
    forall|i: int, j: int|
        0 <= i < j < pieces.len() ==> match (#[trigger] pieces[i], #[trigger] pieces[j]) {
            (HtmlPieceView::Source(a), HtmlPieceView::Source(b)) => a < b,
            _ => true,
        }
}

proof fn lemma_places(
    events: Seq<MarkdownEventView>,
    n: int,
    emotes: Map<Seq<char>, Seq<char>>,
)
    requires
        0 <= n <= events.len(),
    ensures
        ({
            let pieces = rewritten(events.take(n), 0, false, false, emotes).0;
            &&& sources_within(pieces, n)
            &&& in_rising_order(pieces)
            &&& forall|at: int|
                0 <= at < n ==> #[trigger] pieces.contains(HtmlPieceView::Source(at))
                    == is_handed_on(events, at)
        }),
    decreases n,
{
    let pieces = rewritten(events.take(n), 0, false, false, emotes).0;
    if n == 0 {
        assert(events.take(0) =~= Seq::<MarkdownEventView>::empty());
    } else {
        let last = n - 1;
        let before = rewritten(events.take(last), 0, false, false, emotes);
        lemma_places(events, last, emotes);
        law_each_event_adds_its_pieces(events, last, emotes);
        let added = match events[last] {
            MarkdownEventView::SoftBreak => seq![HtmlPieceView::HardBreak],
            MarkdownEventView::Text(s) if !in_code(events, last) => text_pieces(
                text::split_text(s, "||"@),
                before.1,
                emotes,
            ),
            _ => seq![HtmlPieceView::Source(last)],
        };
        assert(pieces =~= before.0 + added);
        match events[last] {
            MarkdownEventView::Text(s) if !in_code(events, last) => {
                lemma_text_pieces(text::split_text(s, "||"@), before.1, emotes, 0);
            },
            _ => {},
        }
        assert forall|i: int| 0 <= i < added.len() implies ((
        #[trigger] added[i]) matches HtmlPieceView::Source(a) ==> a == last && is_handed_on(
            events,
            last,
        )) by {}
        let shift = before.0.len() as int;
        assert forall|i: int| 0 <= i < pieces.len() implies pieces[i] == if i < shift {
            before.0[i]
        } else {
            added[i - shift]
        } by {}
        assert forall|i: int| 0 <= i < pieces.len() implies ((
        #[trigger] pieces[i]) matches HtmlPieceView::Source(a) ==> 0 <= a < n) by {
            if i < shift {
                assert(pieces[i] == before.0[i]);
            } else {
                assert(pieces[i] == added[i - shift]);
            }
        }
        assert forall|i: int, j: int| 0 <= i < j < pieces.len() implies match (
            #[trigger] pieces[i],
            #[trigger] pieces[j],
        ) {
            (HtmlPieceView::Source(a), HtmlPieceView::Source(b)) => a < b,
            _ => true,
        } by {
            if j < shift {
                assert(pieces[i] == before.0[i] && pieces[j] == before.0[j]);
            } else {
                assert(pieces[j] == added[j - shift]);
                if i < shift {
                    assert(pieces[i] == before.0[i]);
                } else {
                    assert(pieces[i] == added[i - shift]);
                    if added.len() != 1 {
                        assert(added[i - shift] !is Source);
                    }
                }
            }
        }
        assert forall|at: int| 0 <= at < n implies #[trigger] pieces.contains(
            HtmlPieceView::Source(at),
        ) == is_handed_on(events, at) by {
            let piece = HtmlPieceView::Source(at);
            if pieces.contains(piece) {
                let i = pieces.index_of(piece);
                if i < shift {
                    assert(before.0[i] == piece);
                    assert(before.0.contains(piece));
                } else {
                    assert(added[i - shift] == piece);
                }
            }
            if is_handed_on(events, at) {
                if at < last {
                    assert(before.0.contains(piece));
                    let i = before.0.index_of(piece);
                    assert(pieces[i] == piece);
                } else {
                    assert(added == seq![piece]);
                    assert(pieces[shift] == piece);
                }
            }
        }
    }
}

/// Text outside code blocks is never handed on as it is, wherever it stands: behind a code block
/// that has ended as before the first. All else but soft breaks is handed on, once and in its
/// order; so text inside a code block is never rewritten.
pub proof fn law_only_text_outside_code_is_rewritten(
    events: Seq<MarkdownEventView>,
    emotes: Map<Seq<char>, Seq<char>>,
)
    ensures
        ({
            let pieces = rewritten(events, 0, false, false, emotes).0;
            &&& in_rising_order(pieces)
            &&& forall|at: int|
                0 <= at < events.len() ==> #[trigger] pieces.contains(HtmlPieceView::Source(at))
                    == match events[at] {
                    MarkdownEventView::SoftBreak => false,
                    MarkdownEventView::Text(_) => in_code(events, at),
                    _ => true,
                }
        }),
{
    assert(events.take(events.len() as int) =~= events);
    lemma_places(events, events.len() as int, emotes);
    let pieces = rewritten(events, 0, false, false, emotes).0;
    assert forall|at: int| 0 <= at < events.len() implies #[trigger] pieces.contains(
        HtmlPieceView::Source(at),
    ) == match events[at] {
        MarkdownEventView::SoftBreak => false,
        MarkdownEventView::Text(_) => in_code(events, at),
        _ => true,
    } by {
        assert(pieces.contains(HtmlPieceView::Source(at)) == is_handed_on(events, at));
    }
}

/// How many of the pieces are hard breaks.
pub open spec fn hard_breaks(pieces: Seq<HtmlPieceView>) -> int
    decreases pieces.len(),
{
    if pieces.len() == 0 {
        0
    } else {
        hard_breaks(pieces.drop_last()) + if pieces.last() is HardBreak {
            1int
        } else {
            0
        }
    }
}

/// How many of the pieces open or close a spoiler.
pub open spec fn spoiler_tags(pieces: Seq<HtmlPieceView>) -> int
    decreases pieces.len(),
{
    if pieces.len() == 0 {
        0
    } else {
        spoiler_tags(pieces.drop_last()) + if pieces.last() == HtmlPieceView::Html(
            "<span data-mx-spoiler>"@,
        ) || pieces.last() == HtmlPieceView::Html("</span>"@) {
            1int
        } else {
            0
        }
    }
}

/// How many spoiler marks the text outside code blocks holds among the first `n` events.
pub open spec fn marks_outside_code(events: Seq<MarkdownEventView>, n: int) -> int
    decreases n,
{
    if n <= 0 {
        0
    } else {
        marks_outside_code(events, n - 1) + match events[n - 1] {
            MarkdownEventView::Text(s) => if in_code(events, n - 1) {
                0
            } else {
                text::occurrences(s, "||"@)
            },
            _ => 0,
        }
    }
}

/// How many soft breaks stand among the first `n` events.
pub open spec fn soft_breaks(events: Seq<MarkdownEventView>, n: int) -> int
    decreases n,
{
    if n <= 0 {
        0
    } else {
        soft_breaks(events, n - 1) + if events[n - 1] is SoftBreak {
            1int
        } else {
            0
        }
    }
}

proof fn lemma_tags_add_up(a: Seq<HtmlPieceView>, b: Seq<HtmlPieceView>)
    ensures
        spoiler_tags(a + b) == spoiler_tags(a) + spoiler_tags(b),
        hard_breaks(a + b) == hard_breaks(a) + hard_breaks(b),
    decreases b.len(),
{
    if b.len() == 0 {
        assert(a + b =~= a);
    } else {
        lemma_tags_add_up(a, b.drop_last());
        assert((a + b).drop_last() =~= a + b.drop_last());
        assert((a + b).last() == b.last());
    }
}

proof fn lemma_tags_of_one(piece: HtmlPieceView)
    ensures
        piece !is Html ==> spoiler_tags(seq![piece]) == 0,
        forall|open: bool|
            piece == HtmlPieceView::Html(#[trigger] spoiler_tag(open)) ==> spoiler_tags(seq![piece])
                == 1,
        forall|name: Seq<char>, url: Seq<char>|
            piece == HtmlPieceView::Html(#[trigger] emote_image(name, url)) ==> spoiler_tags(
                seq![piece],
            ) == 0,
        hard_breaks(seq![piece]) == if piece is HardBreak {
            1int
        } else {
            0
        },
{
    reveal_strlit("<span data-mx-spoiler>");
    reveal_strlit("</span>");
    reveal_strlit("<img alt=\":");
    assert(seq![piece].drop_last() =~= Seq::<HtmlPieceView>::empty());
    assert(spoiler_tags(Seq::<HtmlPieceView>::empty()) == 0);
    assert(hard_breaks(Seq::<HtmlPieceView>::empty()) == 0);
    assert("</span>"@[1] == '/' && "<span data-mx-spoiler>"@[1] == 's');
    assert forall|name: Seq<char>, url: Seq<char>|
        piece == HtmlPieceView::Html(#[trigger] emote_image(name, url)) implies spoiler_tags(
        seq![piece],
    ) == 0 by {
        assert(emote_image(name, url)[1] == 'i');
    }
}

proof fn lemma_part_has_no_tags(
    part: Seq<char>,
    found: Seq<MatchView>,
    from: int,
    emotes: Map<Seq<char>, Seq<char>>,
)
    ensures
        spoiler_tags(part_pieces(part, found, from, emotes)) == 0,
        hard_breaks(part_pieces(part, found, from, emotes)) == 0,
    decreases found.len(),
{
    if found.len() == 0 {
        lemma_tags_of_one(HtmlPieceView::Text(part.skip(from)));
    } else {
        let name = found[0].groups[1];
        if emotes.contains_key(name) {
            let between = HtmlPieceView::Text(part.subrange(from, found[0].start));
            let before = if found[0].start > from {
                seq![between]
            } else {
                Seq::empty()
            };
            let image = HtmlPieceView::Html(emote_image(name, emotes[name]));
            let rest = part_pieces(part, found.drop_first(), found[0].end, emotes);
            lemma_tags_of_one(between);
            lemma_tags_of_one(image);
            lemma_part_has_no_tags(part, found.drop_first(), found[0].end, emotes);
            lemma_tags_add_up(before, seq![image]);
            lemma_tags_add_up(before + seq![image], rest);
        } else {
            lemma_part_has_no_tags(part, found.drop_first(), from, emotes);
        }
    }
}

proof fn lemma_marks_become_tags(
    parts: Seq<Seq<char>>,
    spoiler: bool,
    emotes: Map<Seq<char>, Seq<char>>,
)
    ensures
        spoiler_tags(marked_pieces(parts, spoiler, emotes)) == parts.len(),
        hard_breaks(marked_pieces(parts, spoiler, emotes)) == 0,
    decreases parts.len(),
{
    if parts.len() > 0 {
        let tag = HtmlPieceView::Html(spoiler_tag(spoiler));
        let found = pattern::matches_of(Pattern::Shortcode, parts[0]);
        let part = part_pieces(parts[0], found, 0, emotes);
        let rest = marked_pieces(parts.drop_first(), !spoiler, emotes);
        lemma_tags_of_one(tag);
        lemma_part_has_no_tags(parts[0], found, 0, emotes);
        lemma_marks_become_tags(parts.drop_first(), !spoiler, emotes);
        lemma_tags_add_up(seq![tag], part);
        lemma_tags_add_up(seq![tag] + part, rest);
    }
}

proof fn lemma_tags_are_counted(
    events: Seq<MarkdownEventView>,
    n: int,
    emotes: Map<Seq<char>, Seq<char>>,
)
    requires
        0 <= n <= events.len(),
    ensures
        ({
            let out = rewritten(events.take(n), 0, false, false, emotes);
            &&& spoiler_tags(out.0) == marks_outside_code(events, n)
            &&& hard_breaks(out.0) == soft_breaks(events, n)
            &&& out.1 == (marks_outside_code(events, n) % 2 == 1)
            &&& marks_outside_code(events, n) >= 0
        }),
    decreases n,
{
    if n == 0 {
        assert(events.take(0) =~= Seq::<MarkdownEventView>::empty());
    } else {
        let last = n - 1;
        let before = rewritten(events.take(last), 0, false, false, emotes);
        lemma_tags_are_counted(events, last, emotes);
        law_each_event_adds_its_pieces(events, last, emotes);
        match events[last] {
            MarkdownEventView::SoftBreak => {
                lemma_tags_of_one(HtmlPieceView::HardBreak);
                lemma_tags_add_up(before.0, seq![HtmlPieceView::HardBreak]);
                assert(before.0.push(HtmlPieceView::HardBreak) =~= before.0
                    + seq![HtmlPieceView::HardBreak]);
            },
            MarkdownEventView::Text(s) if !in_code(events, last) => {
                reveal_strlit("||");
                text::lemma_split_not_empty(s, "||"@);
                let parts = text::split_text(s, "||"@);
                let found = pattern::matches_of(Pattern::Shortcode, parts[0]);
                let first = part_pieces(parts[0], found, 0, emotes);
                let marked = marked_pieces(parts.drop_first(), before.1, emotes);
                lemma_part_has_no_tags(parts[0], found, 0, emotes);
                lemma_marks_become_tags(parts.drop_first(), before.1, emotes);
                lemma_tags_add_up(first, marked);
                lemma_tags_add_up(before.0, first + marked);
            },
            _ => {
                let piece = HtmlPieceView::Source(last);
                lemma_tags_of_one(piece);
                lemma_tags_add_up(before.0, seq![piece]);
                assert(before.0.push(piece) =~= before.0 + seq![piece]);
            },
        }
    }
}

/// Each `||` in text outside code blocks opens or closes a spoiler, and nothing else does; a spoiler
/// is left open where their number is odd; and there are as many hard breaks as soft ones.
pub proof fn law_marks_outside_code_are_tags(
    events: Seq<MarkdownEventView>,
    emotes: Map<Seq<char>, Seq<char>>,
)
    ensures
        ({
            let out = rewritten(events, 0, false, false, emotes);
            let marks = marks_outside_code(events, events.len() as int);
            &&& spoiler_tags(out.0) == marks
            &&& out.1 == (marks % 2 == 1)
            &&& hard_breaks(out.0) == soft_breaks(events, events.len() as int)
        }),
{
    assert(events.take(events.len() as int) =~= events);
    lemma_tags_are_counted(events, events.len() as int, emotes);
}

/// The first part of a text comes as it is; each further part comes behind a tag, and the tags open
/// and close in turn.
pub proof fn law_each_part_follows_a_tag(
    parts: Seq<Seq<char>>,
    spoiler: bool,
    emotes: Map<Seq<char>, Seq<char>>,
    k: int,
)
    requires
        0 <= k < parts.len(),
    ensures
        ({
            let part = part_pieces(
                parts[k],
                pattern::matches_of(Pattern::Shortcode, parts[k]),
                0,
                emotes,
            );
            text_pieces(parts.take(k + 1), spoiler, emotes) == if k == 0 {
                part
            } else if spoiler == (k % 2 == 1) {
                text_pieces(parts.take(k), spoiler, emotes).push(HtmlPieceView::Html("</span>"@))
                    + part
            } else {
                text_pieces(parts.take(k), spoiler, emotes).push(
                    HtmlPieceView::Html("<span data-mx-spoiler>"@),
                ) + part
            }
        }),
{
    let part = part_pieces(parts[k], pattern::matches_of(Pattern::Shortcode, parts[k]), 0, emotes);
    let some = parts.take(k + 1);
    let found = pattern::matches_of(Pattern::Shortcode, parts[0]);
    let first = part_pieces(parts[0], found, 0, emotes);
    if k == 0 {
        assert(some.drop_first() =~= Seq::<Seq<char>>::empty());
        assert(text_pieces(some, spoiler, emotes) =~= part);
    } else {
        let tail = parts.drop_first();
        lemma_one_more_part(tail, spoiler, emotes, k - 1);
        assert(some.drop_first() =~= tail.take(k));
        assert(parts.take(k).drop_first() =~= tail.take(k - 1));
        let tag = HtmlPieceView::Html(spoiler_tag(spoiler != ((k - 1) % 2 == 1)));
        let marked = marked_pieces(tail.take(k - 1), spoiler, emotes);
        assert(first + (marked + seq![tag] + part) =~= (first + marked).push(tag) + part);
    }
}

#[verifier::rlimit(40)]
proof fn lemma_one_more_part(
    parts: Seq<Seq<char>>,
    spoiler: bool,
    emotes: Map<Seq<char>, Seq<char>>,
    k: int,
)
    requires
        0 <= k < parts.len(),
    ensures
        marked_pieces(parts.take(k + 1), spoiler, emotes) == marked_pieces(
            parts.take(k),
            spoiler,
            emotes,
        ) + seq![HtmlPieceView::Html(spoiler_tag(spoiler != (k % 2 == 1)))] + part_pieces(
            parts[k],
            pattern::matches_of(Pattern::Shortcode, parts[k]),
            0,
            emotes,
        ),
    decreases k,
{
    let part = part_pieces(parts[k], pattern::matches_of(Pattern::Shortcode, parts[k]), 0, emotes);
    let tag = seq![HtmlPieceView::Html(spoiler_tag(spoiler != (k % 2 == 1)))];
    let some = parts.take(k + 1);
    if k == 0 {
        assert(some.drop_first() =~= Seq::<Seq<char>>::empty());
        assert(parts.take(0) =~= Seq::<Seq<char>>::empty());
        assert(marked_pieces(some.drop_first(), !spoiler, emotes)
            =~= Seq::<HtmlPieceView>::empty());
        assert(marked_pieces(some, spoiler, emotes) =~= tag + part);
        assert(Seq::<HtmlPieceView>::empty() + tag + part =~= tag + part);
    } else {
        let tail = parts.drop_first();
        lemma_one_more_part(tail, !spoiler, emotes, k - 1);
        assert(some.drop_first() =~= tail.take(k));
        assert(parts.take(k).drop_first() =~= tail.take(k - 1));
        let found = pattern::matches_of(Pattern::Shortcode, parts[0]);
        let head = seq![HtmlPieceView::Html(spoiler_tag(spoiler))] + part_pieces(
            parts[0],
            found,
            0,
            emotes,
        );
        let marked = marked_pieces(tail.take(k - 1), !spoiler, emotes);
        assert(head + (marked + tag + part) =~= (head + marked) + tag + part);
    }
}

/// What pieces of text and HTML hold, one after the other.
pub open spec fn contents(pieces: Seq<HtmlPieceView>) -> Seq<char>
    decreases pieces.len(),
{
    if pieces.len() == 0 {
        Seq::empty()
    } else {
        contents(pieces.drop_last()) + match pieces.last() {
            HtmlPieceView::Text(s) => s,
            HtmlPieceView::Html(s) => s,
            _ => Seq::empty(),
        }
    }
}

proof fn lemma_contents_join(a: Seq<HtmlPieceView>, b: Seq<HtmlPieceView>)
    ensures
        contents(a + b) == contents(a) + contents(b),
    decreases b.len(),
{
    if b.len() == 0 {
        assert(a + b =~= a);
        assert(contents(a) + contents(b) =~= contents(a));
    } else {
        lemma_contents_join(a, b.drop_last());
        assert((a + b).drop_last() =~= a + b.drop_last());
        assert((a + b).last() == b.last());
        assert(contents(a + b) =~= contents(a) + contents(b));
    }
}

proof fn lemma_contents_of_one(piece: HtmlPieceView)
    ensures
        piece matches HtmlPieceView::Text(s) ==> contents(seq![piece]) == s,
        piece matches HtmlPieceView::Html(s) ==> contents(seq![piece]) == s,
{
    assert(seq![piece].drop_last() =~= Seq::<HtmlPieceView>::empty());
    assert(contents(Seq::<HtmlPieceView>::empty()) =~= Seq::<char>::empty());
    match piece {
        HtmlPieceView::Text(s) => assert(contents(seq![piece]) =~= s),
        HtmlPieceView::Html(s) => assert(contents(seq![piece]) =~= s),
        _ => {},
    }
}

/// What stands in the place of each shortcode: the image of a known emote, or what was there.
pub open spec fn shown_shortcodes(
    found: Seq<MatchView>,
    emotes: Map<Seq<char>, Seq<char>>,
) -> Seq<Seq<char>> {
    Seq::new(
        found.len(),
        |i: int|
            if emotes.contains_key(found[i].groups[1]) {
                emote_image(found[i].groups[1], emotes[found[i].groups[1]])
            } else {
                found[i].groups[0]
            },
    )
}

/// In a part of a text the image of each known emote stands in the place of its shortcode, every
/// other shortcode stays, and so does the text around them; and the images, and nothing else, are
/// HTML.
pub proof fn law_every_known_shortcode_is_an_image(
    part: Seq<char>,
    found: Seq<MatchView>,
    emotes: Map<Seq<char>, Seq<char>>,
)
    requires
        pattern::well_placed(found, part, 1),
    ensures
        ({
            let pieces = part_pieces(part, found, 0, emotes);
            &&& contents(pieces) == pattern::spliced(part, found, shown_shortcodes(found, emotes), 0)
            &&& forall|html: Seq<char>| #[trigger]
                pieces.contains(HtmlPieceView::Html(html)) <==> exists|i: int|
                    0 <= i < found.len() && emotes.contains_key(
                        (#[trigger] found[i]).groups[1],
                    ) && html == emote_image(found[i].groups[1], emotes[found[i].groups[1]])
        }),
{
    lemma_part_contents(part, found, 0, emotes);
    lemma_part_images(part, found, 0, emotes);
}

proof fn lemma_part_contents(
    part: Seq<char>,
    found: Seq<MatchView>,
    from: int,
    emotes: Map<Seq<char>, Seq<char>>,
)
    requires
        pattern::well_placed(found, part, 1),
        0 <= from <= part.len(),
        forall|i: int| 0 <= i < found.len() ==> from <= (#[trigger] found[i]).start,
    ensures
        contents(part_pieces(part, found, from, emotes)) == pattern::spliced(
            part,
            found,
            shown_shortcodes(found, emotes),
            from,
        ),
    decreases found.len(),
{
    let shown = shown_shortcodes(found, emotes);
    if found.len() == 0 {
        lemma_contents_of_one(HtmlPieceView::Text(part.skip(from)));
        if from == part.len() {
            assert(part.skip(from) =~= Seq::<char>::empty());
            assert(contents(Seq::<HtmlPieceView>::empty()) =~= Seq::<char>::empty());
        }
    } else {
        let name = found[0].groups[1];
        let rest = found.drop_first();
        assert(shown.drop_first() =~= shown_shortcodes(rest, emotes));
        assert forall|i: int| 0 <= i < rest.len() implies found[0].end <= (
        #[trigger] rest[i]).start by {
            assert(rest[i] == found[i + 1]);
        }
        assert(pattern::well_placed(rest, part, 1)) by {
            assert forall|i: int| 0 <= i < rest.len() implies {
                &&& 0 <= (#[trigger] rest[i]).start < rest[i].end <= part.len()
                &&& rest[i].groups.len() == 2
                &&& rest[i].groups[0] == part.subrange(rest[i].start, rest[i].end)
            } by {
                assert(rest[i] == found[i + 1]);
            }
        }
        if emotes.contains_key(name) {
            let between = HtmlPieceView::Text(part.subrange(from, found[0].start));
            let before = if found[0].start > from {
                seq![between]
            } else {
                Seq::empty()
            };
            let image = HtmlPieceView::Html(emote_image(name, emotes[name]));
            let after = part_pieces(part, rest, found[0].end, emotes);
            lemma_part_contents(part, rest, found[0].end, emotes);
            lemma_contents_of_one(between);
            lemma_contents_of_one(image);
            lemma_contents_join(before, seq![image]);
            lemma_contents_join(before + seq![image], after);
            if found[0].start == from {
                assert(part.subrange(from, from) =~= Seq::<char>::empty());
                assert(contents(Seq::<HtmlPieceView>::empty()) =~= Seq::<char>::empty());
            }
        } else {
            lemma_part_contents(part, rest, from, emotes);
            lemma_splicing_later(part, rest, shown.drop_first(), from, found[0].end);
            let tail = pattern::spliced(part, rest, shown.drop_first(), found[0].end);
            assert(part.subrange(from, found[0].end) =~= part.subrange(from, found[0].start)
                + found[0].groups[0]);
        }
    }
}

proof fn lemma_splicing_later(
    s: Seq<char>,
    found: Seq<MatchView>,
    replacements: Seq<Seq<char>>,
    from: int,
    to: int,
)
    requires
        0 <= from <= to <= s.len(),
        forall|i: int|
            0 <= i < found.len() ==> to <= (#[trigger] found[i]).start <= found[i].end <= s.len(),
    ensures
        pattern::spliced(s, found, replacements, from) == s.subrange(from, to) + pattern::spliced(
            s,
            found,
            replacements,
            to,
        ),
{
    if found.len() == 0 {
        assert(s.skip(from) =~= s.subrange(from, to) + s.skip(to));
    } else {
        let start = found[0].start;
        assert(s.subrange(from, start) =~= s.subrange(from, to) + s.subrange(to, start));
        let rest = pattern::spliced(
            s,
            found.drop_first(),
            replacements.drop_first(),
            found[0].end,
        );
        assert(s.subrange(from, start) + replacements[0] + rest =~= s.subrange(from, to) + (
        s.subrange(to, start) + replacements[0] + rest));
    }
}

proof fn lemma_part_images(
    part: Seq<char>,
    found: Seq<MatchView>,
    from: int,
    emotes: Map<Seq<char>, Seq<char>>,
)
    ensures
        forall|html: Seq<char>| #[trigger]
            part_pieces(part, found, from, emotes).contains(HtmlPieceView::Html(html))
                <==> exists|i: int|
                0 <= i < found.len() && emotes.contains_key((#[trigger] found[i]).groups[1])
                    && html == emote_image(found[i].groups[1], emotes[found[i].groups[1]]),
    decreases found.len(),
{
    let pieces = part_pieces(part, found, from, emotes);
    if found.len() > 0 {
        let name = found[0].groups[1];
        let rest = found.drop_first();
        let known = emotes.contains_key(name);
        let after = part_pieces(
            part,
            rest,
            if known {
                found[0].end
            } else {
                from
            },
            emotes,
        );
        let image = HtmlPieceView::Html(emote_image(name, emotes[name]));
        let head = if !known {
            Seq::empty()
        } else if found[0].start > from {
            seq![HtmlPieceView::Text(part.subrange(from, found[0].start))] + seq![image]
        } else {
            Seq::empty() + seq![image]
        };
        assert(pieces =~= head + after);
        lemma_part_images(
            part,
            rest,
            if known {
                found[0].end
            } else {
                from
            },
            emotes,
        );
        assert forall|html: Seq<char>| #[trigger]
            pieces.contains(HtmlPieceView::Html(html)) <==> exists|i: int|
                0 <= i < found.len() && emotes.contains_key((#[trigger] found[i]).groups[1])
                    && html == emote_image(found[i].groups[1], emotes[found[i].groups[1]]) by {
            let piece = HtmlPieceView::Html(html);
            if pieces.contains(piece) {
                let at = pieces.index_of(piece);
                if at < head.len() {
                    assert(head[at] == piece);
                    assert(emotes.contains_key(found[0].groups[1]));
                } else {
                    assert(after[at - head.len()] == piece);
                    assert(after.contains(piece));
                    let i = choose|i: int|
                        0 <= i < rest.len() && emotes.contains_key((#[trigger] rest[i]).groups[1])
                            && html == emote_image(rest[i].groups[1], emotes[rest[i].groups[1]]);
                    assert(found[i + 1] == rest[i]);
                }
            }
            if exists|i: int|
                0 <= i < found.len() && emotes.contains_key((#[trigger] found[i]).groups[1])
                    && html == emote_image(found[i].groups[1], emotes[found[i].groups[1]]) {
                let i = choose|i: int|
                    0 <= i < found.len() && emotes.contains_key((#[trigger] found[i]).groups[1])
                        && html == emote_image(found[i].groups[1], emotes[found[i].groups[1]]);
                if i == 0 {
                    assert(pieces[head.len() - 1] == piece);
                } else {
                    assert(rest[i - 1] == found[i]);
                    assert(after.contains(piece));
                    let at = after.index_of(piece);
                    assert(pieces[head.len() + at] == piece);
                }
            }
        }
    }
}

/// A document as it is has all its events, each once and in its place.
pub proof fn law_plain_documents_keep_every_event(count: int, i: int)
    requires
        0 <= i < count,
    ensures
        all_sources(0, count).len() == count,
        all_sources(0, count)[i] == HtmlPieceView::Source(i),
{
}

} // verus!

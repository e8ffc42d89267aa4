//! Messages as Matrix and Discord show them: HTML, emoji and reply quotes.

use vstd::prelude::*;
use vstd::string::*;

use crate::json::{Json, JsonView};
use crate::markdown;
use crate::pattern;
use crate::pattern::{Match, MatchView, Pattern};
use crate::table::TextMap;
use crate::text;
use crate::utils;
use crate::web;

verus! {

/// Whether one of the matches names `name` in its first group.
pub open spec fn is_named(found: Seq<MatchView>, name: Seq<char>) -> bool {
    exists|i: int| 0 <= i < found.len() && (#[trigger] found[i]).groups[1] == name
}

/// The emotes that are named by a match.
pub open spec fn named_emotes(
    found: Seq<MatchView>,
    emotes: Map<Seq<char>, Seq<char>>,
) -> Map<Seq<char>, Seq<char>> {
    Map::new(
        |k: Seq<char>| emotes.contains_key(k) && is_named(found, k),
        |k: Seq<char>| emotes[k],
    )
}

/// Picks the emotes that are named by a match.
pub fn pick_named(found: &Vec<Match>, emotes: &TextMap<String>) -> (named: TextMap<String>)
    requires
        forall|i: int|
            0 <= i < found@.len() ==> (#[trigger] pattern::match_views(found@)[i]).groups.len() >= 2,
    ensures
        named@ == named_emotes(pattern::match_views(found@), emotes@),
{
    let mut named: TextMap<String> = TextMap::new();
    let count: usize = found.len();
    let ghost views = pattern::match_views(found@);
    let mut i: usize = 0;
    assert(named@ =~= named_emotes(views.take(0), emotes@));
    while i < count
        invariant
            count == found@.len(),
            views == pattern::match_views(found@),
            forall|j: int| 0 <= j < count ==> (#[trigger] views[j]).groups.len() >= 2,
            i <= count,
            named@ == named_emotes(views.take(i as int), emotes@),
        decreases count - i,
    {
        let ghost before = named@;
        proof {
            assert(views[i as int] == found@[i as int]@);
            assert(views[i as int].groups.len() >= 2);
        }
        let name = &found[i].groups[1];
        assert(name@ == views[i as int].groups[1]);
        match emotes.get(name.as_str()) {
            Some(url) => {
                named.insert(name.clone(), url.clone());
            },
            None => {},
        }
        proof {
            let longer = views.take(i + 1);
            assert forall|k: Seq<char>| is_named(longer, k) == (is_named(
                views.take(i as int),
                k,
            ) || k == name@) by {
                if is_named(longer, k) {
                    let j = choose|j: int|
                        0 <= j < longer.len() && (#[trigger] longer[j]).groups[1] == k;
                    if j < i {
                        assert(views.take(i as int)[j] == longer[j]);
                    }
                }
                if is_named(views.take(i as int), k) {
                    let j = choose|j: int|
                        0 <= j < i && (#[trigger] views.take(i as int)[j]).groups[1] == k;
                    assert(longer[j].groups[1] == k);
                }
                if k == name@ {
                    assert(longer[i as int].groups[1] == k);
                }
            }
            assert(named@ =~= named_emotes(longer, emotes@));
        }
        i += 1;
    }
    assert(views.take(count as int) =~= views);
    named
}

/// Whether HTML is a single paragraph.
pub open spec fn is_one_paragraph(html: Seq<char>) -> bool {
    &&& "<p>"@.is_prefix_of(html)
    &&& "</p>"@.is_suffix_of(html)
    &&& text::occurrences(html, "<p>"@) == 1
}

/// HTML as it is sent: an open spoiler is closed, white space around it is gone, and a single
/// paragraph loses its tags.
pub open spec fn finished(html: Seq<char>, spoiler: bool) -> Seq<char> {
    let closed = if spoiler {
        html + "</span>"@
    } else {
        html
    };
    let formatted = text::trimmed_white(closed);
    if is_one_paragraph(formatted) {
        text::trimmed_white(formatted.subrange(3, formatted.len() - 4))
    } else {
        formatted
    }
}

/// A text that begins with a paragraph's first tag and ends in its last has both.
proof fn lemma_paragraph(html: Seq<char>)
    requires
        "<p>"@.is_prefix_of(html),
        "</p>"@.is_suffix_of(html),
    ensures
        html.len() >= 7,
{
    reveal_strlit("<p>");
    reveal_strlit("</p>");
    let n = html.len() as int;
    let head = html.subrange(0, 3);
    assert(head == "<p>"@);
    assert(head[0] == '<' && head[1] == 'p' && head[2] == '>');
    assert(html[0] == '<' && html[1] == 'p' && html[2] == '>');
    let tail = html.subrange(n - 4, n);
    assert(tail == "</p>"@);
    assert(tail[0] == '<' && tail[1] == '/' && tail[2] == 'p');
    assert(html[n - 4] == '<' && html[n - 3] == '/' && html[n - 2] == 'p');
}

/// Finishes HTML.
pub fn finish(html: String, spoiler: bool) -> (res: String)
    ensures
        res@ == finished(html@, spoiler),
{
    let closed = if spoiler {
        html.concat("</span>")
    } else {
        html
    };
    let formatted = text::trim(closed.as_str());
    proof {
        reveal_strlit("<p>");
        text::lemma_split_not_empty(formatted@, "<p>"@);
    }
    let is_framed = text::starts_with(formatted.as_str(), "<p>") && text::ends_with(
        formatted.as_str(),
        "</p>",
    );
    let pieces = text::split(formatted.as_str(), "<p>");
    let count: usize = pieces.len();
    assert(text::texts(pieces@).len() == count);
    if is_framed && count == 2 {
        proof {
            lemma_paragraph(formatted@);
        }
        let chars = text::chars_of(formatted.as_str());
        let inner = text::string_of(&chars, 3, chars.len() - 4);
        text::trim(inner.as_str())
    } else {
        formatted
    }
}

/// A Discord message as Matrix HTML, with the emotes that it names.
pub open spec fn matrix_html(
    message: Seq<char>,
    emotes: Map<Seq<char>, Seq<char>>,
) -> Seq<char> {
    let named = named_emotes(pattern::matches_of(Pattern::Shortcode, message), emotes);
    let html = markdown::message_html(message, named);
    finished(html.0, html.1)
}

/// Turns a Discord message into Matrix HTML.
pub fn to_matrix_html(message: &str, emotes: &TextMap<String>) -> (res: String)
    ensures
        res@ == matrix_html(message@, emotes@),
{
    let found = pattern::find_all(Pattern::Shortcode, message);
    let named = pick_named(&found, emotes);
    let (html, spoiler) = markdown::message_to_html(message, &named);
    finish(html, spoiler)
}

/// The lines after the quote at the beginning of a reply: those from the first on that does not
/// begin with `> `.
pub open spec fn after_quote(lines: Seq<Seq<char>>) -> Seq<Seq<char>>
    decreases lines.len(),
{
    if lines.len() > 0 && "> "@.is_prefix_of(lines[0]) {
        after_quote(lines.drop_first())
    } else {
        lines
    }
}

/// Lines one under the other. Empty lines before the first that is not empty add nothing.
pub open spec fn stacked(lines: Seq<Seq<char>>, above: Seq<char>) -> Seq<char>
    decreases lines.len(),
{
    if lines.len() == 0 {
        above
    } else if above.len() > 0 {
        stacked(lines.drop_first(), above + seq!['\n'] + lines[0])
    } else {
        stacked(lines.drop_first(), lines[0])
    }
}

/// The text of a reply without the quote at its beginning.
pub open spec fn without_quote(body: Seq<char>) -> Seq<char> {
    text::trimmed_white(stacked(after_quote(text::lines_of(body)), Seq::empty()))
}

/// Takes the quote at the beginning of a reply away.
pub fn strip_reply_fallback(body: &str) -> (res: String)
    ensures
        res@ == without_quote(body@),
{
    let lines = text::lines(body);
    let count: usize = lines.len();
    let ghost views = text::texts(lines@);
    let mut i: usize = 0;
    assert(views.skip(0) =~= views);
    while i < count && text::starts_with(lines[i].as_str(), "> ")
        invariant
            count == lines@.len(),
            views == text::texts(lines@),
            i <= count,
            after_quote(views.skip(i as int)) == after_quote(views),
        decreases count - i,
    {
        proof {
            assert(views.skip(i as int)[0] == lines@[i as int]@);
            assert(views.skip(i as int).drop_first() =~= views.skip(i + 1));
        }
        i += 1;
    }
    proof {
        if i < count {
            assert(views.skip(i as int)[0] == lines@[i as int]@);
        }
        assert(after_quote(views.skip(i as int)) == views.skip(i as int));
    }
    let ghost goal = stacked(views.skip(i as int), Seq::empty());
    let mut res = String::new();
    while i < count
        invariant
            count == lines@.len(),
            views == text::texts(lines@),
            i <= count,
            stacked(views.skip(i as int), res@) == goal,
        decreases count - i,
    {
        let ghost before = res@;
        proof {
            assert(views.skip(i as int)[0] == lines@[i as int]@);
            assert(views.skip(i as int).drop_first() =~= views.skip(i + 1));
        }
        if text::number_of_chars(res.as_str()) > 0 {
            res.push('\n');
            res.append(lines[i].as_str());
            assert(res@ =~= before + seq!['\n'] + lines@[i as int]@);
        } else {
            res.append(lines[i].as_str());
            assert(res@ =~= lines@[i as int]@);
        }
        i += 1;
    }
    text::trim(res.as_str())
}

/// Empty replacements for `n` matches.
pub open spec fn nothings(n: nat) -> Seq<Seq<char>> {
    Seq::new(n, |i: int| Seq::<char>::empty())
}

/// HTML without the given matches.
pub open spec fn without_matches(html: Seq<char>, found: Seq<MatchView>) -> Seq<char> {
    pattern::spliced(html, found, nothings(found.len()), 0)
}

/// Takes matches out of a text.
pub fn remove_matches(html: &str, found: &Vec<Match>) -> (res: String)
    requires
        exists|groups: nat| pattern::well_placed(pattern::match_views(found@), html@, groups),
    ensures
        res@ == without_matches(html@, pattern::match_views(found@)),
{
    let mut replacements: Vec<String> = Vec::new();
    let count: usize = found.len();
    let mut i: usize = 0;
    while i < count
        invariant
            i <= count,
            replacements@.len() == i,
            forall|j: int| 0 <= j < i ==> (#[trigger] replacements@[j])@ == Seq::<char>::empty(),
        decreases count - i,
    {
        replacements.push(String::new());
        i += 1;
    }
    assert(text::texts(replacements@) =~= nothings(count as nat));
    pattern::splice(html, found, &replacements)
}

/// Takes the quote out of a reply's HTML.
pub fn strip_reply_fallback_html(html: &str) -> (res: String)
    ensures
        res@ == without_matches(html@, pattern::matches_of(Pattern::ReplyFallback, html@)),
{
    let found = pattern::find_all(Pattern::ReplyFallback, html);
    remove_matches(html, &found)
}

/// The emoji map that matches give, where one group holds the key and another the value.
pub open spec fn keyed(found: Seq<MatchView>, key: int, value: int) -> Map<Seq<char>, Seq<char>>
    decreases found.len(),
{
    if found.len() == 0 {
        Map::empty()
    } else {
        keyed(found.drop_last(), key, value).insert(
            found.last().groups[key],
            found.last().groups[value],
        )
    }
}

/// The shortcodes that matches name, without URLs.
pub open spec fn bare_shortcodes(found: Seq<MatchView>) -> Map<Seq<char>, Seq<char>> {
    Map::new(|k: Seq<char>| is_named(found, k), |k: Seq<char>| Seq::<char>::empty())
}

/// The emoji of a Matrix message: those of its HTML images, the later match counting before the
/// earlier one and images whose title stands first before the others; or, where there is none, the
/// shortcodes of its text.
pub open spec fn message_emojis(
    images: Seq<MatchView>,
    title_first: Seq<MatchView>,
    shortcodes: Seq<MatchView>,
) -> Map<Seq<char>, Seq<char>> {
    let tagged = keyed(images, 2, 1).union_prefer_right(keyed(title_first, 1, 2));
    if tagged =~= Map::empty() {
        bare_shortcodes(shortcodes)
    } else {
        tagged
    }
}

/// Adds what matches give to a map.
fn insert_keyed(map: &mut TextMap<String>, found: &Vec<Match>, key: usize, value: usize)
    requires
        forall|i: int|
            0 <= i < found@.len() ==> (#[trigger] pattern::match_views(found@)[i]).groups.len()
                >= 3,
        key <= 2,
        value <= 2,
    ensures
        final(map)@ == old(map)@.union_prefer_right(
            keyed(pattern::match_views(found@), key as int, value as int),
        ),
{
    let count: usize = found.len();
    let ghost views = pattern::match_views(found@);
    let ghost before = map@;
    let mut i: usize = 0;
    proof {
        assert(keyed(views.take(0), key as int, value as int) =~= Map::empty());
        assert(before =~= before.union_prefer_right(Map::empty()));
    }
    while i < count
        invariant
            count == found@.len(),
            views == pattern::match_views(found@),
            forall|j: int| 0 <= j < count ==> (#[trigger] views[j]).groups.len() >= 3,
            key <= 2,
            value <= 2,
            i <= count,
            map@ == before.union_prefer_right(
                keyed(views.take(i as int), key as int, value as int),
            ),
        decreases count - i,
    {
        proof {
            assert(views[i as int] == found@[i as int]@);
            assert(views[i as int].groups.len() >= 3);
            assert(views.take(i + 1).drop_last() =~= views.take(i as int));
            assert(views.take(i + 1).last() == views[i as int]);
        }
        let name = found[i].groups[key].clone();
        let url = found[i].groups[value].clone();
        assert(name@ == views[i as int].groups[key as int]);
        assert(url@ == views[i as int].groups[value as int]);
        map.insert(name, url);
        proof {
            assert(map@ =~= before.union_prefer_right(
                keyed(views.take(i + 1), key as int, value as int),
            ));
        }
        i += 1;
    }
    assert(views.take(count as int) =~= views);
}

/// Collects the emoji of a Matrix message from the matches in it.
pub fn collect_emojis(
    images: &Vec<Match>,
    title_first: &Vec<Match>,
    shortcodes: &Vec<Match>,
) -> (emojis: TextMap<String>)
    requires
        forall|i: int|
            0 <= i < images@.len() ==> (#[trigger] pattern::match_views(images@)[i]).groups.len()
                >= 3,
        forall|i: int|
            0 <= i < title_first@.len() ==> (#[trigger] pattern::match_views(
                title_first@,
            )[i]).groups.len() >= 3,
        forall|i: int|
            0 <= i < shortcodes@.len() ==> (#[trigger] pattern::match_views(
                shortcodes@,
            )[i]).groups.len() >= 2,
    ensures
        emojis@ == message_emojis(
            pattern::match_views(images@),
            pattern::match_views(title_first@),
            pattern::match_views(shortcodes@),
        ),
{
    let mut emojis: TextMap<String> = TextMap::new();
    insert_keyed(&mut emojis, images, 2, 1);
    proof {
        let first = keyed(pattern::match_views(images@), 2, 1);
        assert(Map::<Seq<char>, Seq<char>>::empty().union_prefer_right(first) =~= first);
    }
    insert_keyed(&mut emojis, title_first, 1, 2);
    if !emojis.is_empty() {
        return emojis;
    }
    let mut bare: TextMap<String> = TextMap::new();
    let count: usize = shortcodes.len();
    let ghost views = pattern::match_views(shortcodes@);
    let mut i: usize = 0;
    assert(bare@ =~= bare_shortcodes(views.take(0)));
    while i < count
        invariant
            count == shortcodes@.len(),
            views == pattern::match_views(shortcodes@),
            forall|j: int| 0 <= j < count ==> (#[trigger] views[j]).groups.len() >= 2,
            i <= count,
            bare@ == bare_shortcodes(views.take(i as int)),
        decreases count - i,
    {
        proof {
            assert(views[i as int] == shortcodes@[i as int]@);
            assert(views[i as int].groups.len() >= 2);
        }
        let name = shortcodes[i].groups[1].clone();
        let ghost shown = name@;
        bare.insert(name, String::new());
        proof {
            let longer = views.take(i + 1);
            assert forall|k: Seq<char>| is_named(longer, k) == (is_named(
                views.take(i as int),
                k,
            ) || k == shown) by {
                if is_named(longer, k) {
                    let j = choose|j: int|
                        0 <= j < longer.len() && (#[trigger] longer[j]).groups[1] == k;
                    if j < i {
                        assert(views.take(i as int)[j] == longer[j]);
                    }
                }
                if is_named(views.take(i as int), k) {
                    let j = choose|j: int|
                        0 <= j < i && (#[trigger] views.take(i as int)[j]).groups[1] == k;
                    assert(longer[j].groups[1] == k);
                }
                if k == shown {
                    assert(longer[i as int].groups[1] == k);
                }
            }
            assert(bare@ =~= bare_shortcodes(longer));
        }
        i += 1;
    }
    assert(views.take(count as int) =~= views);
    bare
}

/// The emoji of a Matrix message with an optional HTML body.
pub open spec fn emojis_of(body: Seq<char>, html: Option<Seq<char>>) -> Map<Seq<char>, Seq<char>> {
    let images = match html {
        Some(h) => pattern::matches_of(Pattern::ImageTag, h),
        None => Seq::empty(),
    };
    let title_first = match html {
        Some(h) => pattern::matches_of(Pattern::ImageTagTitleFirst, h),
        None => Seq::empty(),
    };
    message_emojis(images, title_first, pattern::matches_of(Pattern::Shortcode, body))
}

/// Finds the emoji of a Matrix message.
pub fn parse_matrix_emojis(body: &str, formatted_body: Option<&str>) -> (emojis: TextMap<String>)
    ensures
        emojis@ == emojis_of(body@, utils::opt_str(formatted_body)),
{
    let shortcodes = pattern::find_all(Pattern::Shortcode, body);
    let mut images: Vec<Match> = Vec::new();
    let mut title_first: Vec<Match> = Vec::new();
    match formatted_body {
        Some(html) => {
            images = pattern::find_all(Pattern::ImageTag, html);
            title_first = pattern::find_all(Pattern::ImageTagTitleFirst, html);
        },
        None => {
            assert(pattern::match_views(images@) =~= Seq::<MatchView>::empty());
            assert(pattern::match_views(title_first@) =~= Seq::<MatchView>::empty());
        },
    }
    collect_emojis(&images, &title_first, &shortcodes)
}

/// Whether a text is a Matrix event identifier.
pub uninterp spec fn is_event_id(s: Seq<char>) -> bool;

/// Checks an event identifier with the `TryFrom<&str>` of `&ruma::EventId`. Trusted: the outcome
/// depends on the text alone; without a colon, what begins with `$` is an identifier and nothing
/// else is.
#[verifier::external_body]
fn check_event_id(s: &str) -> (res: bool)
    ensures
        res == is_event_id(s@),
        !s@.contains(':') ==> res == "$"@.is_prefix_of(s@),
{
    <&ruma::EventId>::try_from(s).is_ok()
}

/// A text message of a Matrix room.
pub struct MessageContent {
    pub body: String,
    /// The message as HTML, where it is more than its text.
    pub formatted_body: Option<String>,
    /// The event that the message answers.
    pub reply_to: Option<String>,
}

/// What a message says.
pub struct ContentView {
    pub body: Seq<char>,
    pub formatted_body: Option<Seq<char>>,
    pub reply_to: Option<Seq<char>>,
}

impl View for MessageContent {
    type V = ContentView;

    open spec fn view(&self) -> ContentView {
        ContentView {
            body: self.body@,
            formatted_body: web::opt_text(self.formatted_body),
            reply_to: web::opt_text(self.reply_to),
        }
    }
}

/// A message of plain text.
pub open spec fn plain_content(body: Seq<char>) -> ContentView {
    ContentView { body, formatted_body: None, reply_to: None }
}

/// A message with HTML.
pub open spec fn html_content(body: Seq<char>, html: Seq<char>) -> ContentView {
    ContentView { body, formatted_body: Some(html), reply_to: None }
}

/// A message with HTML where that says more than the text.
pub open spec fn plain_or_html(body: Seq<char>, html: Seq<char>) -> ContentView {
    if html == body {
        plain_content(body)
    } else {
        html_content(body, html)
    }
}

impl ContentView {
    /// The message as the content of an event.
    pub open spec fn json(self) -> JsonView {
        let plain = JsonView::object().with("msgtype"@, JsonView::Text("m.text"@)).with(
            "body"@,
            JsonView::Text(self.body),
        );
        let shown = match self.formatted_body {
            Some(html) => plain.with("format"@, JsonView::Text("org.matrix.custom.html"@)).with(
                "formatted_body"@,
                JsonView::Text(html),
            ),
            None => plain,
        };
        match self.reply_to {
            Some(event) => shown.with(
                "m.relates_to"@,
                JsonView::object().with(
                    "m.in_reply_to"@,
                    JsonView::object().with("event_id"@, JsonView::Text(event)),
                ),
            ),
            None => shown,
        }
    }
}

impl MessageContent {
    /// A message of plain text.
    pub fn text_plain(body: &str) -> (content: Self)
        ensures
            content@ == plain_content(body@),
    {
        MessageContent { body: body.to_owned(), formatted_body: None, reply_to: None }
    }

    /// A message with HTML.
    pub fn text_html(body: &str, html: &str) -> (content: Self)
        ensures
            content@ == html_content(body@, html@),
    {
        MessageContent {
            body: body.to_owned(),
            formatted_body: Some(html.to_owned()),
            reply_to: None,
        }
    }

    /// A message with HTML where that says more than the text.
    pub fn plain_or_html(body: &str, html: &str) -> (content: Self)
        ensures
            content@ == plain_or_html(body@, html@),
    {
        if text::same(html, body) {
            MessageContent::text_plain(body)
        } else {
            MessageContent::text_html(body, html)
        }
    }

    /// The message as the content of an event.
    pub fn to_json(&self) -> (json: Json)
        ensures
            json@ == self@.json(),
    {
        let plain = Json::object().with_text("msgtype", "m.text").with_text(
            "body",
            self.body.as_str(),
        );
        let shown = match &self.formatted_body {
            Some(html) => plain.with_text("format", "org.matrix.custom.html").with_text(
                "formatted_body",
                html.as_str(),
            ),
            None => plain,
        };
        match &self.reply_to {
            Some(event) => {
                let target = Json::object().with_text("event_id", event.as_str());
                shown.with("m.relates_to", Json::object().with("m.in_reply_to", target))
            },
            None => shown,
        }
    }
}

/// The event that a reply answers.
pub struct QuotedEvent {
    pub sender: String,
    pub body: String,
    pub formatted_body: Option<String>,
}

/// What is quoted in a reply: who is answered, what they wrote, and that as HTML.
pub open spec fn quotation(quoted: Option<QuotedEvent>) -> (Seq<char>, Seq<char>, Seq<char>) {
    match quoted {
        Some(event) => {
            let body = without_quote(event.body@);
            let html = match event.formatted_body {
                Some(f) => without_matches(f@, pattern::matches_of(Pattern::ReplyFallback, f@)),
                None => body,
            };
            (event.sender@, body, html)
        },
        None => ("unknown"@, "..."@, "..."@),
    }
}

/// Text escaped for HTML attributes and text alike.
pub open spec fn fully_escaped(s: Seq<char>) -> Seq<char> {
    let a = text::replaced(s, "&"@, "&amp;"@);
    let b = text::replaced(a, "<"@, "&lt;"@);
    let c = text::replaced(b, ">"@, "&gt;"@);
    let d = text::replaced(c, "\""@, "&quot;"@);
    text::replaced(d, "'"@, "&#39;"@)
}

/// Escapes text for HTML attributes and text alike.
pub fn escape_fully(s: &str) -> (res: String)
    ensures
        res@ == fully_escaped(s@),
{
    proof {
        reveal_strlit("&");
        reveal_strlit("<");
        reveal_strlit(">");
        reveal_strlit("\"");
        reveal_strlit("'");
    }
    let a = text::replace(s, "&", "&amp;");
    let b = text::replace(a.as_str(), "<", "&lt;");
    let c = text::replace(b.as_str(), ">", "&gt;");
    let d = text::replace(c.as_str(), "\"", "&quot;");
    text::replace(d.as_str(), "'", "&#39;")
}

/// The plain text of a reply.
pub open spec fn reply_body(sender: Seq<char>, quoted: Seq<char>, plain: Seq<char>) -> Seq<char> {
    "> <"@ + sender + "> "@ + quoted + "\n\n"@ + plain
}

/// The HTML of a reply.
pub open spec fn reply_html(
    room: Seq<char>,
    event: Seq<char>,
    sender: Seq<char>,
    quoted: Seq<char>,
    html: Seq<char>,
) -> Seq<char> {
    "<mx-reply><blockquote><a href=\"https://matrix.to/#/"@ + room + "/"@ + event
        + "\">In reply to</a> <a href=\"https://matrix.to/#/"@ + sender + "\">"@ + sender
        + "</a><br />"@ + quoted + "</blockquote></mx-reply>"@ + html
}

/// A message in answer to an event. The relation to that event stands in it if the event has a
/// valid identifier.
pub open spec fn reply_content(
    room: Seq<char>,
    event: Seq<char>,
    valid: bool,
    quoted: Option<QuotedEvent>,
    plain: Seq<char>,
    html: Seq<char>,
) -> ContentView {
    let quote = quotation(quoted);
    let shown = if html == plain {
        fully_escaped(plain)
    } else {
        html
    };
    ContentView {
        body: reply_body(quote.0, quote.1, plain),
        formatted_body: Some(reply_html(room, event, quote.0, quote.2, shown)),
        reply_to: if valid {
            Some(event)
        } else {
            None
        },
    }
}

/// Makes a message in answer to an event.
pub fn make_reply(
    room: &str,
    event: &str,
    valid: bool,
    quoted: &Option<QuotedEvent>,
    plain: &str,
    html: &str,
) -> (content: MessageContent)
    ensures
        content@ == reply_content(room@, event@, valid, *quoted, plain@, html@),
{
    let (sender, body, formatted) = match quoted {
        Some(q) => {
            let body = strip_reply_fallback(q.body.as_str());
            let formatted = match &q.formatted_body {
                Some(f) => strip_reply_fallback_html(f.as_str()),
                None => body.clone(),
            };
            (q.sender.clone(), body, formatted)
        },
        None => ("unknown".to_owned(), "...".to_owned(), "...".to_owned()),
    };
    let shown = if text::same(html, plain) {
        escape_fully(plain)
    } else {
        html.to_owned()
    };
    let reply_text = "> <".to_owned().concat(sender.as_str()).concat("> ").concat(
        body.as_str(),
    ).concat("\n\n").concat(plain);
    let reply_markup = "<mx-reply><blockquote><a href=\"https://matrix.to/#/".to_owned().concat(
        room,
    ).concat("/").concat(event).concat("\">In reply to</a> <a href=\"https://matrix.to/#/").concat(
        sender.as_str(),
    ).concat("\">").concat(sender.as_str()).concat("</a><br />").concat(formatted.as_str()).concat(
        "</blockquote></mx-reply>",
    ).concat(shown.as_str());
    MessageContent {
        body: reply_text,
        formatted_body: Some(reply_markup),
        reply_to: if valid {
            Some(event.to_owned())
        } else {
            None
        },
    }
}

/// A Discord message as Matrix shows it, in answer to an event or not.
pub open spec fn bridged_content(
    room: Seq<char>,
    message: Seq<char>,
    emotes: Map<Seq<char>, Seq<char>>,
    reply: Option<(Seq<char>, Option<QuotedEvent>)>,
) -> ContentView {
    let html = matrix_html(message, emotes);
    match reply {
        Some(r) => reply_content(room, r.0, is_event_id(r.0), r.1, message, html),
        None => plain_or_html(message, html),
    }
}

/// What a reply answers: an event and, where it could be fetched, what stands in it.
pub struct ReplyTarget {
    pub event_id: String,
    pub quoted: Option<QuotedEvent>,
}

/// What a reply answers, over texts.
pub open spec fn target_view(reply: Option<ReplyTarget>) -> Option<
    (Seq<char>, Option<QuotedEvent>),
> {
    match reply {
        Some(target) => Some((target.event_id@, target.quoted)),
        None => None,
    }
}

/// Turns a Discord message into what Matrix shows.
pub fn make_content(
    room: &str,
    message: &str,
    emotes: &TextMap<String>,
    reply: &Option<ReplyTarget>,
) -> (content: MessageContent)
    ensures
        content@ == bridged_content(room@, message@, emotes@, target_view(*reply)),
{
    let html = to_matrix_html(message, emotes);
    match reply {
        Some(target) => {
            let valid = check_event_id(target.event_id.as_str());
            make_reply(
                room,
                target.event_id.as_str(),
                valid,
                &target.quoted,
                message,
                html.as_str(),
            )
        },
        None => MessageContent::plain_or_html(message, html.as_str()),
    }
}

/// What is escaped for a reply holds no markup: none of `<`, `>`, `"` and `'` is left in it.
pub proof fn law_escaped_text_has_no_markup(s: Seq<char>)
    ensures
        !fully_escaped(s).contains('<'),
        !fully_escaped(s).contains('>'),
        !fully_escaped(s).contains('"'),
        !fully_escaped(s).contains('\''),
{
    reveal_strlit("&");
    reveal_strlit("<");
    reveal_strlit(">");
    reveal_strlit("\"");
    reveal_strlit("'");
    reveal_strlit("&amp;");
    reveal_strlit("&lt;");
    reveal_strlit("&gt;");
    reveal_strlit("&quot;");
    reveal_strlit("&#39;");
    assert("<"@ =~= seq!['<']);
    assert(">"@ =~= seq!['>']);
    assert("\""@ =~= seq!['"']);
    assert("'"@ =~= seq!['\'']);
    let a = text::replaced(s, "&"@, "&amp;"@);
    let b = text::replaced(a, "<"@, "&lt;"@);
    let c = text::replaced(b, ">"@, "&gt;"@);
    let d = text::replaced(c, "\""@, "&quot;"@);
    text::lemma_replaced_is_gone(a, '<', "&lt;"@);
    text::lemma_replaced_adds_nothing(b, ">"@, "&gt;"@, '<');
    text::lemma_replaced_adds_nothing(c, "\""@, "&quot;"@, '<');
    text::lemma_replaced_adds_nothing(d, "'"@, "&#39;"@, '<');
    text::lemma_replaced_is_gone(b, '>', "&gt;"@);
    text::lemma_replaced_adds_nothing(c, "\""@, "&quot;"@, '>');
    text::lemma_replaced_adds_nothing(d, "'"@, "&#39;"@, '>');
    text::lemma_replaced_is_gone(c, '"', "&quot;"@);
    text::lemma_replaced_adds_nothing(d, "'"@, "&#39;"@, '"');
    text::lemma_replaced_is_gone(d, '\'', "&#39;"@);
}

/// Escaping goes character by character: each of the five that HTML reserves becomes its entity, and
/// every other stays.
#[verifier::rlimit(40)]
pub proof fn law_each_character_is_escaped(a: Seq<char>, b: Seq<char>, c: char)
    ensures
        fully_escaped(a + b) == fully_escaped(a) + fully_escaped(b),
        fully_escaped(seq!['&']) == "&amp;"@,
        fully_escaped(seq!['<']) == "&lt;"@,
        fully_escaped(seq!['>']) == "&gt;"@,
        fully_escaped(seq!['"']) == "&quot;"@,
        fully_escaped(seq!['\'']) == "&#39;"@,
        c != '&' && c != '<' && c != '>' && c != '"' && c != '\'' ==> fully_escaped(seq![c])
            == seq![c],
{
    reveal_strlit("&");
    reveal_strlit("<");
    reveal_strlit(">");
    reveal_strlit("\"");
    reveal_strlit("'");
    reveal_strlit("&amp;");
    reveal_strlit("&lt;");
    reveal_strlit("&gt;");
    reveal_strlit("&quot;");
    reveal_strlit("&#39;");
    assert("&"@ =~= seq!['&']);
    assert("<"@ =~= seq!['<']);
    assert(">"@ =~= seq!['>']);
    assert("\""@ =~= seq!['"']);
    assert("'"@ =~= seq!['\'']);
    let amp = "&amp;"@;
    let lt = "&lt;"@;
    let gt = "&gt;"@;
    let quot = "&quot;"@;
    let apos = "&#39;"@;
    let a1 = text::replaced(a, seq!['&'], amp);
    let b1 = text::replaced(b, seq!['&'], amp);
    let a2 = text::replaced(a1, seq!['<'], lt);
    let b2 = text::replaced(b1, seq!['<'], lt);
    let a3 = text::replaced(a2, seq!['>'], gt);
    let b3 = text::replaced(b2, seq!['>'], gt);
    let a4 = text::replaced(a3, seq!['"'], quot);
    let b4 = text::replaced(b3, seq!['"'], quot);
    text::law_replacing_a_character(a, b, '&', amp);
    text::law_replacing_a_character(a1, b1, '<', lt);
    text::law_replacing_a_character(a2, b2, '>', gt);
    text::law_replacing_a_character(a3, b3, '"', quot);
    text::law_replacing_a_character(a4, b4, '\'', apos);
    lemma_untouched(amp, '<', lt);
    lemma_untouched(amp, '>', gt);
    lemma_untouched(amp, '"', quot);
    lemma_untouched(amp, '\'', apos);
    lemma_untouched(lt, '>', gt);
    lemma_untouched(lt, '"', quot);
    lemma_untouched(lt, '\'', apos);
    lemma_untouched(gt, '"', quot);
    lemma_untouched(gt, '\'', apos);
    lemma_untouched(quot, '\'', apos);
}

proof fn lemma_untouched(s: Seq<char>, c: char, to: Seq<char>)
    requires
        forall|i: int| 0 <= i < s.len() ==> s[i] != c,
    ensures
        text::replaced(s, seq![c], to) == s,
{
    text::lemma_find_char(s, c);
    if s.contains(c) {
        let i = s.index_of(c);
        assert(s[i] == c);
    }
}

/// A spoiler that was left open is closed. A message that is one paragraph loses the paragraph's
/// tags; one of several paragraphs keeps them.
pub proof fn law_single_paragraphs_lose_their_tags(inner: Seq<char>)
    ensures
        finished(inner, true) == finished(inner + "</span>"@, false),
        !text::holds(inner, "<p>"@) ==> finished("<p>"@ + inner + "</p>"@, false)
            == text::trimmed_white(inner),
        text::holds(inner, "<p>"@) ==> finished("<p>"@ + inner + "</p>"@, false) == "<p>"@ + inner
            + "</p>"@,
{
    let html = "<p>"@ + inner + "</p>"@;
    lemma_tags_around(inner);
    lemma_paragraphs_around(inner);
    assert(is_one_paragraph(html) == !text::holds(inner, "<p>"@));
}

proof fn lemma_tags_around(inner: Seq<char>)
    ensures
        ({
            let html = "<p>"@ + inner + "</p>"@;
            &&& text::trimmed_white(html) == html
            &&& "<p>"@.is_prefix_of(html)
            &&& "</p>"@.is_suffix_of(html)
            &&& html.subrange(3, html.len() - 4) == inner
            &&& html.skip(3) == inner + "</p>"@
        }),
{
    reveal_strlit("<p>");
    reveal_strlit("</p>");
    let html = "<p>"@ + inner + "</p>"@;
    let n = html.len() as int;
    assert(html[0] == '<' && html[n - 1] == '>');
    text::law_trimming_stops(Seq::empty(), html, Seq::empty(), text::Trim::WhiteSpace);
    assert(Seq::<char>::empty() + html + Seq::<char>::empty() =~= html);
    assert(html.subrange(0, 3) =~= "<p>"@);
    assert(html.subrange(n - 4, n) =~= "</p>"@);
    assert(html.subrange(3, n - 4) =~= inner);
    assert(html.skip(3) =~= inner + "</p>"@);
}

proof fn lemma_paragraphs_around(inner: Seq<char>)
    ensures
        (text::occurrences("<p>"@ + inner + "</p>"@, "<p>"@) == 1) == !text::holds(inner, "<p>"@),
{
    let html = "<p>"@ + inner + "</p>"@;
    let rest = inner + "</p>"@;
    lemma_tags_around(inner);
    lemma_end_tag_begins_nothing(inner);
    assert("<p>"@.len() == 3) by {
        reveal_strlit("<p>");
    }
    text::law_find_is_first(rest, "<p>"@);
    assert(text::find(html, "<p>"@) == Some(0int));
    let others = text::split_text(rest, "<p>"@);
    assert(text::split_text(html, "<p>"@) == seq![html.take(0)] + others);
    match text::find(rest, "<p>"@) {
        Some(i) => {
            text::lemma_split_not_empty(rest.skip(i + 3), "<p>"@);
            assert(others == seq![rest.take(i)] + text::split_text(rest.skip(i + 3), "<p>"@));
        },
        None => {
            assert(others == seq![rest]);
        },
    }
}

proof fn lemma_end_tag_begins_nothing(inner: Seq<char>)
    ensures
        text::holds(inner + "</p>"@, "<p>"@) == text::holds(inner, "<p>"@),
{
    reveal_strlit("<p>");
    reveal_strlit("</p>");
    let rest = inner + "</p>"@;
    if text::holds(inner, "<p>"@) {
        let at = choose|at: int| text::stands_at(inner, "<p>"@, at);
        assert(rest.subrange(at, at + 3) =~= inner.subrange(at, at + 3));
        assert(text::stands_at(rest, "<p>"@, at));
    }
    if text::holds(rest, "<p>"@) {
        let at = choose|at: int| text::stands_at(rest, "<p>"@, at);
        let seen = rest.subrange(at, at + 3);
        assert(seen[0] == '<' && seen[2] == '>');
        assert(rest[at] == '<' && rest[at + 2] == '>');
        if at + 3 <= inner.len() {
            assert(inner.subrange(at, at + 3) =~= seen);
            assert(text::stands_at(inner, "<p>"@, at));
        } else {
            let k = at + 2 - inner.len();
            assert(rest[at + 2] == "</p>"@[k]);
            assert(k == 3);
            assert(rest[at] == "</p>"@[1]);
        }
    }
}

/// Of a reply the quoted lines at its start go, all of them and no others: what is left is the end
/// of the lines, every line before it begins with `> `, and its own first line does not.
pub proof fn law_leading_quotes_are_removed(lines: Seq<Seq<char>>)
    ensures
        exists|n: int|
            0 <= n <= lines.len() && after_quote(lines) == #[trigger] lines.skip(n) && (forall|i: int|
                0 <= i < n ==> "> "@.is_prefix_of(#[trigger] lines[i])) && (n < lines.len()
                ==> !"> "@.is_prefix_of(lines[n])),
    decreases lines.len(),
{
    if lines.len() > 0 && "> "@.is_prefix_of(lines[0]) {
        let rest = lines.drop_first();
        law_leading_quotes_are_removed(rest);
        let m = choose|m: int|
            0 <= m <= rest.len() && after_quote(rest) == #[trigger] rest.skip(m) && (forall|i: int|
                0 <= i < m ==> "> "@.is_prefix_of(#[trigger] rest[i])) && (m < rest.len()
                ==> !"> "@.is_prefix_of(rest[m]));
        assert(lines.skip(m + 1) =~= rest.skip(m));
        assert forall|i: int| 0 <= i < m + 1 implies "> "@.is_prefix_of(#[trigger] lines[i]) by {
            if i > 0 {
                assert(rest[i - 1] == lines[i]);
            }
        }
    } else {
        assert(lines.skip(0) =~= lines);
    }
}

/// What is left of a reply are its lines with line ends between them, without empty lines at its
/// start.
pub proof fn law_lines_are_stacked(lines: Seq<Seq<char>>)
    requires
        lines.len() > 0,
    ensures
        lines[0].len() > 0 ==> stacked(lines, Seq::empty()) == text::joined(lines, seq!['\n']),
        lines[0].len() == 0 ==> stacked(lines, Seq::empty()) == stacked(
            lines.drop_first(),
            Seq::empty(),
        ),
{
    if lines[0].len() > 0 {
        lemma_stacked(lines.drop_first(), lines[0]);
        assert(seq![lines[0]] + lines.drop_first() =~= lines);
    } else {
        assert(lines[0] =~= Seq::empty());
    }
}

proof fn lemma_stacked(lines: Seq<Seq<char>>, above: Seq<char>)
    requires
        above.len() > 0,
    ensures
        stacked(lines, above) == text::joined(seq![above] + lines, seq!['\n']),
    decreases lines.len(),
{
    let all = seq![above] + lines;
    if lines.len() == 0 {
        assert(all =~= seq![above]);
    } else {
        let more = above + seq!['\n'] + lines[0];
        let rest = lines.drop_first();
        lemma_stacked(rest, more);
        text::lemma_joined_front(all, seq!['\n']);
        assert(all.drop_first() =~= lines);
        if rest.len() > 0 {
            let other = seq![more] + rest;
            text::lemma_joined_front(other, seq!['\n']);
            assert(other.drop_first() =~= rest);
            text::lemma_joined_front(lines, seq!['\n']);
            let tail = text::joined(rest, seq!['\n']);
            assert(more + seq!['\n'] + tail =~= above + seq!['\n'] + (lines[0] + seq!['\n'] + tail));
        } else {
            assert(seq![more] + rest =~= seq![more]);
            assert(lines =~= seq![lines[0]]);
        }
    }
}

/// Every match is entered under its key, whatever its place; where a key occurs more than once, the
/// last one counts; and nothing else is entered.
pub proof fn law_every_match_is_entered(found: Seq<MatchView>, key: int, value: int)
    ensures
        forall|k: Seq<char>| #[trigger]
            keyed(found, key, value).contains_key(k) <==> exists|i: int|
                0 <= i < found.len() && (#[trigger] found[i]).groups[key] == k,
        forall|i: int|
            0 <= i < found.len() && (forall|j: int|
                i < j < found.len() ==> (#[trigger] found[j]).groups[key] != found[i].groups[key])
                ==> keyed(found, key, value)[(#[trigger] found[i]).groups[key]]
                == found[i].groups[value],
    decreases found.len(),
{
    if found.len() > 0 {
        let fewer = found.drop_last();
        let last = found.len() - 1;
        law_every_match_is_entered(fewer, key, value);
        assert forall|k: Seq<char>| #[trigger]
            keyed(found, key, value).contains_key(k) <==> exists|i: int|
                0 <= i < found.len() && (#[trigger] found[i]).groups[key] == k by {
            if keyed(found, key, value).contains_key(k) {
                if k == found[last].groups[key] {
                    assert(found[last].groups[key] == k);
                } else {
                    assert(keyed(fewer, key, value).contains_key(k));
                    let i = choose|i: int|
                        0 <= i < fewer.len() && (#[trigger] fewer[i]).groups[key] == k;
                    assert(found[i] == fewer[i]);
                }
            }
            if exists|i: int| 0 <= i < found.len() && (#[trigger] found[i]).groups[key] == k {
                let i = choose|i: int|
                    0 <= i < found.len() && (#[trigger] found[i]).groups[key] == k;
                if i < last {
                    assert(fewer[i].groups[key] == k);
                    assert(keyed(fewer, key, value).contains_key(k));
                }
            }
        }
        assert forall|i: int|
            0 <= i < found.len() && (forall|j: int|
                i < j < found.len() ==> (#[trigger] found[j]).groups[key]
                    != found[i].groups[key]) implies keyed(found, key, value)[(
        #[trigger] found[i]).groups[key]] == found[i].groups[value] by {
            if i < last {
                assert(found[last].groups[key] != found[i].groups[key]);
                assert(fewer[i] == found[i]);
                assert forall|j: int| i < j < fewer.len() implies (#[trigger] fewer[j]).groups[key]
                    != fewer[i].groups[key] by {
                    assert(fewer[j] == found[j]);
                }
                assert(keyed(fewer, key, value)[fewer[i].groups[key]] == fewer[i].groups[value]);
            }
        }
    }
}

/// Every emote that is known and named anywhere in a message is picked, with its address, and no
/// other is.
pub proof fn law_named_emotes_are_picked(
    found: Seq<MatchView>,
    emotes: Map<Seq<char>, Seq<char>>,
    name: Seq<char>,
)
    ensures
        forall|i: int|
            0 <= i < found.len() && (#[trigger] found[i]).groups[1] == name && emotes.contains_key(
                name,
            ) ==> named_emotes(found, emotes).contains_key(name) && named_emotes(
                found,
                emotes,
            )[name] == emotes[name],
        named_emotes(found, emotes).contains_key(name) ==> emotes.contains_key(name) && exists|
            i: int,
        |
            0 <= i < found.len() && (#[trigger] found[i]).groups[1] == name,
{
    if named_emotes(found, emotes).contains_key(name) {
        assert(is_named(found, name));
    }
}

/// The emotes of a message are those of all its images, of either form; where it has none, they are
/// all its shortcodes.
pub proof fn law_all_emotes_of_a_message(
    images: Seq<MatchView>,
    title_first: Seq<MatchView>,
    shortcodes: Seq<MatchView>,
    i: int,
)
    ensures
        0 <= i < images.len() ==> message_emojis(images, title_first, shortcodes).contains_key(
            images[i].groups[2],
        ),
        0 <= i < title_first.len() ==> message_emojis(
            images,
            title_first,
            shortcodes,
        ).contains_key(title_first[i].groups[1]),
        images.len() == 0 && title_first.len() == 0 && 0 <= i < shortcodes.len()
            ==> message_emojis(images, title_first, shortcodes).contains_key(
            shortcodes[i].groups[1],
        ),
        images.len() + title_first.len() > 0 ==> forall|k: Seq<char>| #[trigger]
            message_emojis(images, title_first, shortcodes).contains_key(k) ==> (exists|j: int|
                0 <= j < images.len() && (#[trigger] images[j]).groups[2] == k) || (exists|j: int|
                0 <= j < title_first.len() && (#[trigger] title_first[j]).groups[1] == k),
{
    law_every_match_is_entered(images, 2, 1);
    law_every_match_is_entered(title_first, 1, 2);
    let a = keyed(images, 2, 1);
    let b = keyed(title_first, 1, 2);
    let tagged = a.union_prefer_right(b);
    if images.len() > 0 {
        assert(a.contains_key(images[0].groups[2]));
        assert(tagged.contains_key(images[0].groups[2]));
    }
    if title_first.len() > 0 {
        assert(b.contains_key(title_first[0].groups[1]));
        assert(tagged.contains_key(title_first[0].groups[1]));
    }
    if images.len() == 0 && title_first.len() == 0 {
        assert(tagged =~= Map::empty());
        if 0 <= i < shortcodes.len() {
            assert(is_named(shortcodes, shortcodes[i].groups[1]));
        }
    }
    if 0 <= i < images.len() {
        assert(a.contains_key(images[i].groups[2]));
        assert(tagged.contains_key(images[i].groups[2]));
    }
    if 0 <= i < title_first.len() {
        assert(b.contains_key(title_first[i].groups[1]));
        assert(tagged.contains_key(title_first[i].groups[1]));
    }
}

/// What a content says can be read out of its JSON: its text, its HTML where it has any, and the
/// event that it answers.
pub proof fn law_contents_read_back(content: ContentView)
    ensures
        content.json().at("msgtype"@) == JsonView::Text("m.text"@),
        content.json().at("body"@) == JsonView::Text(content.body),
        content.json().at("formatted_body"@).as_text() == content.formatted_body,
        content.formatted_body is Some ==> content.json().at("format"@) == JsonView::Text(
            "org.matrix.custom.html"@,
        ),
        content.json().at("m.relates_to"@).at("m.in_reply_to"@).at("event_id"@).as_text()
            == content.reply_to,
{
    reveal_strlit("msgtype");
    reveal_strlit("body");
    reveal_strlit("format");
    reveal_strlit("formatted_body");
    reveal_strlit("m.relates_to");
    assert("msgtype"@.len() == 7);
    assert("body"@.len() == 4);
    assert("format"@.len() == 6);
    assert("formatted_body"@.len() == 14);
    assert("m.relates_to"@.len() == 12);
}

/// A message without markup is sent as plain text, one with markup with its HTML; an answer names
/// the event that it answers where that has the shape of one.
pub proof fn law_markup_is_kept(
    room: Seq<char>,
    event: Seq<char>,
    valid: bool,
    quoted: Option<QuotedEvent>,
    body: Seq<char>,
    html: Seq<char>,
)
    ensures
        plain_or_html(body, html).body == body,
        plain_or_html(body, html).formatted_body == if body == html {
            None
        } else {
            Some(html)
        },
        plain_or_html(body, html).reply_to is None,
        reply_content(room, event, valid, quoted, body, html).reply_to == if valid {
            Some(event)
        } else {
            None
        },
        body.is_suffix_of(reply_content(room, event, valid, quoted, body, html).body),
        reply_content(room, event, valid, quoted, body, html).formatted_body matches Some(shown)
            && (body != html ==> html.is_suffix_of(shown)) && (body == html ==> fully_escaped(
            body,
        ).is_suffix_of(shown)),
{
    let content = reply_content(room, event, valid, quoted, body, html);
    let all = content.body;
    assert(all.subrange(all.len() - body.len(), all.len() as int) =~= body);
    let shown = content.formatted_body->0;
    let end = if body == html {
        fully_escaped(body)
    } else {
        html
    };
    assert(shown.subrange(shown.len() - end.len(), shown.len() as int) =~= end);
}

/// A quoted line at the start of an answer goes, however many follow; an answer without one stays as
/// it is.
pub proof fn law_quotes_are_stripped(quote: Seq<char>, rest: Seq<char>, body: Seq<char>)
    requires
        !quote.contains('\n'),
        !body.contains('\r'),
        body.len() > 0,
        !text::is_white_space(body[0]),
        !text::is_white_space(body.last()),
        body[0] != '>',
    ensures
        without_quote("> "@ + quote + seq!['\n'] + rest) == without_quote(rest),
        without_quote(body) == body,
{
    reveal_strlit("> ");
    let line = "> "@ + quote;
    assert(!line.contains('\n')) by {
        if line.contains('\n') {
            let k = line.index_of('\n');
            if k >= 2 {
                assert(quote[k - 2] == '\n');
            }
        }
    }
    text::law_lines(line, rest);
    let shown = text::without_carriage_return(line);
    assert(shown.subrange(0, 2) =~= "> "@);
    let lines = text::lines_of(line + seq!['\n'] + rest);
    assert(lines[0] == shown);
    assert(lines.drop_first() =~= text::lines_of(rest));
    lemma_lines_join(body);
    let own = text::lines_of(body);
    assert(own[0].len() > 0 && own[0][0] == body[0]);
    if "> "@.is_prefix_of(own[0]) {
        assert(own[0].subrange(0, 2)[0] == own[0][0]);
    }
    law_lines_are_stacked(own);
    text::law_trimming_stops(Seq::empty(), body, Seq::empty(), text::Trim::WhiteSpace);
    assert(Seq::<char>::empty() + body + Seq::<char>::empty() =~= body);
}

proof fn lemma_lines_join(s: Seq<char>)
    requires
        !s.contains('\r'),
        s.len() > 0,
        s.last() != '\n',
    ensures
        text::lines_of(s).len() > 0,
        text::joined(text::lines_of(s), seq!['\n']) == s,
        s[0] != '\n' ==> text::lines_of(s)[0].len() > 0 && text::lines_of(s)[0][0] == s[0],
    decreases s.len(),
{
    let lines = text::lines_of(s);
    if s.contains('\n') {
        s.index_of_first_ensures('\n');
        let at = s.index_of_first('\n')->0;
        let first = s.take(at);
        let rest = s.skip(at + 1);
        assert(!first.contains('\n')) by {
            if first.contains('\n') {
                assert(s[first.index_of('\n')] == '\n');
            }
        }
        assert(!first.contains('\r')) by {
            if first.contains('\r') {
                assert(s[first.index_of('\r')] == '\r');
            }
        }
        assert(!rest.contains('\r')) by {
            if rest.contains('\r') {
                assert(s[at + 1 + rest.index_of('\r')] == '\r');
            }
        }
        assert(s =~= first + seq!['\n'] + rest);
        assert(rest.len() > 0) by {
            if rest.len() == 0 {
                assert(s.last() == s[at]);
            }
        }
        assert(rest.last() == s.last());
        text::law_lines(first, rest);
        lemma_lines_join(rest);
        assert(lines =~= seq![first] + text::lines_of(rest));
        assert(lines.drop_first() =~= text::lines_of(rest));
        text::lemma_joined_front(lines, seq!['\n']);
        if s[0] != '\n' {
            assert(at > 0);
            assert(first[0] == s[0]);
        }
    } else {
        text::law_lines(s, Seq::empty());
        assert(lines =~= seq![s]);
    }
}

/// What was matched is removed, all of it and nothing else: every other character stays, as far from
/// its place as characters went before it.
pub proof fn law_only_matches_are_removed(html: Seq<char>, found: Seq<MatchView>, i: int, k: int)
    requires
        pattern::in_order(found, 0, html.len() as int),
        0 <= i <= found.len(),
        0 <= k < html.len(),
        i > 0 ==> found[i - 1].end <= k,
        i < found.len() ==> k < found[i].start,
    ensures
        without_matches(html, found).len() == html.len() - removed_length(found, found.len() as int),
        0 <= k - removed_length(found, i) < without_matches(html, found).len(),
        without_matches(html, found)[k - removed_length(found, i)] == html[k],
{
    let none = nothings(found.len());
    pattern::law_every_match_is_replaced(html, found, none);
    lemma_removed_length(found, found.len() as int);
    lemma_removed_length(found, i);
    assert(pattern::drift(found, none, i) == -removed_length(found, i));
}

/// How many characters the first `n` matches have.
pub open spec fn removed_length(found: Seq<MatchView>, n: int) -> int
    decreases n,
{
    if n <= 0 {
        0
    } else {
        removed_length(found, n - 1) + found[n - 1].end - found[n - 1].start
    }
}

proof fn lemma_removed_length(found: Seq<MatchView>, n: int)
    requires
        0 <= n <= found.len(),
    ensures
        pattern::drift(found, nothings(found.len()), n) == -removed_length(found, n),
    decreases n,
{
    if n > 0 {
        lemma_removed_length(found, n - 1);
        assert(nothings(found.len())[n - 1].len() == 0);
    }
}

/// A message is written alike whatever emotes are known that it does not name.
pub proof fn law_other_emotes_do_not_matter(
    message: Seq<char>,
    emotes: Map<Seq<char>, Seq<char>>,
    others: Map<Seq<char>, Seq<char>>,
)
    requires
        forall|i: int|
            #![trigger pattern::matches_of(Pattern::Shortcode, message)[i]]
            0 <= i < pattern::matches_of(Pattern::Shortcode, message).len() ==> {
                let name = pattern::matches_of(Pattern::Shortcode, message)[i].groups[1];
                emotes.contains_key(name) == others.contains_key(name) && (emotes.contains_key(name)
                    ==> emotes[name] == others[name])
            },
    ensures
        matrix_html(message, emotes) == matrix_html(message, others),
{
    let found = pattern::matches_of(Pattern::Shortcode, message);
    assert(named_emotes(found, emotes) =~= named_emotes(found, others)) by {
        assert forall|k: Seq<char>| named_emotes(found, emotes).contains_key(k)
            == named_emotes(found, others).contains_key(k) && (named_emotes(
            found,
            emotes,
        ).contains_key(k) ==> named_emotes(found, emotes)[k] == named_emotes(found, others)[k]) by {
            if is_named(found, k) {
                let i = choose|i: int| 0 <= i < found.len() && (#[trigger] found[i]).groups[1] == k;
                assert(found[i].groups[1] == k);
            }
        }
    }
}

/// An answer quotes who is answered and what they said, without what they quoted themselves, and
/// leads to the event and its room; where nothing is known of the event, it says so.
pub proof fn law_answers_quote(
    room: Seq<char>,
    event: Seq<char>,
    valid: bool,
    quoted: QuotedEvent,
    plain: Seq<char>,
    html: Seq<char>,
)
    ensures
        ("> <"@ + quoted.sender@ + "> "@ + without_quote(quoted.body@)).is_prefix_of(
            reply_content(room, event, valid, Some(quoted), plain, html).body,
        ),
        "> <unknown> ..."@.is_prefix_of(reply_content(room, event, valid, None, plain, html).body),
        reply_content(room, event, valid, Some(quoted), plain, html).formatted_body matches Some(
            shown,
        ) && text::holds(shown, "https://matrix.to/#/"@ + room + "/"@ + event) && text::holds(
            shown,
            "https://matrix.to/#/"@ + quoted.sender@,
        ),
        quoted.formatted_body is None ==> (reply_content(
            room,
            event,
            valid,
            Some(quoted),
            plain,
            html,
        ).formatted_body matches Some(shown) && text::holds(shown, without_quote(quoted.body@))),
{
    reveal_strlit("> <unknown> ...");
    reveal_strlit("> <");
    reveal_strlit("unknown");
    reveal_strlit("> ");
    reveal_strlit("...");
    let content = reply_content(room, event, valid, Some(quoted), plain, html);
    let start = "> <"@ + quoted.sender@ + "> "@ + without_quote(quoted.body@);
    assert(content.body.subrange(0, start.len() as int) =~= start);
    let lost = reply_content(room, event, valid, None, plain, html);
    assert("> <unknown> ..."@ =~= "> <"@ + "unknown"@ + "> "@ + "..."@);
    assert(lost.body.subrange(0, "> <unknown> ..."@.len() as int) =~= "> <unknown> ..."@);
    let shown = if html == plain {
        fully_escaped(plain)
    } else {
        html
    };
    lemma_answer_leads(room, event, quoted.sender@, quotation(Some(quoted)).2, shown);
}

proof fn lemma_answer_leads(
    room: Seq<char>,
    event: Seq<char>,
    sender: Seq<char>,
    quoted: Seq<char>,
    html: Seq<char>,
)
    ensures
        ({
            let shown = reply_html(room, event, sender, quoted, html);
            &&& text::holds(shown, "https://matrix.to/#/"@ + room + "/"@ + event)
            &&& text::holds(shown, "https://matrix.to/#/"@ + sender)
            &&& text::holds(shown, quoted)
        }),
{
    reveal_strlit("<mx-reply><blockquote><a href=\"https://matrix.to/#/");
    reveal_strlit("<mx-reply><blockquote><a href=\"");
    reveal_strlit("https://matrix.to/#/");
    reveal_strlit("\">In reply to</a> <a href=\"https://matrix.to/#/");
    reveal_strlit("\">In reply to</a> <a href=\"");
    let a = "<mx-reply><blockquote><a href=\""@;
    let link = "https://matrix.to/#/"@;
    let b = "\">In reply to</a> <a href=\""@;
    assert("<mx-reply><blockquote><a href=\"https://matrix.to/#/"@ =~= a + link);
    assert("\">In reply to</a> <a href=\"https://matrix.to/#/"@ =~= b + link);
    let first = a + link + room + "/"@ + event;
    let second = first + (b + link) + sender;
    let third = second + "\">"@ + sender + "</a><br />"@ + quoted;
    let shown = reply_html(room, event, sender, quoted, html);
    assert(shown == third + "</blockquote></mx-reply>"@ + html);
    text::lemma_end_is_held(a, link + room + "/"@, event);
    assert(a + (link + room + "/"@) + event =~= first);
    assert(link + room + "/"@ + event =~= (link + room + "/"@) + event);
    text::lemma_end_is_held(first + b, link, sender);
    assert(first + b + link + sender =~= second);
    text::lemma_end_is_held(first, b + link, sender);
    text::lemma_end_is_held(second, "\">"@, sender);
    text::lemma_end_is_held(second + "\">"@ + sender, "</a><br />"@, quoted);
    text::lemma_last_is_held(second + "\">"@ + sender + "</a><br />"@, quoted);
    text::lemma_end_is_held(third, "</blockquote></mx-reply>"@, html);
}

/// A message that answers nothing is sent as it is; one that answers an event names it where it has
/// the shape of one.
pub proof fn law_answers_name_their_event(
    room: Seq<char>,
    message: Seq<char>,
    emotes: Map<Seq<char>, Seq<char>>,
    event: Seq<char>,
    quoted: Option<QuotedEvent>,
)
    ensures
        bridged_content(room, message, emotes, None).body == message,
        bridged_content(room, message, emotes, None).reply_to is None,
        matrix_html(message, emotes) == message ==> bridged_content(
            room,
            message,
            emotes,
            None,
        ).formatted_body is None,
        matrix_html(message, emotes) != message ==> bridged_content(
            room,
            message,
            emotes,
            None,
        ).formatted_body == Some(matrix_html(message, emotes)),
        bridged_content(room, message, emotes, Some((event, quoted))).reply_to == if is_event_id(
            event,
        ) {
            Some(event)
        } else {
            None
        },
{
}

} // verus!

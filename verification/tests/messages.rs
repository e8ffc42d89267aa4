use bridge::json::Json;
use bridge::markdown;
use bridge::matrix_client::MatrixClient;
use bridge::message;
use bridge::message::{MessageContent, QuotedEvent, ReplyTarget};
use bridge::pattern;
use bridge::pattern::Pattern;
use bridge::table::TextMap;
use ruma::events::room::message::RoomMessageEventContent;

fn map(entries: &[(&str, &str)]) -> TextMap<String> {
    let mut m = TextMap::new();
    for (k, v) in entries {
        m.insert(k.to_string(), v.to_string());
    }
    m
}

fn html(message: &str, emotes: &[(&str, &str)]) -> String {
    let (plain, html) = MatrixClient::process_for_matrix(message, &map(emotes));
    assert_eq!(plain, message);
    html
}

fn to_serde(json: &Json) -> serde_json::Value {
    match json {
        Json::Null => serde_json::Value::Null,
        Json::Bool(b) => serde_json::Value::Bool(*b),
        Json::Number(n) => serde_json::Value::from(*n),
        Json::OtherNumber(s) => serde_json::from_str(s).unwrap(),
        Json::Text(s) => serde_json::Value::String(s.clone()),
        Json::Array(items) => serde_json::Value::Array(items.iter().map(to_serde).collect()),
        Json::Object(members) => serde_json::Value::Object(
            members.iter().map(|(k, v)| (k.clone(), to_serde(v))).collect(),
        ),
    }
}

#[test]
fn plain_text_stays_plain() {
    assert_eq!(html("hello", &[]), "hello");
    assert_eq!(html("", &[]), "");
}

#[test]
fn markdown_becomes_html() {
    assert_eq!(html("**b** and `c`", &[]), "<strong>b</strong> and <code>c</code>");
    assert_eq!(html("one\ntwo", &[]), "one<br />\ntwo");
    assert_eq!(html("one\n\ntwo", &[]), "<p>one</p>\n<p>two</p>");
    assert_eq!(html("a < b & c", &[]), "a &lt; b &amp; c");
}

#[test]
fn spoilers_open_and_close() {
    assert_eq!(html("a ||b|| c", &[]), "a <span data-mx-spoiler>b</span> c");
    assert_eq!(
        html("||a|| ||b||", &[]),
        "<span data-mx-spoiler>a</span> <span data-mx-spoiler>b</span>"
    );
}

#[test]
fn an_open_spoiler_is_closed_at_the_end() {
    assert_eq!(html("a ||b", &[]), "<p>a <span data-mx-spoiler>b</p>\n</span>");
}

#[test]
fn code_keeps_marks_and_shortcodes() {
    assert_eq!(
        html("```\n||x|| :cat:\n```", &[("cat", "mxc://a/b")]),
        "<pre><code>||x|| :cat:\n</code></pre>"
    );
    assert_eq!(html("`||x||`", &[]), "<code>||x||</code>");
}

#[test]
fn known_emotes_become_images() {
    let image = "<img alt=\":cat:\" title=\":cat:\" height=\"32\" src=\"mxc://a/b\" data-mx-emoticon />";
    let emotes = [("cat", "mxc://a/b")];
    assert_eq!(html("a :cat: b", &emotes), format!("a {image} b"));
    assert_eq!(html(":cat::cat:", &emotes), format!("{image}{image}"));
    assert_eq!(html(":dog: :cat:", &emotes), format!(":dog: {image}"));
    assert_eq!(html("é :cat: ü", &emotes), format!("é {image} ü"));
}

#[test]
fn html_is_finished() {
    assert_eq!(message::finish("<p>a</p>\n".to_string(), false), "a");
    assert_eq!(message::finish("<p> a </p>".to_string(), false), "a");
    assert_eq!(message::finish("<p>a</p>".to_string(), true), "<p>a</p></span>");
    assert_eq!(message::finish("<p>a</p>\n<p>b</p>\n".to_string(), false), "<p>a</p>\n<p>b</p>");
    assert_eq!(message::finish("<p></p>".to_string(), false), "");
    assert_eq!(message::finish("<ul></ul>".to_string(), false), "<ul></ul>");
}

#[test]
fn matches_are_placed_by_characters() {
    let found = pattern::find_all(Pattern::Shortcode, "é :a: ü:b-c_1:");
    let places: Vec<(usize, usize, String, String)> = found
        .iter()
        .map(|m| (m.start, m.end, m.groups[0].clone(), m.groups[1].clone()))
        .collect();
    assert_eq!(
        places,
        vec![
            (2, 5, ":a:".to_string(), "a".to_string()),
            (7, 14, ":b-c_1:".to_string(), "b-c_1".to_string())
        ]
    );
}

#[test]
fn every_pattern_finds_what_it_is_for() {
    let cases = [
        (Pattern::RoleMention, "x <@&12> y", vec!["<@&12>", "12"]),
        (Pattern::ChannelMention, "<#34>", vec!["<#34>", "34"]),
        (Pattern::DiscordEmote, "<a:wave:56>", vec!["<a:wave:56>", "wave", "56"]),
        (Pattern::DiscordEmote, "<:wave:56>", vec!["<:wave:56>", "wave", "56"]),
        (Pattern::ReplyFallback, "<mx-reply>a\nb</mx-reply>c", vec!["<mx-reply>a\nb</mx-reply>"]),
        (Pattern::Shortcode, ":a-b:", vec![":a-b:", "a-b"]),
        (
            Pattern::ImageTag,
            "<img data-mx-emoticon src=\"mxc://a/b\" alt=\":cat:\">",
            vec!["<img data-mx-emoticon src=\"mxc://a/b\" alt=\":cat:\">", "mxc://a/b", "cat"],
        ),
        (
            Pattern::ImageTagTitleFirst,
            "<img alt=\":cat:\" data-mx-emoticon src=\"mxc://a/b\">",
            vec!["<img alt=\":cat:\" data-mx-emoticon src=\"mxc://a/b\">", "cat", "mxc://a/b"],
        ),
        (
            Pattern::PuppetMention,
            "hi @_discord_12-ab:x.y",
            vec![],
        ),
        (Pattern::PuppetMention, "@_discord_12:x.y", vec!["@_discord_12:x.y", "12"]),
        (Pattern::PuppetMention, "@_discord_12-34:x.y", vec!["@_discord_12-34:x.y", "12"]),
        (Pattern::Emote, ":ä1:", vec![":ä1:", "ä1"]),
        (Pattern::EmoteId, "<:wave:56>", vec![":56>", "56"]),
    ];
    for (p, s, groups) in cases {
        let found = pattern::find_all(p, s);
        if groups.is_empty() {
            assert!(found.is_empty(), "{:?}", p);
        } else {
            assert_eq!(found[0].groups, groups, "{:?}", p);
        }
    }
}

#[test]
fn splicing_replaces_each_match() {
    let s = "ü :a: :b:";
    let found = pattern::find_all(Pattern::Shortcode, s);
    let replaced = pattern::splice(s, &found, &vec!["1".to_string(), "22".to_string()]);
    assert_eq!(replaced, "ü 1 22");
    assert_eq!(pattern::splice(s, &Vec::new(), &Vec::new()), s);
}

#[test]
fn emojis_come_from_images_first() {
    let tag = "<img data-mx-emoticon src=\"mxc://a/1\" alt=\":one:\">\
               <img title=\":two:\" data-mx-emoticon src=\"mxc://a/2\">";
    let emojis = MatrixClient::parse_matrix_emojis(":three:", Some(tag));
    assert_eq!(emojis.get("one").map(String::as_str), Some("mxc://a/1"));
    assert_eq!(emojis.get("two").map(String::as_str), Some("mxc://a/2"));
    assert!(emojis.get("three").is_none());
}

#[test]
fn emojis_come_from_shortcodes_where_there_are_no_images() {
    for html in [None, Some("<b>no image</b>")] {
        let emojis = MatrixClient::parse_matrix_emojis("a :one: :two:", html);
        assert_eq!(emojis.len(), 2);
        assert_eq!(emojis.get("one").map(String::as_str), Some(""));
    }
    assert!(MatrixClient::parse_matrix_emojis("none", None).is_empty());
}

#[test]
fn quotes_are_taken_out_of_replies() {
    assert_eq!(message::strip_reply_fallback("> <@a:b> hi\n> there\n\nanswer\n> not a quote"),
        "answer\n> not a quote");
    assert_eq!(message::strip_reply_fallback("plain"), "plain");
    assert_eq!(message::strip_reply_fallback("> only"), "");
    assert_eq!(
        message::strip_reply_fallback_html("<mx-reply>a\nb</mx-reply>c<mx-reply>d</mx-reply>"),
        "c"
    );
}

#[test]
fn text_is_escaped_for_attributes_too() {
    assert_eq!(message::escape_fully("<a href=\"x\">&'"), "&lt;a href=&quot;x&quot;&gt;&amp;&#39;");
}

#[test]
fn contents_are_those_that_ruma_writes() {
    let plain = MessageContent::text_plain("hi");
    assert_eq!(
        to_serde(&plain.to_json()),
        serde_json::to_value(RoomMessageEventContent::text_plain("hi")).unwrap()
    );
    let rich = MessageContent::text_html("hi", "<b>hi</b>");
    assert_eq!(
        to_serde(&rich.to_json()),
        serde_json::to_value(RoomMessageEventContent::text_html("hi", "<b>hi</b>")).unwrap()
    );
}

fn ruma_reply(plain: &str, html: &str, event: &str) -> serde_json::Value {
    let content = RoomMessageEventContent::text_html(plain, html);
    let mut json = serde_json::to_value(&content).unwrap();
    let mut target = serde_json::Map::new();
    target.insert("event_id".to_string(), serde_json::Value::from(event));
    let mut relation = serde_json::Map::new();
    relation.insert("m.in_reply_to".to_string(), serde_json::Value::Object(target));
    json["m.relates_to"] = serde_json::Value::Object(relation);
    match serde_json::from_value::<RoomMessageEventContent>(json) {
        Ok(updated) => serde_json::to_value(&updated).unwrap(),
        Err(_) => serde_json::to_value(&content).unwrap(),
    }
}

#[test]
fn a_reply_quotes_and_names_what_it_answers() {
    for event in ["$e", "$e:example.org", "no-event", "$e:bad host", ""] {
        let reply = Some(ReplyTarget {
            event_id: event.to_string(),
            quoted: Some(QuotedEvent {
                sender: "@bob:x".to_string(),
                body: "> <@a:x> old\n\nhello".to_string(),
                formatted_body: Some("<mx-reply>q</mx-reply><b>hello</b>".to_string()),
            }),
        });
        let content = message::make_content("!r:x", "hi **you**", &TextMap::new(), &reply);
        let plain = "> <@bob:x> hello\n\nhi **you**";
        let html = format!(
            "<mx-reply><blockquote><a href=\"https://matrix.to/#/!r:x/{event}\">In reply to</a> \
             <a href=\"https://matrix.to/#/@bob:x\">@bob:x</a><br /><b>hello</b></blockquote>\
             </mx-reply>hi <strong>you</strong>"
        );
        assert_eq!(content.body, plain);
        assert_eq!(content.formatted_body.as_deref(), Some(html.as_str()));
        assert_eq!(to_serde(&content.to_json()), ruma_reply(plain, &html, event), "{}", event);
    }
}

#[test]
fn a_reply_to_something_unknown_shows_dots() {
    let reply = Some(ReplyTarget { event_id: "$e".to_string(), quoted: None });
    let content = message::make_content("!r:x", "it's", &TextMap::new(), &reply);
    assert_eq!(content.body, "> <unknown> ...\n\nit's");
    assert!(content.formatted_body.unwrap().ends_with("<br />...</blockquote></mx-reply>it&#39;s"));
}

#[test]
fn a_message_without_markup_has_no_html() {
    let content = message::make_content("!r:x", "hi", &TextMap::new(), &None);
    assert_eq!(content.formatted_body, None);
    let content = message::make_content("!r:x", "*hi*", &TextMap::new(), &None);
    assert_eq!(content.formatted_body.as_deref(), Some("<em>hi</em>"));
}

#[test]
fn documents_become_html_as_they_are() {
    assert_eq!(markdown::to_html("# T\n\n- a\n- b"), "<h1>T</h1>\n<ul>\n<li>a</li>\n<li>b</li>\n</ul>\n");
}

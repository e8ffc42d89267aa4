use bridge::cache::Cache;
use bridge::config::Config;
use bridge::discord_client::AttachmentInfo;
use bridge::error::BridgeError;
use bridge::json::Json;
use bridge::matrix_client;
use bridge::matrix_client::{
    AliasSource, EmojiSource, MatrixClient, MatrixRequest, MediaStep, MediaTask, Method,
};
use bridge::message::MessageContent;
use bridge::table::TextMap;
use bridge::web;
use bridge::web::{SourceCheck, UrlParts};

fn client() -> MatrixClient {
    MatrixClient::new(Config::default())
}

fn to_serde(json: &Json) -> serde_json::Value {
    match json {
        Json::Null => serde_json::Value::Null,
        Json::Bool(b) => serde_json::Value::Bool(*b),
        Json::Number(n) => serde_json::Value::from(*n),
        Json::OtherNumber(s) => serde_json::from_str(s).unwrap(),
        Json::Text(s) => serde_json::Value::String(s.clone()),
        Json::Array(items) => serde_json::Value::Array(items.iter().map(to_serde).collect()),
        Json::Object(members) => serde_json::Value::Object(
            members.iter().map(|(k, v)| (k.clone(), to_serde(v))).collect(),
        ),
    }
}

fn from_serde(value: &serde_json::Value) -> Json {
    match value {
        serde_json::Value::Null => Json::Null,
        serde_json::Value::Bool(b) => Json::Bool(*b),
        serde_json::Value::Number(n) => match n.as_u64() {
            Some(n) => Json::Number(n),
            None => Json::OtherNumber(n.to_string()),
        },
        serde_json::Value::String(s) => Json::Text(s.clone()),
        serde_json::Value::Array(items) => Json::Array(items.iter().map(from_serde).collect()),
        serde_json::Value::Object(members) => {
            Json::Object(members.iter().map(|(k, v)| (k.clone(), from_serde(v))).collect())
        }
    }
}

fn json(text: &str) -> Json {
    from_serde(&serde_json::from_str(text).unwrap())
}

fn body(request: &MatrixRequest) -> serde_json::Value {
    to_serde(request.body.as_ref().unwrap())
}

fn value(text: &str) -> serde_json::Value {
    serde_json::from_str(text).unwrap()
}

#[test]
fn requests_go_to_the_client_interface() {
    let out = client().send_request(client().join_room("!r:x", Some("@_discord_1:x")));
    assert_eq!(out.method, Method::Post);
    assert_eq!(
        out.url,
        "http://127.0.0.1:8008/_matrix/client/v3/join/%21r%3Ax?user_id=%40_discord_1%3Ax"
    );
    assert_eq!(out.authorization, "Bearer my-secret-as-token");
    assert_eq!(out.content_type, "application/json");
    assert!(out.body.is_none());
    let own = client().send_request(client().leave_room("!r:x", None));
    assert_eq!(own.url, "http://127.0.0.1:8008/_matrix/client/v3/rooms/%21r%3Ax/leave");
}

#[test]
fn components_are_escaped_byte_by_byte() {
    let request = client().get_event("!ä/ ?", "$a~b-c._");
    assert_eq!(request.path, "/rooms/%21%C3%A4%2F%20%3F/event/%24a~b-c._");
    assert_eq!(request.method, Method::Get);
}

fn is_uuid(s: &str) -> bool {
    s.len() == 36
        && s.chars().enumerate().all(|(i, c)| {
            if [8, 13, 18, 23].contains(&i) {
                c == '-'
            } else {
                c.is_ascii_digit() || ('a'..='f').contains(&c)
            }
        })
}

#[test]
fn messages_have_transactions_of_their_own() {
    let content = MessageContent::text_plain("hi");
    let first = client().send_message("!r:x", &content, Some("@_discord_1:x"));
    let second = client().send_message("!r:x", &content, None);
    let prefix = "/rooms/%21r%3Ax/send/m.room.message/";
    let a = first.path.strip_prefix(prefix).unwrap();
    let b = second.path.strip_prefix(prefix).unwrap();
    assert!(is_uuid(a) && is_uuid(b));
    assert_ne!(a, b);
    assert_eq!(first.method, Method::Put);
    assert_eq!(first.user_id.as_deref(), Some("@_discord_1:x"));
    assert_eq!(body(&first), value(r#"{"msgtype":"m.text","body":"hi"}"#));
}

#[test]
fn edits_carry_the_new_content() {
    let content = MessageContent::text_html("hi", "<b>hi</b>");
    let request = client().send_edit("!r:x", "$old", &content, None);
    assert_eq!(
        body(&request),
        value(
            r#"{"msgtype":"m.text","body":"* hi","format":"org.matrix.custom.html",
                "formatted_body":"* <b>hi</b>",
                "m.new_content":{"msgtype":"m.text","body":"hi",
                    "format":"org.matrix.custom.html","formatted_body":"<b>hi</b>"},
                "m.relates_to":{"rel_type":"m.replace","event_id":"$old"}}"#
        )
    );
    let request = client().send_edit("!r:x", "$old", &MessageContent::text_plain("a"), None);
    assert_eq!(body(&request)["body"], value("\"* a\""));
    assert_eq!(body(&request).get("formatted_body"), None);
}

#[test]
fn redactions_may_have_a_reason() {
    let request = client().redact_event("!r:x", "$e", None);
    let rest = request.path.strip_prefix("/rooms/%21r%3Ax/redact/%24e/").unwrap();
    assert!(is_uuid(rest));
    assert_eq!(body(&request), value("{}"));
    let request = client().redact_event("!r:x", "$e", Some("spam"));
    assert_eq!(body(&request), value(r#"{"reason":"spam"}"#));
}

#[test]
fn reactions_and_typing() {
    let request = client().send_reaction("!r:x", "$e", "👍", "@u:x");
    assert!(request.path.starts_with("/rooms/%21r%3Ax/send/m.reaction/"));
    assert_eq!(
        body(&request),
        value(r#"{"m.relates_to":{"rel_type":"m.annotation","event_id":"$e","key":"👍"}}"#)
    );
    let request = client().send_typing("!r:x", "@u:x", 8000);
    assert_eq!(request.path, "/rooms/%21r%3Ax/typing/%40u%3Ax");
    assert_eq!(body(&request), value(r#"{"typing":true,"timeout":8000}"#));
    assert_eq!(request.user_id.as_deref(), Some("@u:x"));
}

#[test]
fn a_room_is_made_for_a_channel() {
    let request = client().create_room("123", "general", "talk", "@admin:x");
    assert_eq!(request.path, "/createRoom");
    assert_eq!(
        body(&request),
        value(
            r#"{"room_alias_name":"_discord_123","name":"general","topic":"talk",
                "visibility":"private","invite":["@admin:x"],
                "creation_content":{"m.federate":true},
                "initial_state":[
                    {"type":"m.room.join_rules","content":{"join_rule":"public"}},
                    {"type":"m.room.history_visibility","content":{"history_visibility":"shared"}}],
                "power_level_content_override":{"users":
                    {"@admin:x":100,"@appservice-discord:localhost":100}}}"#
        )
    );
}

#[test]
fn users_are_registered_and_described() {
    let request = client().register_user("@_discord_1:localhost");
    assert_eq!(
        body(&request),
        value(r#"{"type":"m.login.application_service","username":"_discord_1"}"#)
    );
    let request = client().set_display_name("@u:x", "Bob");
    assert_eq!(request.path, "/profile/%40u%3Ax/displayname");
    assert_eq!(body(&request), value(r#"{"displayname":"Bob"}"#));
    let request = client().set_avatar("@u:x", "mxc://a/b");
    assert_eq!(request.path, "/profile/%40u%3Ax/avatar_url");
    assert_eq!(body(&request), value(r#"{"avatar_url":"mxc://a/b"}"#));
    let request = client().send_invite("!r:x", "@u:x");
    assert_eq!(request.path, "/rooms/%21r%3Ax/invite");
    assert_eq!(body(&request), value(r#"{"user_id":"@u:x"}"#));
}

#[test]
fn puppets_and_aliases() {
    let c = client();
    assert_eq!(c.matrixify_user("12", None), "@_discord_12:localhost");
    assert_eq!(c.matrixify_user("12", Some("ab")), "@_discord_12-ab:localhost");
    assert_ne!(c.matrixify_user("1", Some("2")), c.matrixify_user("12", None));
    assert_eq!(c.matrixify_room("34"), "#_discord_34:localhost");
    assert_eq!(c.resolve_room_alias("#a:x").path, "/directory/room/%23a%3Ax");
}

#[test]
fn files_are_fetched_from_discord_alone() {
    for (url, trusted) in [
        ("https://cdn.discordapp.com/a.png", true),
        ("https://media.discordapp.net/a.png", true),
        ("http://cdn.discordapp.com/a.png", false),
        ("https://evil.example/cdn.discordapp.com", false),
        ("https://cdn.discordapp.com.evil.example/a", false),
        ("/only/a/path", false),
    ] {
        match web::check_source(url) {
            SourceCheck::Trusted => assert!(trusted, "{}", url),
            SourceCheck::Untrusted => assert!(!trusted, "{}", url),
            SourceCheck::Malformed(_) => panic!("{} is a URL", url),
        }
    }
    match web::check_source("not a url") {
        SourceCheck::Malformed(reason) => assert_eq!(reason, "invalid uri character"),
        _ => panic!("no URL"),
    }
    let parts = UrlParts {
        scheme: Some("https".to_string()),
        host: Some("cdn.discordapp.com".to_string()),
    };
    assert!(parts.is_trusted());
    assert!(!UrlParts { scheme: None, host: None }.is_trusted());
}

fn message_of(e: BridgeError) -> String {
    e.message()
}

#[test]
fn images_are_uploaded_with_their_type() {
    let c = client();
    for (url, kind) in [
        ("https://cdn.discordapp.com/a.GIF", "image/gif"),
        ("https://cdn.discordapp.com/a.webp", "image/webp"),
        ("https://cdn.discordapp.com/a.jpeg", "image/jpeg"),
        ("https://cdn.discordapp.com/a.jpg", "image/jpeg"),
        ("https://cdn.discordapp.com/a", "image/png"),
    ] {
        let upload = c.upload_from_url(url).unwrap();
        assert_eq!(upload.content_type, kind);
        assert_eq!(upload.source_url, url);
        assert_eq!(upload.upload_url, "http://127.0.0.1:8008/_matrix/media/v3/upload");
        assert_eq!(upload.authorization, "Bearer my-secret-as-token");
        assert!(upload.content_length.is_none());
    }
    assert_eq!(
        message_of(c.upload_from_url("https://x.example/a.png").err().unwrap()),
        "Matrix error: Refused to fetch from untrusted domain"
    );
    assert_eq!(
        message_of(c.upload_from_url("a b").err().unwrap()),
        "Matrix error: Invalid avatar URL 'a b': invalid uri character"
    );
}

#[test]
fn stickers_are_no_photographs() {
    let url = "https://cdn.discordapp.com/stickers/1.jpg";
    let upload = client().upload_sticker(url, &web::check_source(url)).unwrap();
    assert_eq!(upload.content_type, "image/png");
    let request = client().send_sticker("!r:x", "@u:x", "1.png", "mxc://a/b", "image/png", 77);
    assert!(request.path.starts_with("/rooms/%21r%3Ax/send/m.sticker/"));
    assert_eq!(
        body(&request),
        value(
            r#"{"body":"1.png","url":"mxc://a/b",
                "info":{"mimetype":"image/png","size":77,"w":320,"h":320}}"#
        )
    );
}

fn attachment(name: &str, kind: Option<&str>, size: Option<(u32, u32)>) -> AttachmentInfo {
    AttachmentInfo {
        url: "https://cdn.discordapp.com/f".to_string(),
        filename: name.to_string(),
        content_type: kind.map(String::from),
        size: 9,
        width: size.map(|s| s.0),
        height: size.map(|s| s.1),
    }
}

#[test]
fn files_are_described_by_their_kind() {
    let c = client();
    let image = c.send_media("!r:x", "@u:x", &attachment("a.png", Some("image/png"), Some((3, 4))), "mxc://a/b");
    assert_eq!(
        body(&image),
        value(
            r#"{"msgtype":"m.image","body":"a.png","url":"mxc://a/b","info":{"size":9,
                "mimetype":"image/png","w":3,"h":4,"thumbnail_url":"mxc://a/b",
                "thumbnail_info":{"mimetype":"image/png","size":9,"w":3,"h":4}}}"#
        )
    );
    let video = c.send_media("!r:x", "@u:x", &attachment("SPOILER_v", Some("video/mp4"), Some((3, 4))), "mxc://a/b");
    assert_eq!(
        body(&video),
        value(
            r#"{"msgtype":"m.video","body":"SPOILER_v","url":"mxc://a/b",
                "info":{"size":9,"mimetype":"video/mp4","w":3,"h":4},
                "page.codeberg.everypizza.msc4193.spoiler":true}"#
        )
    );
    for (kind, msgtype) in [(Some("audio/ogg"), "m.audio"), (Some("text/plain"), "m.file"), (None, "m.file")] {
        let file = c.send_media("!r:x", "@u:x", &attachment("f", kind, Some((1, 1))), "mxc://a/b");
        assert_eq!(body(&file)["msgtype"], serde_json::Value::from(msgtype));
        assert_eq!(body(&file)["info"].get("w"), None);
    }
    let upload = c.upload_attachment(&attachment("f", None, None)).unwrap();
    assert_eq!(upload.content_type, "application/octet-stream");
    assert_eq!(upload.content_length.as_deref(), Some("9"));
}

#[test]
fn attachments_need_a_trusted_url() {
    let mut a = attachment("f", None, None);
    a.url = "a b".to_string();
    assert_eq!(
        message_of(client().upload_attachment(&a).err().unwrap()),
        "Matrix error: Invalid attachment URL format"
    );
    a.url = "https://x.example/f".to_string();
    assert_eq!(
        message_of(client().upload_attachment(&a).err().unwrap()),
        "Matrix error: Refused to fetch from untrusted domain"
    );
}

#[test]
fn content_is_downloaded_from_the_homeserver() {
    let c = client();
    assert_eq!(
        c.download_media("mxc://x/abc").unwrap(),
        "http://127.0.0.1:8008/_matrix/client/v1/media/download/x/abc"
    );
    assert_eq!(message_of(c.download_media("x/abc").unwrap_err()), "Matrix error: Invalid MXC URL");
    assert_eq!(
        message_of(c.download_media("mxc://x").unwrap_err()),
        "Matrix error: Invalid MXC URL format"
    );
    assert!(c.content_url("x/abc").is_ok());
}

#[test]
fn emojis_of_a_room_come_from_two_events() {
    let rooms = json(
        r#"{"rooms":{"!a:x":{"images":{"one":{"url":"mxc://1"},"bad":{}}},
            "!b:x":{"images":{"two":{"url":"mxc://2"},"own":{"url":"mxc://other"}}},"!c:x":7}}"#,
    );
    let own = json(r#"{"images":{"own":{"url":"mxc://3"},"number":{"url":5}}}"#);
    let emojis = matrix_client::collect_room_emojis(Some(&rooms), Some(&own));
    assert_eq!(emojis.len(), 3);
    assert_eq!(emojis.get("one").map(String::as_str), Some("mxc://1"));
    assert_eq!(emojis.get("two").map(String::as_str), Some("mxc://2"));
    assert_eq!(emojis.get("own").map(String::as_str), Some("mxc://3"));
    assert!(matrix_client::collect_room_emojis(None, None).is_empty());
    let (a, b) = client().fetch_room_emojis("!r:x");
    assert_eq!(a.path, "/rooms/%21r%3Ax/state/im.ponies.emote_rooms");
    assert_eq!(b.path, "/rooms/%21r%3Ax/state/im.ponies.room_emotes");
}

#[test]
fn emojis_of_a_room_are_remembered_unless_there_are_none() {
    let mut cache = Cache::new();
    MatrixClient::keep_room_emojis(&mut cache, "!r:x", &TextMap::new());
    assert!(MatrixClient::get_room_emojis(&cache, "!r:x").is_none());
    let mut emojis = TextMap::new();
    emojis.insert("a".to_string(), "mxc://1".to_string());
    MatrixClient::keep_room_emojis(&mut cache, "!r:x", &emojis);
    let found = MatrixClient::get_room_emojis(&cache, "!r:x").unwrap();
    assert_eq!(found.get("a").map(String::as_str), Some("mxc://1"));
    match client().room_emojis_found("!r:x", Some(found)) {
        EmojiSource::Remembered(emojis) => assert_eq!(emojis.len(), 1),
        EmojiSource::Ask(..) => panic!("asked again"),
    }
    match client().room_emojis_found("!r:x", None) {
        EmojiSource::Remembered(_) => panic!("nothing was remembered"),
        EmojiSource::Ask(rooms, own) => {
            assert_eq!(rooms.path, "/rooms/%21r%3Ax/state/im.ponies.emote_rooms");
            assert_eq!(own.path, "/rooms/%21r%3Ax/state/im.ponies.room_emotes");
        }
    }
}

#[test]
fn members_are_read_from_the_reply() {
    let reply = json(
        r#"{"joined":{"@a:x":{"avatar_url":"mxc://1","display_name":"A"},"@b:x":{"display_name":null}}}"#,
    );
    let members = matrix_client::read_members(&reply);
    assert_eq!(members.len(), 2);
    let a = members.get("@a:x").unwrap();
    assert_eq!(a.avatar_url.as_deref(), Some("mxc://1"));
    assert_eq!(a.display_name.as_deref(), Some("A"));
    let b = members.get("@b:x").unwrap();
    assert!(b.avatar_url.is_none() && b.display_name.is_none());
    assert!(matrix_client::read_members(&json("{}")).is_empty());
    assert!(MatrixClient::is_user_in_room(&None, Some(&reply), "@a:x"));
    assert!(!MatrixClient::is_user_in_room(&None, Some(&reply), "@c:x"));
    assert!(MatrixClient::is_user_in_room(&Some(members), None, "@b:x"));
    assert!(!MatrixClient::is_user_in_room(&None, None, "@a:x"));
    assert_eq!(client().joined_members("!r:x").path, "/rooms/%21r%3Ax/joined_members");
}

#[test]
fn events_are_read_from_the_reply() {
    let event = matrix_client::read_event(&json(
        r#"{"event_id":"$e","sender":"@a:x","content":{"body":"hi","formatted_body":"<b>hi</b>"}}"#,
    ));
    assert_eq!(event.event_id, "$e");
    assert_eq!(event.sender, "@a:x");
    assert_eq!(event.body, "hi");
    assert_eq!(event.formatted_body.as_deref(), Some("<b>hi</b>"));
    let empty = matrix_client::read_event(&json("{}"));
    assert_eq!((empty.event_id.as_str(), empty.body.as_str()), ("", ""));
    assert!(empty.formatted_body.is_none());
}

#[test]
fn an_alias_must_name_a_room() {
    assert_eq!(matrix_client::read_room_id(&json(r#"{"room_id":"!r:x"}"#)).unwrap(), "!r:x");
    assert_eq!(
        message_of(matrix_client::read_room_id(&json("{}")).unwrap_err()),
        "Matrix error: No room_id in response"
    );
}

#[test]
fn json_values_are_looked_up() {
    let v = json(r#"{"a":{"b":"c"},"n":5,"f":1.5,"l":[1,"x"],"t":true}"#);
    assert_eq!(v.get("a").unwrap().text_at("b").as_deref(), Some("c"));
    assert_eq!(v.text_at("n"), None);
    assert_eq!(v.text_at_or("zzz", "d"), "d");
    assert!(v.is_true_at("t") && !v.is_true_at("a"));
    assert_eq!(v.array_at("l").unwrap().len(), 2);
    assert_eq!(to_serde(&v.copy()), to_serde(&v));
    let twice = Json::object().with_text("k", "1").with_text("k", "2");
    assert_eq!(twice.text_at("k").as_deref(), Some("2"));
}

#[test]
fn replies_about_files_are_judged() {
    let judge = |task, status, reply: Option<Json>| {
        matrix_client::judge_media_reply(task, status, "418 teapot", &reply)
    };
    for (task, complaint) in [
        (MediaTask::FetchSource, "Failed to download media from URL: 418 teapot"),
        (MediaTask::Upload, "Failed to upload media: 418 teapot"),
        (MediaTask::UploadAttachment, "Failed to upload attachment: 418 teapot"),
        (MediaTask::UploadSticker, "Failed to upload sticker: 418 teapot"),
        (MediaTask::Download, "Failed to download media: 418 teapot"),
        (MediaTask::StreamMedia, "Failed to download media: 418 teapot"),
        (MediaTask::StreamSticker, "Failed to download sticker: 418 teapot"),
    ] {
        match judge(task, 418, None) {
            Err(BridgeError::Matrix(said)) => assert_eq!(said, complaint),
            _ => panic!("no failure"),
        }
    }
    assert!(judge(MediaTask::Download, 201, None).is_err());
    assert!(matches!(judge(MediaTask::Download, 200, None), Ok(MediaStep::Fetched)));
    assert!(matches!(judge(MediaTask::StreamSticker, 206, None), Ok(MediaStep::Fetched)));
    assert!(judge(MediaTask::Upload, 201, None).is_err());
    assert!(matches!(judge(MediaTask::UploadAttachment, 201, None), Ok(MediaStep::ReadBody)));
    match judge(MediaTask::Upload, 200, Some(json(r#"{"content_uri":"mxc://a/b"}"#))) {
        Ok(MediaStep::Uploaded(url)) => assert_eq!(url, "mxc://a/b"),
        _ => panic!("not uploaded"),
    }
    assert!(matches!(
        judge(MediaTask::Upload, 200, Some(json(r#"{"content_uri":1}"#))),
        Ok(MediaStep::Unreadable)
    ));
}

#[test]
fn the_room_of_an_alias_is_asked_for_once() {
    let mut cache = Cache::new();
    match client().alias_found("#a:x", None) {
        AliasSource::Ask(request) => assert_eq!(request.path, "/directory/room/%23a%3Ax"),
        AliasSource::Remembered(_) => panic!("nothing was remembered"),
    }
    assert!(MatrixClient::settle_alias(&mut cache, "#a:x", &json("{}")).is_err());
    assert!(cache.m_rooms.get("#a:x").is_none());
    let reply = json(r#"{"room_id":"!r:x"}"#);
    assert_eq!(MatrixClient::settle_alias(&mut cache, "#a:x", &reply).unwrap(), "!r:x");
    match client().alias_found("#a:x", cache.m_rooms.get("#a:x")) {
        AliasSource::Remembered(room) => assert_eq!(room, "!r:x"),
        AliasSource::Ask(_) => panic!("asked again"),
    }
}

use bridge::appservice;
use bridge::appservice::{
    AppService, EditStep, EventKind, ForwardAs, MemberAction, MembersSource, MessageRoute,
    MessageStep, ReactionStep, RedactionCase, RedactionStep, Route, TransactionOutcome, TypingStep,
};
use bridge::avatar::AvatarVerdict;
use bridge::cache::{Cache, MatrixUser};
use bridge::config;
use bridge::config::Config;
use bridge::db::BridgedRoom;
use bridge::http::{HttpReply, ReplyBody};
use bridge::json::Json;
use bridge::matrix_client::MatrixClient;
use bridge::table::TextMap;

fn from_serde(value: &serde_json::Value) -> Json {
    match value {
        serde_json::Value::Null => Json::Null,
        serde_json::Value::Bool(b) => Json::Bool(*b),
        serde_json::Value::Number(n) => match n.as_u64() {
            Some(n) => Json::Number(n),
            None => Json::OtherNumber(n.to_string()),
        },
        serde_json::Value::String(s) => Json::Text(s.clone()),
        serde_json::Value::Array(items) => Json::Array(items.iter().map(from_serde).collect()),
        serde_json::Value::Object(members) => {
            Json::Object(members.iter().map(|(k, v)| (k.clone(), from_serde(v))).collect())
        }
    }
}

fn json(text: &str) -> Json {
    from_serde(&serde_json::from_str(text).unwrap())
}

fn text_of(reply: &HttpReply) -> String {
    match &reply.body {
        ReplyBody::Text(s) => s.clone(),
        ReplyBody::Json(j) => j.text_at_or("errcode", ""),
        ReplyBody::Bytes(_) => "bytes".to_string(),
    }
}

fn room() -> BridgedRoom {
    BridgedRoom {
        room_id: "!r:x".to_string(),
        channel_id: "77".to_string(),
        d2m_enabled: true,
        m2d_enabled: true,
        d2m_mod_deletions: false,
        m2d_mod_deletions: false,
        d2m_typing: true,
        m2d_typing: true,
    }
}

#[test]
fn requests_are_routed() {
    let transactions = "/_matrix/app/v1/transactions/5";
    assert_eq!(appservice::route_request("PUT", transactions), Route::Transaction);
    assert_eq!(appservice::route_request("POST", transactions), Route::Nothing);
    assert_eq!(appservice::route_request("GET", "/avatar/x/y"), Route::Avatar);
    assert_eq!(appservice::route_request("GET", "/avatar"), Route::Nothing);
    let reply = appservice::unknown_route();
    assert_eq!((reply.status, text_of(&reply)), (404, "{}".to_string()));
}

#[test]
fn the_homeserver_proves_itself() {
    let config = Config::default();
    let token = config.hs_token.clone();
    let good_query = format!("a=b&access_token={token}");
    let twice = format!("access_token=wrong&access_token={token}");
    let good_header = format!("Bearer {token}");
    assert!(appservice::check_authorization(&config, Some(&good_query), None));
    assert!(appservice::check_authorization(&config, None, Some(&good_header)));
    assert!(appservice::check_authorization(&config, Some("access_token=x"), Some(&good_header)));
    assert!(!appservice::check_authorization(&config, Some(&twice), None));
    assert!(!appservice::check_authorization(&config, None, Some(&token)));
    assert!(!appservice::check_authorization(&config, None, None));
    assert!(!appservice::check_authorization(&config, Some("access_token="), Some("Bearer ")));
    let reply = appservice::forbidden();
    assert_eq!((reply.status, text_of(&reply)), (403, "APPSERVICE_FORBIDDEN".to_string()));
}

#[test]
fn a_transaction_needs_a_list_of_events() {
    match appservice::take_events(&json(r#"{"events":[{"type":"a"},5]}"#)) {
        TransactionOutcome::Accept(events, reply) => {
            assert_eq!(events.len(), 2);
            assert_eq!(events[0].text_at("type").as_deref(), Some("a"));
            assert_eq!((reply.status, text_of(&reply)), (200, "{}".to_string()));
        }
        _ => panic!("there is a list"),
    }
    for body in ["{}", r#"{"events":{}}"#, "[]"] {
        match appservice::take_events(&json(body)) {
            TransactionOutcome::Refuse(reply) => {
                assert_eq!((reply.status, text_of(&reply)), (400, "M_BAD_JSON".to_string()));
            }
            _ => panic!("{} has no list", body),
        }
    }
    assert_eq!(
        appservice::unreadable_body("too big").message(),
        "Matrix error: Body too large or read error: too big"
    );
}

#[test]
fn events_have_kinds() {
    for (name, kind) in [
        ("m.room.member", EventKind::Member),
        ("m.room.message", EventKind::Message),
        ("m.sticker", EventKind::Sticker),
        ("m.room.redaction", EventKind::Redaction),
        ("m.reaction", EventKind::Reaction),
        ("m.typing", EventKind::Typing),
        ("im.ponies.emote_rooms", EventKind::Emotes),
        ("im.ponies.room_emotes", EventKind::Emotes),
        ("m.room.name", EventKind::Other),
    ] {
        let event = Json::object().with_text("type", name);
        assert_eq!(appservice::handle_event(&event), kind);
    }
    assert_eq!(appservice::handle_event(&json("{}")), EventKind::Other);
}

#[test]
fn events_need_their_fields() {
    let event = json(r#"{"room_id":"!r:x","sender":"@a:x","event_id":"$e","content":{"body":"b"}}"#);
    let read = appservice::read_room_event(&event).unwrap();
    assert_eq!((read.room_id.as_str(), read.sender.as_str(), read.event_id.as_str()), ("!r:x", "@a:x", "$e"));
    assert_eq!(read.content.text_at("body").as_deref(), Some("b"));
    assert!(appservice::read_room_event(&json(r#"{"room_id":"!r:x","sender":"@a:x"}"#)).is_none());
    assert!(appservice::read_room_event(&json(r#"{"room_id":1,"sender":"","event_id":""}"#)).is_none());
    assert!(matches!(appservice::content_of(&json("{}")), Json::Null));
}

fn member(state_key: &str, membership: &str) -> Json {
    json(&format!(
        r#"{{"room_id":"!r:x","sender":"@a:x","state_key":"{state_key}",
            "content":{{"membership":"{membership}"}},
            "unsigned":{{"invite_room_state":[
                {{"type":"m.room.name","content":{{"name":"First"}}}},
                {{"type":"m.room.name","content":{{"name":"Last"}}}},
                {{"type":"m.room.topic","content":{{"name":"Topic"}}}}]}}}}"#
    ))
}

#[test]
fn invitations_are_kept_and_announced() {
    let mut config = Config::default();
    config.config_room_id = Some("!admin:x".to_string());
    let me = config.full_user_id();
    let mut cache = Cache::new();
    cache.m_members.insert("!r:x".to_string(), TextMap::new());
    let event = appservice::read_member_event(&member(&me, "invite")).unwrap();
    assert_eq!(event.room_name.as_deref(), Some("Last"));
    match appservice::handle_member_event(&mut cache, &config, &event) {
        MemberAction::KeepInvite { notice: Some((to, sentence)) } => {
            assert_eq!(to, "!admin:x");
            assert_eq!(
                sentence,
                "Received new invite to `!r:x` from `@a:x`. Use `!invite list` to manage."
            );
        }
        _ => panic!("an invitation"),
    }
    assert!(cache.m_members.get("!r:x").is_none());
    config.config_room_id = Some("!r:x".to_string());
    assert!(matches!(
        appservice::handle_member_event(&mut cache, &config, &event),
        MemberAction::KeepInvite { notice: None }
    ));
    for membership in ["leave", "ban"] {
        let event = appservice::read_member_event(&member(&me, membership)).unwrap();
        assert!(matches!(
            appservice::handle_member_event(&mut cache, &config, &event),
            MemberAction::ForgetInvite
        ));
    }
    for (who, membership) in [(me.as_str(), "join"), ("@b:x", "invite")] {
        let event = appservice::read_member_event(&member(who, membership)).unwrap();
        assert!(matches!(
            appservice::handle_member_event(&mut cache, &config, &event),
            MemberAction::Nothing
        ));
    }
    assert!(appservice::read_member_event(&json(r#"{"room_id":"!r:x"}"#)).is_none());
}

#[test]
fn a_name_without_text_hides_earlier_names() {
    let event = json(
        r#"{"room_id":"!r:x","sender":"@a:x","state_key":"@b:x","unsigned":{"invite_room_state":[
            {"type":"m.room.name","content":{"name":"First"}},{"type":"m.room.name"}]}}"#,
    );
    let read = appservice::read_member_event(&event).unwrap();
    assert!(read.room_name.is_none());
    assert_eq!(read.membership, "");
}

#[test]
fn messages_are_routed() {
    let config = Config::default();
    let route = |sender: &str, content: &str| appservice::handle_message_event(&config, sender, &json(content));
    let me = config.full_user_id();
    assert!(matches!(route(&me, r#"{"body":"!help"}"#), MessageRoute::Ignore));
    assert!(matches!(route("@_discord_1:x", r#"{"body":"hi"}"#), MessageRoute::Ignore));
    match route("@a:x", r#"{"msgtype":"m.text","body":"!bridge list"}"#) {
        MessageRoute::Command(body) => assert_eq!(body, "!bridge list"),
        _ => panic!("a command"),
    }
    match route("@a:x", r#"{"msgtype":"m.notice","body":"!x"}"#) {
        MessageRoute::Forward(kind) => assert_eq!(kind, "m.notice"),
        _ => panic!("a notice is no command"),
    }
    match route("@a:x", r#"{"body":"* b","m.relates_to":{"rel_type":"m.replace","event_id":"$o"}}"#) {
        MessageRoute::Edit(original) => assert_eq!(original, "$o"),
        _ => panic!("an edit"),
    }
    match route("@a:x", r#"{"body":"b","m.relates_to":{"rel_type":"m.thread"}}"#) {
        MessageRoute::Forward(kind) => assert_eq!(kind, "m.text"),
        _ => panic!("a message"),
    }
    assert!(config::is_puppet("@_discord_1:x") && !config::is_puppet("@discord:x"));
    assert!(config::is_own_user(&config, &me));
}

#[test]
fn messages_go_by_their_kind() {
    for kind in ["m.text", "m.notice", "m.emote"] {
        assert_eq!(appservice::forward_message_to_discord(kind), ForwardAs::Text);
    }
    for kind in ["m.image", "m.file", "m.video", "m.audio"] {
        assert_eq!(appservice::forward_message_to_discord(kind), ForwardAs::File);
    }
    assert_eq!(appservice::forward_message_to_discord("m.location"), ForwardAs::Nothing);
}

#[test]
fn only_open_bridges_send_to_discord() {
    assert_eq!(appservice::discord_channel(&Some(room())).as_deref(), Some("77"));
    let mut closed = room();
    closed.m2d_enabled = false;
    let closed = Some(closed);
    assert!(appservice::discord_channel(&closed).is_none());
    assert!(appservice::discord_channel(&None).is_none());
    assert!(appservice::required_channel(&closed).unwrap().is_none());
    assert_eq!(appservice::required_channel(&None).unwrap_err().message(), "Not found");
    assert_eq!(appservice::typing_channel(&Some(room())).as_deref(), Some("77"));
    let mut silent = room();
    silent.m2d_typing = false;
    assert!(appservice::typing_channel(&Some(silent)).is_none());
}

#[test]
fn texts_are_written_for_discord() {
    let mut cache = Cache::new();
    cache.d_emotes.insert("cat".to_string(), "<:cat:9>".to_string());
    let to = |body: &str, html: Option<&str>| appservice::to_discord_text(&cache, body, html).unwrap();
    assert_eq!(to("hi :cat: :dog:", None), "hi <:cat:9> :dog:");
    assert_eq!(to("@_discord_12:x.y and @_discord_3-4:x.y", None), "<@12> and <@3>");
    assert_eq!(to("Bob: hi", Some("<a href=\"@_discord_12:x.y\">Bob</a>: hi")), "Bob: hi");
    assert_eq!(to("@_discord_12:x.y", Some("nobody")), "@_discord_12:x.y");
    assert_eq!(to("", None), "");
}

#[test]
fn long_texts_are_cut() {
    let cache = Cache::new();
    let exact = "a".repeat(2000);
    assert_eq!(appservice::to_discord_text(&cache, &exact, None).unwrap(), exact);
    let long = "a".repeat(2001);
    let cut = appservice::to_discord_text(&cache, &long, None).unwrap();
    assert_eq!(cut, format!("{exact}…"));
    assert_eq!(cut.len(), 2003);
    let inside = format!("{}éé", "a".repeat(1999));
    assert!(appservice::to_discord_text(&cache, &inside, None).is_none());
}

fn members() -> TextMap<MatrixUser> {
    let mut members = TextMap::new();
    members.insert(
        "@a:x".to_string(),
        MatrixUser { avatar_url: Some("mxc://x/pic".to_string()), display_name: Some("Ann".to_string()) },
    );
    members.insert("@b:x".to_string(), MatrixUser { avatar_url: None, display_name: None });
    members
}

#[test]
fn users_write_under_their_names() {
    let config = Config::default();
    let post = appservice::make_post(&config, &members(), "@a:x", "hi".to_string(), 1000);
    assert_eq!((post.content.as_str(), post.username.as_str()), ("hi", "Ann"));
    let url = post.avatar_url.unwrap();
    let (path, query) = url.strip_prefix("http://127.0.0.1:5000").unwrap().split_once('?').unwrap();
    let service = AppService::new(MatrixClient::new(config.copy()));
    match service.handle_avatar_request(path, Some(query), 1000) {
        AvatarVerdict::Serve(mxc) => assert_eq!(mxc, "mxc://x/pic"),
        AvatarVerdict::Refuse(reply) => panic!("{}", text_of(&reply)),
    }
    for sender in ["@b:x", "@c:x"] {
        let post = appservice::make_post(&config, &members(), sender, String::new(), 0);
        assert_eq!(post.username, &sender[..2]);
        assert!(post.avatar_url.is_none());
    }
}

#[test]
fn files_go_with_their_names() {
    let matrix = MatrixClient::new(Config::default());
    let file = |content: &str| appservice::forward_media_to_discord(&matrix, &json(content));
    let plain = file(r#"{"url":"mxc://x/1","body":"a.png"}"#).unwrap();
    assert_eq!(plain.filename, "a.png");
    assert_eq!(plain.content, "");
    assert_eq!(plain.download_url, "http://127.0.0.1:8008/_matrix/client/v1/media/download/x/1");
    for (body, name) in [
        (r#"{"url":"mxc://x/1","body":"spoiler_a.png"}"#, "SPOILER_a.png"),
        (r#"{"url":"mxc://x/1","body":"SPOILER_a.png"}"#, "SPOILER_a.png"),
        (r#"{"url":"mxc://x/1","body":"a","page.codeberg.everypizza.msc4193.spoiler":true}"#, "SPOILER_a"),
        (r#"{"url":"mxc://x/1","page.codeberg.everypizza.msc4193.spoiler":"yes"}"#, "attachment"),
    ] {
        assert_eq!(file(body).unwrap().filename, name);
    }
    assert_eq!(file("{}").err().unwrap().message(), "Matrix error: Media message missing url field");
    assert_eq!(
        file(r#"{"url":"mxc://x/1/2"}"#).err().unwrap().message(),
        "Matrix error: Invalid MXC URL format"
    );
}

#[test]
fn stickers_go_as_images() {
    let matrix = MatrixClient::new(Config::default());
    let sticker = |content: &str| appservice::handle_sticker_event(&matrix, &json(content));
    let plain = sticker(r#"{"url":"mxc://x/1"}"#).unwrap();
    assert_eq!((plain.content.as_str(), plain.filename.as_str()), ("sticker", "sticker.png"));
    for (mime, name) in [("image/gif", "sticker.gif"), ("image/webp", "sticker.webp"), ("image/jpeg", "sticker.png")] {
        let content = format!(r#"{{"url":"mxc://x/1","body":"b","info":{{"mimetype":"{mime}"}}}}"#);
        assert_eq!(sticker(&content).unwrap().filename, name);
    }
    assert_eq!(sticker("{}").err().unwrap().message(), "Matrix error: Sticker missing url field");
    assert_eq!(sticker(r#"{"url":"x"}"#).err().unwrap().message(), "Matrix error: Invalid MXC URL format");
}

#[test]
fn edits_need_new_content() {
    let known = Some("5".to_string());
    let edit = json(r#"{"m.new_content":{"body":"new","formatted_body":"<b>new</b>"}}"#);
    let text = appservice::handle_message_edit(&known, &edit).unwrap().unwrap();
    assert_eq!(text.body, "new");
    assert_eq!(text.formatted_body.as_deref(), Some("<b>new</b>"));
    assert!(appservice::handle_message_edit(&None, &json("{}")).unwrap().is_none());
    assert_eq!(
        appservice::handle_message_edit(&known, &json("{}")).err().unwrap().message(),
        "Matrix error: Edit missing m.new_content"
    );
}

fn redaction(message: Option<&str>, bridge: Option<BridgedRoom>, author: Option<&str>) -> RedactionCase {
    RedactionCase {
        message_id: Some(message.map(String::from)),
        bridge: Some(bridge),
        sender: Some("@a:x".to_string()),
        author: Some(author.map(String::from)),
    }
}

#[test]
fn redactions_delete_what_their_authors_sent() {
    let mut case = RedactionCase { message_id: None, bridge: None, sender: None, author: None };
    assert_eq!(case.next(), RedactionStep::AskMessage);
    case.message_id = Some(Some("5".to_string()));
    assert_eq!(case.next(), RedactionStep::AskBridge);
    case.bridge = Some(Some(room()));
    assert_eq!(case.next(), RedactionStep::AskPeople);
    case.sender = Some("@a:x".to_string());
    case.author = Some(Some("@a:x".to_string()));
    assert_eq!(case.next(), RedactionStep::Delete);
    assert_eq!(redaction(None, None, None).next(), RedactionStep::Stop);
    assert_eq!(redaction(Some("5"), None, None).next(), RedactionStep::Stop);
    let mut closed = room();
    closed.m2d_enabled = false;
    assert_eq!(redaction(Some("5"), Some(closed), Some("@a:x")).next(), RedactionStep::Stop);
}

#[test]
fn moderators_delete_where_they_may() {
    for author in [Some("@b:x"), None] {
        assert_eq!(redaction(Some("5"), Some(room()), author).next(), RedactionStep::Stop);
        let mut open = room();
        open.m2d_mod_deletions = true;
        assert_eq!(redaction(Some("5"), Some(open), author).next(), RedactionStep::Delete);
    }
}

#[test]
fn reactions_need_a_target() {
    let react = |content: &str| appservice::handle_reaction_event("@a:x", &json(content));
    let target = react(r#"{"m.relates_to":{"event_id":"$e","key":"👍"}}"#).unwrap().unwrap();
    assert_eq!((target.event_id.as_str(), target.key.as_str()), ("$e", "👍"));
    for (content, what) in [
        ("{}", "m.relates_to"),
        (r#"{"m.relates_to":{}}"#, "event_id"),
        (r#"{"m.relates_to":{"event_id":"$e"}}"#, "key"),
    ] {
        assert_eq!(react(content).err().unwrap().message(), format!("Matrix error: Reaction missing {what}"));
    }
    assert!(appservice::handle_reaction_event("@_discord_1:x", &json("{}")).unwrap().is_none());
}

#[test]
fn reactions_are_written_for_discord() {
    let emote = Some("<a:cat:99>".to_string());
    assert_eq!(appservice::to_discord_reaction(":cat:", &emote), "cat%3A99");
    assert_eq!(appservice::to_discord_reaction(":cat:", &Some("no emote".to_string())), "%3Acat%3A");
    assert_eq!(appservice::to_discord_reaction("👍", &None), "%F0%9F%91%8D");
    assert_eq!(appservice::reaction_name("::cat:"), "cat");
    let mut cache = Cache::new();
    appservice::keep_reaction(&mut cache, "5", "@a:x", "👍", "$e");
    assert_eq!(cache.m_messages.get("5:@a:x:👍").as_deref(), Some("$e"));
}

#[test]
fn typing_is_counted_without_own_users() {
    let config = Config::default();
    let content = format!(
        r#"{{"user_ids":["@a:x","@_discord_1:x","{}",7,"@b:x"]}}"#,
        config.full_user_id()
    );
    assert_eq!(appservice::handle_typing_event(&config, &json(&content)).unwrap(), 2);
    assert_eq!(
        appservice::handle_typing_event(&config, &json("{}")).err().unwrap().message(),
        "Matrix error: Typing event missing user_ids"
    );
}

#[test]
fn avatars_are_remembered() {
    let mut cache = Cache::new();
    assert!(AppService::cached_avatar(&cache, "mxc://x/1").is_none());
    let reply = AppService::fetched_avatar(&mut cache, "mxc://x/1", b"GIF89a...".to_vec());
    assert_eq!(reply.status, 200);
    assert_eq!(reply.content_type.as_deref(), Some("image/gif"));
    let again = AppService::cached_avatar(&cache, "mxc://x/1").unwrap();
    assert!(matches!(&again.body, ReplyBody::Bytes(data) if data == b"GIF89a..."));
    assert_eq!(again.cache_control.as_deref(), Some("public, max-age=86400"));
    let missing = AppService::missing_avatar();
    assert_eq!((missing.status, text_of(&missing)), (404, "Avatar not found".to_string()));
}

#[test]
fn members_and_emojis_are_remembered_and_forgotten() {
    let mut cache = Cache::new();
    let reply = json(r#"{"joined":{"@a:x":{"display_name":"Ann"}}}"#);
    let members = AppService::get_room_members(&mut cache, "!r:x", &reply);
    assert_eq!(members.get("@a:x").unwrap().display_name.as_deref(), Some("Ann"));
    assert_eq!(cache.m_members.get("!r:x").unwrap().len(), 1);
    cache.m_custom_emojis.insert("!r:x".to_string(), TextMap::new());
    AppService::handle_emoji_update(&mut cache, "!r:x");
    assert!(cache.m_custom_emojis.get("!r:x").is_none());
}

#[test]
fn only_the_homeserver_is_heard() {
    let config = Config::default();
    let header = format!("Bearer {}", config.hs_token);
    let body = Some(json(r#"{"events":[{"type":"a"}]}"#));
    assert!(appservice::refuse_strangers(&config, None, Some(&header)).is_none());
    let reply = appservice::refuse_strangers(&config, None, None).unwrap();
    assert_eq!((reply.status, text_of(&reply)), (403, "APPSERVICE_FORBIDDEN".to_string()));
    for unread in [&None, &body] {
        match appservice::handle_transaction(&config, Some("access_token=x"), None, unread) {
            TransactionOutcome::Refuse(reply) => assert_eq!(reply.status, 403),
            _ => panic!("a stranger was heard"),
        }
    }
    let heard = |body| appservice::handle_transaction(&config, None, Some(&header), body);
    assert!(matches!(heard(&None), TransactionOutcome::ReadBody));
    match heard(&body) {
        TransactionOutcome::Accept(events, reply) => {
            assert_eq!((events.len(), reply.status), (1, 200));
        }
        _ => panic!("not heard"),
    }
    match heard(&Some(json("{}"))) {
        TransactionOutcome::Refuse(reply) => assert_eq!(reply.status, 400),
        _ => panic!("there is no list"),
    }
}

fn closed() -> BridgedRoom {
    let mut closed = room();
    closed.m2d_enabled = false;
    closed
}

#[test]
fn messages_go_where_their_room_sends_them() {
    let matrix = MatrixClient::new(Config::default());
    let me = matrix.config.full_user_id();
    let plan = |sender: &str, bridge: Option<Option<BridgedRoom>>, content: &str| {
        appservice::plan_message(&matrix, sender, &bridge, &json(content))
    };
    let hi = r#"{"body":"hi"}"#;
    for sender in [me.as_str(), "@_discord_1:x"] {
        assert!(matches!(plan(sender, Some(Some(room())), hi), Ok(MessageStep::Ignore)));
        assert!(matches!(plan(sender, None, r#"{"body":"!x"}"#), Ok(MessageStep::Ignore)));
    }
    assert!(matches!(plan("@a:x", None, r#"{"body":"!x"}"#), Ok(MessageStep::Command(_))));
    let edit = r#"{"body":"b","m.relates_to":{"rel_type":"m.replace","event_id":"$o"}}"#;
    assert!(matches!(plan("@a:x", None, edit), Ok(MessageStep::Edit(_))));
    assert!(matches!(plan("@a:x", None, hi), Ok(MessageStep::AskBridge)));
    assert!(matches!(plan("@a:x", Some(None), hi), Ok(MessageStep::Ignore)));
    assert!(matches!(plan("@a:x", Some(Some(closed())), hi), Ok(MessageStep::Ignore)));
    match plan("@a:x", Some(Some(room())), hi) {
        Ok(MessageStep::Text(channel)) => assert_eq!(channel, "77"),
        _ => panic!("a text"),
    }
    match plan("@a:x", Some(Some(room())), r#"{"msgtype":"m.image","url":"mxc://x/1"}"#) {
        Ok(MessageStep::File(channel, file)) => {
            assert_eq!((channel.as_str(), file.filename.as_str()), ("77", "attachment"));
        }
        _ => panic!("a file"),
    }
    let location = r#"{"msgtype":"m.location"}"#;
    assert!(matches!(plan("@a:x", Some(Some(room())), location), Ok(MessageStep::Ignore)));
    let broken = plan("@a:x", Some(Some(room())), r#"{"msgtype":"m.file"}"#);
    assert_eq!(broken.err().unwrap().message(), "Matrix error: Media message missing url field");
}

#[test]
fn own_stickers_never_go_back() {
    let matrix = MatrixClient::new(Config::default());
    let me = matrix.config.full_user_id();
    let plan = |sender: &str, bridge: Option<Option<BridgedRoom>>, content: &str| {
        appservice::plan_sticker(&matrix, sender, &bridge, &json(content))
    };
    let sticker = r#"{"url":"mxc://x/1"}"#;
    for sender in [me.as_str(), "@_discord_1:x"] {
        assert!(matches!(plan(sender, None, sticker), Ok(MessageStep::Ignore)));
        assert!(matches!(plan(sender, Some(Some(room())), sticker), Ok(MessageStep::Ignore)));
    }
    assert!(matches!(plan("@a:x", None, sticker), Ok(MessageStep::AskBridge)));
    assert!(matches!(plan("@a:x", Some(None), sticker), Ok(MessageStep::Ignore)));
    assert!(matches!(plan("@a:x", Some(Some(closed())), sticker), Ok(MessageStep::Ignore)));
    match plan("@a:x", Some(Some(room())), sticker) {
        Ok(MessageStep::File(channel, file)) => {
            assert_eq!((channel.as_str(), file.filename.as_str()), ("77", "sticker.png"));
        }
        _ => panic!("a sticker"),
    }
    assert!(plan("@a:x", Some(Some(room())), "{}").is_err());
}

#[test]
fn edits_find_their_message() {
    let known = Some("5".to_string());
    let edit = json(r#"{"m.new_content":{"body":"new"}}"#);
    let plan = |bridge: Option<Option<BridgedRoom>>| appservice::plan_edit(&known, &bridge, &edit);
    assert!(matches!(appservice::plan_edit(&None, &None, &edit), Ok(EditStep::Ignore)));
    assert!(matches!(plan(None), Ok(EditStep::AskBridge)));
    assert_eq!(plan(Some(None)).err().unwrap().message(), "Not found");
    assert!(matches!(plan(Some(Some(closed()))), Ok(EditStep::Ignore)));
    match plan(Some(Some(room()))) {
        Ok(EditStep::Edit { channel_id, message_id, text }) => {
            assert_eq!((channel_id.as_str(), message_id.as_str()), ("77", "5"));
            assert_eq!(text.body, "new");
        }
        _ => panic!("an edit"),
    }
    assert!(appservice::plan_edit(&known, &None, &json("{}")).is_err());
}

#[test]
fn reactions_find_their_message() {
    let content = json(r#"{"m.relates_to":{"event_id":"$e","key":"k"}}"#);
    let plan = |message: Option<Option<&str>>, bridge: Option<Option<BridgedRoom>>| {
        let message = message.map(|m| m.map(String::from));
        appservice::plan_reaction("@a:x", &content, &message, &bridge)
    };
    match plan(None, None) {
        Ok(ReactionStep::AskMessage(event)) => assert_eq!(event, "$e"),
        _ => panic!("no message yet"),
    }
    assert!(matches!(plan(Some(None), None), Ok(ReactionStep::Ignore)));
    assert!(matches!(plan(Some(Some("5")), None), Ok(ReactionStep::AskBridge)));
    assert_eq!(plan(Some(Some("5")), Some(None)).err().unwrap().message(), "Not found");
    assert!(matches!(plan(Some(Some("5")), Some(Some(closed()))), Ok(ReactionStep::Ignore)));
    match plan(Some(Some("5")), Some(Some(room()))) {
        Ok(ReactionStep::React { channel_id, message_id, key }) => {
            assert_eq!((channel_id, message_id, key), ("77".into(), "5".into(), "k".into()));
        }
        _ => panic!("a reaction"),
    }
    let puppet = appservice::plan_reaction("@_discord_1:x", &content, &None, &None);
    assert!(matches!(puppet, Ok(ReactionStep::Ignore)));
    let mut cache = Cache::new();
    appservice::settle_reaction(&mut cache, "5", "@a:x", "k", "$e", false);
    assert!(cache.m_messages.get("5:@a:x:k").is_none());
    appservice::settle_reaction(&mut cache, "5", "@a:x", "k", "$e", true);
    assert_eq!(cache.m_messages.get("5:@a:x:k").as_deref(), Some("$e"));
}

#[test]
fn typing_is_shown_where_the_room_shows_it() {
    let config = Config::default();
    let content = json(r#"{"user_ids":["@a:x","@_discord_1:x"]}"#);
    let plan = |bridge: Option<Option<BridgedRoom>>| {
        appservice::plan_typing(&config, &content, &bridge)
    };
    assert!(appservice::plan_typing(&config, &json("{}"), &None).is_err());
    assert!(matches!(plan(None), Ok(TypingStep::AskBridge)));
    assert!(matches!(plan(Some(None)), Ok(TypingStep::Ignore)));
    assert!(matches!(plan(Some(Some(closed()))), Ok(TypingStep::Ignore)));
    match plan(Some(Some(room()))) {
        Ok(TypingStep::Show(channel, notices)) => assert_eq!((channel.as_str(), notices), ("77", 1)),
        _ => panic!("typing is shown"),
    }
}

#[test]
fn a_redaction_is_settled_where_the_message_was_deleted() {
    let case = redaction(Some("5"), Some(room()), Some("@a:x"));
    let mut cache = Cache::new();
    cache.insert_message_mapping("$e".to_string(), "5".to_string());
    case.settle(&mut cache, "$e", false);
    assert_eq!(cache.m_messages.get("$e").as_deref(), Some("5"));
    case.settle(&mut cache, "$e", true);
    assert!(cache.m_messages.get("$e").is_none() && cache.d_messages.get("5").is_none());
}

#[test]
fn remembered_members_are_not_asked_for() {
    let service = AppService::new(MatrixClient::new(Config::default()));
    let mut members = TextMap::new();
    members.insert("@a:x".to_string(), MatrixUser { avatar_url: None, display_name: None });
    match service.members_found("!r:x", Some(members)) {
        MembersSource::Remembered(members) => assert_eq!(members.len(), 1),
        MembersSource::Ask(_) => panic!("asked again"),
    }
    match service.members_found("!r:x", None) {
        MembersSource::Ask(request) => {
            assert_eq!(request.path, "/rooms/%21r%3Ax/joined_members");
        }
        MembersSource::Remembered(_) => panic!("nothing was remembered"),
    }
}

//! What comes from Matrix: transactions of the homeserver, their events, and requests for avatars.

use vstd::prelude::*;
use vstd::string::*;
use vstd::utf8::*;

use crate::avatar;
use crate::avatar::AvatarVerdict;
use crate::cache;
use crate::cache::{Cache, MatrixUser, MatrixUserView, TextCache};
use crate::config;
use crate::config::{Config, ConfigView};
use crate::db::BridgedRoom;
use crate::discord_api::WebhookPost;
use crate::error::{BridgeError, BridgeErrorView};
use crate::http;
use crate::http::{HttpReply, ReplyView};
use crate::json;
use crate::json::{Json, JsonView};
use crate::matrix_client;
use crate::matrix_client::{MatrixClient, MatrixRequest};
use crate::number;
use crate::pattern;
use crate::pattern::{Match, MatchView, Pattern};
use crate::table::{Duplicate, TextMap};
use crate::text;
use crate::text::Trim;
use crate::utils;
use crate::web;

verus! {

/// How many bytes a Discord message may have.
pub const DISCORD_MESSAGE_LIMIT: usize = 2_000;

/// How many bytes the body of a request may have.
pub const MAX_BODY_SIZE: usize = 20_971_520;

/// Which part of the bridge answers a request.
#[derive(Clone, Copy, PartialEq, Eq, Structural, Debug)]
pub enum Route {
    Transaction,
    Avatar,
    Nothing,
}

/// Which part of the bridge answers a request.
pub fn route_request(method: &str, path: &str) -> (route: Route)
    ensures
        route == Route::Transaction <==> method@ == "PUT"@ && "/_matrix/app/v1/transactions/"@
            .is_prefix_of(path@),
        route == Route::Avatar <==> method@ == "GET"@ && "/avatar/"@.is_prefix_of(path@),
{
    proof {
        reveal_strlit("PUT");
        reveal_strlit("GET");
        assert("PUT"@[0] != "GET"@[0]);
    }
    if text::same(method, "PUT") && text::starts_with(path, "/_matrix/app/v1/transactions/") {
        Route::Transaction
    } else if text::same(method, "GET") && text::starts_with(path, "/avatar/") {
        Route::Avatar
    } else {
        Route::Nothing
    }
}

/// The reply to a request that no part of the bridge answers.
pub fn unknown_route() -> (reply: HttpReply)
    ensures
        reply@ == http::plain_reply(404, "{}"@),
{
    HttpReply::plain(404, "{}")
}

/// Whether a request proves that the homeserver made it: the token stands in its query or in its
/// header.
pub open spec fn is_authorized(
    config: ConfigView,
    query: Option<Seq<char>>,
    header: Option<Seq<char>>,
) -> bool {
    ||| http::query_value(query, "access_token="@) == Some(config.hs_token)
    ||| header == Some("Bearer "@ + config.hs_token)
}

/// Whether a text is the homeserver's token. The comparison takes the same time whatever the text
/// holds.
fn is_token(config: &Config, s: &str) -> (res: bool)
    ensures
        res == (s@ == config@.hs_token),
{
    proof {
        encode_utf8_decode_utf8(s@);
        encode_utf8_decode_utf8(config.hs_token@);
    }
    constant_time_eq::constant_time_eq(s.as_bytes(), config.hs_token.as_str().as_bytes())
}

/// Whether a request proves that the homeserver made it.
pub fn check_authorization(config: &Config, query: Option<&str>, header: Option<&str>) -> (res: bool)
    ensures
        res == is_authorized(config@, utils::opt_str(query), utils::opt_str(header)),
{
    let in_query = match http::query_parameter(query, "access_token=") {
        Some(token) => is_token(config, token.as_str()),
        None => false,
    };
    let in_header = match header {
        Some(h) => match text::strip_prefix(h, "Bearer ") {
            Some(token) => {
                proof {
                    let prefix = "Bearer "@;
                    assert(h@ =~= prefix + h@.skip(prefix.len() as int)) by {
                        assert(h@.subrange(0, prefix.len() as int) == prefix);
                    }
                    assert((prefix + config@.hs_token).skip(prefix.len() as int)
                        =~= config@.hs_token);
                }
                is_token(config, token.as_str())
            },
            None => {
                proof {
                    let prefix = "Bearer "@;
                    let full = prefix + config@.hs_token;
                    assert(prefix.is_prefix_of(full)) by {
                        assert(full.subrange(0, prefix.len() as int) =~= prefix);
                    }
                }
                false
            },
        },
        None => false,
    };
    in_query || in_header
}

/// The reply to a request that does not prove where it comes from.
pub fn forbidden() -> (reply: HttpReply)
    ensures
        reply@ == forbidden_reply(),
{
    HttpReply::json(403, Json::object().with_text("errcode", "APPSERVICE_FORBIDDEN"))
}

/// The reply to a request that does not prove where it comes from, over texts.
pub open spec fn forbidden_reply() -> ReplyView {
    http::json_reply(
        403,
        JsonView::object().with("errcode"@, JsonView::Text("APPSERVICE_FORBIDDEN"@)),
    )
}

/// The reply with which a request is refused, where it does not prove that the homeserver made it.
pub fn refuse_strangers(config: &Config, query: Option<&str>, header: Option<&str>) -> (refusal:
    Option<HttpReply>)
    ensures
        refusal is None <==> is_authorized(
            config@,
            utils::opt_str(query),
            utils::opt_str(header),
        ),
        refusal matches Some(reply) ==> reply@ == forbidden_reply(),
{
    if check_authorization(config, query, header) {
        None
    } else {
        Some(forbidden())
    }
}

/// What is wrong with a body that could not be read.
pub fn unreadable_body(reason: &str) -> (error: BridgeError)
    ensures
        error@ == BridgeErrorView::Matrix("Body too large or read error: "@ + reason@),
{
    BridgeError::Matrix("Body too large or read error: ".to_owned().concat(reason))
}

/// What is done with a transaction.
pub enum TransactionOutcome {
    /// The request is refused with this reply.
    Refuse(HttpReply),
    /// The body of the request is to be read.
    ReadBody,
    /// The events are taken, and this is the reply.
    Accept(Vec<Json>, HttpReply),
}

/// What is done with a transaction, over texts.
pub enum TransactionView {
    Refuse(ReplyView),
    ReadBody,
    Accept(Seq<JsonView>, ReplyView),
}

impl View for TransactionOutcome {
    type V = TransactionView;

    open spec fn view(&self) -> TransactionView {
        match self {
            TransactionOutcome::Refuse(reply) => TransactionView::Refuse(reply@),
            TransactionOutcome::ReadBody => TransactionView::ReadBody,
            TransactionOutcome::Accept(events, reply) => TransactionView::Accept(
                json::list_of(events@),
                reply@,
            ),
        }
    }
}

/// What is done with the body of an authorized request: all its events are taken, in order, where it
/// has a list of them.
pub open spec fn events_taken(body: JsonView) -> TransactionView {
    match body.at("events"@).as_array() {
        Some(events) => TransactionView::Accept(events, http::plain_reply(200, "{}"@)),
        None => TransactionView::Refuse(
            http::json_reply(
                400,
                JsonView::object().with("errcode"@, JsonView::Text("M_BAD_JSON"@)).with(
                    "error"@,
                    JsonView::Text("Missing or invalid 'events' array"@),
                ),
            ),
        ),
    }
}

/// What is done with a transaction, given its body, where that was read: a request that does not
/// prove that the homeserver made it is refused, and none of its events is taken.
pub open spec fn transaction(
    config: ConfigView,
    query: Option<Seq<char>>,
    header: Option<Seq<char>>,
    body: Option<JsonView>,
) -> TransactionView {
    if !is_authorized(config, query, header) {
        TransactionView::Refuse(forbidden_reply())
    } else {
        match body {
            None => TransactionView::ReadBody,
            Some(b) => events_taken(b),
        }
    }
}

/// Decides what is done with a transaction, given its body, where that was read.
pub fn handle_transaction(
    config: &Config,
    query: Option<&str>,
    header: Option<&str>,
    body: &Option<Json>,
) -> (res: TransactionOutcome)
    ensures
        res@ == transaction(
            config@,
            utils::opt_str(query),
            utils::opt_str(header),
            matrix_client::opt_json(*body),
        ),
{
    match refuse_strangers(config, query, header) {
        Some(reply) => TransactionOutcome::Refuse(reply),
        None => match body {
            None => TransactionOutcome::ReadBody,
            Some(b) => take_events(b),
        },
    }
}

/// Takes the events of a transaction.
pub fn take_events(body: &Json) -> (res: TransactionOutcome)
    ensures
        res@ == events_taken(body@),
{
    match body.array_at("events") {
        Some(events) => {
            let mut copies: Vec<Json> = Vec::new();
            let count: usize = events.len();
            let mut i: usize = 0;
            assert(events@.take(0) =~= Seq::<Json>::empty());
            while i < count
                invariant
                    count == events@.len(),
                    i <= count,
                    json::list_of(copies@) == json::list_of(events@.take(i as int)),
                decreases count - i,
            {
                proof {
                    assert(events@.take(i + 1).drop_last() =~= events@.take(i as int));
                }
                let ghost before = copies@;
                copies.push(events[i].copy());
                assert(copies@.drop_last() =~= before);
                i += 1;
            }
            assert(events@.take(count as int) =~= events@);
            TransactionOutcome::Accept(copies, HttpReply::plain(200, "{}"))
        },
        None => TransactionOutcome::Refuse(
            HttpReply::json(
                400,
                Json::object().with_text("errcode", "M_BAD_JSON").with_text(
                    "error",
                    "Missing or invalid 'events' array",
                ),
            ),
        ),
    }
}

/// The kinds of events that the bridge handles.
#[derive(Clone, Copy, PartialEq, Eq, Structural, Debug)]
pub enum EventKind {
    Member,
    Message,
    Sticker,
    Redaction,
    Reaction,
    Typing,
    Emotes,
    Other,
}

/// The kind of an event of the given type.
pub open spec fn kind_of(event_type: Seq<char>) -> EventKind {
    if event_type == "m.room.member"@ {
        EventKind::Member
    } else if event_type == "m.room.message"@ {
        EventKind::Message
    } else if event_type == "m.sticker"@ {
        EventKind::Sticker
    } else if event_type == "m.room.redaction"@ {
        EventKind::Redaction
    } else if event_type == "m.reaction"@ {
        EventKind::Reaction
    } else if event_type == "m.typing"@ {
        EventKind::Typing
    } else if event_type == "im.ponies.emote_rooms"@ || event_type == "im.ponies.room_emotes"@ {
        EventKind::Emotes
    } else {
        EventKind::Other
    }
}

/// The kind of an event.
pub fn handle_event(event: &Json) -> (kind: EventKind)
    ensures
        kind == kind_of(event@.at("type"@).text_or(""@)),
{
    let event_type = event.text_at_or("type", "");
    let t = event_type.as_str();
    if text::same(t, "m.room.member") {
        EventKind::Member
    } else if text::same(t, "m.room.message") {
        EventKind::Message
    } else if text::same(t, "m.sticker") {
        EventKind::Sticker
    } else if text::same(t, "m.room.redaction") {
        EventKind::Redaction
    } else if text::same(t, "m.reaction") {
        EventKind::Reaction
    } else if text::same(t, "m.typing") {
        EventKind::Typing
    } else if text::same(t, "im.ponies.emote_rooms") || text::same(t, "im.ponies.room_emotes") {
        EventKind::Emotes
    } else {
        EventKind::Other
    }
}

/// The fields that events of a room have.
pub struct RoomEvent {
    pub room_id: String,
    pub sender: String,
    pub event_id: String,
    pub content: Json,
}

/// Reads the fields of an event, where all of them are there.
pub fn read_room_event(event: &Json) -> (res: Option<RoomEvent>)
    ensures
        res is Some <==> event@.at("room_id"@) is Text && event@.at("sender"@) is Text && event@.at(
            "event_id"@,
        ) is Text,
        res matches Some(e) ==> {
            &&& event@.at("room_id"@) == JsonView::Text(e.room_id@)
            &&& event@.at("sender"@) == JsonView::Text(e.sender@)
            &&& event@.at("event_id"@) == JsonView::Text(e.event_id@)
            &&& e.content@ == event@.at("content"@)
        },
{
    match (event.text_at("room_id"), event.text_at("sender"), event.text_at("event_id")) {
        (Some(room_id), Some(sender), Some(event_id)) => Some(
            RoomEvent { room_id, sender, event_id, content: content_of(event) },
        ),
        _ => None,
    }
}

/// The content of an event, null where there is none.
pub fn content_of(event: &Json) -> (content: Json)
    ensures
        content@ == event@.at("content"@),
{
    match event.get("content") {
        Some(content) => content.copy(),
        None => Json::Null,
    }
}

/// A change of who is in a room.
pub struct MemberEvent {
    pub room_id: String,
    pub sender: String,
    /// Whom the change is about.
    pub state_key: String,
    pub membership: String,
    /// The name of the room, as an invitation gives it.
    pub room_name: Option<String>,
}

/// The name that the state events of an invitation give: what the last of them that is about the
/// name says.
pub open spec fn stated_name(states: Seq<JsonView>) -> Option<Seq<char>>
    decreases states.len(),
{
    if states.len() == 0 {
        None
    } else if states.last().at("type"@).as_text() == Some("m.room.name"@) {
        states.last().at("content"@).at("name"@).as_text()
    } else {
        stated_name(states.drop_last())
    }
}

/// The name of the room that an invitation gives.
pub open spec fn invited_name(event: JsonView) -> Option<Seq<char>> {
    match event.at("unsigned"@).at("invite_room_state"@).as_array() {
        Some(states) => stated_name(states),
        None => None,
    }
}

/// Finds the name of the room that an invitation gives.
fn find_invited_name(event: &Json) -> (name: Option<String>)
    ensures
        web::opt_text(name) == invited_name(event@),
{
    let unsigned = match event.get("unsigned") {
        Some(value) => value,
        None => {
            return None;
        },
    };
    let states = match unsigned.array_at("invite_room_state") {
        Some(states) => states,
        None => {
            return None;
        },
    };
    let ghost views = json::list_of(states@);
    proof {
        json::lemma_list(states@);
    }
    let mut i: usize = states.len();
    assert(views.take(i as int) =~= views);
    while i > 0
        invariant
            i <= states@.len(),
            views == json::list_of(states@),
            views.len() == states@.len(),
            forall|j: int| 0 <= j < states@.len() ==> #[trigger] views[j] == states@[j]@,
            stated_name(views.take(i as int)) == stated_name(views),
            invited_name(event@) == stated_name(views),
        decreases i,
    {
        proof {
            assert(views[i - 1] == states@[i - 1]@);
            assert(views.take(i as int).last() == views[i - 1]);
            assert(views.take(i as int).drop_last() =~= views.take(i - 1));
        }
        i -= 1;
        if states[i].text_at_is("type", "m.room.name") {
            return match states[i].get("content") {
                Some(content) => content.text_at("name"),
                None => None,
            };
        }
    }
    None
}

/// Reads a change of who is in a room, where all its fields are there.
pub fn read_member_event(event: &Json) -> (res: Option<MemberEvent>)
    ensures
        res is Some <==> event@.at("room_id"@) is Text && event@.at("sender"@) is Text && event@.at(
            "state_key"@,
        ) is Text,
        res matches Some(e) ==> {
            &&& event@.at("room_id"@) == JsonView::Text(e.room_id@)
            &&& event@.at("sender"@) == JsonView::Text(e.sender@)
            &&& event@.at("state_key"@) == JsonView::Text(e.state_key@)
            &&& e.membership@ == event@.at("content"@).at("membership"@).text_or(""@)
            &&& web::opt_text(e.room_name) == invited_name(event@)
        },
{
    match (event.text_at("room_id"), event.text_at("sender"), event.text_at("state_key")) {
        (Some(room_id), Some(sender), Some(state_key)) => {
            let membership = content_of(event).text_at_or("membership", "");
            let room_name = find_invited_name(event);
            Some(MemberEvent { room_id, sender, state_key, membership, room_name })
        },
        _ => None,
    }
}

/// What is done about a change of who is in a room.
pub enum MemberAction {
    Nothing,
    /// The invitation is kept for the administrators, and they are told of it in their room.
    KeepInvite { notice: Option<(String, String)> },
    /// The invitation is forgotten.
    ForgetInvite,
}

/// What the administrators are told of an invitation.
pub open spec fn invite_notice(room: Seq<char>, sender: Seq<char>) -> Seq<char> {
    "Received new invite to `"@ + room + "` from `"@ + sender
        + "`. Use `!invite list` to manage."@
}

/// Handles a change of who is in a room: the members that are remembered of the room are forgotten.
/// Where the change is about the bridge itself, an invitation is kept, and forgotten when the bridge
/// leaves or is banned. Administrators are told, unless it is their own room.
pub fn handle_member_event(cache: &mut Cache, config: &Config, event: &MemberEvent) -> (action:
    MemberAction)
    ensures
        final(cache).m_members@ == old(cache).m_members@.remove(event.room_id@),
        *final(cache) == (Cache { m_members: final(cache).m_members, ..*old(cache) }),
        action is KeepInvite <==> event.state_key@ == config@.bot_user() && event.membership@
            == "invite"@,
        action is ForgetInvite <==> event.state_key@ == config@.bot_user() && (event.membership@
            == "leave"@ || event.membership@ == "ban"@),
        action matches MemberAction::KeepInvite { notice } ==> match notice {
            Some(n) => config@.config_room_id == Some(n.0@) && n.0@ != event.room_id@ && n.1@
                == invite_notice(event.room_id@, event.sender@),
            None => config@.config_room_id is None || config@.config_room_id == Some(
                event.room_id@,
            ),
        },
{
    proof {
        reveal_strlit("invite");
        reveal_strlit("leave");
        reveal_strlit("ban");
        assert("invite"@.len() != "leave"@.len() && "invite"@.len() != "ban"@.len());
    }
    cache.m_members.invalidate(event.room_id.as_str());
    if !text::same(event.state_key.as_str(), config.full_user_id().as_str()) {
        return MemberAction::Nothing;
    }
    if text::same(event.membership.as_str(), "invite") {
        let notice = match &config.config_room_id {
            Some(room) => if text::same(room.as_str(), event.room_id.as_str()) {
                None
            } else {
                let sentence = "Received new invite to `".to_owned().concat(
                    event.room_id.as_str(),
                ).concat("` from `").concat(event.sender.as_str()).concat(
                    "`. Use `!invite list` to manage.",
                );
                Some((room.clone(), sentence))
            },
            None => None,
        };
        MemberAction::KeepInvite { notice }
    } else if text::same(event.membership.as_str(), "leave") || text::same(
        event.membership.as_str(),
        "ban",
    ) {
        MemberAction::ForgetInvite
    } else {
        MemberAction::Nothing
    }
}

/// What is done with a message.
pub enum MessageRoute {
    /// It is the bridge's own and left alone.
    Ignore,
    /// It is a command to the bridge.
    Command(String),
    /// It replaces an earlier message.
    Edit(String),
    /// It goes to Discord, as a message of this kind.
    Forward(String),
}

/// What is done with a message, over texts.
pub enum MessageRouteView {
    Ignore,
    Command(Seq<char>),
    Edit(Seq<char>),
    Forward(Seq<char>),
}

impl View for MessageRoute {
    type V = MessageRouteView;

    open spec fn view(&self) -> MessageRouteView {
        match self {
            MessageRoute::Ignore => MessageRouteView::Ignore,
            MessageRoute::Command(body) => MessageRouteView::Command(body@),
            MessageRoute::Edit(original) => MessageRouteView::Edit(original@),
            MessageRoute::Forward(kind) => MessageRouteView::Forward(kind@),
        }
    }
}

/// What is done with a message of `sender`.
pub open spec fn message_route(
    config: ConfigView,
    sender: Seq<char>,
    content: JsonView,
) -> MessageRouteView {
    let kind = content.at("msgtype"@).text_or("m.text"@);
    let body = content.at("body"@).text_or(""@);
    let relation = content.at("m.relates_to"@);
    if config::is_bridge_user(config, sender) {
        MessageRouteView::Ignore
    } else if kind == "m.text"@ && "!"@.is_prefix_of(body) {
        MessageRouteView::Command(body)
    } else if relation.at("rel_type"@).as_text() == Some("m.replace"@) {
        MessageRouteView::Edit(relation.at("event_id"@).text_or(""@))
    } else {
        MessageRouteView::Forward(kind)
    }
}

/// Decides what is done with a message.
pub fn handle_message_event(config: &Config, sender: &str, content: &Json) -> (route: MessageRoute)
    ensures
        route@ == message_route(config@, sender@, content@),
{
    if config::is_own_user(config, sender) {
        return MessageRoute::Ignore;
    }
    let kind = content.text_at_or("msgtype", "m.text");
    if text::same(kind.as_str(), "m.text") {
        let body = content.text_at_or("body", "");
        if text::starts_with(body.as_str(), "!") {
            return MessageRoute::Command(body);
        }
    }
    match content.get("m.relates_to") {
        Some(relation) => {
            if relation.text_at_is("rel_type", "m.replace") {
                return MessageRoute::Edit(relation.text_at_or("event_id", ""));
            }
        },
        None => {},
    }
    MessageRoute::Forward(kind)
}

/// The channel to which a room's messages go, where the room is bridged and messages go that way.
pub open spec fn channel_of(bridge: Option<BridgedRoom>) -> Option<Seq<char>> {
    match bridge {
        Some(b) => if b.m2d_enabled {
            Some(b.channel_id@)
        } else {
            None
        },
        None => None,
    }
}

/// The channel to which a room's messages go, where the room is bridged and messages go that way.
pub fn discord_channel(bridge: &Option<BridgedRoom>) -> (channel: Option<String>)
    ensures
        web::opt_text(channel) == channel_of(*bridge),
{
    match bridge {
        Some(b) => if b.m2d_enabled {
            Some(b.channel_id.clone())
        } else {
            None
        },
        None => None,
    }
}

/// As [`discord_channel`], but it is an error if the room is not bridged.
pub fn required_channel(bridge: &Option<BridgedRoom>) -> (res: Result<Option<String>, BridgeError>)
    ensures
        match *bridge {
            None => res matches Err(e) && e@ == BridgeErrorView::NotFound,
            Some(_) => res matches Ok(channel) && web::opt_text(channel) == channel_of(*bridge),
        },
{
    match bridge {
        None => Err(BridgeError::NotFound),
        Some(_) => Ok(discord_channel(bridge)),
    }
}

/// How a message of some kind goes to Discord.
#[derive(Clone, Copy, PartialEq, Eq, Structural, Debug)]
pub enum ForwardAs {
    Text,
    File,
    Nothing,
}

/// How a message of some kind goes to Discord.
pub open spec fn forwarded_as(msgtype: Seq<char>) -> ForwardAs {
    if msgtype == "m.text"@ || msgtype == "m.notice"@ || msgtype == "m.emote"@ {
        ForwardAs::Text
    } else if msgtype == "m.image"@ || msgtype == "m.file"@ || msgtype == "m.video"@ || msgtype
        == "m.audio"@ {
        ForwardAs::File
    } else {
        ForwardAs::Nothing
    }
}

/// How a message of some kind goes to Discord.
pub fn forward_message_to_discord(msgtype: &str) -> (res: ForwardAs)
    ensures
        res == forwarded_as(msgtype@),
{
    if text::same(msgtype, "m.text") || text::same(msgtype, "m.notice") || text::same(
        msgtype,
        "m.emote",
    ) {
        ForwardAs::Text
    } else if text::same(msgtype, "m.image") || text::same(msgtype, "m.file") || text::same(
        msgtype,
        "m.video",
    ) || text::same(msgtype, "m.audio") {
        ForwardAs::File
    } else {
        ForwardAs::Nothing
    }
}

/// The text with Discord mentions in place of the puppets that were found.
pub open spec fn with_mentions(body: Seq<char>, found: Seq<MatchView>) -> Seq<char>
    decreases found.len(),
{
    if found.len() == 0 {
        body
    } else {
        text::replaced(
            with_mentions(body, found.drop_last()),
            found.last().groups[0],
            "<@"@ + found.last().groups[1] + ">"@,
        )
    }
}

/// Puts Discord mentions in place of the puppets that were found.
pub fn mention_users(body: &str, found: &Vec<Match>) -> (res: String)
    requires
        forall|i: int|
            0 <= i < found@.len() ==> (#[trigger] pattern::match_views(found@)[i]).groups.len() >= 2
                && pattern::match_views(found@)[i].groups[0].len() > 0,
    ensures
        res@ == with_mentions(body@, pattern::match_views(found@)),
{
    let mut res = body.to_owned();
    let count: usize = found.len();
    let ghost views = pattern::match_views(found@);
    let mut i: usize = 0;
    assert(views.take(0) =~= Seq::<MatchView>::empty());
    while i < count
        invariant
            count == found@.len(),
            views == pattern::match_views(found@),
            forall|j: int|
                0 <= j < count ==> (#[trigger] views[j]).groups.len() >= 2
                    && views[j].groups[0].len() > 0,
            i <= count,
            res@ == with_mentions(body@, views.take(i as int)),
        decreases count - i,
    {
        proof {
            assert(views[i as int] == found@[i as int]@);
            assert(views[i as int].groups.len() >= 2);
            assert(views.take(i + 1).drop_last() =~= views.take(i as int));
            assert(views.take(i + 1).last() == views[i as int]);
            assert(found@[i as int].groups@[0]@ == views[i as int].groups[0]);
            assert(found@[i as int].groups@[1]@ == views[i as int].groups[1]);
        }
        let mention = "<@".to_owned().concat(found[i].groups[1].as_str()).concat(">");
        res = text::replace(res.as_str(), found[i].groups[0].as_str(), mention.as_str());
        i += 1;
    }
    assert(views.take(count as int) =~= views);
    res
}

/// What stands in place of emotes: the Discord emote where one was found, or else what was there.
pub open spec fn emote_texts(found: Seq<MatchView>, known: Seq<Option<String>>) -> Seq<Seq<char>> {
    Seq::new(
        found.len(),
        |i: int|
            match known[i] {
                Some(emote) => emote@,
                None => found[i].groups[0],
            },
    )
}

/// Puts Discord emotes in place of those that were found, given which of them Discord has.
pub fn show_emotes(s: &str, found: &Vec<Match>, known: &Vec<Option<String>>) -> (res: String)
    requires
        pattern::well_placed(pattern::match_views(found@), s@, 1),
        known@.len() == found@.len(),
    ensures
        res@ == pattern::spliced(
            s@,
            pattern::match_views(found@),
            emote_texts(pattern::match_views(found@), known@),
            0,
        ),
{
    let count: usize = found.len();
    let ghost views = pattern::match_views(found@);
    let mut shown: Vec<String> = Vec::new();
    let mut i: usize = 0;
    while i < count
        invariant
            count == found@.len(),
            count == known@.len(),
            views == pattern::match_views(found@),
            pattern::well_placed(views, s@, 1),
            i <= count,
            shown@.len() == i,
            forall|j: int|
                0 <= j < i ==> (#[trigger] shown@[j])@ == emote_texts(views, known@)[j],
        decreases count - i,
    {
        proof {
            assert(views[i as int] == found@[i as int]@);
            assert(views[i as int].groups.len() == 2);
            assert(found@[i as int].groups@[0]@ == views[i as int].groups[0]);
        }
        match &known[i] {
            Some(emote) => {
                shown.push(emote.clone());
            },
            None => {
                shown.push(found[i].groups[0].clone());
            },
        }
        i += 1;
    }
    assert(text::texts(shown@) =~= emote_texts(views, known@));
    pattern::splice(s, found, &shown)
}

/// A text within the limit of a Discord message: as it is, or cut with an ellipsis behind it. There
/// is none where the limit falls into a character.
pub open spec fn within_limit(s: Seq<char>) -> Option<Seq<char>> {
    let kept = s.take(utils::fitting(s, DISCORD_MESSAGE_LIMIT as int));
    if number::utf8_len(s) <= DISCORD_MESSAGE_LIMIT {
        Some(s)
    } else if number::utf8_len(kept) == DISCORD_MESSAGE_LIMIT {
        Some(kept.push('…'))
    } else {
        None
    }
}

/// Keeps a text within the limit of a Discord message, where the limit does not fall into a
/// character.
pub fn limit_text(s: String) -> (res: Option<String>)
    ensures
        web::opt_text(res) == within_limit(s@),
{
    if number::byte_len(s.as_str()) <= DISCORD_MESSAGE_LIMIT {
        return Some(s);
    }
    let chars = text::chars_of(s.as_str());
    let n: usize = utils::count_fitting(&chars, 0, DISCORD_MESSAGE_LIMIT);
    assert(chars@.skip(0) =~= s@);
    let mut kept = text::string_of(&chars, 0, n);
    assert(kept@ =~= s@.take(n as int));
    if number::byte_len(kept.as_str()) == DISCORD_MESSAGE_LIMIT {
        kept.push('…');
        Some(kept)
    } else {
        None
    }
}

/// A Matrix text as Discord shows it, given which of its emotes Discord has: puppets become
/// mentions, and shortcodes become emotes.
pub open spec fn discord_text(
    body: Seq<char>,
    html: Option<Seq<char>>,
    known: Seq<Option<String>>,
) -> Option<Seq<char>> {
    let searched = match html {
        Some(h) => h,
        None => body,
    };
    let mentioned = with_mentions(body, pattern::matches_of(Pattern::PuppetMention, searched));
    let found = pattern::matches_of(Pattern::Emote, mentioned);
    within_limit(pattern::spliced(mentioned, found, emote_texts(found, known), 0))
}

/// Where a Matrix text names emotes, once mentions stand in it.
pub open spec fn emote_places(body: Seq<char>, html: Option<Seq<char>>) -> Seq<MatchView> {
    let searched = match html {
        Some(h) => h,
        None => body,
    };
    pattern::matches_of(
        Pattern::Emote,
        with_mentions(body, pattern::matches_of(Pattern::PuppetMention, searched)),
    )
}

/// Whether `known` is what looking up the emotes that were found among those remembered gives: for
/// each of them the answer of the cache for its name, whatever its place.
pub open spec fn are_lookups(
    emotes: TextCache,
    found: Seq<MatchView>,
    known: Seq<Option<String>>,
) -> bool {
    &&& known.len() == found.len()
    &&& forall|i: int|
        0 <= i < known.len() ==> emotes.answers(
            found[i].groups[1],
            web::opt_text(#[trigger] known[i]),
        )
    &&& forall|i: int|
        0 <= i < known.len() ==> ((#[trigger] known[i]) matches Some(emote)
            ==> emotes@.contains_key(found[i].groups[1]) && emote@ == emotes@[found[i].groups[1]])
}

/// Turns a Matrix text into what Discord shows. There is no result where the limit of a Discord
/// message falls into a character.
pub fn to_discord_text(cache: &Cache, body: &str, formatted_body: Option<&str>) -> (res: Option<
    String,
>)
    ensures
        exists|known: Seq<Option<String>>|
            are_lookups(
                cache.d_emotes,
                emote_places(body@, utils::opt_str(formatted_body)),
                known,
            ) && web::opt_text(res) == #[trigger] discord_text(
                body@,
                utils::opt_str(formatted_body),
                known,
            ),
{
    let searched = match formatted_body {
        Some(html) => html,
        None => body,
    };
    let puppets = pattern::find_all(Pattern::PuppetMention, searched);
    proof {
        let views = pattern::match_views(puppets@);
        assert forall|i: int| 0 <= i < views.len() implies (#[trigger] views[i]).groups.len() >= 2
            && views[i].groups[0].len() > 0 by {
            assert(views[i].groups[0] == searched@.subrange(views[i].start, views[i].end));
        }
    }
    let mentioned = mention_users(body, &puppets);
    let found = pattern::find_all(Pattern::Emote, mentioned.as_str());
    let count: usize = found.len();
    let ghost views = pattern::match_views(found@);
    let mut known: Vec<Option<String>> = Vec::new();
    let mut i: usize = 0;
    while i < count
        invariant
            count == found@.len(),
            views == pattern::match_views(found@),
            pattern::well_placed(views, mentioned@, 1),
            i <= count,
            known@.len() == i,
            forall|j: int|
                0 <= j < i ==> cache.d_emotes.answers(
                    views[j].groups[1],
                    web::opt_text(#[trigger] known@[j]),
                ),
            forall|j: int|
                0 <= j < i ==> ((#[trigger] known@[j]) matches Some(emote)
                    ==> cache.d_emotes@.contains_key(views[j].groups[1]) && emote@
                    == cache.d_emotes@[views[j].groups[1]]),
        decreases count - i,
    {
        proof {
            assert(views[i as int] == found@[i as int]@);
            assert(views[i as int].groups.len() == 2);
            assert(found@[i as int].groups@[1]@ == views[i as int].groups[1]);
        }
        known.push(cache.d_emotes.get(found[i].groups[1].as_str()));
        i += 1;
    }
    let shown = show_emotes(mentioned.as_str(), &found, &known);
    let res = limit_text(shown);
    proof {
        assert(are_lookups(
            cache.d_emotes,
            emote_places(body@, utils::opt_str(formatted_body)),
            known@,
        ));
        assert(web::opt_text(res) == discord_text(body@, utils::opt_str(formatted_body), known@));
    }
    res
}

/// What is known of a member, where there is one.
pub open spec fn member_of(
    members: Map<Seq<char>, MatrixUserView>,
    user: Seq<char>,
) -> Option<MatrixUserView> {
    if members.contains_key(user) {
        Some(members[user])
    } else {
        None
    }
}

/// The name under which a Matrix user writes on Discord: the one that the room shows, or else the
/// part of the identifier before the first colon.
pub open spec fn sender_name(member: Option<MatrixUserView>, sender: Seq<char>) -> Seq<char> {
    let plain = text::split_text(sender, seq![':'])[0];
    match member {
        Some(m) => match m.display_name {
            Some(name) => name,
            None => plain,
        },
        None => plain,
    }
}

/// The avatar under which a Matrix user writes on Discord.
pub open spec fn sender_avatar(
    config: ConfigView,
    member: Option<MatrixUserView>,
    now: int,
) -> Option<Seq<char>> {
    match member {
        Some(m) => match m.avatar_url {
            Some(mxc) => avatar::avatar_link(config, mxc, now),
            None => None,
        },
        None => None,
    }
}

/// A message of a Matrix user for Discord, made at second `now`.
pub fn make_post(
    config: &Config,
    members: &TextMap<MatrixUser>,
    sender: &str,
    content: String,
    now: u64,
) -> (post: WebhookPost)
    requires
        now + avatar::LINK_LIFETIME <= u64::MAX,
    ensures
        post.content == content,
        post.username@ == sender_name(member_of(members@, sender@), sender@),
        web::opt_text(post.avatar_url) == sender_avatar(
            config@,
            member_of(members@, sender@),
            now as int,
        ),
{
    proof {
        reveal_strlit(":");
        assert(":"@ =~= seq![':']);
        text::lemma_split_not_empty(sender@, ":"@);
    }
    let parts = text::split(sender, ":");
    assert(text::texts(parts@).len() == parts@.len());
    assert(text::texts(parts@)[0] == parts@[0]@);
    let plain = parts[0].clone();
    match members.get(sender) {
        Some(member) => {
            let username = match &member.display_name {
                Some(name) => name.clone(),
                None => plain,
            };
            let avatar_url = match &member.avatar_url {
                Some(mxc) => avatar::make_link(config, mxc.as_str(), now),
                None => None,
            };
            WebhookPost { content, username, avatar_url }
        },
        None => WebhookPost { content, username: plain, avatar_url: None },
    }
}

/// A file of a Matrix message, as it goes to Discord.
pub struct MediaFile {
    pub download_url: String,
    pub content: String,
    pub filename: String,
}

/// What goes to Discord for a file: where it is fetched, the text with it, and its name.
pub open spec fn media_outcome(res: Result<MediaFile, BridgeError>) -> Result<
    (Seq<char>, Seq<char>, Seq<char>),
    BridgeErrorView,
> {
    match res {
        Ok(file) => Ok((file.download_url@, file.content@, file.filename@)),
        Err(e) => Err(e@),
    }
}

/// Whether a file is to be hidden until it is asked for.
pub open spec fn is_spoiler(content: JsonView, body: Seq<char>) -> bool {
    ||| "SPOILER_"@.is_prefix_of(body)
    ||| "spoiler_"@.is_prefix_of(body)
    ||| content.at("page.codeberg.everypizza.msc4193.spoiler"@).as_bool() == Some(true)
}

/// The name of a file on Discord, where files whose names begin with `SPOILER_` are hidden.
pub open spec fn media_name(content: JsonView) -> Seq<char> {
    let body = content.at("body"@).text_or("attachment"@);
    if is_spoiler(content, body) && !"SPOILER_"@.is_prefix_of(body) {
        "SPOILER_"@ + text::without_leading(body, "spoiler_"@)
    } else {
        body
    }
}

/// What goes to Discord for a message that carries a file.
pub open spec fn media_for(config: ConfigView, content: JsonView) -> Result<
    (Seq<char>, Seq<char>, Seq<char>),
    BridgeErrorView,
> {
    match content.at("url"@).as_text() {
        None => Err(BridgeErrorView::Matrix("Media message missing url field"@)),
        Some(url) => match matrix_client::download_url(config, url) {
            Ok(download) => Ok((download, Seq::empty(), media_name(content))),
            Err(e) => Err(e),
        },
    }
}

/// Decides what goes to Discord for a message that carries a file.
pub fn forward_media_to_discord(matrix: &MatrixClient, content: &Json) -> (res: Result<
    MediaFile,
    BridgeError,
>)
    ensures
        media_outcome(res) == media_for(matrix.config@, content@),
{
    let url = match content.text_at("url") {
        Some(url) => url,
        None => {
            return Err(BridgeError::matrix("Media message missing url field"));
        },
    };
    let body = content.text_at_or("body", "attachment");
    let is_marked = text::starts_with(body.as_str(), "SPOILER_");
    let spoiler = is_marked || text::starts_with(body.as_str(), "spoiler_") || content.is_true_at(
        "page.codeberg.everypizza.msc4193.spoiler",
    );
    let filename = if spoiler && !is_marked {
        "SPOILER_".to_owned().concat(text::trim_start_text(body.as_str(), "spoiler_").as_str())
    } else {
        body
    };
    match matrix.content_url(url.as_str()) {
        Ok(download_url) => Ok(MediaFile { download_url, content: String::new(), filename }),
        Err(e) => Err(e),
    }
}

/// The name of a sticker's file, by its media type.
pub open spec fn sticker_name(content: JsonView) -> Seq<char> {
    match content.at("info"@).at("mimetype"@).as_text() {
        None => "sticker.png"@,
        Some(mime) => if text::find(mime, "gif"@) is Some {
            "sticker.gif"@
        } else if text::find(mime, "webp"@) is Some {
            "sticker.webp"@
        } else {
            "sticker.png"@
        },
    }
}

/// What goes to Discord for a sticker.
pub open spec fn sticker_for(config: ConfigView, content: JsonView) -> Result<
    (Seq<char>, Seq<char>, Seq<char>),
    BridgeErrorView,
> {
    match content.at("url"@).as_text() {
        None => Err(BridgeErrorView::Matrix("Sticker missing url field"@)),
        Some(url) => match matrix_client::download_url(config, url) {
            Ok(download) => Ok(
                (download, content.at("body"@).text_or("sticker"@), sticker_name(content)),
            ),
            Err(e) => Err(e),
        },
    }
}

/// Decides what goes to Discord for a sticker.
pub fn handle_sticker_event(matrix: &MatrixClient, content: &Json) -> (res: Result<
    MediaFile,
    BridgeError,
>)
    ensures
        media_outcome(res) == sticker_for(matrix.config@, content@),
{
    let url = match content.text_at("url") {
        Some(url) => url,
        None => {
            return Err(BridgeError::matrix("Sticker missing url field"));
        },
    };
    let mime = match content.get("info") {
        Some(info) => info.text_at("mimetype"),
        None => None,
    };
    let filename = match &mime {
        None => "sticker.png".to_owned(),
        Some(m) => if text::contains(m.as_str(), "gif") {
            "sticker.gif".to_owned()
        } else if text::contains(m.as_str(), "webp") {
            "sticker.webp".to_owned()
        } else {
            "sticker.png".to_owned()
        },
    };
    match matrix.content_url(url.as_str()) {
        Ok(download_url) => Ok(
            MediaFile { download_url, content: content.text_at_or("body", "sticker"), filename },
        ),
        Err(e) => Err(e),
    }
}

/// What happens next with a message or a sticker.
pub enum MessageStep {
    /// It is left alone.
    Ignore,
    /// It is a command to the bridge.
    Command(String),
    /// It replaces an earlier message.
    Edit(String),
    /// It must be found out whether the room is bridged.
    AskBridge,
    /// Its text goes to this channel.
    Text(String),
    /// This file goes to this channel.
    File(String, MediaFile),
}

/// What happens next with a message or a sticker, over texts.
pub enum MessageStepView {
    Ignore,
    Command(Seq<char>),
    Edit(Seq<char>),
    AskBridge,
    Text(Seq<char>),
    File(Seq<char>, (Seq<char>, Seq<char>, Seq<char>)),
}

impl View for MessageStep {
    type V = MessageStepView;

    open spec fn view(&self) -> MessageStepView {
        match self {
            MessageStep::Ignore => MessageStepView::Ignore,
            MessageStep::Command(body) => MessageStepView::Command(body@),
            MessageStep::Edit(original) => MessageStepView::Edit(original@),
            MessageStep::AskBridge => MessageStepView::AskBridge,
            MessageStep::Text(channel) => MessageStepView::Text(channel@),
            MessageStep::File(channel, file) => MessageStepView::File(
                channel@,
                (file.download_url@, file.content@, file.filename@),
            ),
        }
    }
}

/// A decision on a message, over texts.
pub open spec fn step_outcome(res: Result<MessageStep, BridgeError>) -> Result<
    MessageStepView,
    BridgeErrorView,
> {
    match res {
        Ok(step) => Ok(step@),
        Err(e) => Err(e@),
    }
}

/// What happens with a file for a channel.
pub open spec fn file_step(
    channel: Seq<char>,
    file: Result<(Seq<char>, Seq<char>, Seq<char>), BridgeErrorView>,
) -> Result<MessageStepView, BridgeErrorView> {
    match file {
        Ok(f) => Ok(MessageStepView::File(channel, f)),
        Err(e) => Err(e),
    }
}

/// What happens next with a message, given the bridge of its room, where that was asked for. Those of
/// the bridge's own users are left alone; commands and edits are told apart; the rest goes to Discord
/// where the room sends there.
pub open spec fn message_step(
    config: ConfigView,
    sender: Seq<char>,
    bridge: Option<Option<BridgedRoom>>,
    content: JsonView,
) -> Result<MessageStepView, BridgeErrorView> {
    match message_route(config, sender, content) {
        MessageRouteView::Ignore => Ok(MessageStepView::Ignore),
        MessageRouteView::Command(body) => Ok(MessageStepView::Command(body)),
        MessageRouteView::Edit(original) => Ok(MessageStepView::Edit(original)),
        MessageRouteView::Forward(kind) => match bridge {
            None => Ok(MessageStepView::AskBridge),
            Some(b) => match (channel_of(b), forwarded_as(kind)) {
                (Some(channel), ForwardAs::Text) => Ok(MessageStepView::Text(channel)),
                (Some(channel), ForwardAs::File) => file_step(channel, media_for(config, content)),
                _ => Ok(MessageStepView::Ignore),
            },
        },
    }
}

/// Decides what happens next with a message.
pub fn plan_message(
    matrix: &MatrixClient,
    sender: &str,
    bridge: &Option<Option<BridgedRoom>>,
    content: &Json,
) -> (res: Result<MessageStep, BridgeError>)
    ensures
        step_outcome(res) == message_step(matrix.config@, sender@, *bridge, content@),
{
    let kind = match handle_message_event(&matrix.config, sender, content) {
        MessageRoute::Ignore => {
            return Ok(MessageStep::Ignore);
        },
        MessageRoute::Command(body) => {
            return Ok(MessageStep::Command(body));
        },
        MessageRoute::Edit(original) => {
            return Ok(MessageStep::Edit(original));
        },
        MessageRoute::Forward(kind) => kind,
    };
    match bridge {
        None => Ok(MessageStep::AskBridge),
        Some(b) => match discord_channel(b) {
            None => Ok(MessageStep::Ignore),
            Some(channel) => match forward_message_to_discord(kind.as_str()) {
                ForwardAs::Text => Ok(MessageStep::Text(channel)),
                ForwardAs::File => match forward_media_to_discord(matrix, content) {
                    Ok(file) => Ok(MessageStep::File(channel, file)),
                    Err(e) => Err(e),
                },
                ForwardAs::Nothing => Ok(MessageStep::Ignore),
            },
        },
    }
}

/// What happens next with a sticker, given the bridge of its room, where that was asked for. Those of
/// the bridge's own users are left alone, and the rest goes to Discord where the room sends there.
pub open spec fn sticker_step(
    config: ConfigView,
    sender: Seq<char>,
    bridge: Option<Option<BridgedRoom>>,
    content: JsonView,
) -> Result<MessageStepView, BridgeErrorView> {
    if config::is_bridge_user(config, sender) {
        Ok(MessageStepView::Ignore)
    } else {
        match bridge {
            None => Ok(MessageStepView::AskBridge),
            Some(b) => match channel_of(b) {
                None => Ok(MessageStepView::Ignore),
                Some(channel) => file_step(channel, sticker_for(config, content)),
            },
        }
    }
}

/// Decides what happens next with a sticker.
pub fn plan_sticker(
    matrix: &MatrixClient,
    sender: &str,
    bridge: &Option<Option<BridgedRoom>>,
    content: &Json,
) -> (res: Result<MessageStep, BridgeError>)
    ensures
        step_outcome(res) == sticker_step(matrix.config@, sender@, *bridge, content@),
{
    if config::is_own_user(&matrix.config, sender) {
        return Ok(MessageStep::Ignore);
    }
    match bridge {
        None => Ok(MessageStep::AskBridge),
        Some(b) => match discord_channel(b) {
            None => Ok(MessageStep::Ignore),
            Some(channel) => match handle_sticker_event(matrix, content) {
                Ok(file) => Ok(MessageStep::File(channel, file)),
                Err(e) => Err(e),
            },
        },
    }
}

/// The text that replaces that of an earlier message.
pub struct EditedText {
    pub body: String,
    pub formatted_body: Option<String>,
}

/// The text that replaces that of an earlier message: of one that Discord knows, what the new
/// content says; of others nothing.
pub fn handle_message_edit(discord_message: &Option<String>, content: &Json) -> (res: Result<
    Option<EditedText>,
    BridgeError,
>)
    ensures
        discord_message is None ==> res matches Ok(None),
        discord_message is Some ==> match content@.get("m.new_content"@) {
            None => res matches Err(e) && e@ == BridgeErrorView::Matrix(
                "Edit missing m.new_content"@,
            ),
            Some(new) => res matches Ok(Some(t)) && t.body@ == new.at("body"@).text_or(""@)
                && web::opt_text(t.formatted_body) == new.at("formatted_body"@).as_text(),
        },
{
    if discord_message.is_none() {
        return Ok(None);
    }
    match content.get("m.new_content") {
        None => Err(BridgeError::matrix("Edit missing m.new_content")),
        Some(new) => Ok(
            Some(
                EditedText {
                    body: new.text_at_or("body", ""),
                    formatted_body: new.text_at("formatted_body"),
                },
            ),
        ),
    }
}

/// What happens next with an edit.
pub enum EditStep {
    /// It is left alone.
    Ignore,
    /// It must be found out whether the room is bridged.
    AskBridge,
    /// This text replaces that of this message of this channel.
    Edit { channel_id: String, message_id: String, text: EditedText },
}

/// Decides what happens next with an edit, given the Discord message that it is about, where that is
/// remembered, and the bridge of the room, where that was asked for. Only a message that Discord
/// knows is edited, and only where the room sends to Discord; it is an error if the room is not
/// bridged.
pub fn plan_edit(
    discord_message: &Option<String>,
    bridge: &Option<Option<BridgedRoom>>,
    content: &Json,
) -> (res: Result<EditStep, BridgeError>)
    ensures
        match *discord_message {
            None => res matches Ok(EditStep::Ignore),
            Some(message) => match (content@.get("m.new_content"@), *bridge) {
                (None, _) => res matches Err(e) && e@ == BridgeErrorView::Matrix(
                    "Edit missing m.new_content"@,
                ),
                (Some(_), None) => res matches Ok(EditStep::AskBridge),
                (Some(_), Some(None)) => res matches Err(e) && e@ == BridgeErrorView::NotFound,
                (Some(new), Some(b)) => match channel_of(b) {
                    None => res matches Ok(EditStep::Ignore),
                    Some(channel) => res matches Ok(
                        EditStep::Edit { channel_id, message_id, text },
                    ) && channel_id@ == channel && message_id@ == message@ && text.body@ == new.at(
                        "body"@,
                    ).text_or(""@) && web::opt_text(text.formatted_body) == new.at(
                        "formatted_body"@,
                    ).as_text(),
                },
            },
        },
{
    match discord_message {
        None => Ok(EditStep::Ignore),
        Some(message) => match handle_message_edit(discord_message, content) {
            Err(e) => Err(e),
            Ok(None) => Ok(EditStep::Ignore),
            Ok(Some(text)) => match bridge {
                None => Ok(EditStep::AskBridge),
                Some(b) => match required_channel(b) {
                    Err(e) => Err(e),
                    Ok(None) => Ok(EditStep::Ignore),
                    Ok(Some(channel_id)) => Ok(
                        EditStep::Edit { channel_id, message_id: message.clone(), text },
                    ),
                },
            },
        },
    }
}

/// What is known while a redaction is considered.
pub struct RedactionCase {
    /// The Discord message of the event, where it is remembered.
    pub message_id: Option<Option<String>>,
    /// The bridge of the room, where it has one.
    pub bridge: Option<Option<BridgedRoom>>,
    /// Who takes the event back.
    pub sender: Option<String>,
    /// Who sent the event, where that could be found out.
    pub author: Option<Option<String>>,
}

/// What happens next with a redaction.
#[derive(Clone, Copy, PartialEq, Eq, Structural, Debug)]
pub enum RedactionStep {
    AskMessage,
    AskBridge,
    /// It must be found out who takes the event back and who sent it.
    AskPeople,
    Stop,
    Delete,
}

impl RedactionCase {
    /// Whether Discord knows the message and the room sends to Discord.
    pub open spec fn concerns_discord(self) -> bool {
        &&& self.message_id matches Some(Some(_))
        &&& self.bridge matches Some(Some(bridge)) && bridge.m2d_enabled
    }

    /// Whether someone takes back what another user sent, as far as that is known.
    pub open spec fn is_moderation(self) -> bool {
        match self.author {
            Some(Some(author)) => self.sender matches Some(sender) && author@ != sender@,
            _ => true,
        }
    }

    /// What happens next. A message is deleted on Discord if Discord knows it, the room sends to
    /// Discord, and its own author takes it back or the bridge lets moderators delete.
    pub fn next(&self) -> (step: RedactionStep)
        ensures
            step == RedactionStep::AskMessage <==> self.message_id is None,
            step == RedactionStep::AskBridge <==> (self.message_id matches Some(Some(_)))
                && self.bridge is None,
            step == RedactionStep::AskPeople <==> self.concerns_discord() && (self.author is None
                || self.sender is None),
            step == RedactionStep::Delete <==> self.concerns_discord() && self.author is Some
                && self.sender is Some && (!self.is_moderation()
                || self.bridge->0->0.m2d_mod_deletions),
    {
        match &self.message_id {
            None => RedactionStep::AskMessage,
            Some(None) => RedactionStep::Stop,
            Some(Some(_)) => match &self.bridge {
                None => RedactionStep::AskBridge,
                Some(None) => RedactionStep::Stop,
                Some(Some(bridge)) => {
                    if !bridge.m2d_enabled {
                        return RedactionStep::Stop;
                    }
                    match (&self.author, &self.sender) {
                        (Some(author), Some(sender)) => {
                            let moderation = match author {
                                Some(a) => !text::same(a.as_str(), sender.as_str()),
                                None => true,
                            };
                            if moderation && !bridge.m2d_mod_deletions {
                                RedactionStep::Stop
                            } else {
                                RedactionStep::Delete
                            }
                        },
                        _ => RedactionStep::AskPeople,
                    }
                },
            },
        }
    }
    /// Forgets the mapping of the event that was taken back, where its message was deleted on Discord.
    /// Where it was not, all stays as it is.
    pub fn settle(&self, cache: &mut Cache, redacts: &str, deleted: bool)
        ensures
            match self.message_id {
                Some(Some(message)) => final(cache).has_settled(
                    *old(cache),
                    redacts@,
                    message@,
                    deleted,
                ),
                _ => *final(cache) == *old(cache),
            },
    {
        match &self.message_id {
            Some(Some(message)) => {
                cache.settle_deletion(redacts, message.as_str(), deleted);
            },
            _ => {},
        }
    }
}

/// What a reaction is about.
pub struct ReactionTarget {
    pub event_id: String,
    pub key: String,
}

/// What a reaction is about. Those of puppets are left alone.
pub open spec fn reaction_target(sender: Seq<char>, content: JsonView) -> Result<
    Option<(Seq<char>, Seq<char>)>,
    BridgeErrorView,
> {
    if "@_discord_"@.is_prefix_of(sender) {
        Ok(None)
    } else {
        match content.get("m.relates_to"@) {
            None => Err(BridgeErrorView::Matrix("Reaction missing m.relates_to"@)),
            Some(relation) => match relation.at("event_id"@).as_text() {
                None => Err(BridgeErrorView::Matrix("Reaction missing event_id"@)),
                Some(event) => match relation.at("key"@).as_text() {
                    None => Err(BridgeErrorView::Matrix("Reaction missing key"@)),
                    Some(key) => Ok(Some((event, key))),
                },
            },
        }
    }
}

/// A decision on a reaction, over texts.
pub open spec fn reaction_outcome(res: Result<Option<ReactionTarget>, BridgeError>) -> Result<
    Option<(Seq<char>, Seq<char>)>,
    BridgeErrorView,
> {
    match res {
        Ok(Some(target)) => Ok(Some((target.event_id@, target.key@))),
        Ok(None) => Ok(None),
        Err(e) => Err(e@),
    }
}

/// Decides what a reaction is about.
pub fn handle_reaction_event(sender: &str, content: &Json) -> (res: Result<
    Option<ReactionTarget>,
    BridgeError,
>)
    ensures
        reaction_outcome(res) == reaction_target(sender@, content@),
{
    if config::is_puppet(sender) {
        return Ok(None);
    }
    match content.get("m.relates_to") {
        None => Err(BridgeError::matrix("Reaction missing m.relates_to")),
        Some(relation) => match relation.text_at("event_id") {
            None => Err(BridgeError::matrix("Reaction missing event_id")),
            Some(event_id) => match relation.text_at("key") {
                None => Err(BridgeError::matrix("Reaction missing key")),
                Some(key) => Ok(Some(ReactionTarget { event_id, key })),
            },
        },
    }
}

/// What happens next with a reaction.
pub enum ReactionStep {
    /// It is left alone.
    Ignore,
    /// It must be found out which Discord message stands for this event.
    AskMessage(String),
    /// It must be found out whether the room is bridged.
    AskBridge,
    /// This message of this channel gets this reaction.
    React { channel_id: String, message_id: String, key: String },
}

/// What happens next with a reaction, over texts.
pub enum ReactionStepView {
    Ignore,
    AskMessage(Seq<char>),
    AskBridge,
    React { channel: Seq<char>, message: Seq<char>, key: Seq<char> },
}

impl View for ReactionStep {
    type V = ReactionStepView;

    open spec fn view(&self) -> ReactionStepView {
        match self {
            ReactionStep::Ignore => ReactionStepView::Ignore,
            ReactionStep::AskMessage(event) => ReactionStepView::AskMessage(event@),
            ReactionStep::AskBridge => ReactionStepView::AskBridge,
            ReactionStep::React { channel_id, message_id, key } => ReactionStepView::React {
                channel: channel_id@,
                message: message_id@,
                key: key@,
            },
        }
    }
}

/// A decision on what happens next with a reaction, over texts.
pub open spec fn reaction_step_outcome(res: Result<ReactionStep, BridgeError>) -> Result<
    ReactionStepView,
    BridgeErrorView,
> {
    match res {
        Ok(step) => Ok(step@),
        Err(e) => Err(e@),
    }
}

/// What happens next with a reaction, given the Discord message that it is about and the bridge of
/// the room, where those were asked for. Those of puppets are left alone, and so are those to
/// messages that Discord does not know; it is an error if the room is not bridged.
pub open spec fn reaction_step(
    sender: Seq<char>,
    content: JsonView,
    message: Option<Option<String>>,
    bridge: Option<Option<BridgedRoom>>,
) -> Result<ReactionStepView, BridgeErrorView> {
    match reaction_target(sender, content) {
        Err(e) => Err(e),
        Ok(None) => Ok(ReactionStepView::Ignore),
        Ok(Some(target)) => match (message, bridge) {
            (None, _) => Ok(ReactionStepView::AskMessage(target.0)),
            (Some(None), _) => Ok(ReactionStepView::Ignore),
            (Some(Some(_)), None) => Ok(ReactionStepView::AskBridge),
            (Some(Some(_)), Some(None)) => Err(BridgeErrorView::NotFound),
            (Some(Some(m)), Some(b)) => match channel_of(b) {
                Some(channel) => Ok(
                    ReactionStepView::React { channel, message: m@, key: target.1 },
                ),
                None => Ok(ReactionStepView::Ignore),
            },
        },
    }
}

/// Decides what happens next with a reaction.
pub fn plan_reaction(
    sender: &str,
    content: &Json,
    message: &Option<Option<String>>,
    bridge: &Option<Option<BridgedRoom>>,
) -> (res: Result<ReactionStep, BridgeError>)
    ensures
        reaction_step_outcome(res) == reaction_step(sender@, content@, *message, *bridge),
{
    let target = match handle_reaction_event(sender, content) {
        Err(e) => {
            return Err(e);
        },
        Ok(None) => {
            return Ok(ReactionStep::Ignore);
        },
        Ok(Some(target)) => target,
    };
    match message {
        None => Ok(ReactionStep::AskMessage(target.event_id)),
        Some(None) => Ok(ReactionStep::Ignore),
        Some(Some(m)) => match bridge {
            None => Ok(ReactionStep::AskBridge),
            Some(b) => match required_channel(b) {
                Err(e) => Err(e),
                Ok(None) => Ok(ReactionStep::Ignore),
                Ok(Some(channel_id)) => Ok(
                    ReactionStep::React { channel_id, message_id: m.clone(), key: target.key },
                ),
            },
        },
    }
}

/// A reaction as Discord takes it in a URL: a custom emote by its name and number where it is known,
/// or else the reaction itself.
pub open spec fn discord_reaction(key: Seq<char>, found: Option<Seq<MatchView>>) -> Seq<char> {
    match found {
        Some(ids) => if ids.len() > 0 {
            web::percent_text(text::trimmed(key, Trim::Only(':'))) + "%3A"@ + ids[0].groups[1]
        } else {
            web::percent_text(key)
        },
        None => web::percent_text(key),
    }
}

/// Writes a reaction as Discord takes it, given where the emote's number was found.
pub fn write_reaction(key: &str, found: &Option<Vec<Match>>) -> (res: String)
    requires
        found matches Some(ids) ==> forall|i: int|
            0 <= i < ids@.len() ==> (#[trigger] pattern::match_views(ids@)[i]).groups.len() >= 2,
    ensures
        res@ == discord_reaction(
            key@,
            match *found {
                Some(ids) => Some(pattern::match_views(ids@)),
                None => None,
            },
        ),
{
    match found {
        Some(ids) => if ids.len() > 0 {
            let ghost views = pattern::match_views(ids@);
            proof {
                assert(views[0] == ids@[0]@);
                assert(views[0].groups.len() >= 2);
                assert(ids@[0].groups@[1]@ == views[0].groups[1]);
            }
            let name = text::trim_both(key, Trim::Only(':'));
            web::percent_encode(name.as_str()).concat("%3A").concat(ids[0].groups[1].as_str())
        } else {
            web::percent_encode(key)
        },
        None => web::percent_encode(key),
    }
}

/// Turns a reaction into what Discord takes, given the Discord emote of that name, where one is
/// remembered.
pub fn to_discord_reaction(key: &str, emote: &Option<String>) -> (res: String)
    ensures
        res@ == discord_reaction(
            key@,
            match *emote {
                Some(e) => Some(pattern::matches_of(Pattern::EmoteId, e@)),
                None => None,
            },
        ),
{
    let found = match emote {
        Some(e) => Some(pattern::find_all(Pattern::EmoteId, e.as_str())),
        None => None,
    };
    write_reaction(key, &found)
}

/// The name under which a Discord emote may be remembered for a reaction.
pub fn reaction_name(key: &str) -> (name: String)
    ensures
        name@ == text::trimmed(key@, Trim::Only(':')),
{
    text::trim_both(key, Trim::Only(':'))
}

/// Under what a Matrix user's reaction to a Discord message is remembered.
pub open spec fn matrix_reaction_key(
    message: Seq<char>,
    sender: Seq<char>,
    key: Seq<char>,
) -> Seq<char> {
    message + ":"@ + sender + ":"@ + key
}

/// Remembers the Matrix event of a reaction to a Discord message.
pub fn keep_reaction(
    cache: &mut Cache,
    message_id: &str,
    sender: &str,
    key: &str,
    event_id: &str,
)
    ensures
        final(cache).m_messages@ == old(cache).m_messages@.insert(
            matrix_reaction_key(message_id@, sender@, key@),
            event_id@,
        ),
        *final(cache) == (Cache { m_messages: final(cache).m_messages, ..*old(cache) }),
{
    let place = message_id.to_owned().concat(":").concat(sender).concat(":").concat(key);
    cache.m_messages.insert(place, event_id.to_owned());
}

/// Remembers the Matrix event of a reaction, where Discord took it.
pub fn settle_reaction(
    cache: &mut Cache,
    message_id: &str,
    sender: &str,
    key: &str,
    event_id: &str,
    added: bool,
)
    ensures
        if added {
            &&& final(cache).m_messages@ == old(cache).m_messages@.insert(
                matrix_reaction_key(message_id@, sender@, key@),
                event_id@,
            )
            &&& *final(cache) == (Cache { m_messages: final(cache).m_messages, ..*old(cache) })
        } else {
            *final(cache) == *old(cache)
        },
{
    if added {
        keep_reaction(cache, message_id, sender, key, event_id);
    }
}

/// How many of the users that type are no users of the bridge.
pub open spec fn foreign_typers(config: ConfigView, users: Seq<JsonView>) -> nat
    decreases users.len(),
{
    if users.len() == 0 {
        0
    } else {
        foreign_typers(config, users.drop_last()) + match users.last().as_text() {
            Some(user) => if config::is_bridge_user(config, user) {
                0nat
            } else {
                1nat
            },
            None => 0nat,
        }
    }
}

/// Where typing is shown on Discord: the room is bridged, sends to Discord, and shows typing.
pub open spec fn typed_channel(bridge: Option<BridgedRoom>) -> Option<Seq<char>> {
    match bridge {
        Some(b) => if b.m2d_enabled && b.m2d_typing {
            Some(b.channel_id@)
        } else {
            None
        },
        None => None,
    }
}

/// Where typing is shown on Discord.
pub fn typing_channel(bridge: &Option<BridgedRoom>) -> (channel: Option<String>)
    ensures
        web::opt_text(channel) == typed_channel(*bridge),
{
    match bridge {
        Some(b) => if b.m2d_enabled && b.m2d_typing {
            Some(b.channel_id.clone())
        } else {
            None
        },
        None => None,
    }
}

/// How many typing notices go to Discord for a typing event.
pub fn handle_typing_event(config: &Config, content: &Json) -> (res: Result<usize, BridgeError>)
    ensures
        match content@.at("user_ids"@).as_array() {
            None => res matches Err(e) && e@ == BridgeErrorView::Matrix(
                "Typing event missing user_ids"@,
            ),
            Some(users) => res matches Ok(n) && n == foreign_typers(config@, users),
        },
{
    match content.array_at("user_ids") {
        None => Err(BridgeError::matrix("Typing event missing user_ids")),
        Some(users) => {
            let ghost views = json::list_of(users@);
            proof {
                json::lemma_list(users@);
            }
            let count: usize = users.len();
            let mut n: usize = 0;
            let mut i: usize = 0;
            assert(views.take(0) =~= Seq::<JsonView>::empty());
            while i < count
                invariant
                    count == users@.len(),
                    views.len() == count,
                    forall|j: int| 0 <= j < count ==> #[trigger] views[j] == users@[j]@,
                    n <= i <= count,
                    n == foreign_typers(config@, views.take(i as int)),
                decreases count - i,
            {
                proof {
                    assert(views[i as int] == users@[i as int]@);
                    assert(views.take(i + 1).drop_last() =~= views.take(i as int));
                    assert(views.take(i + 1).last() == views[i as int]);
                }
                match users[i].as_text() {
                    Some(user) => {
                        if !config::is_own_user(config, user.as_str()) {
                            n += 1;
                        }
                    },
                    None => {},
                }
                i += 1;
            }
            assert(views.take(count as int) =~= views);
            Ok(n)
        },
    }
}

/// What happens next with a typing event.
pub enum TypingStep {
    /// It must be found out whether the room is bridged.
    AskBridge,
    /// That many notices go to this channel.
    Show(String, usize),
    /// It is left alone.
    Ignore,
}

/// Decides what happens next with a typing event, given the bridge of the room, where that was asked
/// for: each user that types, but for those of the bridge, is shown where the room shows typing.
pub fn plan_typing(config: &Config, content: &Json, bridge: &Option<Option<BridgedRoom>>) -> (res:
    Result<TypingStep, BridgeError>)
    ensures
        match (content@.at("user_ids"@).as_array(), *bridge) {
            (None, _) => res matches Err(e) && e@ == BridgeErrorView::Matrix(
                "Typing event missing user_ids"@,
            ),
            (Some(_), None) => res matches Ok(TypingStep::AskBridge),
            (Some(users), Some(b)) => match typed_channel(b) {
                Some(channel) => res matches Ok(TypingStep::Show(c, n)) && c@ == channel && n
                    == foreign_typers(config@, users),
                None => res matches Ok(TypingStep::Ignore),
            },
        },
{
    match handle_typing_event(config, content) {
        Err(e) => Err(e),
        Ok(notices) => match bridge {
            None => Ok(TypingStep::AskBridge),
            Some(b) => match typing_channel(b) {
                Some(channel) => Ok(TypingStep::Show(channel, notices)),
                None => Ok(TypingStep::Ignore),
            },
        },
    }
}

/// Where the members of a room come from.
pub enum MembersSource {
    /// They are remembered.
    Remembered(TextMap<MatrixUser>),
    /// The homeserver is asked.
    Ask(MatrixRequest),
}

/// The Matrix side of the bridge.
pub struct AppService {
    pub matrix: MatrixClient,
}

impl AppService {
    /// The Matrix side of a bridge with the given access to the homeserver.
    pub fn new(matrix: MatrixClient) -> (service: Self)
        ensures
            service.matrix == matrix,
    {
        AppService { matrix }
    }

    /// What becomes of a request for an avatar that comes at second `now`.
    pub fn handle_avatar_request(&self, path: &str, query: Option<&str>, now: u64) -> (verdict:
        AvatarVerdict)
        ensures
            verdict@ == avatar::avatar_verdict(
                self.matrix.config@,
                path@,
                utils::opt_str(query),
                now as int,
            ),
    {
        avatar::judge(&self.matrix.config, path, query, now)
    }

    /// The reply with an avatar that is remembered.
    pub fn cached_avatar(cache: &Cache, mxc_url: &str) -> (reply: Option<HttpReply>)
        ensures
            exists|found: Option<Seq<u8>>| #[trigger]
                cache.m_avatars.answers(mxc_url@, found) && cache::opt_view(reply) == match found {
                    Some(data) => Some(avatar::avatar_reply_view(data)),
                    None => None,
                },
            reply matches Some(r) ==> cache.m_avatars@.contains_key(mxc_url@) && r@
                == avatar::avatar_reply_view(cache.m_avatars@[mxc_url@]),
    {
        let found = cache.m_avatars.get(mxc_url);
        let ghost seen = cache::opt_view(found);
        assert(cache.m_avatars.answers(mxc_url@, seen));
        AppService::avatar_found(found)
    }

    /// The reply with the avatar that was found, if one was. Where none was, it is to be fetched.
    pub fn avatar_found(found: Option<Vec<u8>>) -> (reply: Option<HttpReply>)
        ensures
            reply is Some <==> found is Some,
            reply matches Some(r) ==> r@ == avatar::avatar_reply_view(found->0@),
    {
        match found {
            Some(data) => Some(avatar::avatar_reply(data)),
            None => None,
        }
    }

    /// The reply with an avatar that was fetched and is remembered from now on.
    pub fn fetched_avatar(cache: &mut Cache, mxc_url: &str, data: Vec<u8>) -> (reply: HttpReply)
        ensures
            reply@ == avatar::avatar_reply_view(data@),
            final(cache).m_avatars@ == old(cache).m_avatars@.insert(mxc_url@, data@),
            *final(cache) == (Cache { m_avatars: final(cache).m_avatars, ..*old(cache) }),
    {
        let copy = data.clone();
        assert(copy@ =~= data@);
        cache.m_avatars.insert(mxc_url.to_owned(), copy);
        avatar::avatar_reply(data)
    }

    /// The reply where an avatar could not be fetched.
    pub fn missing_avatar() -> (reply: HttpReply)
        ensures
            reply@ == http::plain_reply(404, "Avatar not found"@),
    {
        HttpReply::plain(404, "Avatar not found")
    }

    /// Where the members of a room come from: those that are remembered count, and where none are, the
    /// homeserver is asked.
    pub fn members_found(&self, room_id: &str, found: Option<TextMap<MatrixUser>>) -> (source:
        MembersSource)
        ensures
            match found {
                Some(members) => source == MembersSource::Remembered(members),
                None => source matches MembersSource::Ask(request) && request@
                    == matrix_client::lookup_request(
                    "/rooms/"@ + web::percent_text(room_id@) + "/joined_members"@,
                ),
            },
    {
        match found {
            Some(members) => MembersSource::Remembered(members),
            None => MembersSource::Ask(self.matrix.joined_members(room_id)),
        }
    }

    /// The members that a reply lists, which are remembered from now on.
    pub fn get_room_members(cache: &mut Cache, room_id: &str, reply: &Json) -> (members: TextMap<
        MatrixUser,
    >)
        ensures
            members@ == matrix_client::joined_members(reply@),
            final(cache).m_members@ == old(cache).m_members@.insert(room_id@, members@),
            *final(cache) == (Cache { m_members: final(cache).m_members, ..*old(cache) }),
    {
        let members = matrix_client::read_members(reply);
        cache.m_members.insert(room_id.to_owned(), members.duplicate());
        members
    }

    /// Forgets the emoji of a room that changed them.
    pub fn handle_emoji_update(cache: &mut Cache, room_id: &str)
        ensures
            final(cache).m_custom_emojis@ == old(cache).m_custom_emojis@.remove(room_id@),
            *final(cache) == (Cache {
                m_custom_emojis: final(cache).m_custom_emojis,
                ..*old(cache)
            }),
    {
        cache.m_custom_emojis.invalidate(room_id);
    }
}

/// What the bridge's own users send never goes back to Discord: neither as a message or an edit nor
/// as a sticker, whatever the room is bridged to, and no command is taken from them.
pub proof fn law_no_loops(
    config: ConfigView,
    sender: Seq<char>,
    bridge: Option<Option<BridgedRoom>>,
    content: JsonView,
)
    requires
        config::is_bridge_user(config, sender),
    ensures
        message_route(config, sender, content) == MessageRouteView::Ignore,
        message_step(config, sender, bridge, content) == Ok::<MessageStepView, BridgeErrorView>(
            MessageStepView::Ignore,
        ),
        sticker_step(config, sender, bridge, content) == Ok::<MessageStepView, BridgeErrorView>(
            MessageStepView::Ignore,
        ),
{
}

/// Nothing but a command or an edit leaves a room that is not bridged, or that does not send to
/// Discord.
pub proof fn law_closed_rooms_are_silent(
    config: ConfigView,
    sender: Seq<char>,
    bridge: Option<BridgedRoom>,
    content: JsonView,
)
    requires
        channel_of(bridge) is None,
    ensures
        message_step(config, sender, Some(bridge), content) matches Ok(step) && (
        step is Ignore || step is Command || step is Edit),
        sticker_step(config, sender, Some(bridge), content) == Ok::<
            MessageStepView,
            BridgeErrorView,
        >(MessageStepView::Ignore),
{
}

/// Only the homeserver is heard: of a request that does not prove that the homeserver made it no
/// event is taken, whatever its body says, and its body is not even read.
pub proof fn law_only_the_homeserver_is_heard(
    config: ConfigView,
    query: Option<Seq<char>>,
    header: Option<Seq<char>>,
    body: Option<JsonView>,
)
    ensures
        !is_authorized(config, query, header) <==> transaction(config, query, header, body)
            == TransactionView::Refuse(forbidden_reply()),
        transaction(config, query, header, body) matches TransactionView::Accept(events, reply)
            ==> is_authorized(config, query, header) && body is Some && body->0.at(
            "events"@,
        ).as_array() == Some(events) && reply == http::plain_reply(200, "{}"@),
{
}

/// A puppet of the bridge is one of its own users, whichever Discord user it stands for.
pub proof fn law_puppets_are_bridge_users(
    config: ConfigView,
    discord_id: Seq<char>,
    hashed: Option<Seq<char>>,
)
    ensures
        config::is_bridge_user(config, matrix_client::puppet(config, discord_id, hashed)),
{
    let user = matrix_client::puppet(config, discord_id, hashed);
    let prefix = "@_discord_"@;
    assert(user.subrange(0, prefix.len() as int) =~= prefix);
}

/// A text for Discord is never longer than the limit of a message and an ellipsis behind it.
pub proof fn law_discord_texts_are_bounded(s: Seq<char>)
    ensures
        within_limit(s) matches Some(t) ==> number::utf8_len(t) <= DISCORD_MESSAGE_LIMIT + 3,
{
    let kept = s.take(utils::fitting(s, DISCORD_MESSAGE_LIMIT as int));
    number::lemma_utf8_len_push(kept, '…');
    let one = seq!['…'];
    assert(one.drop_first() =~= Seq::<char>::empty());
    assert(encode_utf8(Seq::<char>::empty()).len() == 0);
    assert(one[0] as u32 == 0x2026);
}

/// A text that fits into a Discord message goes as it is; of a longer one exactly as many bytes are
/// kept as a message may have, and an ellipsis stands behind them; and there is none only where the
/// limit falls into a character.
pub proof fn law_long_texts_are_cut(s: Seq<char>, n: int)
    requires
        0 <= n <= s.len(),
    ensures
        number::utf8_len(s) <= 2_000 ==> within_limit(s) == Some(s),
        number::utf8_len(s) > 2_000 && number::utf8_len(s.take(n))
            == 2_000 ==> within_limit(s) == Some(s.take(n).push('…')),
        within_limit(s) is None ==> number::utf8_len(s.take(n)) != 2_000,
{
    if number::utf8_len(s.take(n)) == 2_000 {
        let limit = DISCORD_MESSAGE_LIMIT as int;
        let m = utils::fitting(s, limit);
        utils::law_as_much_as_fits(s, limit, n);
        assert(s.take(m) =~= s.take(n) + s.subrange(n, m));
        number::lemma_encode_concat(s.take(n), s.subrange(n, m));
        if m > n {
            let more = s.subrange(n, m);
            assert(more =~= seq![more[0]] + more.drop_first());
            number::lemma_encode_concat(seq![more[0]], more.drop_first());
            number::lemma_utf8_len_push(Seq::<char>::empty(), more[0]);
            assert(Seq::<char>::empty().push(more[0]) =~= seq![more[0]]);
            assert(encode_utf8(Seq::<char>::empty()).len() == 0);
        }
    }
}

/// A Matrix text with mentions in place of puppets.
pub open spec fn mentioned_text(body: Seq<char>, html: Option<Seq<char>>) -> Seq<char> {
    match html {
        Some(h) => with_mentions(body, pattern::matches_of(Pattern::PuppetMention, h)),
        None => with_mentions(body, pattern::matches_of(Pattern::PuppetMention, body)),
    }
}

/// Every emote that a text names and that the cache gives is shown in its place, wherever in the
/// text it stands; every other stays as it is, and so does all text between them. The text is then
/// cut to the limit.
#[verifier::rlimit(40)]
pub proof fn law_every_known_emote_is_shown(
    emotes: TextCache,
    body: Seq<char>,
    html: Option<Seq<char>>,
    known: Seq<Option<String>>,
    i: int,
)
    requires
        pattern::well_placed(emote_places(body, html), mentioned_text(body, html), 1),
        are_lookups(emotes, emote_places(body, html), known),
        0 <= i < emote_places(body, html).len(),
    ensures
        ({
            let found = emote_places(body, html);
            let shown = emote_texts(found, known);
            let whole = pattern::spliced(mentioned_text(body, html), found, shown, 0);
            &&& discord_text(body, html, known) == within_limit(whole)
            &&& whole.len() == mentioned_text(body, html).len() + pattern::drift(
                found,
                shown,
                found.len() as int,
            )
            &&& emotes.answers(found[i].groups[1], web::opt_text(known[i]))
            &&& text::stands_at(
                whole,
                match web::opt_text(known[i]) {
                    Some(emote) => emote,
                    None => found[i].groups[0],
                },
                found[i].start + pattern::drift(found, shown, i),
            )
        }),
{
    let mentioned = mentioned_text(body, html);
    let found = emote_places(body, html);
    lemma_emote_is_shown(emotes, mentioned, found, known, i);
    lemma_emotes_drift(mentioned, found, emote_texts(found, known));
}

proof fn lemma_emotes_drift(s: Seq<char>, found: Seq<MatchView>, shown: Seq<Seq<char>>)
    requires
        pattern::well_placed(found, s, 1),
        shown.len() == found.len(),
    ensures
        pattern::spliced(s, found, shown, 0).len() == s.len() + pattern::drift(
            found,
            shown,
            found.len() as int,
        ),
        forall|i: int|
            0 <= i < found.len() ==> text::stands_at(
                pattern::spliced(s, found, shown, 0),
                shown[i],
                (#[trigger] found[i]).start + pattern::drift(found, shown, i),
            ),
{
    assert(pattern::in_order(found, 0, s.len() as int));
    pattern::law_every_match_is_replaced(s, found, shown);
}

proof fn lemma_emote_is_shown(
    emotes: TextCache,
    s: Seq<char>,
    found: Seq<MatchView>,
    known: Seq<Option<String>>,
    i: int,
)
    requires
        pattern::well_placed(found, s, 1),
        are_lookups(emotes, found, known),
        0 <= i < found.len(),
    ensures
        emotes.answers(found[i].groups[1], web::opt_text(known[i])),
        text::stands_at(
            pattern::spliced(s, found, emote_texts(found, known), 0),
            match web::opt_text(known[i]) {
                Some(e) => e,
                None => found[i].groups[0],
            },
            found[i].start + pattern::drift(found, emote_texts(found, known), i),
        ),
{
    let shown = emote_texts(found, known);
    lemma_emotes_drift(s, found, shown);
    assert(shown[i] == match web::opt_text(known[i]) {
        Some(e) => e,
        None => found[i].groups[0],
    });
}

/// Whether a text has the shape of a puppet's name: it begins with `@_`, and has no other `@` and no
/// `<`; and its number has digits only.
pub open spec fn is_puppet_text(m: MatchView) -> bool {
    &&& m.groups[0].len() > 2
    &&& m.groups[0][0] == '@'
    &&& m.groups[0][1] == '_'
    &&& forall|k: int| 1 <= k < m.groups[0].len() ==> #[trigger] m.groups[0][k] != '@'
    &&& !m.groups[0].contains('<')
    &&& m.groups[1].len() > 0
    &&& text::all_digits(m.groups[1])
}

/// Every puppet that was found becomes a mention: none of them is left by name, wherever in the list
/// it stands.
pub proof fn law_no_puppet_is_left(body: Seq<char>, found: Seq<MatchView>, i: int)
    requires
        forall|j: int| 0 <= j < found.len() ==> is_puppet_text(#[trigger] found[j]),
        0 <= i < found.len(),
    ensures
        !text::holds(with_mentions(body, found), found[i].groups[0]),
    decreases found.len(),
{
    reveal_strlit("<@");
    reveal_strlit(">");
    let last = found.last();
    let fewer = found.drop_last();
    let before = with_mentions(body, fewer);
    let to = "<@"@ + last.groups[1] + ">"@;
    let from = last.groups[0];
    let other = found[i].groups[0];
    assert(is_puppet_text(found[i]));
    assert(is_puppet_text(found[found.len() - 1]));
    assert forall|d: int| 1 <= d < other.len() && #[trigger] other[d] == to[0] implies d == 1
        && other[0] == from[0] && !text::doubles(before, from[0]) by {
        assert(other.contains('<'));
    }
    assert forall|p: int| 0 <= p < to.len() implies to[p] != other[0] || (#[trigger] to[p]
        == other[0] && p + 1 < to.len() && other.len() > 1 && to[p + 1] != other[1]) by {
        if p == 1 {
            assert(to[2] == last.groups[1][0]);
            assert('0' <= last.groups[1][0] <= '9');
        } else if 2 <= p < to.len() - 1 {
            assert(to[p] == last.groups[1][p - 2]);
            assert('0' <= last.groups[1][p - 2] <= '9');
        }
    }
    text::lemma_replacing_brings_in_nothing(before, from, to, other);
    if i < found.len() - 1 {
        assert forall|j: int| 0 <= j < fewer.len() implies is_puppet_text(#[trigger] fewer[j]) by {
            assert(fewer[j] == found[j]);
        }
        law_no_puppet_is_left(body, fewer, i);
        assert(fewer[i] == found[i]);
    }
}

/// A puppet's name becomes a mention of its Discord user, and what follows is treated alike; what
/// stands before it, without `@`, stays as it is. No earlier puppet may begin the name, and what
/// follows may not continue it.
pub proof fn law_a_puppet_becomes_a_mention(
    before: Seq<char>,
    i: int,
    behind: Seq<char>,
    found: Seq<MatchView>,
)
    requires
        !before.contains('@'),
        0 <= i < found.len(),
        forall|j: int| 0 <= j < found.len() ==> is_puppet_text(#[trigger] found[j]),
        forall|j: int|
            0 <= j < i ==> !(#[trigger] found[j]).groups[0].is_prefix_of(found[i].groups[0]),
        behind.len() > 0 ==> behind[0] != '@' && forall|j: int|
            0 <= j < found.len() ==> !(#[trigger] found[j]).groups[0].contains(behind[0]),
    ensures
        with_mentions(before + found[i].groups[0] + behind, found.take(i + 1)) == before + "<@"@
            + found[i].groups[1] + ">"@ + with_mentions(behind, found.take(i + 1)),
{
    let m = found[i].groups[0];
    let earlier = found.take(i);
    let all = found.take(i + 1);
    let to = "<@"@ + found[i].groups[1] + ">"@;
    assert(all.drop_last() =~= earlier);
    assert(all.last() == found[i]);
    assert(is_puppet_text(found[i]));
    lemma_a_puppet_waits(before, m, behind, found, i);
    let done = with_mentions(behind, earlier);
    assert(before + m + done =~= before + (m + done));
    text::lemma_replacing_behind(before, m + done, m, to);
    text::lemma_replacing_at_the_start(done, m, to);
    assert(before + (to + text::replaced(done, m, to)) =~= before + "<@"@ + found[i].groups[1]
        + ">"@ + text::replaced(done, m, to));
}

proof fn lemma_a_puppet_waits(
    before: Seq<char>,
    m: Seq<char>,
    behind: Seq<char>,
    found: Seq<MatchView>,
    n: int,
)
    requires
        !before.contains('@'),
        0 <= n <= found.len(),
        m.len() > 0,
        forall|k: int| 1 <= k < m.len() ==> #[trigger] m[k] != '@',
        forall|j: int| 0 <= j < found.len() ==> is_puppet_text(#[trigger] found[j]),
        forall|j: int| 0 <= j < n ==> !(#[trigger] found[j]).groups[0].is_prefix_of(m),
        behind.len() > 0 ==> behind[0] != '@' && forall|j: int|
            0 <= j < found.len() ==> !(#[trigger] found[j]).groups[0].contains(behind[0]),
    ensures
        with_mentions(before + m + behind, found.take(n)) == before + m + with_mentions(
            behind,
            found.take(n),
        ),
        (with_mentions(behind, found.take(n)).len() > 0) == (behind.len() > 0),
        behind.len() > 0 ==> with_mentions(behind, found.take(n))[0] == behind[0],
    decreases n,
{
    if n > 0 {
        let some = found.take(n);
        let fewer = found.take(n - 1);
        assert(some.drop_last() =~= fewer);
        assert(some.last() == found[n - 1]);
        lemma_a_puppet_waits(before, m, behind, found, n - 1);
        assert(is_puppet_text(found[n - 1]));
        let from = found[n - 1].groups[0];
        let to = "<@"@ + found[n - 1].groups[1] + ">"@;
        let done = with_mentions(behind, fewer);
        assert(!m.drop_first().contains('@')) by {
            if m.drop_first().contains('@') {
                let k = m.drop_first().index_of('@');
                assert(m[k + 1] == '@');
            }
        }
        assert(before + m + done =~= before + (m + done));
        text::lemma_replacing_behind(before, m + done, from, to);
        text::lemma_replacing_skips_a_word(m, done, from, to);
        assert(before + (m + text::replaced(done, from, to)) =~= before + m + text::replaced(
            done,
            from,
            to,
        ));
        if behind.len() > 0 {
            let first = done.take(1);
            let rest = done.skip(1);
            assert(done =~= first + rest);
            assert(!first.contains('@')) by {
                if first.contains('@') {
                    assert(first[0] == '@');
                }
            }
            text::lemma_replacing_behind(first, rest, from, to);
        } else {
            assert(done =~= Seq::<char>::empty());
            text::law_find_is_first(done, from);
        }
    } else {
        assert(found.take(0) =~= Seq::<MatchView>::empty());
    }
}

/// The name of a room is what its last name event says, wherever that stands among the states, and
/// there is none where there is no such event.
pub proof fn law_the_last_name_counts(states: Seq<JsonView>, i: int)
    ensures
        0 <= i < states.len() && states[i].at("type"@) == JsonView::Text("m.room.name"@) && (forall|
            j: int,
        |
            i < j < states.len() ==> (#[trigger] states[j]).at("type"@) != JsonView::Text(
                "m.room.name"@,
            )) ==> stated_name(states) == states[i].at("content"@).at("name"@).as_text(),
        (forall|j: int|
            0 <= j < states.len() ==> (#[trigger] states[j]).at("type"@) != JsonView::Text(
                "m.room.name"@,
            )) ==> stated_name(states) is None,
    decreases states.len(),
{
    if states.len() > 0 {
        let fewer = states.drop_last();
        law_the_last_name_counts(fewer, i);
        assert(states[states.len() - 1] == states.last());
        assert forall|j: int| 0 <= j < fewer.len() implies #[trigger] fewer[j] == states[j] by {}
    }
}

/// Everyone who types counts but the bridge's own users: the counts of two lists add up, and of one
/// it is one for a stranger and none for a puppet or the bot.
pub proof fn law_strangers_who_type_are_counted(
    config: ConfigView,
    a: Seq<JsonView>,
    b: Seq<JsonView>,
    user: Seq<char>,
)
    ensures
        foreign_typers(config, a + b) == foreign_typers(config, a) + foreign_typers(config, b),
        foreign_typers(config, seq![JsonView::Text(user)]) == if "@_discord_"@.is_prefix_of(user)
            || user == "@"@ + config.user_id + ":"@ + config.server_name {
            0nat
        } else {
            1nat
        },
    decreases b.len(),
{
    let one = seq![JsonView::Text(user)];
    assert(one.drop_last() =~= Seq::<JsonView>::empty());
    assert(foreign_typers(config, Seq::<JsonView>::empty()) == 0);
    if b.len() == 0 {
        assert(a + b =~= a);
    } else {
        law_strangers_who_type_are_counted(config, a, b.drop_last(), user);
        assert((a + b).drop_last() =~= a + b.drop_last());
        assert((a + b).last() == b.last());
    }
}

/// Of the messages of strangers a text that begins with `!` is a command, one that replaces another
/// is an edit of it, and every other is forwarded.
pub proof fn law_strangers_are_heard(config: ConfigView, sender: Seq<char>, content: JsonView)
    requires
        !config::is_bridge_user(config, sender),
    ensures
        ({
            let body = content.at("body"@).text_or(""@);
            let plain = content.at("msgtype"@) !is Text || content.at("msgtype"@) == JsonView::Text(
                "m.text"@,
            );
            let command = plain && body.len() > 0 && body[0] == '!';
            let replaces = content.at("m.relates_to"@).at("rel_type"@) == JsonView::Text(
                "m.replace"@,
            );
            &&& message_route(config, sender, content) is Command <==> command
            &&& message_route(config, sender, content) is Edit <==> !command && replaces
            &&& message_route(config, sender, content) is Forward <==> !command && !replaces
            &&& command ==> message_route(config, sender, content) == MessageRouteView::Command(
                body,
            )
            &&& !command && !replaces ==> message_route(config, sender, content)
                == MessageRouteView::Forward(content.at("msgtype"@).text_or("m.text"@))
        }),
{
    reveal_strlit("!");
    let body = content.at("body"@).text_or(""@);
    if body.len() > 0 && body[0] == '!' {
        assert(body.subrange(0, 1) =~= "!"@);
    }
    if "!"@.is_prefix_of(body) {
        assert(body.subrange(0, 1)[0] == body[0]);
    }
}

/// A file that is a spoiler has a name that says so to Discord, and every other keeps its name.
pub proof fn law_spoilers_are_named(content: JsonView, name: Seq<char>)
    ensures
        ({
            let body = content.at("body"@).text_or("attachment"@);
            &&& is_spoiler(content, body) ==> "SPOILER_"@.is_prefix_of(media_name(content))
            &&& !is_spoiler(content, body) ==> media_name(content) == body
            &&& "SPOILER_"@.is_prefix_of(body) ==> media_name(content) == body
            &&& !"spoiler_"@.is_prefix_of(name) && body == "spoiler_"@ + name ==> media_name(
                content,
            ) == "SPOILER_"@ + name
        }),
{
    reveal_strlit("SPOILER_");
    reveal_strlit("spoiler_");
    let body = content.at("body"@).text_or("attachment"@);
    let rest = text::without_leading(body, "spoiler_"@);
    assert(("SPOILER_"@ + rest).subrange(0, 8) =~= "SPOILER_"@);
    if body == "spoiler_"@ + name {
        text::law_leading_copies_are_removed(name, "spoiler_"@);
        assert(body.subrange(0, 8) =~= "spoiler_"@);
        if "SPOILER_"@.is_prefix_of(body) {
            assert(body.subrange(0, 8)[0] == 'S');
        }
    }
}

/// A sender is shown by the name that the room knows, or else by what stands before the server.
pub proof fn law_senders_are_named(
    member: MatrixUserView,
    local: Seq<char>,
    server: Seq<char>,
)
    requires
        !local.contains(':'),
    ensures
        sender_name(None, local + seq![':'] + server) == local,
        sender_name(Some(member), local + seq![':'] + server) == match member.display_name {
            Some(name) => name,
            None => local,
        },
{
    text::lemma_split_first(local, ':', server);
}

/// A reaction by an emote that Discord has names its number, and any other is the text itself.
pub proof fn law_reactions_name_their_emote(key: Seq<char>, found: Seq<MatchView>)
    ensures
        found.len() > 0 ==> ("%3A"@ + found[0].groups[1]).is_suffix_of(
            discord_reaction(key, Some(found)),
        ),
        found.len() == 0 ==> discord_reaction(key, Some(found)) == web::percent_text(key),
        discord_reaction(key, None) == web::percent_text(key),
{
    if found.len() > 0 {
        let end = "%3A"@ + found[0].groups[1];
        let all = discord_reaction(key, Some(found));
        assert(all.subrange(all.len() - end.len(), all.len() as int) =~= end);
    }
}

/// Reactions of one sender to one message are kept apart by what they are.
pub proof fn law_reactions_are_kept_apart(
    message: Seq<char>,
    sender: Seq<char>,
    key: Seq<char>,
    other: Seq<char>,
)
    requires
        matrix_reaction_key(message, sender, key) == matrix_reaction_key(message, sender, other),
    ensures
        key == other,
{
    let n = message.len() + ":"@.len() + sender.len() + ":"@.len();
    assert(key =~= matrix_reaction_key(message, sender, key).skip(n as int));
    assert(other =~= matrix_reaction_key(message, sender, other).skip(n as int));
}

/// Typing is shown on Discord where the bridge carries messages and typing, and only there.
pub proof fn law_typing_is_shown_where_it_is_wanted(bridge: BridgedRoom)
    ensures
        typed_channel(Some(bridge)) == if bridge.m2d_enabled && bridge.m2d_typing {
            Some(bridge.channel_id@)
        } else {
            None
        },
        typed_channel(Some(bridge)) is Some ==> typed_channel(Some(bridge)) == channel_of(
            Some(bridge),
        ),
{
}

/// The homeserver's token is taken from the header, or from the query wherever it stands there.
pub proof fn law_the_token_is_found(
    config: ConfigView,
    before: Seq<char>,
    behind: Seq<char>,
    query: Option<Seq<char>>,
)
    requires
        !before.contains('&'),
        !"access_token="@.is_prefix_of(before),
        !config.hs_token.contains('&'),
    ensures
        is_authorized(config, query, Some("Bearer "@ + config.hs_token)),
        is_authorized(config, Some("access_token="@ + config.hs_token), None),
        is_authorized(
            config,
            Some("access_token="@ + config.hs_token + seq!['&'] + behind),
            None,
        ),
        is_authorized(
            config,
            Some(before + seq!['&'] + ("access_token="@ + config.hs_token)),
            None,
        ),
        !is_authorized(config, Some(before), None),
{
    reveal_strlit("access_token=");
    assert(!"access_token="@.contains('&')) by {
        if "access_token="@.contains('&') {
            let k = "access_token="@.index_of('&');
            assert("access_token="@[k] == '&');
        }
    }
    http::law_parameters_are_found(before, "access_token="@, config.hs_token, behind);
}

/// What a moderator takes back is deleted on Discord only where the bridge lets moderators delete;
/// whoever sent a message can always take it back.
pub proof fn law_own_messages_can_be_taken_back(case: RedactionCase)
    ensures
        (case.sender matches Some(sender) && (case.author matches Some(Some(author)) && author@
            == sender@)) ==> !case.is_moderation(),
        (case.sender matches Some(sender) && (case.author matches Some(Some(author)) && author@
            != sender@)) ==> case.is_moderation(),
        case.concerns_discord() <==> (case.message_id matches Some(Some(_))) && (
        case.bridge matches Some(Some(bridge)) && bridge.m2d_enabled),
{
}

/// A message reaches Discord as text or as a file exactly where a stranger sent it, it is neither a
/// command nor an edit, its kind can be forwarded, and its room's bridge is open.
pub proof fn law_messages_reach_open_bridges(
    config: ConfigView,
    sender: Seq<char>,
    bridge: BridgedRoom,
    content: JsonView,
    kind: Seq<char>,
)
    requires
        message_route(config, sender, content) == MessageRouteView::Forward(kind),
    ensures
        bridge.m2d_enabled && (kind == "m.text"@ || kind == "m.notice"@ || kind == "m.emote"@)
            ==> message_step(config, sender, Some(Some(bridge)), content) == Ok::<
            MessageStepView,
            BridgeErrorView,
        >(MessageStepView::Text(bridge.channel_id@)),
        !bridge.m2d_enabled ==> message_step(config, sender, Some(Some(bridge)), content) == Ok::<
            MessageStepView,
            BridgeErrorView,
        >(MessageStepView::Ignore),
        message_step(config, sender, Some(None), content) == Ok::<MessageStepView, BridgeErrorView>(
            MessageStepView::Ignore,
        ),
        message_step(config, sender, None, content) == Ok::<MessageStepView, BridgeErrorView>(
            MessageStepView::AskBridge,
        ),
        bridge.m2d_enabled && (kind == "m.image"@ || kind == "m.file"@ || kind == "m.video"@ || kind
            == "m.audio"@) && media_for(config, content) is Ok ==> message_step(
            config,
            sender,
            Some(Some(bridge)),
            content,
        ) == Ok::<MessageStepView, BridgeErrorView>(
            MessageStepView::File(bridge.channel_id@, media_for(config, content)->Ok_0),
        ),
{
    reveal_strlit("m.text");
    reveal_strlit("m.notice");
    reveal_strlit("m.emote");
    reveal_strlit("m.image");
    reveal_strlit("m.file");
    reveal_strlit("m.video");
    reveal_strlit("m.audio");
    assert("m.text"@[2] == 't' && "m.notice"@[2] == 'n' && "m.emote"@[2] == 'e');
    assert("m.image"@[2] == 'i' && "m.file"@[2] == 'f' && "m.video"@[2] == 'v');
    assert("m.audio"@[2] == 'a');
}

/// A file is fetched from the homeserver by the address that its message gives.
pub proof fn law_files_are_fetched_by_their_address(
    config: ConfigView,
    content: JsonView,
    server: Seq<char>,
    media: Seq<char>,
)
    requires
        content.at("url"@) == JsonView::Text("mxc://"@ + server + "/"@ + media),
        !server.contains('/'),
        !media.contains('/'),
    ensures
        ({
            let address = config.homeserver + "/_matrix/client/v1/media/download/"@ + server + "/"@
                + media;
            &&& media_for(config, content) matches Ok(file) && file.0 == address && file.1
                == Seq::<char>::empty() && file.2 == media_name(content)
            &&& sticker_for(config, content) matches Ok(file) && file.0 == address && file.1
                == content.at("body"@).text_or("sticker"@)
        }),
{
    matrix_client::law_media_are_downloaded_from_their_address(config, server, media);
}

/// A sticker is named by its type: the type's text decides, wherever the word stands in it.
pub proof fn law_stickers_are_named_by_their_type(content: JsonView, mime: Seq<char>)
    requires
        content.at("info"@).at("mimetype"@) == JsonView::Text(mime),
    ensures
        text::holds(mime, "gif"@) ==> sticker_name(content) == "sticker.gif"@,
        !text::holds(mime, "gif"@) && text::holds(mime, "webp"@) ==> sticker_name(content)
            == "sticker.webp"@,
        !text::holds(mime, "gif"@) && !text::holds(mime, "webp"@) ==> sticker_name(content)
            == "sticker.png"@,
{
    text::law_find_is_first(mime, "gif"@);
    text::law_find_is_first(mime, "webp"@);
}

/// A reaction reaches Discord exactly where no puppet sent it, it says what it is and what it answers,
/// that has a message on Discord, and the bridge is open.
pub proof fn law_reactions_reach_open_bridges(
    sender: Seq<char>,
    content: JsonView,
    event: Seq<char>,
    key: Seq<char>,
    message: String,
    bridge: BridgedRoom,
)
    requires
        !"@_discord_"@.is_prefix_of(sender),
        content.at("m.relates_to"@).at("event_id"@) == JsonView::Text(event),
        content.at("m.relates_to"@).at("key"@) == JsonView::Text(key),
    ensures
        reaction_step(sender, content, None, Some(Some(bridge))) == Ok::<
            ReactionStepView,
            BridgeErrorView,
        >(ReactionStepView::AskMessage(event)),
        reaction_step(sender, content, Some(None), Some(Some(bridge))) == Ok::<
            ReactionStepView,
            BridgeErrorView,
        >(ReactionStepView::Ignore),
        reaction_step(sender, content, Some(Some(message)), None) == Ok::<
            ReactionStepView,
            BridgeErrorView,
        >(ReactionStepView::AskBridge),
        bridge.m2d_enabled ==> reaction_step(
            sender,
            content,
            Some(Some(message)),
            Some(Some(bridge)),
        ) == Ok::<ReactionStepView, BridgeErrorView>(
            ReactionStepView::React { channel: bridge.channel_id@, message: message@, key },
        ),
        !bridge.m2d_enabled ==> reaction_step(
            sender,
            content,
            Some(Some(message)),
            Some(Some(bridge)),
        ) == Ok::<ReactionStepView, BridgeErrorView>(ReactionStepView::Ignore),
{
}

/// Reactions of puppets never go back to Discord.
pub proof fn law_reactions_do_not_loop(
    id: Seq<char>,
    content: JsonView,
    message: Option<Option<String>>,
    bridge: Option<Option<BridgedRoom>>,
)
    ensures
        reaction_step("@_discord_"@ + id, content, message, bridge) == Ok::<
            ReactionStepView,
            BridgeErrorView,
        >(ReactionStepView::Ignore),
{
    let puppet = "@_discord_"@ + id;
    assert(puppet.subrange(0, "@_discord_"@.len() as int) =~= "@_discord_"@);
}

/// Events are told apart by their type, and no event has two kinds.
pub proof fn law_events_are_told_by_their_type(event_type: Seq<char>)
    ensures
        kind_of(event_type) == EventKind::Member <==> event_type == "m.room.member"@,
        kind_of(event_type) == EventKind::Message <==> event_type == "m.room.message"@,
        kind_of(event_type) == EventKind::Sticker <==> event_type == "m.sticker"@,
        kind_of(event_type) == EventKind::Redaction <==> event_type == "m.room.redaction"@,
        kind_of(event_type) == EventKind::Reaction <==> event_type == "m.reaction"@,
        kind_of(event_type) == EventKind::Typing <==> event_type == "m.typing"@,
        kind_of(event_type) == EventKind::Emotes <==> event_type == "im.ponies.emote_rooms"@
            || event_type == "im.ponies.room_emotes"@,
{
    reveal_strlit("m.room.member");
    reveal_strlit("m.room.message");
    reveal_strlit("m.sticker");
    reveal_strlit("m.room.redaction");
    reveal_strlit("m.reaction");
    reveal_strlit("m.typing");
    reveal_strlit("im.ponies.emote_rooms");
    reveal_strlit("im.ponies.room_emotes");
    assert("m.room.member"@.len() == 13 && "m.room.message"@.len() == 14);
    assert("m.sticker"@.len() == 9 && "m.room.redaction"@.len() == 16);
    assert("m.reaction"@.len() == 10 && "m.typing"@.len() == 8);
    assert("im.ponies.emote_rooms"@.len() == 21 && "im.ponies.room_emotes"@.len() == 21);
}

/// A sender's picture is a link to the picture that the room knows, and there is none where it knows
/// none.
pub proof fn law_pictures_are_linked(
    config: ConfigView,
    members: Map<Seq<char>, MatrixUserView>,
    user: Seq<char>,
    now: int,
)
    ensures
        members.contains_key(user) && members[user].avatar_url is Some ==> sender_avatar(
            config,
            member_of(members, user),
            now,
        ) == avatar::avatar_link(config, members[user].avatar_url->0, now),
        members.contains_key(user) && members[user].avatar_url is None ==> sender_avatar(
            config,
            member_of(members, user),
            now,
        ) is None,
        !members.contains_key(user) ==> sender_avatar(
            config,
            member_of(members, user),
            now,
        ) is None,
{
}

} // verus!

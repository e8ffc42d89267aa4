//! Requests to the Matrix homeserver, and what its replies say.

use vstd::prelude::*;
use vstd::string::*;

use crate::avatar;
use crate::cache;
use crate::cache::{Cache, MatrixUser, MatrixUserView};
use crate::config::{Config, ConfigView};
use crate::discord_api;
use crate::discord_client::{AttachmentInfo, AttachmentView};
use crate::error::{BridgeError, BridgeErrorView};
use crate::json::{Json, JsonView};
use crate::message;
use crate::message::MessageContent;
use crate::number;
use crate::table::{Duplicate, TextMap};
use crate::text;
use crate::utils;
use crate::web;
use crate::web::{SourceCheck, SourceCheckView};

verus! {

/// What is asked of a server.
#[derive(Clone, Copy, PartialEq, Eq, Structural, Debug)]
pub enum Method {
    Get,
    Post,
    Put,
    Patch,
    Delete,
}

/// A request to the homeserver's client interface.
pub struct MatrixRequest {
    pub method: Method,
    pub path: String,
    pub body: Option<Json>,
    /// The user of the bridge in whose name the request is made.
    pub user_id: Option<String>,
}

/// What a request says.
pub struct RequestView {
    pub method: Method,
    pub path: Seq<char>,
    pub body: Option<JsonView>,
    pub user_id: Option<Seq<char>>,
}

/// What an optional JSON value says.
pub open spec fn opt_json(json: Option<Json>) -> Option<JsonView> {
    match json {
        Some(value) => Some(value@),
        None => None,
    }
}

impl View for MatrixRequest {
    type V = RequestView;

    open spec fn view(&self) -> RequestView {
        RequestView {
            method: self.method,
            path: self.path@,
            body: opt_json(self.body),
            user_id: web::opt_text(self.user_id),
        }
    }
}

/// A string for an optional text.
fn owned(s: Option<&str>) -> (res: Option<String>)
    ensures
        web::opt_text(res) == utils::opt_str(s),
{
    match s {
        Some(value) => Some(value.to_owned()),
        None => None,
    }
}

/// A text of a JSON value.
pub open spec fn jt(s: Seq<char>) -> JsonView {
    JsonView::Text(s)
}

/// An event of a Matrix room, as far as the bridge reads it.
#[derive(Debug)]
pub struct MatrixEvent {
    pub event_id: String,
    pub sender: String,
    pub body: String,
    pub formatted_body: Option<String>,
}

/// A file to fetch and to hand to the homeserver.
pub struct Upload {
    pub source_url: String,
    pub upload_url: String,
    pub authorization: String,
    pub content_type: String,
    pub content_length: Option<String>,
}

/// What is fetched and how it is handed on.
pub struct UploadView {
    pub source_url: Seq<char>,
    pub upload_url: Seq<char>,
    pub authorization: Seq<char>,
    pub content_type: Seq<char>,
    pub content_length: Option<Seq<char>>,
}

impl View for Upload {
    type V = UploadView;

    open spec fn view(&self) -> UploadView {
        UploadView {
            source_url: self.source_url@,
            upload_url: self.upload_url@,
            authorization: self.authorization@,
            content_type: self.content_type@,
            content_length: web::opt_text(self.content_length),
        }
    }
}

/// The outcome of a decision on an upload, over texts.
pub open spec fn upload_outcome(res: Result<Upload, BridgeError>) -> Result<
    UploadView,
    BridgeErrorView,
> {
    match res {
        Ok(upload) => Ok(upload@),
        Err(e) => Err(e@),
    }
}

/// The outcome of a decision that gives a text, over texts.
pub open spec fn text_outcome(res: Result<String, BridgeError>) -> Result<
    Seq<char>,
    BridgeErrorView,
> {
    match res {
        Ok(s) => Ok(s@),
        Err(e) => Err(e@),
    }
}

/// Whether the extension of `url` is `name`, in either case.
pub open spec fn has_extension(url: Seq<char>, name: Seq<char>) -> bool {
    text::extension_of(url) matches Some(ext) && text::lowered(ext) == name
}

/// The media type of an image, told from the extension of its URL.
pub open spec fn image_type(url: Seq<char>, knows_jpeg: bool) -> Seq<char> {
    if has_extension(url, "gif"@) {
        "image/gif"@
    } else if has_extension(url, "webp"@) {
        "image/webp"@
    } else if knows_jpeg && (has_extension(url, "jpg"@) || has_extension(url, "jpeg"@)) {
        "image/jpeg"@
    } else {
        "image/png"@
    }
}

/// The media type of an image, told from the extension of its URL.
pub fn image_type_of(url: &str, knows_jpeg: bool) -> (res: String)
    ensures
        res@ == image_type(url@, knows_jpeg),
{
    match text::extension(url) {
        Some(ext) => {
            let lower = text::to_ascii_lowercase(ext.as_str());
            if text::same(lower.as_str(), "gif") {
                "image/gif".to_owned()
            } else if text::same(lower.as_str(), "webp") {
                "image/webp".to_owned()
            } else if knows_jpeg && (text::same(lower.as_str(), "jpg") || text::same(
                lower.as_str(),
                "jpeg",
            )) {
                "image/jpeg".to_owned()
            } else {
                "image/png".to_owned()
            }
        },
        None => "image/png".to_owned(),
    }
}

/// The media type of a file.
pub open spec fn attachment_type(attachment: AttachmentView) -> Seq<char> {
    match attachment.content_type {
        Some(t) => t,
        None => "application/octet-stream"@,
    }
}

fn attachment_type_of(attachment: &AttachmentInfo) -> (res: String)
    ensures
        res@ == attachment_type(attachment@),
{
    match &attachment.content_type {
        Some(t) => t.clone(),
        None => "application/octet-stream".to_owned(),
    }
}

/// The kind of message that a file of this media type makes.
pub open spec fn media_kind(content_type: Seq<char>) -> Seq<char> {
    if "image/"@.is_prefix_of(content_type) {
        "m.image"@
    } else if "video/"@.is_prefix_of(content_type) {
        "m.video"@
    } else if "audio/"@.is_prefix_of(content_type) {
        "m.audio"@
    } else {
        "m.file"@
    }
}

/// What a message says of the file that it carries. Images and videos have their measures where
/// both are known; an image is its own thumbnail.
pub open spec fn media_info(attachment: AttachmentView, mxc: Seq<char>) -> JsonView {
    let content_type = attachment_type(attachment);
    let size = JsonView::Number(attachment.size as nat);
    let plain = JsonView::object().with("size"@, size).with("mimetype"@, jt(content_type));
    let kind = media_kind(content_type);
    match (attachment.width, attachment.height) {
        (Some(w), Some(h)) => {
            let width = JsonView::Number(w as nat);
            let height = JsonView::Number(h as nat);
            if kind == "m.image"@ {
                plain.with("w"@, width).with("h"@, height).with("thumbnail_url"@, jt(mxc)).with(
                    "thumbnail_info"@,
                    JsonView::object().with("mimetype"@, jt(content_type)).with("size"@, size).with(
                        "w"@,
                        width,
                    ).with("h"@, height),
                )
            } else if kind == "m.video"@ {
                plain.with("w"@, width).with("h"@, height)
            } else {
                plain
            }
        },
        _ => plain,
    }
}

/// The content of a message that carries a file.
pub open spec fn media_content(attachment: AttachmentView, mxc: Seq<char>) -> JsonView {
    let content = JsonView::object().with(
        "msgtype"@,
        jt(media_kind(attachment_type(attachment))),
    ).with("body"@, jt(attachment.filename)).with("url"@, jt(mxc)).with(
        "info"@,
        media_info(attachment, mxc),
    );
    if "SPOILER_"@.is_prefix_of(attachment.filename) || "spoiler_"@.is_prefix_of(
        attachment.filename,
    ) {
        content.with("page.codeberg.everypizza.msc4193.spoiler"@, JsonView::Bool(true))
    } else {
        content
    }
}

/// The content of a sticker event.
pub open spec fn sticker_content(
    filename: Seq<char>,
    mxc: Seq<char>,
    content_type: Seq<char>,
    size: nat,
) -> JsonView {
    JsonView::object().with("body"@, jt(filename)).with("url"@, jt(mxc)).with(
        "info"@,
        JsonView::object().with("mimetype"@, jt(content_type)).with(
            "size"@,
            JsonView::Number(size),
        ).with("w"@, JsonView::Number(320)).with("h"@, JsonView::Number(320)),
    )
}

/// The content that replaces that of an earlier event. Clients that know no edits see it marked
/// with a star.
pub open spec fn edit_content(content: JsonView, original: Seq<char>) -> JsonView {
    let related = content.with("m.new_content"@, content).with(
        "m.relates_to"@,
        JsonView::object().with("rel_type"@, jt("m.replace"@)).with("event_id"@, jt(original)),
    );
    let starred = match related.at("body"@).as_text() {
        Some(body) => related.with("body"@, jt("* "@ + body)),
        None => related,
    };
    match starred.at("formatted_body"@).as_text() {
        Some(html) => starred.with("formatted_body"@, jt("* "@ + html)),
        None => starred,
    }
}

/// The content of a reaction.
pub open spec fn reaction_content(event: Seq<char>, key: Seq<char>) -> JsonView {
    JsonView::object().with(
        "m.relates_to"@,
        JsonView::object().with("rel_type"@, jt("m.annotation"@)).with("event_id"@, jt(event)).with(
            "key"@,
            jt(key),
        ),
    )
}

/// What a new room is made with.
pub open spec fn room_content(
    config: ConfigView,
    channel: Seq<char>,
    name: Seq<char>,
    topic: Seq<char>,
    invitee: Seq<char>,
) -> JsonView {
    let full = JsonView::Number(100);
    JsonView::object().with("room_alias_name"@, jt("_discord_"@ + channel)).with(
        "name"@,
        jt(name),
    ).with("topic"@, jt(topic)).with("visibility"@, jt("private"@)).with(
        "invite"@,
        JsonView::Array(seq![jt(invitee)]),
    ).with(
        "creation_content"@,
        JsonView::object().with("m.federate"@, JsonView::Bool(true)),
    ).with(
        "initial_state"@,
        JsonView::Array(
            seq![
                JsonView::object().with("type"@, jt("m.room.join_rules"@)).with(
                    "content"@,
                    JsonView::object().with("join_rule"@, jt("public"@)),
                ),
                JsonView::object().with("type"@, jt("m.room.history_visibility"@)).with(
                    "content"@,
                    JsonView::object().with("history_visibility"@, jt("shared"@)),
                ),
            ],
        ),
    ).with(
        "power_level_content_override"@,
        JsonView::object().with(
            "users"@,
            JsonView::object().with(invitee, full).with(config.bot_user(), full),
        ),
    )
}

/// The text before the first colon of a user, without the at sign.
pub open spec fn local_part(mxid: Seq<char>) -> Seq<char> {
    text::split_text(text::trimmed_start(mxid, text::Trim::Only('@')), seq![':'])[0]
}

/// Whether a text is a UUID: 32 lower-case hexadecimal digits in five groups.
pub open spec fn is_uuid(s: Seq<char>) -> bool {
    &&& s.len() == 36
    &&& forall|i: int|
        0 <= i < 36 ==> if i == 8 || i == 13 || i == 18 || i == 23 {
            #[trigger] s[i] == '-'
        } else {
            '0' <= s[i] <= '9' || 'a' <= s[i] <= 'f'
        }
}

/// Makes an identifier with `uuid::Uuid::new_v4`, written out by its `Display`. Trusted: it has the
/// shape of a UUID. Which one it is, is left to chance.
#[verifier::external_body]
fn new_transaction_id() -> (id: String)
    ensures
        is_uuid(id@),
{
    uuid::Uuid::new_v4().to_string()
}

/// Whether an identifier was drawn by chance.
pub closed spec fn is_drawn(s: Seq<char>) -> bool {
    exists|id: String| #[trigger] call_ensures(new_transaction_id, (), id) && id@ == s
}

/// The request that sends an event.
pub open spec fn event_request(
    room: Seq<char>,
    kind: Seq<char>,
    transaction: Seq<char>,
    content: JsonView,
    user: Option<Seq<char>>,
) -> RequestView {
    RequestView {
        method: Method::Put,
        path: "/rooms/"@ + web::percent_text(room) + "/send/"@ + kind + "/"@ + transaction,
        body: Some(content),
        user_id: user,
    }
}

/// The request that takes an event back.
pub open spec fn redaction_request(
    room: Seq<char>,
    event: Seq<char>,
    transaction: Seq<char>,
    reason: Option<Seq<char>>,
) -> RequestView {
    RequestView {
        method: Method::Put,
        path: "/rooms/"@ + web::percent_text(room) + "/redact/"@ + web::percent_text(event) + "/"@
            + transaction,
        body: Some(
            match reason {
                Some(r) => JsonView::object().with("reason"@, jt(r)),
                None => JsonView::object(),
            },
        ),
        user_id: None,
    }
}

/// Whether a request sends an event under some transaction of its own.
pub open spec fn sends_event(
    request: RequestView,
    room: Seq<char>,
    kind: Seq<char>,
    content: JsonView,
    user: Option<Seq<char>>,
) -> bool {
    exists|transaction: Seq<char>|
        is_uuid(transaction) && is_drawn(transaction) && request == #[trigger] event_request(
            room,
            kind,
            transaction,
            content,
            user,
        )
}

/// Makes the request that sends an event.
pub fn make_event_request(
    room_id: &str,
    kind: &str,
    transaction: &str,
    content: Json,
    user: Option<&str>,
) -> (request: MatrixRequest)
    ensures
        request@ == event_request(room_id@, kind@, transaction@, content@, utils::opt_str(user)),
{
    MatrixRequest {
        method: Method::Put,
        path: "/rooms/".to_owned().concat(web::percent_encode(room_id).as_str()).concat(
            "/send/",
        ).concat(kind).concat("/").concat(transaction),
        body: Some(content),
        user_id: owned(user),
    }
}

/// Makes the request that takes an event back.
pub fn make_redaction_request(
    room_id: &str,
    event_id: &str,
    transaction: &str,
    reason: Option<&str>,
) -> (request: MatrixRequest)
    ensures
        request@ == redaction_request(room_id@, event_id@, transaction@, utils::opt_str(reason)),
{
    MatrixRequest {
        method: Method::Put,
        path: "/rooms/".to_owned().concat(web::percent_encode(room_id).as_str()).concat(
            "/redact/",
        ).concat(web::percent_encode(event_id).as_str()).concat("/").concat(transaction),
        body: Some(
            match reason {
                Some(r) => Json::object().with_text("reason", r),
                None => Json::object(),
            },
        ),
        user_id: None,
    }
}

/// A request without a body that is made in the bridge's own name.
pub open spec fn lookup_request(path: Seq<char>) -> RequestView {
    RequestView { method: Method::Get, path, body: None, user_id: None }
}

fn make_lookup(path: String) -> (request: MatrixRequest)
    ensures
        request@ == lookup_request(path@),
{
    MatrixRequest { method: Method::Get, path, body: None, user_id: None }
}

/// A request as it goes over the wire.
pub struct OutgoingRequest {
    pub method: Method,
    pub url: String,
    pub authorization: String,
    pub content_type: String,
    pub body: Option<Json>,
}

/// The emoji of one pack: its images that have a URL, by shortcode.
pub open spec fn pack_emojis(pack: JsonView) -> Map<Seq<char>, Seq<char>> {
    match pack.at("images"@).as_object() {
        Some(images) => Map::new(
            |k: Seq<char>| images.contains_key(k) && images[k].at("url"@) is Text,
            |k: Seq<char>| images[k].at("url"@)->Text_0,
        ),
        None => Map::empty(),
    }
}

/// Whether `code` is a shortcode in one of the packs of an emote room event.
pub open spec fn in_some_pack(state: JsonView, code: Seq<char>) -> bool {
    state.at("rooms"@).as_object() matches Some(rooms) && exists|room: Seq<char>|
        #[trigger] rooms.contains_key(room) && pack_emojis(rooms[room]).contains_key(code)
}

/// Whether `url` is what one of the packs of an emote room event gives for `code`.
pub open spec fn pack_gives(state: JsonView, code: Seq<char>, url: Seq<char>) -> bool {
    state.at("rooms"@).as_object() matches Some(rooms) && exists|room: Seq<char>|
        #[trigger] rooms.contains_key(room) && pack_emojis(rooms[room]).contains_key(code)
            && pack_emojis(rooms[room])[code] == url
}

/// What an optional state event says, null where there is none.
pub open spec fn state_view(state: Option<&Json>) -> JsonView {
    match state {
        Some(value) => value@,
        None => JsonView::Null,
    }
}

/// Whether a map holds the emoji of a room: those of the room's own pack, and of the packs of the
/// emote room event where the room's own pack has no such shortcode. Where two of the latter have the
/// same shortcode, either may count.
pub open spec fn are_room_emojis(
    emojis: Map<Seq<char>, Seq<char>>,
    emote_rooms: JsonView,
    room_emotes: JsonView,
) -> bool {
    let own = pack_emojis(room_emotes);
    &&& forall|k: Seq<char>|
        #[trigger] emojis.contains_key(k) <==> own.contains_key(k) || in_some_pack(emote_rooms, k)
    &&& forall|k: Seq<char>|
        #[trigger] emojis.contains_key(k) ==> if own.contains_key(k) {
            emojis[k] == own[k]
        } else {
            pack_gives(emote_rooms, k, emojis[k])
        }
}

/// Adds the emoji of a pack to a map.
fn insert_pack(emojis: &mut TextMap<String>, pack: &Json)
    ensures
        final(emojis)@ == old(emojis)@.union_prefer_right(pack_emojis(pack@)),
{
    let ghost before = emojis@;
    let ghost all = pack_emojis(pack@);
    let keys = pack.keys_at("images");
    let ghost views = text::texts(keys@);
    let count: usize = keys.len();
    let mut i: usize = 0;
    match pack.get("images") {
        Some(images) => {
            while i < count
                invariant
                    count == keys@.len(),
                    views == text::texts(keys@),
                    i <= count,
                    images@ == pack@.at("images"@),
                    all == pack_emojis(pack@),
                    forall|k: Seq<char>|
                        views.contains(k) <==> (pack@.at("images"@).as_object() matches Some(m)
                            && m.contains_key(k)),
                    forall|k: Seq<char>| #[trigger]
                        emojis@.contains_key(k) <==> before.contains_key(k) || (all.contains_key(
                            k,
                        ) && views.take(i as int).contains(k)),
                    forall|k: Seq<char>| #[trigger]
                        emojis@.contains_key(k) ==> emojis@[k] == if all.contains_key(k)
                            && views.take(i as int).contains(k) {
                            all[k]
                        } else {
                            before[k]
                        },
                decreases count - i,
            {
                proof {
                    assert(views[i as int] == keys@[i as int]@);
                    assert(views.contains(keys@[i as int]@));
                    assert forall|k: Seq<char>| views.take(i + 1).contains(k) <==> (views.take(
                        i as int,
                    ).contains(k) || k == keys@[i as int]@) by {
                        if views.take(i + 1).contains(k) {
                            let j = views.take(i + 1).index_of(k);
                            if j < i {
                                assert(views.take(i as int)[j] == k);
                            }
                        }
                        if views.take(i as int).contains(k) {
                            let j = views.take(i as int).index_of(k);
                            assert(views.take(i + 1)[j] == k);
                        }
                        if k == keys@[i as int]@ {
                            assert(views.take(i + 1)[i as int] == k);
                        }
                    }
                }
                match images.get(keys[i].as_str()) {
                    Some(image) => match image.text_at("url") {
                        Some(url) => {
                            emojis.insert(keys[i].clone(), url);
                        },
                        None => {},
                    },
                    None => {},
                }
                i += 1;
            }
            proof {
                assert(views.take(count as int) =~= views);
                assert(emojis@ =~= before.union_prefer_right(all));
            }
        },
        None => {
            assert(all =~= Map::<Seq<char>, Seq<char>>::empty());
            assert(emojis@ =~= before.union_prefer_right(all));
        },
    }
}

/// Collects the emoji of a room from its two state events, as far as they could be fetched.
pub fn collect_room_emojis(emote_rooms: Option<&Json>, room_emotes: Option<&Json>) -> (emojis:
    TextMap<String>)
    ensures
        are_room_emojis(emojis@, state_view(emote_rooms), state_view(room_emotes)),
{
    let mut emojis: TextMap<String> = TextMap::new();
    let ghost state = state_view(emote_rooms);
    match emote_rooms {
        Some(event) => {
            let keys = event.keys_at("rooms");
            let ghost views = text::texts(keys@);
            let count: usize = keys.len();
            match event.get("rooms") {
                Some(rooms) => {
                    let mut i: usize = 0;
                    while i < count
                        invariant
                            count == keys@.len(),
                            views == text::texts(keys@),
                            i <= count,
                            rooms@ == state.at("rooms"@),
                            forall|k: Seq<char>|
                                views.contains(k) <==> (state.at("rooms"@).as_object() matches Some(
                                    m,
                                ) && m.contains_key(k)),
                            forall|k: Seq<char>| #[trigger]
                                emojis@.contains_key(k) ==> pack_gives(state, k, emojis@[k]),
                            forall|j: int, k: Seq<char>|
                                0 <= j < i && #[trigger] pack_emojis(
                                    rooms@.at(views[j]),
                                ).contains_key(k) ==> emojis@.contains_key(k),
                        decreases count - i,
                    {
                        let ghost before = emojis@;
                        proof {
                            assert(views[i as int] == keys@[i as int]@);
                            assert(views.contains(keys@[i as int]@));
                        }
                        match rooms.get(keys[i].as_str()) {
                            Some(pack) => {
                                insert_pack(&mut emojis, pack);
                                proof {
                                    let members = state.at("rooms"@).as_object()->0;
                                    assert(members.contains_key(keys@[i as int]@));
                                    assert(members[keys@[i as int]@] == pack@);
                                    assert forall|k: Seq<char>| #[trigger] emojis@.contains_key(
                                        k,
                                    ) implies pack_gives(state, k, emojis@[k]) by {
                                        if pack_emojis(pack@).contains_key(k) {
                                            assert(members.contains_key(keys@[i as int]@));
                                        } else {
                                            assert(before.contains_key(k));
                                            assert(pack_gives(state, k, before[k]));
                                        }
                                    }
                                }
                            },
                            None => {},
                        }
                        i += 1;
                    }
                    proof {
                        assert forall|k: Seq<char>| #[trigger] in_some_pack(
                            state,
                            k,
                        ) implies emojis@.contains_key(k) by {
                            let members = state.at("rooms"@).as_object()->0;
                            let room = choose|room: Seq<char>| #[trigger]
                                members.contains_key(room) && pack_emojis(
                                    members[room],
                                ).contains_key(k);
                            assert(views.contains(room));
                            let j = views.index_of(room);
                            assert(rooms@.at(views[j]) == members[room]);
                            assert(pack_emojis(rooms@.at(views[j])).contains_key(k));
                        }
                    }
                },
                None => {},
            }
        },
        None => {},
    }
    let ghost first = emojis@;
    proof {
        assert forall|k: Seq<char>| #[trigger] first.contains_key(k) <==> in_some_pack(state, k) by {
            if first.contains_key(k) {
                assert(pack_gives(state, k, first[k]));
                let members = state.at("rooms"@).as_object()->0;
                let room = choose|room: Seq<char>| #[trigger]
                    members.contains_key(room) && pack_emojis(members[room]).contains_key(k)
                        && pack_emojis(members[room])[k] == first[k];
                assert(members.contains_key(room));
            }
        }
    }
    match room_emotes {
        Some(event) => {
            insert_pack(&mut emojis, event);
        },
        None => {
            assert(pack_emojis(JsonView::Null) =~= Map::<Seq<char>, Seq<char>>::empty());
        },
    }
    emojis
}

/// The members of a room, as a list of joined members gives them.
pub open spec fn joined_members(reply: JsonView) -> Map<Seq<char>, MatrixUserView> {
    match reply.at("joined"@).as_object() {
        Some(joined) => Map::new(
            |k: Seq<char>| joined.contains_key(k),
            |k: Seq<char>|
                MatrixUserView {
                    avatar_url: joined[k].at("avatar_url"@).as_text(),
                    display_name: joined[k].at("display_name"@).as_text(),
                },
        ),
        None => Map::empty(),
    }
}

/// Reads a list of joined members.
pub fn read_members(reply: &Json) -> (members: TextMap<MatrixUser>)
    ensures
        members@ == joined_members(reply@),
{
    let mut members: TextMap<MatrixUser> = TextMap::new();
    let ghost all = joined_members(reply@);
    let keys = reply.keys_at("joined");
    let ghost views = text::texts(keys@);
    let count: usize = keys.len();
    match reply.get("joined") {
        Some(joined) => {
            let mut i: usize = 0;
            while i < count
                invariant
                    count == keys@.len(),
                    views == text::texts(keys@),
                    i <= count,
                    all == joined_members(reply@),
                    joined@ == reply@.at("joined"@),
                    forall|k: Seq<char>|
                        views.contains(k) <==> (reply@.at("joined"@).as_object() matches Some(m)
                            && m.contains_key(k)),
                    forall|k: Seq<char>| #[trigger]
                        members@.contains_key(k) ==> all.contains_key(k) && members@[k] == all[k],
                    forall|j: int| 0 <= j < i ==> members@.contains_key(#[trigger] views[j]),
                decreases count - i,
            {
                proof {
                    assert(views[i as int] == keys@[i as int]@);
                    assert(views.contains(keys@[i as int]@));
                }
                match joined.get(keys[i].as_str()) {
                    Some(data) => {
                        let user = MatrixUser {
                            avatar_url: data.text_at("avatar_url"),
                            display_name: data.text_at("display_name"),
                        };
                        members.insert(keys[i].clone(), user);
                    },
                    None => {},
                }
                i += 1;
            }
            proof {
                assert forall|k: Seq<char>| #[trigger] all.contains_key(
                    k,
                ) implies members@.contains_key(k) by {
                    assert(views.contains(k));
                    let j = views.index_of(k);
                    assert(members@.contains_key(views[j]));
                }
                assert(members@ =~= all);
            }
        },
        None => {
            assert(members@ =~= all);
        },
    }
    members
}

/// What a reply says of an event.
pub open spec fn event_fields(reply: JsonView) -> (Seq<char>, Seq<char>, Seq<char>, Option<
    Seq<char>,
>) {
    let content = match reply.get("content"@) {
        Some(c) => c,
        None => JsonView::object(),
    };
    (
        reply.at("event_id"@).text_or(""@),
        reply.at("sender"@).text_or(""@),
        content.at("body"@).text_or(""@),
        content.at("formatted_body"@).as_text(),
    )
}

/// Reads an event.
pub fn read_event(reply: &Json) -> (event: MatrixEvent)
    ensures
        (event.event_id@, event.sender@, event.body@, web::opt_text(event.formatted_body))
            == event_fields(reply@),
{
    let empty = Json::object();
    let content = match reply.get("content") {
        Some(c) => c,
        None => &empty,
    };
    MatrixEvent {
        event_id: reply.text_at_or("event_id", ""),
        sender: reply.text_at_or("sender", ""),
        body: content.text_at_or("body", ""),
        formatted_body: content.text_at("formatted_body"),
    }
}

/// The room that a reply names.
pub open spec fn named_room(reply: JsonView) -> Result<Seq<char>, BridgeErrorView> {
    match reply.at("room_id"@).as_text() {
        Some(room) => Ok(room),
        None => Err(BridgeErrorView::Matrix("No room_id in response"@)),
    }
}

/// Reads the room that a reply names.
pub fn read_room_id(reply: &Json) -> (res: Result<String, BridgeError>)
    ensures
        text_outcome(res) == named_room(reply@),
{
    match reply.text_at("room_id") {
        Some(room) => Ok(room),
        None => Err(BridgeError::matrix("No room_id in response")),
    }
}

/// What a file is moved for.
#[derive(Clone, Copy, PartialEq, Eq, Structural, Debug)]
pub enum MediaTask {
    /// To fetch a file that is to be uploaded from its URL.
    FetchSource,
    /// To upload a file that was fetched from its URL.
    Upload,
    /// To upload an attachment.
    UploadAttachment,
    /// To upload a sticker.
    UploadSticker,
    /// To fetch a file of the homeserver.
    Download,
    /// To pass a file of the homeserver on.
    StreamMedia,
    /// To pass a sticker of the homeserver on.
    StreamSticker,
}

/// What happens next once a request for a file was successful.
pub enum MediaStep {
    /// The file follows.
    Fetched,
    /// The body of the reply is to be read.
    ReadBody,
    /// The file has this content URL from now on.
    Uploaded(String),
    /// The reply names no content URL.
    Unreadable,
}

/// What happens next once a request for a file was successful, over texts.
pub enum MediaStepView {
    Fetched,
    ReadBody,
    Uploaded(Seq<char>),
    Unreadable,
}

impl View for MediaStep {
    type V = MediaStepView;

    open spec fn view(&self) -> MediaStepView {
        match self {
            MediaStep::Fetched => MediaStepView::Fetched,
            MediaStep::ReadBody => MediaStepView::ReadBody,
            MediaStep::Uploaded(url) => MediaStepView::Uploaded(url@),
            MediaStep::Unreadable => MediaStepView::Unreadable,
        }
    }
}

impl MediaTask {
    /// Whether a status means success. Some requests are content with every success, some only with
    /// a plain one.
    pub open spec fn is_done(self, status: u16) -> bool {
        match self {
            MediaTask::UploadAttachment | MediaTask::StreamMedia | MediaTask::StreamSticker => {
                discord_api::is_success(status)
            },
            _ => status == 200,
        }
    }

    /// Whether the file goes to the homeserver.
    pub open spec fn uploads(self) -> bool {
        self == MediaTask::Upload || self == MediaTask::UploadAttachment || self
            == MediaTask::UploadSticker
    }

    /// What is said before the status where a request failed.
    pub open spec fn complaint(self) -> Seq<char> {
        match self {
            MediaTask::FetchSource => "Failed to download media from URL: "@,
            MediaTask::Upload => "Failed to upload media: "@,
            MediaTask::UploadAttachment => "Failed to upload attachment: "@,
            MediaTask::UploadSticker => "Failed to upload sticker: "@,
            MediaTask::Download | MediaTask::StreamMedia => "Failed to download media: "@,
            MediaTask::StreamSticker => "Failed to download sticker: "@,
        }
    }
}

/// What the reply to a request for a file means, given its body, where that was read.
pub open spec fn media_outcome(
    task: MediaTask,
    status: u16,
    status_text: Seq<char>,
    reply: Option<JsonView>,
) -> Result<MediaStepView, BridgeErrorView> {
    if !task.is_done(status) {
        Err(BridgeErrorView::Matrix(task.complaint() + status_text))
    } else if !task.uploads() {
        Ok(MediaStepView::Fetched)
    } else {
        Ok(
            match reply {
                None => MediaStepView::ReadBody,
                Some(body) => match body.at("content_uri"@).as_text() {
                    Some(url) => MediaStepView::Uploaded(url),
                    None => MediaStepView::Unreadable,
                },
            },
        )
    }
}

/// The outcome of a request for a file, over texts.
pub open spec fn media_result(res: Result<MediaStep, BridgeError>) -> Result<
    MediaStepView,
    BridgeErrorView,
> {
    match res {
        Ok(step) => Ok(step@),
        Err(e) => Err(e@),
    }
}

/// What the reply to a request for a file means, given its body, where that was read.
pub fn judge_media_reply(task: MediaTask, status: u16, status_text: &str, reply: &Option<Json>) -> (
    res: Result<MediaStep, BridgeError>)
    ensures
        media_result(res) == media_outcome(task, status, status_text@, opt_json(*reply)),
{
    let done = match task {
        MediaTask::UploadAttachment | MediaTask::StreamMedia | MediaTask::StreamSticker => {
            discord_api::succeeded(status)
        },
        _ => status == 200,
    };
    if !done {
        let complaint = match task {
            MediaTask::FetchSource => "Failed to download media from URL: ",
            MediaTask::Upload => "Failed to upload media: ",
            MediaTask::UploadAttachment => "Failed to upload attachment: ",
            MediaTask::UploadSticker => "Failed to upload sticker: ",
            MediaTask::Download | MediaTask::StreamMedia => "Failed to download media: ",
            MediaTask::StreamSticker => "Failed to download sticker: ",
        };
        return Err(BridgeError::Matrix(complaint.to_owned().concat(status_text)));
    }
    match task {
        MediaTask::Upload | MediaTask::UploadAttachment | MediaTask::UploadSticker => match reply {
            None => Ok(MediaStep::ReadBody),
            Some(body) => match body.text_at("content_uri") {
                Some(url) => Ok(MediaStep::Uploaded(url)),
                None => Ok(MediaStep::Unreadable),
            },
        },
        _ => Ok(MediaStep::Fetched),
    }
}

/// The user of the Matrix side that stands for a Discord user.
pub open spec fn puppet(config: ConfigView, discord_id: Seq<char>, hashed: Option<Seq<char>>) -> Seq<
    char,
> {
    "@_discord_"@ + discord_id + match hashed {
        Some(h) => "-"@ + h,
        None => Seq::empty(),
    } + ":"@ + config.server_name
}

/// The alias of the room of a Discord channel.
pub open spec fn room_alias(config: ConfigView, channel: Seq<char>) -> Seq<char> {
    "#_discord_"@ + channel + ":"@ + config.server_name
}

/// Where a file of the homeserver is fetched.
pub open spec fn download_url(config: ConfigView, mxc: Seq<char>) -> Result<
    Seq<char>,
    BridgeErrorView,
> {
    match avatar::mxc_parts(mxc) {
        Some(parts) => Ok(
            config.homeserver + "/_matrix/client/v1/media/download/"@ + parts.0 + "/"@ + parts.1,
        ),
        None => Err(BridgeErrorView::Matrix("Invalid MXC URL format"@)),
    }
}

/// How the bridge handles a file at `url`, given whether it fetches from there.
pub open spec fn upload_decision(
    config: ConfigView,
    url: Seq<char>,
    check: SourceCheckView,
    malformed: BridgeErrorView,
    content_type: Seq<char>,
    content_length: Option<Seq<char>>,
) -> Result<UploadView, BridgeErrorView> {
    match check {
        SourceCheckView::Malformed(_) => Err(malformed),
        SourceCheckView::Untrusted => Err(
            BridgeErrorView::Matrix("Refused to fetch from untrusted domain"@),
        ),
        SourceCheckView::Trusted => Ok(
            UploadView {
                source_url: url,
                upload_url: config.homeserver + "/_matrix/media/v3/upload"@,
                authorization: "Bearer "@ + config.as_token,
                content_type,
                content_length,
            },
        ),
    }
}

/// What is wrong with an avatar's URL.
pub open spec fn bad_avatar_url(url: Seq<char>, check: SourceCheckView) -> BridgeErrorView {
    BridgeErrorView::Matrix(
        "Invalid avatar URL '"@ + url + "': "@ + match check {
            SourceCheckView::Malformed(reason) => reason,
            _ => Seq::empty(),
        },
    )
}

/// The request that invites a user into a room.
pub open spec fn invitation_request(room: Seq<char>, user: Seq<char>) -> RequestView {
    RequestView {
        method: Method::Post,
        path: "/rooms/"@ + web::percent_text(room) + "/invite"@,
        body: Some(JsonView::object().with("user_id"@, jt(user))),
        user_id: None,
    }
}

/// The request by which a user, or the bridge itself, joins a room.
pub open spec fn entry_request(room: Seq<char>, user: Option<Seq<char>>) -> RequestView {
    RequestView {
        method: Method::Post,
        path: "/join/"@ + web::percent_text(room),
        body: None,
        user_id: user,
    }
}

/// Where the room of an alias comes from.
pub enum AliasSource {
    /// It is remembered.
    Remembered(String),
    /// The homeserver is asked.
    Ask(MatrixRequest),
}

/// Where the emoji of a room come from.
pub enum EmojiSource {
    /// They are remembered.
    Remembered(TextMap<String>),
    /// The homeserver is asked for the packs of other rooms, and for the room's own.
    Ask(MatrixRequest, MatrixRequest),
}

/// The bridge's access to the homeserver: every request that it makes.
pub struct MatrixClient {
    pub config: Config,
}

impl MatrixClient {
    /// Access with the given settings.
    pub fn new(config: Config) -> (client: Self)
        ensures
            client.config == config,
    {
        MatrixClient { config }
    }

    /// The authorization of the bridge.
    pub fn authorization(&self) -> (s: String)
        ensures
            s@ == "Bearer "@ + self.config@.as_token,
    {
        "Bearer ".to_owned().concat(self.config.as_token.as_str())
    }

    /// A request as it goes to the homeserver.
    pub fn send_request(&self, request: MatrixRequest) -> (out: OutgoingRequest)
        ensures
            out.method == request@.method,
            out.url@ == self.config@.homeserver + "/_matrix/client/v3"@ + request@.path
                + match request@.user_id {
                Some(user) => "?user_id="@ + web::percent_text(user),
                None => Seq::empty(),
            },
            out.authorization@ == "Bearer "@ + self.config@.as_token,
            out.content_type@ == "application/json"@,
            opt_json(out.body) == request@.body,
    {
        let base = self.config.homeserver.clone().concat("/_matrix/client/v3").concat(
            request.path.as_str(),
        );
        let url = match &request.user_id {
            Some(user) => {
                let escaped = web::percent_encode(user.as_str());
                let suffix = "?user_id=".to_owned().concat(escaped.as_str());
                base.concat(suffix.as_str())
            },
            None => {
                assert(base@ + Seq::<char>::empty() =~= base@);
                base
            },
        };
        OutgoingRequest {
            method: request.method,
            url,
            authorization: self.authorization(),
            content_type: "application/json".to_owned(),
            body: request.body,
        }
    }

    /// Enters a room.
    pub fn join_room(&self, room_id: &str, mxid: Option<&str>) -> (request: MatrixRequest)
        ensures
            request@ == entry_request(room_id@, utils::opt_str(mxid)),
    {
        MatrixRequest {
            method: Method::Post,
            path: "/join/".to_owned().concat(web::percent_encode(room_id).as_str()),
            body: None,
            user_id: owned(mxid),
        }
    }

    /// Leaves a room.
    pub fn leave_room(&self, room_id: &str, mxid: Option<&str>) -> (request: MatrixRequest)
        ensures
            request@ == (RequestView {
                method: Method::Post,
                path: "/rooms/"@ + web::percent_text(room_id@) + "/leave"@,
                body: Some(JsonView::object()),
                user_id: utils::opt_str(mxid),
            }),
    {
        MatrixRequest {
            method: Method::Post,
            path: "/rooms/".to_owned().concat(web::percent_encode(room_id).as_str()).concat(
                "/leave",
            ),
            body: Some(Json::object()),
            user_id: owned(mxid),
        }
    }

    /// Sends a text message.
    pub fn send_message(
        &self,
        room_id: &str,
        content: &MessageContent,
        mxid: Option<&str>,
    ) -> (request: MatrixRequest)
        ensures
            sends_event(
                request@,
                room_id@,
                "m.room.message"@,
                content@.json(),
                utils::opt_str(mxid),
            ),
    {
        let transaction = new_transaction_id();
        make_event_request(
            room_id,
            "m.room.message",
            transaction.as_str(),
            content.to_json(),
            mxid,
        )
    }

    /// Invites a user into a room.
    pub fn send_invite(&self, room_id: &str, mxid: &str) -> (request: MatrixRequest)
        ensures
            request@ == invitation_request(room_id@, mxid@),
    {
        MatrixRequest {
            method: Method::Post,
            path: "/rooms/".to_owned().concat(web::percent_encode(room_id).as_str()).concat(
                "/invite",
            ),
            body: Some(Json::object().with_text("user_id", mxid)),
            user_id: None,
        }
    }

    /// Makes a room for a Discord channel.
    pub fn create_room(
        &self,
        channel_id: &str,
        name: &str,
        topic: &str,
        invitee: &str,
    ) -> (request: MatrixRequest)
        ensures
            request@ == (RequestView {
                method: Method::Post,
                path: "/createRoom"@,
                body: Some(room_content(self.config@, channel_id@, name@, topic@, invitee@)),
                user_id: None,
            }),
    {
        let rules = Json::object().with_text("type", "m.room.join_rules").with(
            "content",
            Json::object().with_text("join_rule", "public"),
        );
        let history = Json::object().with_text("type", "m.room.history_visibility").with(
            "content",
            Json::object().with_text("history_visibility", "shared"),
        );
        let users = Json::object().with_number(invitee, 100).with_number(
            self.config.full_user_id().as_str(),
            100,
        );
        let alias = "_discord_".to_owned().concat(channel_id);
        let content = Json::object().with_text("room_alias_name", alias.as_str()).with_text(
            "name",
            name,
        ).with_text("topic", topic).with_text("visibility", "private").with(
            "invite",
            Json::list_of_one(Json::Text(invitee.to_owned())),
        ).with(
            "creation_content",
            Json::object().with("m.federate", Json::Bool(true)),
        ).with("initial_state", Json::list_of_two(rules, history)).with(
            "power_level_content_override",
            Json::object().with("users", users),
        );
        MatrixRequest {
            method: Method::Post,
            path: "/createRoom".to_owned(),
            body: Some(content),
            user_id: None,
        }
    }

    /// Registers a user of the bridge.
    pub fn register_user(&self, mxid: &str) -> (request: MatrixRequest)
        ensures
            request@ == (RequestView {
                method: Method::Post,
                path: "/register"@,
                body: Some(
                    JsonView::object().with("type"@, jt("m.login.application_service"@)).with(
                        "username"@,
                        jt(local_part(mxid@)),
                    ),
                ),
                user_id: None,
            }),
    {
        let name = text::trim_start(mxid, text::Trim::Only('@'));
        proof {
            reveal_strlit(":");
            assert(":"@ =~= seq![':']);
            text::lemma_split_not_empty(name@, ":"@);
        }
        let parts = text::split(name.as_str(), ":");
        assert(text::texts(parts@).len() == parts@.len());
        assert(text::texts(parts@)[0] == parts@[0]@);
        let content = Json::object().with_text("type", "m.login.application_service").with_text(
            "username",
            parts[0].as_str(),
        );
        MatrixRequest {
            method: Method::Post,
            path: "/register".to_owned(),
            body: Some(content),
            user_id: None,
        }
    }

    /// Names a user of the bridge.
    pub fn set_display_name(&self, mxid: &str, display_name: &str) -> (request: MatrixRequest)
        ensures
            request@ == (RequestView {
                method: Method::Put,
                path: "/profile/"@ + web::percent_text(mxid@) + "/displayname"@,
                body: Some(JsonView::object().with("displayname"@, jt(display_name@))),
                user_id: Some(mxid@),
            }),
    {
        MatrixRequest {
            method: Method::Put,
            path: "/profile/".to_owned().concat(web::percent_encode(mxid).as_str()).concat(
                "/displayname",
            ),
            body: Some(Json::object().with_text("displayname", display_name)),
            user_id: Some(mxid.to_owned()),
        }
    }

    /// Gives a user of the bridge an avatar that the homeserver already has.
    pub fn set_avatar(&self, mxid: &str, mxc_url: &str) -> (request: MatrixRequest)
        ensures
            request@ == (RequestView {
                method: Method::Put,
                path: "/profile/"@ + web::percent_text(mxid@) + "/avatar_url"@,
                body: Some(JsonView::object().with("avatar_url"@, jt(mxc_url@))),
                user_id: Some(mxid@),
            }),
    {
        MatrixRequest {
            method: Method::Put,
            path: "/profile/".to_owned().concat(web::percent_encode(mxid).as_str()).concat(
                "/avatar_url",
            ),
            body: Some(Json::object().with_text("avatar_url", mxc_url)),
            user_id: Some(mxid.to_owned()),
        }
    }

    /// Decides on a file, given whether the bridge fetches from its URL.
    pub fn decide_upload(
        &self,
        url: &str,
        check: &SourceCheck,
        malformed: BridgeError,
        content_type: String,
        content_length: Option<String>,
    ) -> (res: Result<Upload, BridgeError>)
        ensures
            upload_outcome(res) == upload_decision(
                self.config@,
                url@,
                check@,
                malformed@,
                content_type@,
                web::opt_text(content_length),
            ),
    {
        match check {
            SourceCheck::Malformed(_) => Err(malformed),
            SourceCheck::Untrusted => Err(
                BridgeError::matrix("Refused to fetch from untrusted domain"),
            ),
            SourceCheck::Trusted => Ok(
                Upload {
                    source_url: url.to_owned(),
                    upload_url: self.config.homeserver.clone().concat("/_matrix/media/v3/upload"),
                    authorization: self.authorization(),
                    content_type,
                    content_length,
                },
            ),
        }
    }

    /// Decides on the image at a URL.
    pub fn upload_from_url(&self, url: &str) -> (res: Result<Upload, BridgeError>)
        ensures
            upload_outcome(res) == upload_decision(
                self.config@,
                url@,
                web::source_check(web::url_reading(url@)),
                bad_avatar_url(url@, web::source_check(web::url_reading(url@))),
                image_type(url@, true),
                None,
            ),
    {
        let check = web::check_source(url);
        let reason = match &check {
            SourceCheck::Malformed(reason) => reason.clone(),
            _ => String::new(),
        };
        let sentence = "Invalid avatar URL '".to_owned().concat(url).concat("': ").concat(
            reason.as_str(),
        );
        self.decide_upload(
            url,
            &check,
            BridgeError::Matrix(sentence),
            image_type_of(url, true),
            None,
        )
    }

    /// Decides on a file that came with a Discord message.
    pub fn upload_attachment(&self, attachment: &AttachmentInfo) -> (res: Result<
        Upload,
        BridgeError,
    >)
        ensures
            upload_outcome(res) == upload_decision(
                self.config@,
                attachment@.url,
                web::source_check(web::url_reading(attachment@.url)),
                BridgeErrorView::Matrix("Invalid attachment URL format"@),
                attachment_type(attachment@),
                Some(number::decimal(attachment@.size as nat)),
            ),
    {
        let check = web::check_source(attachment.url.as_str());
        self.decide_upload(
            attachment.url.as_str(),
            &check,
            BridgeError::matrix("Invalid attachment URL format"),
            attachment_type_of(attachment),
            Some(number::to_decimal(attachment.size as u64)),
        )
    }

    /// Decides on a sticker whose URL reads as one.
    pub fn upload_sticker(&self, url: &str, check: &SourceCheck) -> (res: Result<
        Upload,
        BridgeError,
    >)
        requires
            check@ !is Malformed,
        ensures
            upload_outcome(res) == upload_decision(
                self.config@,
                url@,
                check@,
                BridgeErrorView::NotFound,
                image_type(url@, false),
                None,
            ),
    {
        self.decide_upload(url, check, BridgeError::NotFound, image_type_of(url, false), None)
    }

    /// The link under which Discord can fetch an avatar, made at second `now`.
    pub fn mxc_to_http(&self, mxc: &str, now: u64) -> (link: Option<String>)
        requires
            now + avatar::LINK_LIFETIME <= u64::MAX,
        ensures
            web::opt_text(link) == avatar::avatar_link(self.config@, mxc@, now as int),
    {
        avatar::make_link(&self.config, mxc, now)
    }

    /// The Matrix user that stands for a Discord user.
    pub fn matrixify_user(&self, discord_id: &str, hashed: Option<&str>) -> (mxid: String)
        ensures
            mxid@ == puppet(self.config@, discord_id@, utils::opt_str(hashed)),
    {
        let suffix = match hashed {
            Some(h) => "-".to_owned().concat(h),
            None => String::new(),
        };
        "@_discord_".to_owned().concat(discord_id).concat(suffix.as_str()).concat(":").concat(
            self.config.server_name.as_str(),
        )
    }

    /// The alias of the room of a Discord channel.
    pub fn matrixify_room(&self, discord_channel_id: &str) -> (alias: String)
        ensures
            alias@ == room_alias(self.config@, discord_channel_id@),
    {
        "#_discord_".to_owned().concat(discord_channel_id).concat(":").concat(
            self.config.server_name.as_str(),
        )
    }

    /// Asks which room an alias names.
    pub fn resolve_room_alias(&self, alias: &str) -> (request: MatrixRequest)
        ensures
            request@ == lookup_request("/directory/room/"@ + web::percent_text(alias@)),
    {
        make_lookup("/directory/room/".to_owned().concat(web::percent_encode(alias).as_str()))
    }

    /// Where the room of an alias comes from: the one that is remembered counts, and where none is,
    /// the homeserver is asked.
    pub fn alias_found(&self, alias: &str, found: Option<String>) -> (source: AliasSource)
        ensures
            match found {
                Some(room) => source == AliasSource::Remembered(room),
                None => source matches AliasSource::Ask(request) && request@ == lookup_request(
                    "/directory/room/"@ + web::percent_text(alias@),
                ),
            },
    {
        match found {
            Some(room) => AliasSource::Remembered(room),
            None => AliasSource::Ask(self.resolve_room_alias(alias)),
        }
    }

    /// The room that a reply names for an alias, which is remembered from now on. A reply that names
    /// none changes nothing.
    pub fn settle_alias(cache: &mut Cache, alias: &str, reply: &Json) -> (res: Result<
        String,
        BridgeError,
    >)
        ensures
            text_outcome(res) == named_room(reply@),
            match named_room(reply@) {
                Ok(room) => {
                    &&& final(cache).m_rooms@ == old(cache).m_rooms@.insert(alias@, room)
                    &&& final(cache).m_rooms.lost() == old(cache).m_rooms.lost().remove(alias@)
                    &&& *final(cache) == (Cache { m_rooms: final(cache).m_rooms, ..*old(cache) })
                },
                Err(_) => *final(cache) == *old(cache),
            },
    {
        match read_room_id(reply) {
            Ok(room) => {
                cache.m_rooms.insert(alias.to_owned(), room.clone());
                Ok(room)
            },
            Err(e) => Err(e),
        }
    }

    /// Takes an event back.
    pub fn redact_event(&self, room_id: &str, event_id: &str, reason: Option<&str>) -> (request:
        MatrixRequest)
        ensures
            exists|transaction: Seq<char>|
                is_uuid(transaction) && is_drawn(transaction)
                    && request@ == #[trigger] redaction_request(
                    room_id@,
                    event_id@,
                    transaction,
                    utils::opt_str(reason),
                ),
    {
        let transaction = new_transaction_id();
        make_redaction_request(room_id, event_id, transaction.as_str(), reason)
    }

    /// A Discord message as plain text and as Matrix HTML.
    pub fn process_for_matrix(message: &str, mxc_emotes: &TextMap<String>) -> (res: (
        String,
        String,
    ))
        ensures
            res.0@ == message@,
            res.1@ == message::matrix_html(message@, mxc_emotes@),
    {
        (message.to_owned(), message::to_matrix_html(message, mxc_emotes))
    }

    /// Shows that a user is typing.
    pub fn send_typing(&self, room_id: &str, mxid: &str, timeout_ms: u32) -> (request:
        MatrixRequest)
        ensures
            request@ == (RequestView {
                method: Method::Put,
                path: "/rooms/"@ + web::percent_text(room_id@) + "/typing/"@ + web::percent_text(
                    mxid@,
                ),
                body: Some(
                    JsonView::object().with("typing"@, JsonView::Bool(true)).with(
                        "timeout"@,
                        JsonView::Number(timeout_ms as nat),
                    ),
                ),
                user_id: Some(mxid@),
            }),
    {
        MatrixRequest {
            method: Method::Put,
            path: "/rooms/".to_owned().concat(web::percent_encode(room_id).as_str()).concat(
                "/typing/",
            ).concat(web::percent_encode(mxid).as_str()),
            body: Some(
                Json::object().with("typing", Json::Bool(true)).with_number(
                    "timeout",
                    timeout_ms as u64,
                ),
            ),
            user_id: Some(mxid.to_owned()),
        }
    }

    /// The content that replaces that of an earlier event.
    pub fn make_edit(content: &Json, original_event_id: &str) -> (res: Json)
        ensures
            res@ == edit_content(content@, original_event_id@),
    {
        let related = content.copy().with("m.new_content", content.copy()).with(
            "m.relates_to",
            Json::object().with_text("rel_type", "m.replace").with_text(
                "event_id",
                original_event_id,
            ),
        );
        let starred = match related.text_at("body") {
            Some(body) => related.with_text("body", "* ".to_owned().concat(body.as_str()).as_str()),
            None => related,
        };
        match starred.text_at("formatted_body") {
            Some(html) => starred.with_text(
                "formatted_body",
                "* ".to_owned().concat(html.as_str()).as_str(),
            ),
            None => starred,
        }
    }

    /// Replaces the content of an earlier event.
    pub fn send_edit(
        &self,
        room_id: &str,
        original_event_id: &str,
        new_content: &MessageContent,
        mxid: Option<&str>,
    ) -> (request: MatrixRequest)
        ensures
            sends_event(
                request@,
                room_id@,
                "m.room.message"@,
                edit_content(new_content@.json(), original_event_id@),
                utils::opt_str(mxid),
            ),
    {
        let transaction = new_transaction_id();
        let content = MatrixClient::make_edit(&new_content.to_json(), original_event_id);
        make_event_request(room_id, "m.room.message", transaction.as_str(), content, mxid)
    }

    /// Reacts to an event.
    pub fn send_reaction(
        &self,
        room_id: &str,
        event_id: &str,
        reaction_key: &str,
        mxid: &str,
    ) -> (request: MatrixRequest)
        ensures
            sends_event(
                request@,
                room_id@,
                "m.reaction"@,
                reaction_content(event_id@, reaction_key@),
                Some(mxid@),
            ),
    {
        let transaction = new_transaction_id();
        let relation = Json::object().with_text("rel_type", "m.annotation").with_text(
            "event_id",
            event_id,
        ).with_text("key", reaction_key);
        let content = Json::object().with("m.relates_to", relation);
        make_event_request(room_id, "m.reaction", transaction.as_str(), content, Some(mxid))
    }

    /// What kind of message a file makes, and what the message says of it.
    pub fn determine_media_type(attachment: &AttachmentInfo, mxc_url: &str) -> (res: (
        String,
        Json,
    ))
        ensures
            res.0@ == media_kind(attachment_type(attachment@)),
            res.1@ == media_info(attachment@, mxc_url@),
    {
        let content_type = attachment_type_of(attachment);
        let size: u64 = attachment.size as u64;
        let plain = Json::object().with_number("size", size).with_text(
            "mimetype",
            content_type.as_str(),
        );
        proof {
            reveal_strlit("m.image");
            reveal_strlit("m.video");
            reveal_strlit("m.audio");
            reveal_strlit("m.file");
            assert("m.image"@[2] == 'i' && "m.video"@[2] == 'v');
            assert("m.audio"@[2] == 'a' && "m.file"@[2] == 'f');
        }
        if text::starts_with(content_type.as_str(), "image/") {
            let info = match (attachment.width, attachment.height) {
                (Some(w), Some(h)) => {
                    let thumbnail = Json::object().with_text(
                        "mimetype",
                        content_type.as_str(),
                    ).with_number("size", size).with_number("w", w as u64).with_number(
                        "h",
                        h as u64,
                    );
                    plain.with_number("w", w as u64).with_number("h", h as u64).with_text(
                        "thumbnail_url",
                        mxc_url,
                    ).with("thumbnail_info", thumbnail)
                },
                _ => plain,
            };
            ("m.image".to_owned(), info)
        } else if text::starts_with(content_type.as_str(), "video/") {
            let info = match (attachment.width, attachment.height) {
                (Some(w), Some(h)) => plain.with_number("w", w as u64).with_number("h", h as u64),
                _ => plain,
            };
            ("m.video".to_owned(), info)
        } else if text::starts_with(content_type.as_str(), "audio/") {
            ("m.audio".to_owned(), plain)
        } else {
            ("m.file".to_owned(), plain)
        }
    }

    /// Sends a file that the homeserver already has.
    pub fn send_media(
        &self,
        room_id: &str,
        mxid: &str,
        attachment: &AttachmentInfo,
        mxc_url: &str,
    ) -> (request: MatrixRequest)
        ensures
            sends_event(
                request@,
                room_id@,
                "m.room.message"@,
                media_content(attachment@, mxc_url@),
                Some(mxid@),
            ),
    {
        let transaction = new_transaction_id();
        let (kind, info) = MatrixClient::determine_media_type(attachment, mxc_url);
        let plain = Json::object().with_text("msgtype", kind.as_str()).with_text(
            "body",
            attachment.filename.as_str(),
        ).with_text("url", mxc_url).with("info", info);
        let content = if text::starts_with(attachment.filename.as_str(), "SPOILER_")
            || text::starts_with(attachment.filename.as_str(), "spoiler_") {
            plain.with("page.codeberg.everypizza.msc4193.spoiler", Json::Bool(true))
        } else {
            plain
        };
        make_event_request(room_id, "m.room.message", transaction.as_str(), content, Some(mxid))
    }

    /// Sends a sticker that the homeserver already has.
    pub fn send_sticker(
        &self,
        room_id: &str,
        mxid: &str,
        filename: &str,
        mxc_url: &str,
        content_type: &str,
        size: u64,
    ) -> (request: MatrixRequest)
        ensures
            sends_event(
                request@,
                room_id@,
                "m.sticker"@,
                sticker_content(filename@, mxc_url@, content_type@, size as nat),
                Some(mxid@),
            ),
    {
        let transaction = new_transaction_id();
        let info = Json::object().with_text("mimetype", content_type).with_number(
            "size",
            size,
        ).with_number("w", 320).with_number("h", 320);
        let content = Json::object().with_text("body", filename).with_text("url", mxc_url).with(
            "info",
            info,
        );
        make_event_request(room_id, "m.sticker", transaction.as_str(), content, Some(mxid))
    }

    /// Where a file of the homeserver is fetched, whether or not its URL begins with `mxc://`.
    pub fn content_url(&self, mxc: &str) -> (res: Result<String, BridgeError>)
        ensures
            text_outcome(res) == download_url(self.config@, mxc@),
    {
        match avatar::split_mxc(mxc) {
            Some((server, media)) => Ok(
                self.config.homeserver.clone().concat(
                    "/_matrix/client/v1/media/download/",
                ).concat(server.as_str()).concat("/").concat(media.as_str()),
            ),
            None => Err(BridgeError::matrix("Invalid MXC URL format")),
        }
    }

    /// Where the file of a content URL is fetched.
    pub fn download_media(&self, mxc_url: &str) -> (res: Result<String, BridgeError>)
        ensures
            text_outcome(res) == if "mxc://"@.is_prefix_of(mxc_url@) {
                download_url(self.config@, mxc_url@)
            } else {
                Err(BridgeErrorView::Matrix("Invalid MXC URL"@))
            },
    {
        if !text::starts_with(mxc_url, "mxc://") {
            return Err(BridgeError::matrix("Invalid MXC URL"));
        }
        self.content_url(mxc_url)
    }

    /// Asks for the emoji of a room: the packs of other rooms, and its own.
    pub fn fetch_room_emojis(&self, room_id: &str) -> (requests: (MatrixRequest, MatrixRequest))
        ensures
            requests.0@ == lookup_request(
                "/rooms/"@ + web::percent_text(room_id@) + "/state/im.ponies.emote_rooms"@,
            ),
            requests.1@ == lookup_request(
                "/rooms/"@ + web::percent_text(room_id@) + "/state/im.ponies.room_emotes"@,
            ),
    {
        let room = "/rooms/".to_owned().concat(web::percent_encode(room_id).as_str());
        (
            make_lookup(room.clone().concat("/state/im.ponies.emote_rooms")),
            make_lookup(room.concat("/state/im.ponies.room_emotes")),
        )
    }

    /// Remembers the emoji of a room, unless there are none.
    pub fn keep_room_emojis(cache: &mut Cache, room_id: &str, emojis: &TextMap<String>)
        ensures
            if emojis@ =~= Map::<Seq<char>, Seq<char>>::empty() {
                final(cache).m_custom_emojis == old(cache).m_custom_emojis
            } else {
                final(cache).m_custom_emojis@ == old(cache).m_custom_emojis@.insert(
                    room_id@,
                    emojis@,
                )
            },
            *final(cache) == (Cache {
                m_custom_emojis: final(cache).m_custom_emojis,
                ..*old(cache)
            }),
    {
        if !emojis.is_empty() {
            cache.m_custom_emojis.insert(room_id.to_owned(), emojis.duplicate());
        }
    }

    /// The emoji that are remembered of a room.
    pub fn get_room_emojis(cache: &Cache, room_id: &str) -> (found: Option<TextMap<String>>)
        ensures
            cache.m_custom_emojis.answers(room_id@, cache::opt_view(found)),
            found matches Some(emojis) ==> cache.m_custom_emojis@.contains_key(room_id@)
                && emojis@ == cache.m_custom_emojis@[room_id@],
    {
        cache.m_custom_emojis.get(room_id)
    }

    /// Where the emoji of a room come from: those that are remembered count, and where none are, the
    /// homeserver is asked.
    pub fn room_emojis_found(&self, room_id: &str, found: Option<TextMap<String>>) -> (source:
        EmojiSource)
        ensures
            match found {
                Some(emojis) => source == EmojiSource::Remembered(emojis),
                None => source matches EmojiSource::Ask(rooms, own) && rooms@ == lookup_request(
                    "/rooms/"@ + web::percent_text(room_id@) + "/state/im.ponies.emote_rooms"@,
                ) && own@ == lookup_request(
                    "/rooms/"@ + web::percent_text(room_id@) + "/state/im.ponies.room_emotes"@,
                ),
            },
    {
        match found {
            Some(emojis) => EmojiSource::Remembered(emojis),
            None => {
                let (rooms, own) = self.fetch_room_emojis(room_id);
                EmojiSource::Ask(rooms, own)
            },
        }
    }

    /// The emoji of a Matrix message.
    pub fn parse_matrix_emojis(body: &str, formatted_body: Option<&str>) -> (emojis: TextMap<
        String,
    >)
        ensures
            emojis@ == message::emojis_of(body@, utils::opt_str(formatted_body)),
    {
        message::parse_matrix_emojis(body, formatted_body)
    }

    /// Asks who is in a room.
    pub fn joined_members(&self, room_id: &str) -> (request: MatrixRequest)
        ensures
            request@ == lookup_request(
                "/rooms/"@ + web::percent_text(room_id@) + "/joined_members"@,
            ),
    {
        make_lookup(
            "/rooms/".to_owned().concat(web::percent_encode(room_id).as_str()).concat(
                "/joined_members",
            ),
        )
    }

    /// Whether a user is in a room: the members that are remembered say so, or else the reply of the
    /// homeserver does.
    pub fn is_user_in_room(
        cached: &Option<TextMap<MatrixUser>>,
        reply: Option<&Json>,
        mxid: &str,
    ) -> (res: bool)
        ensures
            res == ((cached matches Some(members) && members@.contains_key(mxid@)) || (
            reply matches Some(r) && joined_members(r@).contains_key(mxid@))),
    {
        let known = match cached {
            Some(members) => members.contains_key(mxid),
            None => false,
        };
        if known {
            return true;
        }
        match reply {
            Some(r) => match r.get("joined") {
                Some(joined) => match joined {
                    Json::Object(_) => {
                        joined.get(mxid).is_some()
                    },
                    _ => false,
                },
                None => false,
            },
            None => false,
        }
    }

    /// Asks for an event.
    pub fn get_event(&self, room_id: &str, event_id: &str) -> (request: MatrixRequest)
        ensures
            request@ == lookup_request(
                "/rooms/"@ + web::percent_text(room_id@) + "/event/"@ + web::percent_text(
                    event_id@,
                ),
            ),
    {
        make_lookup(
            "/rooms/".to_owned().concat(web::percent_encode(room_id).as_str()).concat(
                "/event/",
            ).concat(web::percent_encode(event_id).as_str()),
        )
    }
}

/// An edit carries the new content as it is, and names the event that it replaces.
pub proof fn law_edits_carry_the_new_content(content: JsonView, original: Seq<char>)
    requires
        content is Object,
    ensures
        edit_content(content, original).at("m.new_content"@) == content,
        edit_content(content, original).at("m.relates_to"@).at("event_id"@) == jt(original),
        edit_content(content, original).at("m.relates_to"@).at("rel_type"@) == jt("m.replace"@),
{
    reveal_strlit("m.new_content");
    reveal_strlit("m.relates_to");
    reveal_strlit("body");
    reveal_strlit("formatted_body");
    reveal_strlit("event_id");
    reveal_strlit("rel_type");
    assert("m.new_content"@[0] == 'm' && "m.relates_to"@[0] == 'm');
    assert("m.new_content"@[2] == 'n' && "m.relates_to"@[2] == 'r');
    assert("body"@[0] == 'b' && "formatted_body"@[0] == 'f');
    assert("event_id"@[0] == 'e' && "rel_type"@[0] == 'r');
}

/// Different channels have different room aliases.
pub proof fn law_room_aliases_are_distinct(config: ConfigView, a: Seq<char>, b: Seq<char>)
    requires
        room_alias(config, a) == room_alias(config, b),
    ensures
        a == b,
{
    let start = "#_discord_"@.len() as int;
    let x = room_alias(config, a);
    let y = room_alias(config, b);
    let end = ":"@.len() + config.server_name.len();
    assert(x.len() == start + a.len() + end);
    assert(y.len() == start + b.len() + end);
    assert(a.len() == b.len());
    assert(x.subrange(start, start + a.len()) =~= a);
    assert(y.subrange(start, start + b.len()) =~= b);
}

/// A text of digits ends where something else begins.
proof fn lemma_digits_end(a: Seq<char>, x: Seq<char>, b: Seq<char>, y: Seq<char>)
    requires
        text::all_digits(a),
        text::all_digits(b),
        x.len() > 0 && !('0' <= x[0] <= '9'),
        y.len() > 0 && !('0' <= y[0] <= '9'),
        a + x == b + y,
    ensures
        a == b,
        x == y,
{
    let whole = a + x;
    if a.len() < b.len() {
        assert(whole[a.len() as int] == x[0]);
        assert((b + y)[a.len() as int] == b[a.len() as int]);
        assert(false);
    }
    if b.len() < a.len() {
        assert((b + y)[b.len() as int] == y[0]);
        assert(whole[b.len() as int] == a[b.len() as int]);
        assert(false);
    }
    assert(a =~= whole.take(a.len() as int));
    assert(b =~= (b + y).take(a.len() as int));
    assert(x =~= whole.skip(a.len() as int));
    assert(y =~= (b + y).skip(a.len() as int));
}

/// Different Discord users have different puppets, and so have two webhook users whose digests
/// differ, and a webhook user and another one.
pub proof fn law_puppets_are_distinct(
    config: ConfigView,
    a: u64,
    a_hash: Option<Seq<char>>,
    b: u64,
    b_hash: Option<Seq<char>>,
)
    requires
        puppet(config, number::decimal(a as nat), a_hash) == puppet(
            config,
            number::decimal(b as nat),
            b_hash,
        ),
    ensures
        a == b,
        a_hash == b_hash,
{
    reveal_strlit("-");
    reveal_strlit(":");
    let prefix = "@_discord_"@;
    let da = number::decimal(a as nat);
    let db = number::decimal(b as nat);
    let sa: Seq<char> = match a_hash {
        Some(h) => "-"@ + h,
        None => Seq::empty(),
    };
    let sb: Seq<char> = match b_hash {
        Some(h) => "-"@ + h,
        None => Seq::empty(),
    };
    let end = ":"@ + config.server_name;
    let x = sa + end;
    let y = sb + end;
    number::lemma_decimal_value(a as nat);
    number::lemma_decimal_value(b as nat);
    let left = puppet(config, da, a_hash);
    let right = puppet(config, db, b_hash);
    assert(left =~= prefix + (da + x));
    assert(right =~= prefix + (db + y));
    assert(da + x =~= left.skip(prefix.len() as int));
    assert(db + y =~= right.skip(prefix.len() as int));
    assert(x[0] == '-' || x[0] == ':');
    assert(y[0] == '-' || y[0] == ':');
    lemma_digits_end(da, x, db, y);
    number::law_decimal_reads_back(a as nat);
    number::law_decimal_reads_back(b as nat);
    assert(sa =~= x.take(x.len() - end.len()));
    assert(sb =~= y.take(y.len() - end.len()));
    if let Some(h) = a_hash {
        assert(sa[0] == '-');
        assert(h =~= sa.skip(1));
        assert(b_hash is Some);
        assert(b_hash->0 =~= sb.skip(1));
    }
    if let Some(h) = b_hash {
        assert(sb[0] == '-');
        assert(a_hash is Some);
    }
}

/// Every emote of every pack is known, whatever room the pack belongs to and whatever its place in
/// it, and so is every emote of the room's own pack, which counts before the others; no other is
/// known.
pub proof fn law_every_pack_counts(
    emojis: Map<Seq<char>, Seq<char>>,
    emote_rooms: JsonView,
    room_emotes: JsonView,
    room: Seq<char>,
    code: Seq<char>,
    url: Seq<char>,
)
    requires
        are_room_emojis(emojis, emote_rooms, room_emotes),
    ensures
        emote_rooms.at("rooms"@).at(room).at("images"@).at(code).at("url"@) == JsonView::Text(url)
            ==> emojis.contains_key(code),
        room_emotes.at("images"@).at(code).at("url"@) == JsonView::Text(url)
            ==> emojis.contains_key(code) && emojis[code] == url,
        emojis.contains_key(code) && !(room_emotes.at("images"@).at(code).at("url"@) is Text)
            ==> exists|other: Seq<char>|
            (#[trigger] emote_rooms.at("rooms"@).at(other)).at("images"@).at(code).at("url"@)
                == JsonView::Text(emojis[code]),
{
    let own = pack_emojis(room_emotes);
    if emote_rooms.at("rooms"@).at(room).at("images"@).at(code).at("url"@) == JsonView::Text(url) {
        let rooms = emote_rooms.at("rooms"@).as_object()->0;
        assert(rooms.contains_key(room));
        assert(pack_emojis(rooms[room]).contains_key(code));
        assert(in_some_pack(emote_rooms, code));
        assert(emojis.contains_key(code));
    }
    if room_emotes.at("images"@).at(code).at("url"@) == JsonView::Text(url) {
        assert(own.contains_key(code));
        assert(emojis.contains_key(code));
    }
    if emojis.contains_key(code) && !(room_emotes.at("images"@).at(code).at("url"@) is Text) {
        assert(!own.contains_key(code));
        assert(pack_gives(emote_rooms, code, emojis[code]));
        let rooms = emote_rooms.at("rooms"@).as_object()->0;
        let other = choose|other: Seq<char>| #[trigger]
            rooms.contains_key(other) && pack_emojis(rooms[other]).contains_key(code)
                && pack_emojis(rooms[other])[code] == emojis[code];
        assert(emote_rooms.at("rooms"@).at(other).at("images"@).at(code).at("url"@)
            == JsonView::Text(emojis[code]));
    }
}

/// Every member that the homeserver names is known with name and picture, and nobody else is.
pub proof fn law_every_member_is_known(reply: JsonView, user: Seq<char>)
    ensures
        reply.at("joined"@).get(user) matches Some(member) ==> joined_members(reply).contains_key(
            user,
        ) && joined_members(reply)[user] == (MatrixUserView {
            avatar_url: member.at("avatar_url"@).as_text(),
            display_name: member.at("display_name"@).as_text(),
        }),
        reply.at("joined"@).get(user) is None ==> !joined_members(reply).contains_key(user),
{
}

/// The type of an image is told by its extension, in capitals or not, wherever the image lies and
/// whatever it is called.
pub proof fn law_images_are_told_by_their_extension(
    directory: Seq<char>,
    stem: Seq<char>,
    end: Seq<char>,
    knows_jpeg: bool,
)
    requires
        stem.len() > 0,
        !stem.contains('/'),
        end.len() > 0,
        !end.contains('/'),
        !end.contains('.'),
    ensures
        ({
            let url = directory + seq!['/'] + (stem + seq!['.'] + end);
            let low = text::lowered(end);
            &&& low == "gif"@ ==> image_type(url, knows_jpeg) == "image/gif"@
            &&& low == "webp"@ ==> image_type(url, knows_jpeg) == "image/webp"@
            &&& (low == "jpg"@ || low == "jpeg"@) && knows_jpeg ==> image_type(url, knows_jpeg)
                == "image/jpeg"@
            &&& (low == "jpg"@ || low == "jpeg"@) && !knows_jpeg ==> image_type(url, knows_jpeg)
                == "image/png"@
            &&& low != "gif"@ && low != "webp"@ && low != "jpg"@ && low != "jpeg"@ ==> image_type(
                url,
                knows_jpeg,
            ) == "image/png"@
        }),
{
    text::law_extensions(directory, stem, end);
    reveal_strlit("gif");
    reveal_strlit("webp");
    reveal_strlit("jpg");
    reveal_strlit("jpeg");
    assert("gif"@[0] == 'g' && "webp"@[0] == 'w' && "jpg"@[0] == 'j' && "jpeg"@[0] == 'j');
}

/// A file is an image, a video or a sound by the first part of its type, whatever the second, and
/// otherwise just a file.
pub proof fn law_media_are_told_by_their_type(rest: Seq<char>, other: Seq<char>)
    ensures
        media_kind("image/"@ + rest) == "m.image"@,
        media_kind("video/"@ + rest) == "m.video"@,
        media_kind("audio/"@ + rest) == "m.audio"@,
        other.len() == 0 || (other[0] != 'i' && other[0] != 'v' && other[0] != 'a') ==> media_kind(
            other,
        ) == "m.file"@,
{
    reveal_strlit("image/");
    reveal_strlit("video/");
    reveal_strlit("audio/");
    assert(("image/"@ + rest).subrange(0, 6) =~= "image/"@);
    assert(("video/"@ + rest).subrange(0, 6) =~= "video/"@);
    assert(("audio/"@ + rest).subrange(0, 6) =~= "audio/"@);
    lemma_begins_otherwise("image/"@, "video/"@ + rest);
    lemma_begins_otherwise("image/"@, "audio/"@ + rest);
    lemma_begins_otherwise("video/"@, "audio/"@ + rest);
    if other.len() == 0 || (other[0] != 'i' && other[0] != 'v' && other[0] != 'a') {
        lemma_begins_otherwise("image/"@, other);
        lemma_begins_otherwise("video/"@, other);
        lemma_begins_otherwise("audio/"@, other);
    }
}

proof fn lemma_begins_otherwise(word: Seq<char>, s: Seq<char>)
    requires
        word.len() > 0,
        s.len() > 0 ==> word[0] != s[0],
    ensures
        !word.is_prefix_of(s),
{
    if word.is_prefix_of(s) {
        assert(s.subrange(0, word.len() as int)[0] == s[0]);
    }
}

/// An attachment is sent under its name and type, with its size; a picture or a video tells its
/// width and height where both are known; and a name that says so makes it a spoiler.
pub proof fn law_attachments_tell_what_they_are(attachment: AttachmentView, mxc: Seq<char>)
    ensures
        media_info(attachment, mxc).at("size"@) == JsonView::Number(attachment.size as nat),
        media_info(attachment, mxc).at("mimetype"@) == jt(attachment_type(attachment)),
        (media_kind(attachment_type(attachment)) == "m.image"@ || media_kind(
            attachment_type(attachment),
        ) == "m.video"@) && attachment.width is Some && attachment.height is Some ==> media_info(
            attachment,
            mxc,
        ).at("w"@) == JsonView::Number(attachment.width->0 as nat) && media_info(
            attachment,
            mxc,
        ).at("h"@) == JsonView::Number(attachment.height->0 as nat),
        attachment.width is None || attachment.height is None ==> media_info(attachment, mxc).at(
            "w"@,
        ) is Null && media_info(attachment, mxc).at("h"@) is Null,
        media_content(attachment, mxc).at("body"@) == jt(attachment.filename),
        media_content(attachment, mxc).at("url"@) == jt(mxc),
        media_content(attachment, mxc).at("msgtype"@) == jt(
            media_kind(attachment_type(attachment)),
        ),
        media_content(attachment, mxc).at("info"@) == media_info(attachment, mxc),
        media_content(attachment, mxc).at("page.codeberg.everypizza.msc4193.spoiler"@)
            == JsonView::Bool(true) <==> "SPOILER_"@.is_prefix_of(attachment.filename)
            || "spoiler_"@.is_prefix_of(attachment.filename),
{
    reveal_strlit("size");
    reveal_strlit("mimetype");
    reveal_strlit("w");
    reveal_strlit("h");
    reveal_strlit("thumbnail_url");
    reveal_strlit("thumbnail_info");
    reveal_strlit("body");
    reveal_strlit("url");
    reveal_strlit("msgtype");
    reveal_strlit("info");
    reveal_strlit("page.codeberg.everypizza.msc4193.spoiler");
    assert("size"@.len() == 4 && "mimetype"@.len() == 8 && "thumbnail_url"@.len() == 13);
    assert("thumbnail_info"@.len() == 14 && "url"@.len() == 3 && "msgtype"@.len() == 7);
    assert("w"@[0] == 'w' && "h"@[0] == 'h');
    assert("body"@[0] == 'b' && "info"@[0] == 'i' && "size"@[0] == 's');
    assert("page.codeberg.everypizza.msc4193.spoiler"@.len() == 40);
    reveal_strlit("m.image");
    reveal_strlit("m.video");
    assert("m.image"@[2] == 'i' && "m.video"@[2] == 'v');
}

/// An edit marks its text and its HTML with a star, and changes nothing else of its content.
pub proof fn law_edits_are_marked(
    content: JsonView,
    original: Seq<char>,
    body: Seq<char>,
    html: Seq<char>,
    key: Seq<char>,
)
    requires
        content is Object,
    ensures
        content.at("body"@) == jt(body) ==> edit_content(content, original).at("body"@) == jt(
            "* "@ + body,
        ),
        content.at("formatted_body"@) == jt(html) ==> edit_content(content, original).at(
            "formatted_body"@,
        ) == jt("* "@ + html),
        key != "body"@ && key != "formatted_body"@ && key != "m.new_content"@ && key
            != "m.relates_to"@ ==> edit_content(content, original).at(key) == content.at(key),
{
    reveal_strlit("body");
    reveal_strlit("formatted_body");
    reveal_strlit("m.new_content");
    reveal_strlit("m.relates_to");
    assert("body"@.len() == 4);
    assert("formatted_body"@.len() == 14);
    assert("m.new_content"@.len() == 13);
    assert("m.relates_to"@.len() == 12);
}

/// A puppet is registered under its name, without its sign and its server.
pub proof fn law_puppets_are_registered_by_name(name: Seq<char>, server: Seq<char>)
    requires
        !name.contains(':'),
        name.len() > 0,
        name[0] != '@',
    ensures
        local_part(seq!['@'] + name + seq![':'] + server) == name,
{
    let mxid = seq!['@'] + name + seq![':'] + server;
    let s = name + seq![':'] + server;
    assert(mxid =~= seq!['@'] + s);
    let only = text::Trim::Only('@');
    assert(mxid.drop_first() =~= s);
    assert(only.takes(mxid[0]));
    assert(text::trimmed_start(mxid, only) == text::trimmed_start(s, only));
    assert(!only.takes(s[0]));
    assert(text::trimmed_start(s, only) == s);
    text::lemma_split_first(name, ':', server);
}

/// Nothing is uploaded but from a trusted source, and from there it is uploaded as what it is.
pub proof fn law_only_trusted_sources_are_uploaded(
    config: ConfigView,
    url: Seq<char>,
    check: SourceCheckView,
    malformed: BridgeErrorView,
    content_type: Seq<char>,
    content_length: Option<Seq<char>>,
)
    ensures
        upload_decision(config, url, check, malformed, content_type, content_length) is Ok
            <==> check is Trusted,
        upload_decision(config, url, check, malformed, content_type, content_length) matches Ok(
            upload,
        ) ==> upload.source_url == url && upload.content_type == content_type
            && upload.content_length == content_length && upload.upload_url == config.homeserver
            + "/_matrix/media/v3/upload"@ && upload.authorization == "Bearer "@ + config.as_token,
{
}

/// A media address leads to the homeserver's download of the same server and media.
pub proof fn law_media_are_downloaded_from_their_address(
    config: ConfigView,
    server: Seq<char>,
    media: Seq<char>,
)
    requires
        !server.contains('/'),
        !media.contains('/'),
    ensures
        download_url(config, "mxc://"@ + server + "/"@ + media) == Ok::<
            Seq<char>,
            BridgeErrorView,
        >(config.homeserver + "/_matrix/client/v1/media/download/"@ + server + "/"@ + media),
        download_url(config, "mxc://"@ + server) is Err,
{
    avatar::law_media_addresses_are_read(server, media);
}

/// A fetch or an upload that the server refuses is a failure, and one that it grants is none; an
/// upload gives the address that the server's answer names.
pub proof fn law_refused_media_are_failures(
    task: MediaTask,
    status: u16,
    status_text: Seq<char>,
    url: Seq<char>,
    reply: Option<JsonView>,
)
    ensures
        status == 200 ==> media_outcome(task, status, status_text, reply) is Ok,
        status / 100 != 2 ==> media_outcome(task, status, status_text, reply) is Err,
        status == 200 && task.uploads() && reply is Some && reply->0.at("content_uri"@) == jt(url)
            ==> media_outcome(task, status, status_text, reply) == Ok::<
            MediaStepView,
            BridgeErrorView,
        >(MediaStepView::Uploaded(url)),
{
}

/// A request about a room names the room in its path, whatever it is called, and nothing in the name
/// can lead elsewhere; it brings its content as it is and goes out under the given user.
pub proof fn law_requests_name_their_room(
    room: Seq<char>,
    kind: Seq<char>,
    event: Seq<char>,
    transaction: Seq<char>,
    content: JsonView,
    user: Option<Seq<char>>,
    reason: Option<Seq<char>>,
    guest: Seq<char>,
)
    ensures
        ({
            let sent = event_request(room, kind, transaction, content, user);
            let place = "/rooms/"@ + web::percent_text(room);
            &&& sent.method == Method::Put
            &&& place.is_prefix_of(sent.path)
            &&& ("/send/"@ + kind + "/"@ + transaction).is_suffix_of(sent.path)
            &&& sent.body == Some(content)
            &&& sent.user_id == user
        }),
        ({
            let taken = redaction_request(room, event, transaction, reason);
            let place = "/rooms/"@ + web::percent_text(room);
            &&& taken.method == Method::Put
            &&& place.is_prefix_of(taken.path)
            &&& ("/redact/"@ + web::percent_text(event) + "/"@ + transaction).is_suffix_of(
                taken.path,
            )
            &&& taken.body matches Some(body) && body.at("reason"@).as_text() == reason
            &&& taken.user_id is None
        }),
        ({
            let invited = invitation_request(room, guest);
            let place = "/rooms/"@ + web::percent_text(room);
            &&& invited.method == Method::Post
            &&& place.is_prefix_of(invited.path)
            &&& "/invite"@.is_suffix_of(invited.path)
            &&& invited.body matches Some(body) && body.at("user_id"@) == jt(guest)
        }),
        entry_request(room, user).method == Method::Post,
        web::percent_text(room).is_suffix_of(entry_request(room, user).path),
        entry_request(room, user).user_id == user,
        lookup_request(kind).path == kind,
        lookup_request(kind).method == Method::Get,
        lookup_request(kind).body is None,
{
    let place = "/rooms/"@ + web::percent_text(room);
    let sent = event_request(room, kind, transaction, content, user);
    let end = "/send/"@ + kind + "/"@ + transaction;
    lemma_ends(sent.path, place, end);
    let taken = redaction_request(room, event, transaction, reason);
    let other = "/redact/"@ + web::percent_text(event) + "/"@ + transaction;
    lemma_ends(taken.path, place, other);
    let invited = invitation_request(room, guest);
    lemma_ends(invited.path, place, "/invite"@);
    lemma_ends(entry_request(room, user).path, "/join/"@, web::percent_text(room));
}

proof fn lemma_ends(path: Seq<char>, start: Seq<char>, end: Seq<char>)
    requires
        path =~= start + end,
    ensures
        start.is_prefix_of(path),
        end.is_suffix_of(path),
{
    assert(path.subrange(0, start.len() as int) =~= start);
    assert(path.subrange(path.len() - end.len(), path.len() as int) =~= end);
}

/// A reaction names the event it answers and what it is, and a sticker its picture, its type and its
/// size.
pub proof fn law_reactions_and_stickers_tell_what_they_are(
    event: Seq<char>,
    key: Seq<char>,
    filename: Seq<char>,
    mxc: Seq<char>,
    content_type: Seq<char>,
    size: nat,
)
    ensures
        reaction_content(event, key).at("m.relates_to"@).at("event_id"@) == jt(event),
        reaction_content(event, key).at("m.relates_to"@).at("key"@) == jt(key),
        reaction_content(event, key).at("m.relates_to"@).at("rel_type"@) == jt("m.annotation"@),
        sticker_content(filename, mxc, content_type, size).at("body"@) == jt(filename),
        sticker_content(filename, mxc, content_type, size).at("url"@) == jt(mxc),
        sticker_content(filename, mxc, content_type, size).at("info"@).at("mimetype"@) == jt(
            content_type,
        ),
        sticker_content(filename, mxc, content_type, size).at("info"@).at("size"@)
            == JsonView::Number(size),
{
    reveal_strlit("event_id");
    reveal_strlit("key");
    reveal_strlit("rel_type");
    reveal_strlit("body");
    reveal_strlit("url");
    reveal_strlit("info");
    reveal_strlit("mimetype");
    reveal_strlit("size");
    reveal_strlit("w");
    reveal_strlit("h");
    assert("event_id"@[0] == 'e' && "key"@[0] == 'k' && "rel_type"@[0] == 'r');
    assert("body"@[0] == 'b' && "url"@[0] == 'u' && "info"@[0] == 'i');
    assert("mimetype"@.len() == 8 && "size"@.len() == 4 && "w"@.len() == 1 && "h"@.len() == 1);
}

/// A room that is made for a channel has the channel's alias, its name and its topic; it invites the
/// one guest, and the guest and the bot may do everything in it.
pub proof fn law_rooms_are_made_for_their_channel(
    config: ConfigView,
    channel: Seq<char>,
    name: Seq<char>,
    topic: Seq<char>,
    invitee: Seq<char>,
)
    ensures
        ({
            let content = room_content(config, channel, name, topic, invitee);
            &&& room_alias(config, channel) == "#"@ + content.at("room_alias_name"@)->Text_0 + ":"@
                + config.server_name
            &&& content.at("name"@) == jt(name)
            &&& content.at("topic"@) == jt(topic)
            &&& content.at("invite"@) == JsonView::Array(seq![jt(invitee)])
            &&& content.at("power_level_content_override"@).at("users"@).at(invitee)
                == JsonView::Number(100)
            &&& content.at("power_level_content_override"@).at("users"@).at(config.bot_user())
                == JsonView::Number(100)
            &&& content.at("visibility"@) == jt("private"@)
        }),
{
    reveal_strlit("room_alias_name");
    reveal_strlit("name");
    reveal_strlit("topic");
    reveal_strlit("visibility");
    reveal_strlit("invite");
    reveal_strlit("creation_content");
    reveal_strlit("initial_state");
    reveal_strlit("power_level_content_override");
    assert("room_alias_name"@.len() == 15 && "name"@.len() == 4 && "topic"@.len() == 5);
    assert("visibility"@.len() == 10 && "invite"@.len() == 6 && "creation_content"@.len() == 16);
    assert("initial_state"@.len() == 13 && "power_level_content_override"@.len() == 28);
    reveal_strlit("#_discord_");
    reveal_strlit("#");
    reveal_strlit("_discord_");
    assert("#_discord_"@ =~= "#"@ + "_discord_"@);
    assert(room_alias(config, channel) =~= "#"@ + ("_discord_"@ + channel) + ":"@
        + config.server_name);
}

/// What the homeserver says of an event is read out of it, and nothing where it says nothing.
pub proof fn law_events_are_read(reply: JsonView)
    ensures
        event_fields(reply).0 == reply.at("event_id"@).text_or(Seq::empty()),
        event_fields(reply).1 == reply.at("sender"@).text_or(Seq::empty()),
        event_fields(reply).2 == reply.at("content"@).at("body"@).text_or(Seq::empty()),
        event_fields(reply).3 == reply.at("content"@).at("formatted_body"@).as_text(),
        named_room(reply) is Ok <==> reply.at("room_id"@) is Text,
        reply.at("room_id"@) matches JsonView::Text(room) ==> named_room(reply) == Ok::<
            Seq<char>,
            BridgeErrorView,
        >(room),
{
    reveal_strlit("");
    assert(""@ =~= Seq::<char>::empty());
}

/// Attachments and what is streamed succeed with every status of the two hundreds, all else with one
/// alone.
pub proof fn law_what_counts_as_done(task: MediaTask, status: u16)
    ensures
        task == MediaTask::UploadAttachment || task == MediaTask::StreamMedia || task
            == MediaTask::StreamSticker ==> (task.is_done(status) <==> status / 100 == 2),
        task == MediaTask::FetchSource || task == MediaTask::Upload || task
            == MediaTask::UploadSticker || task == MediaTask::Download ==> (task.is_done(status)
            <==> status == 200),
        task.uploads() <==> task == MediaTask::Upload || task == MediaTask::UploadAttachment || task
            == MediaTask::UploadSticker,
{
}

} // verus!

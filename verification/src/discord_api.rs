//! Requests to Discord's web interface, and what its replies say.

use vstd::prelude::*;
use vstd::string::*;

use crate::cache::{Cache, WebhookInfo, WebhookView};
use crate::config::{Config, ConfigView};
use crate::error::{BridgeError, BridgeErrorView};
use crate::json;
use crate::json::{Json, JsonView};
use crate::matrix_client;
use crate::matrix_client::Method;
use crate::table::Duplicate;
use crate::text;
use crate::utils;
use crate::web;

verus! {

/// A request to Discord.
pub struct DiscordRequest {
    pub method: Method,
    pub url: String,
    /// How the bridge's bot proves itself. Webhooks need no such proof.
    pub authorization: Option<String>,
    pub body: Option<Json>,
}

/// What a request says.
pub struct DiscordRequestView {
    pub method: Method,
    pub url: Seq<char>,
    pub authorization: Option<Seq<char>>,
    pub body: Option<JsonView>,
}

impl View for DiscordRequest {
    type V = DiscordRequestView;

    open spec fn view(&self) -> DiscordRequestView {
        DiscordRequestView {
            method: self.method,
            url: self.url@,
            authorization: web::opt_text(self.authorization),
            body: matrix_client::opt_json(self.body),
        }
    }
}

/// Where a channel is on Discord.
pub open spec fn channel_url(channel: Seq<char>) -> Seq<char> {
    "https://discord.com/api/v10/channels/"@ + channel
}

/// Where a webhook is on Discord.
pub open spec fn webhook_url(webhook: WebhookView) -> Seq<char> {
    "https://discord.com/api/v10/webhooks/"@ + webhook.id + "/"@ + webhook.token
}

fn make_channel_url(channel: &str) -> (url: String)
    ensures
        url@ == channel_url(channel@),
{
    "https://discord.com/api/v10/channels/".to_owned().concat(channel)
}

fn make_webhook_url(webhook: &WebhookInfo) -> (url: String)
    ensures
        url@ == webhook_url(webhook@),
{
    "https://discord.com/api/v10/webhooks/".to_owned().concat(webhook.id.as_str()).concat(
        "/",
    ).concat(webhook.token.as_str())
}

/// How the bridge's bot proves itself.
pub open spec fn bot_authorization(config: ConfigView) -> Option<Seq<char>> {
    Some("Bot "@ + config.discord_token)
}

fn make_bot_authorization(config: &Config) -> (res: Option<String>)
    ensures
        web::opt_text(res) == bot_authorization(config@),
{
    Some("Bot ".to_owned().concat(config.discord_token.as_str()))
}

/// A request of the bridge's bot.
pub open spec fn bot_request(
    config: ConfigView,
    method: Method,
    url: Seq<char>,
    body: Option<JsonView>,
) -> DiscordRequestView {
    DiscordRequestView { method, url, authorization: bot_authorization(config), body }
}

/// Asks for a channel.
pub fn channel_request(config: &Config, channel_id: &str) -> (request: DiscordRequest)
    ensures
        request@ == bot_request(config@, Method::Get, channel_url(channel_id@), None),
{
    DiscordRequest {
        method: Method::Get,
        url: make_channel_url(channel_id),
        authorization: make_bot_authorization(config),
        body: None,
    }
}

/// Asks for the webhooks of a channel.
pub fn webhooks_request(config: &Config, channel_id: &str) -> (request: DiscordRequest)
    ensures
        request@ == bot_request(
            config@,
            Method::Get,
            channel_url(channel_id@) + "/webhooks"@,
            None,
        ),
{
    DiscordRequest {
        method: Method::Get,
        url: make_channel_url(channel_id).concat("/webhooks"),
        authorization: make_bot_authorization(config),
        body: None,
    }
}

/// Makes a webhook of the bridge for a channel.
pub fn create_webhook_request(config: &Config, channel_id: &str) -> (request: DiscordRequest)
    ensures
        request@ == bot_request(
            config@,
            Method::Post,
            channel_url(channel_id@) + "/webhooks"@,
            Some(JsonView::object().with("name"@, JsonView::Text("matrix_bridge"@))),
        ),
{
    DiscordRequest {
        method: Method::Post,
        url: make_channel_url(channel_id).concat("/webhooks"),
        authorization: make_bot_authorization(config),
        body: Some(Json::object().with_text("name", "matrix_bridge")),
    }
}

/// Shows that the bot is typing in a channel.
pub fn typing_request(config: &Config, channel_id: &str) -> (request: DiscordRequest)
    ensures
        request@ == bot_request(
            config@,
            Method::Post,
            channel_url(channel_id@) + "/typing"@,
            None,
        ),
{
    DiscordRequest {
        method: Method::Post,
        url: make_channel_url(channel_id).concat("/typing"),
        authorization: make_bot_authorization(config),
        body: None,
    }
}

/// Reacts to a message, with an emoji that is written as a URL component.
pub fn reaction_request(config: &Config, channel_id: &str, message_id: &str, emoji: &str) -> (
    request: DiscordRequest)
    ensures
        request@ == bot_request(
            config@,
            Method::Put,
            channel_url(channel_id@) + "/messages/"@ + message_id@ + "/reactions/"@ + emoji@
                + "/@me"@,
            None,
        ),
{
    DiscordRequest {
        method: Method::Put,
        url: make_channel_url(channel_id).concat("/messages/").concat(message_id).concat(
            "/reactions/",
        ).concat(emoji).concat("/@me"),
        authorization: make_bot_authorization(config),
        body: None,
    }
}

/// A message that goes through a webhook.
pub struct WebhookPost {
    pub content: String,
    pub username: String,
    pub avatar_url: Option<String>,
}

/// The content of a message that goes through a webhook. Users and roles may be mentioned in it,
/// everyone may not.
pub open spec fn post_body(
    content: Seq<char>,
    username: Seq<char>,
    avatar: Option<Seq<char>>,
) -> JsonView {
    let body = JsonView::object().with("content"@, JsonView::Text(content)).with(
        "username"@,
        JsonView::Text(username),
    ).with(
        "allowed_mentions"@,
        JsonView::object().with(
            "parse"@,
            JsonView::Array(seq![JsonView::Text("users"@), JsonView::Text("roles"@)]),
        ),
    );
    match avatar {
        Some(url) => body.with("avatar_url"@, JsonView::Text(url)),
        None => body,
    }
}

/// Posts a message through a webhook, perhaps into a thread.
pub fn send_webhook_message(
    webhook: &WebhookInfo,
    post: &WebhookPost,
    thread_id: Option<&str>,
) -> (request: DiscordRequest)
    ensures
        request@ == (DiscordRequestView {
            method: Method::Post,
            url: webhook_url(webhook@) + "?wait=true"@ + match utils::opt_str(thread_id) {
                Some(thread) => "&thread_id="@ + thread,
                None => Seq::empty(),
            },
            authorization: None,
            body: Some(
                post_body(post.content@, post.username@, web::opt_text(post.avatar_url)),
            ),
        }),
{
    let base = make_webhook_url(webhook).concat("?wait=true");
    let suffix = match thread_id {
        Some(thread) => "&thread_id=".to_owned().concat(thread),
        None => String::new(),
    };
    let parse = Json::list_of_two(
        Json::Text("users".to_owned()),
        Json::Text("roles".to_owned()),
    );
    let plain = Json::object().with_text("content", post.content.as_str()).with_text(
        "username",
        post.username.as_str(),
    ).with("allowed_mentions", Json::object().with("parse", parse));
    let body = match &post.avatar_url {
        Some(url) => plain.with_text("avatar_url", url.as_str()),
        None => plain,
    };
    DiscordRequest {
        method: Method::Post,
        url: base.concat(suffix.as_str()),
        authorization: None,
        body: Some(body),
    }
}

/// A file that goes through a webhook, as the parts of a form.
pub struct FileForm {
    pub url: String,
    pub username: String,
    pub content: String,
    pub filename: String,
    /// The avatar, in a header of its own.
    pub avatar_header: Option<String>,
}

/// Posts a file through a webhook.
pub fn send_webhook_with_stream(webhook: &WebhookInfo, post: &WebhookPost, filename: &str) -> (form:
    FileForm)
    ensures
        form.url@ == webhook_url(webhook@) + "?wait=true"@,
        form.username@ == post.username@,
        form.content@ == post.content@,
        form.filename@ == filename@,
        form.avatar_header == post.avatar_url,
{
    FileForm {
        url: make_webhook_url(webhook).concat("?wait=true"),
        username: post.username.clone(),
        content: post.content.clone(),
        filename: filename.to_owned(),
        avatar_header: text::copy_optional(&post.avatar_url),
    }
}

/// Where a message of a webhook is.
pub open spec fn webhook_message_url(webhook: WebhookView, message: Seq<char>) -> Seq<char> {
    webhook_url(webhook) + "/messages/"@ + message
}

/// Changes a message of a webhook.
pub fn edit_webhook_message(webhook: &WebhookInfo, message_id: &str, content: &str) -> (request:
    DiscordRequest)
    ensures
        request@ == (DiscordRequestView {
            method: Method::Patch,
            url: webhook_message_url(webhook@, message_id@),
            authorization: None,
            body: Some(JsonView::object().with("content"@, JsonView::Text(content@))),
        }),
{
    DiscordRequest {
        method: Method::Patch,
        url: make_webhook_url(webhook).concat("/messages/").concat(message_id),
        authorization: None,
        body: Some(Json::object().with_text("content", content)),
    }
}

/// Deletes a message of a webhook.
pub fn delete_webhook_message(webhook: &WebhookInfo, message_id: &str) -> (request: DiscordRequest)
    ensures
        request@ == (DiscordRequestView {
            method: Method::Delete,
            url: webhook_message_url(webhook@, message_id@),
            authorization: None,
            body: None,
        }),
{
    DiscordRequest {
        method: Method::Delete,
        url: make_webhook_url(webhook).concat("/messages/").concat(message_id),
        authorization: None,
        body: None,
    }
}

/// A reply of Discord that carries no content of interest.
pub struct DiscordReply {
    pub status: u16,
    /// The status in words.
    pub status_text: String,
    pub text: String,
}

/// Whether a status means success.
pub open spec fn is_success(status: u16) -> bool {
    200 <= status <= 299
}

/// Whether a status means success.
pub fn succeeded(status: u16) -> (res: bool)
    ensures
        res == is_success(status),
{
    200 <= status && status <= 299
}

/// The outcome of a decision without a result, over texts.
pub open spec fn unit_outcome(res: Result<(), BridgeError>) -> Result<(), BridgeErrorView> {
    match res {
        Ok(()) => Ok(()),
        Err(e) => Err(e@),
    }
}

/// A failure in words, with the status and what Discord says.
pub open spec fn failure_text(what: Seq<char>, reply: DiscordReply) -> Seq<char> {
    what + reply.status_text@ + ": "@ + reply.text@
}

fn write_failure(what: &str, reply: &DiscordReply) -> (s: String)
    ensures
        s@ == failure_text(what@, *reply),
{
    what.to_owned().concat(reply.status_text.as_str()).concat(": ").concat(reply.text.as_str())
}

/// Which requests of the bridge a reply can belong to.
#[derive(Clone, Copy, PartialEq, Eq, Structural, Debug)]
pub enum Task {
    Send,
    SendFile,
    Edit,
    Delete,
    React,
    ListWebhooks,
    CreateWebhook,
    FindChannel,
}

/// What a reply means for a task. To change or to delete a message that is no longer there is no
/// failure.
pub open spec fn task_outcome(task: Task, reply: DiscordReply) -> Result<(), BridgeErrorView> {
    if is_success(reply.status) || (reply.status == 404 && (task == Task::Edit || task
        == Task::Delete)) {
        Ok(())
    } else {
        Err(
            match task {
                Task::Send => BridgeErrorView::Discord(
                    failure_text("Webhook send failed "@, reply),
                ),
                Task::SendFile => BridgeErrorView::Discord(
                    failure_text("Webhook file send failed "@, reply),
                ),
                Task::Edit => BridgeErrorView::Matrix(
                    failure_text("Webhook edit failed "@, reply),
                ),
                Task::Delete => BridgeErrorView::Discord(
                    failure_text("Webhook delete failed "@, reply),
                ),
                Task::React => BridgeErrorView::Discord(
                    "Discord reaction failed: "@ + reply.status_text@,
                ),
                Task::ListWebhooks => BridgeErrorView::Discord(
                    "Failed to fetch webhooks: "@ + reply.status_text@,
                ),
                Task::CreateWebhook => BridgeErrorView::Discord(
                    "Failed to create webhook: "@ + reply.text@,
                ),
                Task::FindChannel => BridgeErrorView::Discord(
                    failure_text("Discord API error "@, reply),
                ),
            },
        )
    }
}

/// What a reply means for a task.
pub fn judge_reply(task: Task, reply: &DiscordReply) -> (res: Result<(), BridgeError>)
    ensures
        unit_outcome(res) == task_outcome(task, *reply),
{
    if succeeded(reply.status) {
        return Ok(());
    }
    let error = match task {
        Task::Send => BridgeError::Discord(write_failure("Webhook send failed ", reply)),
        Task::SendFile => BridgeError::Discord(write_failure("Webhook file send failed ", reply)),
        Task::Edit => {
            if reply.status == 404 {
                return Ok(());
            }
            BridgeError::Matrix(write_failure("Webhook edit failed ", reply))
        },
        Task::Delete => {
            if reply.status == 404 {
                return Ok(());
            }
            BridgeError::Discord(write_failure("Webhook delete failed ", reply))
        },
        Task::React => BridgeError::Discord(
            "Discord reaction failed: ".to_owned().concat(reply.status_text.as_str()),
        ),
        Task::ListWebhooks => BridgeError::Discord(
            "Failed to fetch webhooks: ".to_owned().concat(reply.status_text.as_str()),
        ),
        Task::CreateWebhook => BridgeError::Discord(
            "Failed to create webhook: ".to_owned().concat(reply.text.as_str()),
        ),
        Task::FindChannel => BridgeError::Discord(write_failure("Discord API error ", reply)),
    };
    Err(error)
}

/// A webhook as Discord describes it, where it has a number and a token.
pub open spec fn described_webhook(json: JsonView) -> Option<WebhookView> {
    match (json.at("id"@).as_text(), json.at("token"@).as_text()) {
        (Some(id), Some(token)) => Some(WebhookView { id, token }),
        _ => None,
    }
}

/// Reads a webhook.
pub fn read_webhook(json: &Json) -> (res: Option<WebhookInfo>)
    ensures
        res is Some <==> described_webhook(json@) is Some,
        res matches Some(webhook) ==> described_webhook(json@) == Some(webhook@),
{
    match (json.text_at("id"), json.text_at("token")) {
        (Some(id), Some(token)) => Some(WebhookInfo { id, token }),
        _ => None,
    }
}

/// Whether a webhook in a list is the bridge's.
pub open spec fn is_ours(json: JsonView) -> bool {
    json.at("name"@).as_text() == Some("matrix_bridge"@)
}

/// Where the bridge's webhook is in a list: at its first place.
pub fn find_webhook(list: &Vec<Json>) -> (place: Option<usize>)
    ensures
        match place {
            Some(i) => i < list@.len() && is_ours(list@[i as int]@) && forall|j: int|
                0 <= j < i ==> !is_ours((#[trigger] list@[j])@),
            None => forall|j: int| 0 <= j < list@.len() ==> !is_ours((#[trigger] list@[j])@),
        },
{
    let count: usize = list.len();
    let mut i: usize = 0;
    while i < count
        invariant
            count == list@.len(),
            i <= count,
            forall|j: int| 0 <= j < i ==> !is_ours((#[trigger] list@[j])@),
        decreases count - i,
    {
        if list[i].text_at_is("name", "matrix_bridge") {
            return Some(i);
        }
        i += 1;
    }
    None
}

/// What is known while the webhook of a channel is looked for.
pub struct WebhookCase {
    /// The webhook that is remembered.
    pub cached: Option<Option<WebhookInfo>>,
    /// The webhooks that the channel has.
    pub listed: Option<Vec<Json>>,
    /// The webhook that was made.
    pub created: Option<Json>,
}

/// What happens next in looking for a webhook.
pub enum WebhookStep {
    AskCache,
    List,
    Create,
    /// This one is used.
    Use(WebhookInfo),
    /// Discord described a webhook without a number or a token.
    Unreadable,
}

/// The description of a webhook that counts: the bridge's first in the list, or else the one that
/// was made.
pub open spec fn chosen_webhook(listed: Seq<JsonView>, created: Option<JsonView>) -> Option<JsonView>
    decreases listed.len(),
{
    if listed.len() == 0 {
        created
    } else if is_ours(listed[0]) {
        Some(listed[0])
    } else {
        chosen_webhook(listed.drop_first(), created)
    }
}

/// Whether none of the webhooks is the bridge's.
pub open spec fn none_is_ours(listed: Seq<JsonView>) -> bool {
    forall|i: int| 0 <= i < listed.len() ==> !is_ours(#[trigger] listed[i])
}

/// The first of the bridge's webhooks is chosen, and what was made where there is none.
proof fn lemma_chosen(listed: Seq<JsonView>, created: Option<JsonView>, i: int)
    requires
        0 <= i <= listed.len(),
        forall|j: int| 0 <= j < i ==> !is_ours(#[trigger] listed[j]),
        i < listed.len() ==> is_ours(listed[i]),
    ensures
        chosen_webhook(listed, created) == if i < listed.len() {
            Some(listed[i])
        } else {
            created
        },
    decreases listed.len(),
{
    if listed.len() > 0 && i > 0 {
        let rest = listed.drop_first();
        assert(!is_ours(listed[0]));
        assert forall|j: int| 0 <= j < i - 1 implies !is_ours(#[trigger] rest[j]) by {
            assert(rest[j] == listed[j + 1]);
        }
        if i < listed.len() {
            assert(rest[i - 1] == listed[i]);
        }
        lemma_chosen(rest, created, i - 1);
    }
}

impl WebhookCase {
    /// The webhooks that the channel has, over texts.
    pub open spec fn list(self) -> Seq<JsonView> {
        match self.listed {
            Some(list) => json::list_of(list@),
            None => Seq::empty(),
        }
    }

    /// Whether the webhook is known not to be remembered, and the channel's webhooks are known.
    pub open spec fn is_searched(self) -> bool {
        (self.cached matches Some(None)) && self.listed is Some
    }

    /// What happens next. The webhook that is remembered is used; else the bridge's webhook of the
    /// channel; else one is made.
    pub fn next(&self) -> (step: WebhookStep)
        ensures
            step is AskCache <==> self.cached is None,
            step is List <==> (self.cached matches Some(None)) && self.listed is None,
            step is Create <==> self.is_searched() && none_is_ours(self.list())
                && self.created is None,
            step is Unreadable <==> self.is_searched() && (chosen_webhook(
                self.list(),
                matrix_client::opt_json(self.created),
            ) matches Some(chosen) && described_webhook(chosen) is None),
            step matches WebhookStep::Use(webhook) ==> match self.cached {
                Some(Some(known)) => webhook@ == known@,
                _ => self.is_searched() && (chosen_webhook(
                    self.list(),
                    matrix_client::opt_json(self.created),
                ) matches Some(chosen) && described_webhook(chosen) == Some(webhook@)),
            },
    {
        match &self.cached {
            None => WebhookStep::AskCache,
            Some(Some(webhook)) => WebhookStep::Use(
                WebhookInfo { id: webhook.id.clone(), token: webhook.token.clone() },
            ),
            Some(None) => match &self.listed {
                None => WebhookStep::List,
                Some(list) => {
                    let ghost views = json::list_of(list@);
                    let ghost made = matrix_client::opt_json(self.created);
                    proof {
                        json::lemma_list(list@);
                    }
                    let place = find_webhook(list);
                    proof {
                        assert forall|j: int| 0 <= j < views.len() implies is_ours(
                            #[trigger] views[j],
                        ) == is_ours(list@[j]@) by {}
                        match place {
                            Some(i) => {
                                lemma_chosen(views, made, i as int);
                                assert(is_ours(views[i as int]));
                            },
                            None => {
                                lemma_chosen(views, made, views.len() as int);
                            },
                        }
                    }
                    let chosen = match place {
                        Some(i) => read_webhook(&list[i]),
                        None => match &self.created {
                            None => {
                                return WebhookStep::Create;
                            },
                            Some(made) => read_webhook(made),
                        },
                    };
                    match chosen {
                        Some(webhook) => WebhookStep::Use(webhook),
                        None => WebhookStep::Unreadable,
                    }
                },
            },
        }
    }

    /// Remembers the webhook that was found for a channel, unless it is remembered already.
    pub fn keep(&self, cache: &mut Cache, channel_id: &str, webhook: &WebhookInfo)
        ensures
            if self.cached matches Some(Some(_)) {
                *final(cache) == *old(cache)
            } else {
                &&& final(cache).d_webhooks@ == old(cache).d_webhooks@.insert(
                    channel_id@,
                    webhook@,
                )
                &&& final(cache).d_webhooks.lost() == old(cache).d_webhooks.lost().remove(
                    channel_id@,
                )
                &&& *final(cache) == (Cache { d_webhooks: final(cache).d_webhooks, ..*old(cache) })
            },
    {
        match &self.cached {
            Some(Some(_)) => {},
            _ => {
                cache.d_webhooks.insert(channel_id.to_owned(), webhook.duplicate());
            },
        }
    }
}

/// The webhook that is used is the first of the channel's own that is the bridge's, wherever in the
/// list it stands; and the one that was created only where there is none.
pub proof fn law_the_first_own_webhook_is_used(
    listed: Seq<JsonView>,
    created: Option<JsonView>,
    i: int,
)
    ensures
        0 <= i < listed.len() && listed[i].at("name"@) == JsonView::Text("matrix_bridge"@)
            && none_is_ours(listed.take(i)) ==> chosen_webhook(listed, created) == Some(listed[i]),
        none_is_ours(listed) ==> chosen_webhook(listed, created) == created,
    decreases listed.len(),
{
    if listed.len() > 0 {
        let rest = listed.drop_first();
        law_the_first_own_webhook_is_used(rest, created, i - 1);
        if none_is_ours(listed) {
            assert(!is_ours(listed[0]));
            assert forall|j: int| 0 <= j < rest.len() implies !is_ours(#[trigger] rest[j]) by {
                assert(rest[j] == listed[j + 1]);
            }
        }
        if 0 < i < listed.len() && none_is_ours(listed.take(i)) {
            assert(!is_ours(listed.take(i)[0]));
            assert forall|j: int| 0 <= j < rest.take(i - 1).len() implies !is_ours(
                #[trigger] rest.take(i - 1)[j],
            ) by {
                assert(rest.take(i - 1)[j] == listed.take(i)[j + 1]);
            }
        }
    }
}

/// Every status of the two hundreds is a success, and no other is, except that a message which is
/// gone counts as edited and as deleted.
pub proof fn law_failures_are_told(task: Task, reply: DiscordReply)
    ensures
        reply.status / 100 == 2 ==> task_outcome(task, reply) is Ok,
        reply.status == 404 ==> (task_outcome(task, reply) is Ok <==> task == Task::Edit || task
            == Task::Delete),
        reply.status / 100 != 2 && reply.status != 404 ==> task_outcome(task, reply) is Err,
{
}

/// A post brings its text, its name and its picture, where it has one, and may mention users and
/// roles but not everyone.
pub proof fn law_posts_read_back(
    content: Seq<char>,
    username: Seq<char>,
    avatar: Option<Seq<char>>,
)
    ensures
        post_body(content, username, avatar).at("content"@) == JsonView::Text(content),
        post_body(content, username, avatar).at("username"@) == JsonView::Text(username),
        post_body(content, username, avatar).at("avatar_url"@).as_text() == avatar,
        post_body(content, username, avatar).at("allowed_mentions"@).at("parse"@).as_array()
            == Some(seq![JsonView::Text("users"@), JsonView::Text("roles"@)]),
{
    reveal_strlit("content");
    reveal_strlit("username");
    reveal_strlit("avatar_url");
    reveal_strlit("allowed_mentions");
    assert("content"@.len() == 7 && "username"@.len() == 8 && "avatar_url"@.len() == 10);
    assert("allowed_mentions"@.len() == 16);
}

/// What goes to Discord as the bot carries the bot's token, and what concerns a webhook goes to the
/// webhook's own address, with its number and its token.
pub proof fn law_requests_go_to_their_place(
    config: ConfigView,
    method: Method,
    channel: Seq<char>,
    webhook: WebhookView,
    message: Seq<char>,
    body: Option<JsonView>,
)
    ensures
        ({
            let request = bot_request(config, method, channel_url(channel), body);
            &&& request.method == method
            &&& request.url == channel_url(channel)
            &&& request.authorization == Some("Bot "@ + config.discord_token)
            &&& request.body == body
        }),
        ("/channels/"@ + channel).is_suffix_of(channel_url(channel)),
        ("/webhooks/"@ + webhook.id + "/"@ + webhook.token).is_suffix_of(webhook_url(webhook)),
        webhook_url(webhook).is_prefix_of(webhook_message_url(webhook, message)),
        ("/messages/"@ + message).is_suffix_of(webhook_message_url(webhook, message)),
{
    reveal_strlit("https://discord.com/api/v10/channels/");
    reveal_strlit("https://discord.com/api/v10/webhooks/");
    reveal_strlit("https://discord.com/api/v10");
    reveal_strlit("/channels/");
    reveal_strlit("/webhooks/");
    let place = "https://discord.com/api/v10"@;
    assert("https://discord.com/api/v10/channels/"@ =~= place + "/channels/"@);
    assert("https://discord.com/api/v10/webhooks/"@ =~= place + "/webhooks/"@);
    let to_channel = "/channels/"@ + channel;
    let url = channel_url(channel);
    assert(url =~= place + to_channel);
    assert(url.subrange(url.len() - to_channel.len(), url.len() as int) =~= to_channel);
    let to_webhook = "/webhooks/"@ + webhook.id + "/"@ + webhook.token;
    let hook = webhook_url(webhook);
    assert(hook =~= place + to_webhook);
    assert(hook.subrange(hook.len() - to_webhook.len(), hook.len() as int) =~= to_webhook);
    let sent = webhook_message_url(webhook, message);
    let to_message = "/messages/"@ + message;
    assert(sent =~= hook + to_message);
    assert(sent.subrange(0, hook.len() as int) =~= hook);
    assert(sent.subrange(sent.len() - to_message.len(), sent.len() as int) =~= to_message);
}

/// A webhook is described by its number and its token, and by nothing less.
pub proof fn law_webhooks_are_described(json: JsonView, id: Seq<char>, token: Seq<char>)
    ensures
        json.at("id"@) == JsonView::Text(id) && json.at("token"@) == JsonView::Text(token)
            ==> described_webhook(json) == Some(WebhookView { id, token }),
        json.at("id"@) !is Text || json.at("token"@) !is Text ==> described_webhook(json) is None,
{
}

} // verus!

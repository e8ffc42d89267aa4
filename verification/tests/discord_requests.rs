use bridge::cache::{Cache, WebhookInfo};
use bridge::config::Config;
use bridge::discord_api;
use bridge::discord_api::{DiscordReply, Task, WebhookCase, WebhookPost, WebhookStep};
use bridge::json::Json;
use bridge::matrix_client::Method;

fn webhook() -> WebhookInfo {
    WebhookInfo { id: "1".to_string(), token: "t".to_string() }
}

fn post(avatar: Option<&str>) -> WebhookPost {
    WebhookPost {
        content: "hi".to_string(),
        username: "Ann".to_string(),
        avatar_url: avatar.map(String::from),
    }
}

fn described(name: &str, id: &str) -> Json {
    Json::object().with_text("name", name).with_text("id", id).with_text("token", "t")
}

#[test]
fn the_bot_proves_itself() {
    let mut config = Config::default();
    config.discord_token = "secret".to_string();
    let request = discord_api::channel_request(&config, "77");
    assert_eq!(request.method, Method::Get);
    assert_eq!(request.url, "https://discord.com/api/v10/channels/77");
    assert_eq!(request.authorization.as_deref(), Some("Bot secret"));
    let request = discord_api::webhooks_request(&config, "77");
    assert_eq!(request.url, "https://discord.com/api/v10/channels/77/webhooks");
    let request = discord_api::create_webhook_request(&config, "77");
    assert_eq!(request.method, Method::Post);
    assert_eq!(request.body.unwrap().text_at("name").as_deref(), Some("matrix_bridge"));
    let request = discord_api::typing_request(&config, "77");
    assert_eq!(request.url, "https://discord.com/api/v10/channels/77/typing");
    let request = discord_api::reaction_request(&config, "77", "5", "cat%3A9");
    assert_eq!(request.method, Method::Put);
    assert_eq!(
        request.url,
        "https://discord.com/api/v10/channels/77/messages/5/reactions/cat%3A9/@me"
    );
}

#[test]
fn webhooks_post_edit_and_delete() {
    let request = discord_api::send_webhook_message(&webhook(), &post(Some("http://a")), None);
    assert_eq!(request.url, "https://discord.com/api/v10/webhooks/1/t?wait=true");
    assert!(request.authorization.is_none());
    let body = request.body.unwrap();
    assert_eq!(body.text_at("content").as_deref(), Some("hi"));
    assert_eq!(body.text_at("username").as_deref(), Some("Ann"));
    assert_eq!(body.text_at("avatar_url").as_deref(), Some("http://a"));
    let parse = body.get("allowed_mentions").unwrap().array_at("parse").unwrap();
    assert_eq!(parse.len(), 2);
    assert_eq!(parse[0].as_text().as_deref(), Some("users"));
    assert_eq!(parse[1].as_text().as_deref(), Some("roles"));
    let request = discord_api::send_webhook_message(&webhook(), &post(None), Some("8"));
    assert_eq!(request.url, "https://discord.com/api/v10/webhooks/1/t?wait=true&thread_id=8");
    assert!(request.body.unwrap().get("avatar_url").is_none());
    let form = discord_api::send_webhook_with_stream(&webhook(), &post(Some("http://a")), "f.png");
    assert_eq!(form.url, "https://discord.com/api/v10/webhooks/1/t?wait=true");
    assert_eq!((form.filename.as_str(), form.content.as_str()), ("f.png", "hi"));
    assert_eq!(form.avatar_header.as_deref(), Some("http://a"));
    let request = discord_api::edit_webhook_message(&webhook(), "5", "new");
    assert_eq!(request.method, Method::Patch);
    assert_eq!(request.url, "https://discord.com/api/v10/webhooks/1/t/messages/5");
    let request = discord_api::delete_webhook_message(&webhook(), "5");
    assert_eq!(request.method, Method::Delete);
    assert!(request.body.is_none());
}

fn reply(status: u16) -> DiscordReply {
    DiscordReply { status, status_text: format!("{status} Status"), text: "why".to_string() }
}

#[test]
fn failures_are_told_by_task() {
    for (task, sentence) in [
        (Task::Send, "Discord error: Webhook send failed 500 Status: why"),
        (Task::SendFile, "Discord error: Webhook file send failed 500 Status: why"),
        (Task::Edit, "Matrix error: Webhook edit failed 500 Status: why"),
        (Task::Delete, "Discord error: Webhook delete failed 500 Status: why"),
        (Task::React, "Discord error: Discord reaction failed: 500 Status"),
        (Task::ListWebhooks, "Discord error: Failed to fetch webhooks: 500 Status"),
        (Task::CreateWebhook, "Discord error: Failed to create webhook: why"),
        (Task::FindChannel, "Discord error: Discord API error 500 Status: why"),
    ] {
        assert_eq!(discord_api::judge_reply(task, &reply(500)).unwrap_err().message(), sentence);
        assert!(discord_api::judge_reply(task, &reply(204)).is_ok());
        let gone = discord_api::judge_reply(task, &reply(404)).is_ok();
        assert_eq!(gone, task == Task::Edit || task == Task::Delete);
    }
    assert!(discord_api::succeeded(200) && discord_api::succeeded(299));
    assert!(!discord_api::succeeded(199) && !discord_api::succeeded(300));
}

#[test]
fn a_webhook_is_remembered_found_or_made() {
    let mut case = WebhookCase { cached: None, listed: None, created: None };
    assert!(matches!(case.next(), WebhookStep::AskCache));
    case.cached = Some(None);
    assert!(matches!(case.next(), WebhookStep::List));
    case.listed = Some(vec![described("other", "1")]);
    assert!(matches!(case.next(), WebhookStep::Create));
    case.created = Some(described("matrix_bridge", "2"));
    assert!(matches!(case.next(), WebhookStep::Use(w) if w.id == "2" && w.token == "t"));
    case.listed = Some(vec![described("other", "1"), described("matrix_bridge", "3"), described("matrix_bridge", "4")]);
    assert!(matches!(case.next(), WebhookStep::Use(w) if w.id == "3"));
    case.listed = Some(vec![Json::object().with_text("name", "matrix_bridge")]);
    assert!(matches!(case.next(), WebhookStep::Unreadable));
    case.cached = Some(Some(webhook()));
    assert!(matches!(case.next(), WebhookStep::Use(w) if w.id == "1"));
    assert!(discord_api::find_webhook(&vec![described("a", "1")]).is_none());
    assert!(discord_api::read_webhook(&Json::object().with_text("id", "1")).is_none());
}

#[test]
fn a_webhook_that_was_found_is_remembered() {
    let mut cache = Cache::new();
    let mut case = WebhookCase { cached: Some(None), listed: None, created: None };
    case.keep(&mut cache, "77", &webhook());
    assert_eq!(cache.d_webhooks.get("77").unwrap().id, "1");
    case.cached = Some(Some(webhook()));
    case.keep(&mut cache, "78", &webhook());
    assert!(cache.d_webhooks.get("78").is_none());
}

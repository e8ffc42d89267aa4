use bridge::cache;
use bridge::cache::{BytesCache, Cache, CacheEntry, MatrixUser, TextCache, WebhookInfo};
use bridge::db::UserPreference;
use bridge::table::TextMap;

#[test]
fn a_mapping_goes_both_ways() {
    let mut cache = Cache::default();
    cache.insert_message_mapping("$e".to_string(), "5".to_string());
    assert_eq!(cache.m_messages.get("$e").as_deref(), Some("5"));
    assert_eq!(cache.d_messages.get("5").as_deref(), Some("$e"));
}

#[test]
fn a_mapping_is_removed_from_either_side() {
    let mut cache = Cache::new();
    cache.insert_message_mapping("$e".to_string(), "5".to_string());
    cache.remove_message_mapping(Some("$e"), None);
    assert!(cache.m_messages.get("$e").is_none());
    assert_eq!(cache.d_messages.get("5").as_deref(), Some("$e"));
    cache.remove_message_mapping(None, Some("5"));
    assert!(cache.d_messages.get("5").is_none());
    cache.insert_message_mapping("$f".to_string(), "6".to_string());
    cache.remove_message_mapping(Some("$f"), Some("6"));
    assert!(cache.m_messages.get("$f").is_none() && cache.d_messages.get("6").is_none());
}

#[test]
fn a_later_text_takes_the_place_of_an_earlier_one() {
    let mut cache = TextCache::new(10, 60);
    cache.insert("k".to_string(), "1".to_string());
    cache.insert("k".to_string(), "2".to_string());
    assert_eq!(cache.get("k").as_deref(), Some("2"));
    cache.invalidate("k");
    assert!(cache.get("k").is_none());
}

#[test]
fn texts_are_forgotten_by_value() {
    let mut cache = TextCache::new(10, 60);
    cache.insert("a".to_string(), "x".to_string());
    cache.insert("b".to_string(), "y".to_string());
    cache.insert("c".to_string(), "x".to_string());
    cache.invalidate_value("x");
    assert!(cache.get("a").is_none() && cache.get("c").is_none());
    assert_eq!(cache.get("b").as_deref(), Some("y"));
}

#[test]
fn rooms_are_forgotten() {
    let mut cache = Cache::new();
    let mut members = TextMap::new();
    members.insert("@a:x".to_string(), MatrixUser { avatar_url: None, display_name: None });
    cache.m_members.insert("!r:x".to_string(), members);
    cache.m_custom_emojis.insert("!r:x".to_string(), TextMap::new());
    cache.m_rooms.insert("#a:x".to_string(), "!r:x".to_string());
    cache.m_rooms.insert("#b:x".to_string(), "!s:x".to_string());
    cache.remove_room_data("!r:x");
    assert!(cache.m_members.get("!r:x").is_none());
    assert!(cache.m_custom_emojis.get("!r:x").is_none());
    assert!(cache.m_rooms.get("#a:x").is_none());
    assert_eq!(cache.m_rooms.get("#b:x").as_deref(), Some("!s:x"));
}

#[test]
fn guilds_are_forgotten() {
    let mut cache = Cache::new();
    cache.d_roles.insert("3".to_string(), TextMap::new());
    cache.d_channels.insert("3".to_string(), TextMap::new());
    cache.d_roles.insert("4".to_string(), TextMap::new());
    cache.remove_guild_data("3");
    assert!(cache.d_roles.get("3").is_none() && cache.d_channels.get("3").is_none());
    assert!(cache.d_roles.get("4").is_some());
}

#[test]
fn webhooks_are_found_by_number() {
    let mut cache = Cache::new();
    let webhook = WebhookInfo { id: "9".to_string(), token: "t".to_string() };
    cache.d_webhooks.insert("77".to_string(), webhook);
    assert_eq!(cache.d_webhooks.get("77").unwrap().token, "t");
    assert!(cache.d_webhooks.has_id("9") && !cache.d_webhooks.has_id("77"));
}

#[test]
fn preferences_are_kept_by_user_and_room() {
    let mut cache = Cache::new();
    cache.user_prefs.insert("@a:x", "!r:x", None);
    assert!(cache.user_prefs.get("@a:x", "!r:x").is_some());
    assert!(cache.user_prefs.get("@a:x!", "r:x").is_none());
    cache.user_prefs.invalidate("@a:x", "!r:x");
    assert!(cache.user_prefs.get("@a:x", "!r:x").is_none());
}

#[test]
fn bytes_weigh_what_they_are() {
    assert_eq!(cache::entry_weight(&CacheEntry::Bytes(vec![0; 5])), 5);
    assert_eq!(cache::entry_weight(&CacheEntry::Bytes(Vec::new())), 0);
    assert_eq!(cache::entry_weight(&CacheEntry::Text("long text".to_string())), 1);
    let mut bytes = BytesCache::new(100, 60);
    bytes.insert("a".to_string(), vec![1, 2]);
    assert_eq!(bytes.get("a"), Some(vec![1, 2]));
}

#[test]
fn what_is_found_is_read_by_its_kind() {
    let text = || Some(CacheEntry::Text("t".to_string()));
    assert_eq!(CacheEntry::text_found(text()).as_deref(), Some("t"));
    assert!(CacheEntry::text_found(None).is_none());
    assert!(CacheEntry::texts_found(text()).is_none());
    assert!(CacheEntry::members_found(text()).is_none());
    assert!(CacheEntry::webhook_found(text()).is_none());
    assert!(CacheEntry::bytes_found(text()).is_none());
    assert!(CacheEntry::preference_found(text()).is_none());
    assert!(CacheEntry::text_found(Some(CacheEntry::Bytes(vec![1]))).is_none());
    assert_eq!(CacheEntry::bytes_found(Some(CacheEntry::Bytes(vec![1]))), Some(vec![1]));

    let mut texts = TextMap::new();
    texts.insert("k".to_string(), "v".to_string());
    let found = CacheEntry::texts_found(Some(CacheEntry::Texts(texts))).unwrap();
    assert_eq!(found.get("k").map(String::as_str), Some("v"));

    let mut members = TextMap::new();
    members.insert("@a:x".to_string(), MatrixUser { avatar_url: None, display_name: None });
    let found = CacheEntry::members_found(Some(CacheEntry::Members(members))).unwrap();
    assert_eq!(found.len(), 1);

    let webhook = WebhookInfo { id: "9".to_string(), token: "t".to_string() };
    let found = CacheEntry::webhook_found(Some(CacheEntry::Webhook(webhook))).unwrap();
    assert_eq!((found.id.as_str(), found.token.as_str()), ("9", "t"));

    let wish =
        UserPreference { room_id: "r".to_string(), status: "never".to_string(), until_ts: None };
    let found = CacheEntry::preference_found(Some(CacheEntry::Preference(Some(wish)))).unwrap();
    assert_eq!(found.unwrap().status, "never");
    let found = CacheEntry::preference_found(Some(CacheEntry::Preference(None)));
    assert!(matches!(found, Some(None)));
}

#[test]
fn walked_entries_are_searched() {
    let webhook = |id: &str| {
        CacheEntry::Webhook(WebhookInfo { id: id.to_string(), token: "t".to_string() })
    };
    let entries = vec![
        ("a".to_string(), CacheEntry::Text("x".to_string())),
        ("b".to_string(), webhook("9")),
        ("c".to_string(), CacheEntry::Text("y".to_string())),
        ("d".to_string(), CacheEntry::Text("x".to_string())),
    ];
    assert!(cache::lists_webhook(&entries, "9"));
    assert!(!cache::lists_webhook(&entries, "x"));
    assert_eq!(cache::keys_with_text(&entries, "x"), vec!["a".to_string(), "d".to_string()]);
    assert!(cache::keys_with_text(&entries, "9").is_empty());
}

#[test]
fn a_webhook_that_is_looked_for_stays() {
    let mut cache = Cache::new();
    let webhook = WebhookInfo { id: "9".to_string(), token: "t".to_string() };
    cache.d_webhooks.insert("77".to_string(), webhook);
    assert!(!cache.d_webhooks.has_id("8"));
    assert!(cache.d_webhooks.has_id("9"));
    assert_eq!(cache.d_webhooks.get("77").unwrap().id, "9");
}

#[test]
fn what_was_sent_is_remembered() {
    let mut cache = Cache::new();
    cache.settle_post("$e", &None);
    assert!(cache.m_messages.get("$e").is_none());
    cache.settle_post("$e", &Some("5".to_string()));
    assert_eq!(cache.m_messages.get("$e").as_deref(), Some("5"));
    assert_eq!(cache.d_messages.get("5").as_deref(), Some("$e"));
    cache.settle_deletion("$e", "5", false);
    assert_eq!(cache.m_messages.get("$e").as_deref(), Some("5"));
    cache.settle_deletion("$e", "5", true);
    assert!(cache.m_messages.get("$e").is_none() && cache.d_messages.get("5").is_none());
}

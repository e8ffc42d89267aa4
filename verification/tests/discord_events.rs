use bridge::cache::{Cache, WebhookInfo};
use bridge::config::Config;
use bridge::crypto;
use bridge::db::{BridgedRoom, BridgedUser};
use bridge::discord_client;
use bridge::discord_client::{
    ChannelGate, DiscordHandler, DiscordMessage, DiscordUser, Embed, EmbedField, EmoteLookup,
    EmoteStep, GateStep, GuildEmote, GuildInfo, PuppetCare, ReactionEmoji, SentKind, SentRecord,
    StickerItem,
};
use bridge::matrix_client::MatrixClient;
use bridge::message::{QuotedEvent, ReplyTarget};
use bridge::table::TextMap;

fn user(id: u64, name: &str) -> DiscordUser {
    DiscordUser {
        id,
        name: name.to_string(),
        bot: false,
        discriminator: None,
        face: "https://cdn.discordapp.com/a.png".to_string(),
    }
}

fn message(content: &str) -> DiscordMessage {
    DiscordMessage {
        id: 5,
        channel_id: 77,
        guild_id: Some(3),
        webhook_id: None,
        author: user(1, "ann"),
        content: content.to_string(),
        mentions: Vec::new(),
        attachments: Vec::new(),
        stickers: Vec::new(),
        embeds: Vec::new(),
        referenced_id: None,
    }
}

fn embed() -> Embed {
    Embed {
        author: None,
        title: None,
        url: None,
        description: None,
        fields: Vec::new(),
        footer: None,
        image: None,
        thumbnail: None,
    }
}

fn guild() -> GuildInfo {
    GuildInfo {
        id: 3,
        emotes: vec![
            GuildEmote { id: 8, name: "cat".to_string(), animated: false },
            GuildEmote { id: 9, name: "dog".to_string(), animated: true },
        ],
        roles: vec![(10, "mods".to_string())],
        channels: vec![(20, "general".to_string())],
    }
}

fn room() -> BridgedRoom {
    BridgedRoom {
        room_id: "!r:x".to_string(),
        channel_id: "77".to_string(),
        d2m_enabled: true,
        m2d_enabled: true,
        d2m_mod_deletions: false,
        m2d_mod_deletions: false,
        d2m_typing: true,
        m2d_typing: true,
    }
}

fn processed(cache: &Cache, message: &DiscordMessage) -> (String, TextMap<String>) {
    DiscordHandler::process_discord_message(cache, message)
}

#[test]
fn mentions_become_names() {
    let mut cache = Cache::new();
    DiscordHandler::guild_create(&mut cache, &guild());
    let mut m = message("<@2> <@!2> <@&10> <@&11> <#20> <#21>");
    m.mentions.push(user(2, "bob"));
    let (text, emotes) = processed(&cache, &m);
    assert_eq!(text, "@bob @bob @mods @role-11 #general #channel-21");
    assert!(emotes.is_empty());
    m.guild_id = None;
    let (text, _) = processed(&cache, &m);
    assert_eq!(text, "@bob @bob @deleted-role @deleted-role #deleted-channel #deleted-channel");
}

#[test]
fn guilds_are_remembered_and_forgotten() {
    let mut cache = Cache::new();
    DiscordHandler::guild_create(&mut cache, &guild());
    assert_eq!(cache.d_emotes.get("cat").as_deref(), Some("<:cat:8>"));
    assert_eq!(cache.d_emotes.get("dog").as_deref(), Some("<a:dog:9>"));
    assert_eq!(cache.d_roles.get("3").unwrap().len(), 1);
    DiscordHandler::guild_delete(&mut cache, 3);
    assert!(cache.d_roles.get("3").is_none() && cache.d_channels.get("3").is_none());
    assert!(cache.d_emotes.get("cat").is_some());
    let (text, _) = processed(&cache, &message("<@&10> <#20>"));
    assert_eq!(text, "@role-10 #channel-20");
}

#[test]
fn emotes_become_shortcodes() {
    let (text, emotes) = processed(&Cache::new(), &message("é <:cat:8> <a:dog:9> <:cat:7>"));
    assert_eq!(text, "é :cat: :dog: :cat:");
    assert_eq!(emotes.len(), 2);
    assert_eq!(emotes.get("cat").map(String::as_str), Some("7"));
    assert_eq!(emotes.get("dog").map(String::as_str), Some("9"));
}

#[test]
fn stickers_are_images_unless_animated_vectors() {
    let stickers = vec![
        StickerItem { id: 1, is_lottie: false },
        StickerItem { id: 2, is_lottie: true },
    ];
    assert_eq!(
        DiscordHandler::process_stickers(&stickers),
        vec!["https://cdn.discordapp.com/stickers/1.png".to_string()]
    );
    let mut m = message("");
    m.stickers = stickers;
    let plan = DiscordHandler::plan(&m, " \n", TextMap::new());
    assert!(plan.text.is_none());
    assert_eq!(
        plan.stickers,
        vec![("https://cdn.discordapp.com/stickers/1.png".to_string(), "1.png".to_string())]
    );
}

#[test]
fn embeds_become_markdown() {
    let mut full = embed();
    full.author = Some("A".to_string());
    full.title = Some("T".to_string());
    full.url = Some("U".to_string());
    full.description = Some("D".to_string());
    full.fields = vec![EmbedField { name: "N".to_string(), value: "V".to_string() }];
    full.footer = Some("F".to_string());
    full.image = Some("I".to_string());
    full.thumbnail = Some("H".to_string());
    assert_eq!(
        DiscordHandler::process_embeds(&vec![full]),
        "\n\n---\n**A**\n**[T](U)**\nD\n\n**N**\nV\n\n\n*F*\nI\nH"
    );
    let mut titled = embed();
    titled.title = Some("T".to_string());
    assert_eq!(DiscordHandler::process_embeds(&vec![titled, embed()]), "\n\n---\n**T**\n\n\n---\n");
    assert_eq!(DiscordHandler::process_embeds(&Vec::new()), "");
}

#[test]
fn a_plan_joins_text_and_embeds() {
    let mut m = message("hi");
    m.embeds.push(embed());
    let plan = DiscordHandler::plan(&m, "hi", TextMap::new());
    assert_eq!(plan.text.as_deref(), Some("hi\n\n---\n"));
    assert!(plan.emotes.is_empty() && plan.stickers.is_empty());
}

#[test]
fn names_may_have_digits_behind_them() {
    assert_eq!(discord_client::show_name("ann", 0), "ann");
    assert_eq!(discord_client::show_name("ann", 42), "ann#0042");
    assert_eq!(discord_client::show_name("ann", 12345), "ann#12345");
    let mut u = user(1, "ann");
    assert_eq!(u.get_discriminator(), 0);
    u.discriminator = Some(7);
    assert_eq!(u.get_discriminator(), 7);
}

fn known(username: Option<&str>, avatar: Option<&str>) -> Option<BridgedUser> {
    Some(BridgedUser {
        mxid: "@_discord_1:x".to_string(),
        username: username.map(String::from),
        avatar_url: avatar.map(String::from),
    })
}

#[test]
fn profiles_tell_what_changed() {
    let changes = DiscordHandler::sync_profile(&None, "ann", 0, "pic");
    assert!(changes.display_name.is_none() && changes.avatar_url.is_none());
    let changes = DiscordHandler::sync_profile(&known(Some("ann"), None), "ann", 42, "pic");
    assert_eq!(changes.display_name.as_deref(), Some("ann#0042"));
    assert_eq!(changes.avatar_url.as_deref(), Some("pic"));
    let changes = DiscordHandler::sync_profile(&known(Some("ann#0042"), Some("pic")), "ann", 42, "pic");
    assert!(changes.display_name.is_none() && changes.avatar_url.is_none());
}

#[test]
fn puppets_of_webhooks_are_told_apart() {
    let handler = DiscordHandler::new(MatrixClient::new(Config::default()));
    let mut m = message("");
    assert_eq!(handler.author_puppet(&m), "@_discord_1:localhost");
    m.webhook_id = Some(9);
    let hash = crypto::short_hash("ann");
    assert_eq!(handler.author_puppet(&m), format!("@_discord_1-{hash}:localhost"));
    m.author.name = "abc".to_string();
    assert_eq!(handler.author_puppet(&m), "@_discord_1-32d153ff:localhost");
}

#[test]
fn puppets_are_cared_for() {
    let mut m = message("");
    assert_eq!(DiscordHandler::ensure_user_in_room(&m, false), PuppetCare::Register);
    assert_eq!(DiscordHandler::ensure_user_in_room(&m, true), PuppetCare::Nothing);
    m.webhook_id = Some(9);
    assert_eq!(DiscordHandler::ensure_user_in_room(&m, false), PuppetCare::Register);
    assert_eq!(DiscordHandler::ensure_user_in_room(&m, true), PuppetCare::Synchronise);
}

#[test]
fn own_webhooks_and_bots_are_left_alone() {
    let mut cache = Cache::new();
    cache.d_webhooks.insert(
        "77".to_string(),
        WebhookInfo { id: "9".to_string(), token: "t".to_string() },
    );
    let mut m = message("");
    assert!(!DiscordHandler::ignores(&mut cache, &m));
    m.webhook_id = Some(8);
    assert!(!DiscordHandler::is_bridge_webhook(&mut cache, &m));
    m.webhook_id = Some(9);
    assert!(DiscordHandler::is_bridge_webhook(&mut cache, &m));
    assert!(DiscordHandler::ignores(&mut cache, &m));
    m.webhook_id = None;
    m.author.bot = true;
    assert!(DiscordHandler::ignores(&mut cache, &m));
}

#[test]
fn rooms_of_channels_are_remembered() {
    let handler = DiscordHandler::new(MatrixClient::new(Config::default()));
    let mut cache = Cache::new();
    assert!(handler.resolve_room_id(&cache, "77").is_none());
    handler.keep_room_id(&mut cache, "77", "!r:x");
    assert_eq!(handler.resolve_room_id(&cache, "77").as_deref(), Some("!r:x"));
    assert_eq!(cache.m_rooms.get("#_discord_77:localhost").as_deref(), Some("!r:x"));
    assert!(handler.resolve_room_id(&cache, "7").is_none());
}

#[test]
fn a_remembered_room_counts_before_the_database() {
    let handler = DiscordHandler::new(MatrixClient::new(Config::default()));
    let mut cache = Cache::new();
    let some = |s: &str| Some(s.to_string());
    assert_eq!(handler.settle_room_id(&mut cache, "7", None, None), None);
    assert_eq!(handler.settle_room_id(&mut cache, "7", some("!a:x"), some("!b:x")), some("!a:x"));
    assert!(handler.resolve_room_id(&cache, "7").is_none());
    assert_eq!(handler.settle_room_id(&mut cache, "7", None, some("!b:x")), some("!b:x"));
    assert_eq!(handler.resolve_room_id(&cache, "7"), some("!b:x"));
}

#[test]
fn a_gate_asks_and_passes() {
    let mut gate = ChannelGate::new(77);
    gate.needs_event = true;
    gate.needs_user = true;
    assert_eq!(gate.next(), GateStep::AskChannels);
    gate.channels = Some(vec!["76".to_string(), "77".to_string()]);
    assert_eq!(gate.next(), GateStep::AskEvent);
    gate.event_id = Some(Some("$e".to_string()));
    assert_eq!(gate.next(), GateStep::AskBridge);
    gate.bridge = Some(Some(room()));
    assert_eq!(gate.next(), GateStep::AskUser);
    gate.user = Some(Some(user(1, "ann")));
    assert_eq!(gate.next(), GateStep::Pass);
    gate.user = Some(None);
    assert_eq!(gate.next(), GateStep::Stop);
    let mut bot = user(1, "ann");
    bot.bot = true;
    gate.user = Some(Some(bot));
    assert_eq!(gate.next(), GateStep::Stop);
}

#[test]
fn a_gate_stops_what_may_not_pass() {
    let open = || {
        let mut gate = ChannelGate::new(77);
        gate.channels = Some(vec!["77".to_string()]);
        gate.bridge = Some(Some(room()));
        gate
    };
    assert_eq!(open().next(), GateStep::Pass);
    let mut gate = open();
    gate.is_ignored = true;
    assert_eq!(gate.next(), GateStep::Stop);
    let mut gate = open();
    gate.channels = Some(vec!["7".to_string()]);
    assert_eq!(gate.next(), GateStep::Stop);
    let mut gate = open();
    gate.needs_event = true;
    gate.event_id = Some(None);
    assert_eq!(gate.next(), GateStep::Stop);
    let mut gate = open();
    gate.bridge = Some(None);
    assert_eq!(gate.next(), GateStep::Stop);
    let mut closed = room();
    closed.d2m_enabled = false;
    let mut gate = open();
    gate.bridge = Some(Some(closed));
    assert_eq!(gate.next(), GateStep::Stop);
    let mut silent = room();
    silent.d2m_typing = false;
    let mut gate = open();
    gate.bridge = Some(Some(silent));
    assert_eq!(gate.next(), GateStep::Pass);
    gate.is_typing = true;
    assert_eq!(gate.next(), GateStep::Stop);
    assert!(discord_client::listed(&vec!["a".to_string()], "a"));
    assert!(!discord_client::listed(&Vec::new(), "a"));
}

#[test]
fn emotes_are_looked_for_in_order() {
    let mut lookup = EmoteLookup::new();
    assert!(matches!(lookup.next(), EmoteStep::AskRoom));
    lookup.in_room = Some(None);
    assert!(matches!(lookup.next(), EmoteStep::AskUploads));
    lookup.uploaded_before = Some(None);
    assert!(matches!(lookup.next(), EmoteStep::Upload));
    lookup.uploaded = Some(None);
    assert!(matches!(lookup.next(), EmoteStep::Done(None)));
    lookup.uploaded = Some(Some("c".to_string()));
    assert!(matches!(lookup.next(), EmoteStep::Done(Some(url)) if url == "c"));
    lookup.uploaded_before = Some(Some("b".to_string()));
    assert!(matches!(lookup.next(), EmoteStep::Done(Some(url)) if url == "b"));
    lookup.in_room = Some(Some("a".to_string()));
    assert!(matches!(lookup.next(), EmoteStep::Done(Some(url)) if url == "a"));
    assert_eq!(discord_client::make_emote_url("8", false), "https://cdn.discordapp.com/emojis/8.png");
    assert_eq!(discord_client::make_emote_url("8", true), "https://cdn.discordapp.com/emojis/8.gif");
}

#[test]
fn contents_show_emotes_of_both_sides() {
    let mut emojis = TextMap::new();
    emojis.insert("cat".to_string(), "mxc://room/cat".to_string());
    emojis.insert("fox".to_string(), "mxc://room/fox".to_string());
    let outcomes = vec![
        ("cat".to_string(), Some("mxc://up/cat".to_string())),
        ("dog".to_string(), None),
    ];
    let content = DiscordHandler::create_matrix_message_content_with_emojis(
        "!r:x", ":cat: :dog: :fox:", &outcomes, &emojis, &None,
    );
    let html = content.formatted_body.unwrap();
    assert!(html.contains("src=\"mxc://up/cat\""));
    assert!(html.contains("src=\"mxc://room/fox\""));
    assert!(html.contains(" :dog: "));
    let reply = Some(ReplyTarget {
        event_id: "$e".to_string(),
        quoted: Some(QuotedEvent {
            sender: "@a:x".to_string(),
            body: "old".to_string(),
            formatted_body: None,
        }),
    });
    let content = DiscordHandler::create_matrix_message_content_with_emojis(
        "!r:x", "new", &Vec::new(), &emojis, &reply,
    );
    assert_eq!(content.body, "> <@a:x> old\n\nnew");
    assert_eq!(content.reply_to.as_deref(), Some("$e"));
    assert_eq!(DiscordHandler::strip_reply_fallback("> q\n\nnew"), "new");
    assert_eq!(DiscordHandler::strip_reply_fallback_html("<mx-reply>q</mx-reply>new"), "new");
}

#[test]
fn edits_show_emotes_by_their_numbers() {
    let mut emotes = TextMap::new();
    emotes.insert("cat".to_string(), "8".to_string());
    let content = DiscordHandler::message_update("hi :cat:", &emotes, &vec![embed()]);
    assert_eq!(content.body, "hi :cat:\n\n---\n");
    assert!(content.formatted_body.unwrap().contains("src=\"8\""));
    let content = DiscordHandler::message_update("hi", &emotes, &Vec::new());
    assert!(content.formatted_body.is_none());
}

#[test]
fn the_first_event_counts_as_the_message() {
    let mut cache = Cache::new();
    let mut record = SentRecord::new(5);
    record.record(&mut cache, SentKind::File, "$file".to_string());
    assert_eq!(cache.d_messages.get("5").as_deref(), Some("$file"));
    record.record(&mut cache, SentKind::File, "$second".to_string());
    assert_eq!(cache.d_messages.get("5").as_deref(), Some("$file"));
    assert!(cache.m_messages.get("$second").is_none());
    record.record(&mut cache, SentKind::Sticker, "$sticker".to_string());
    assert_eq!(cache.d_messages.get("5").as_deref(), Some("$sticker"));
    assert_eq!(cache.m_messages.get("$sticker").as_deref(), Some("5"));
    let mut record = SentRecord::new(6);
    record.record(&mut cache, SentKind::Text, "$text".to_string());
    record.record(&mut cache, SentKind::File, "$file".to_string());
    assert_eq!(cache.d_messages.get("6").as_deref(), Some("$text"));
}

#[test]
fn deletions_cross_where_they_may() {
    let mut bridge = room();
    assert!(DiscordHandler::message_delete(&bridge, Some("@_discord_1:x")));
    assert!(!DiscordHandler::message_delete(&bridge, Some("@a:x")));
    assert!(!DiscordHandler::message_delete(&bridge, None));
    bridge.d2m_mod_deletions = true;
    assert!(DiscordHandler::message_delete(&bridge, Some("@a:x")));
    assert!(DiscordHandler::message_delete(&bridge, None));
}

#[test]
fn reactions_have_names_and_keys() {
    let smile = ReactionEmoji::Unicode("😀".to_string());
    let cat = ReactionEmoji::Custom { id: 8, name: Some("cat".to_string()), animated: false };
    let nameless = ReactionEmoji::Custom { id: 8, name: None, animated: true };
    assert_eq!(smile.name().as_deref(), Some("😀"));
    assert_eq!(cat.name().as_deref(), Some("cat"));
    assert_eq!(nameless.name().as_deref(), Some("custom_8"));
    assert!(ReactionEmoji::Unknown.name().is_none());
    let image = Some("mxc://a/b".to_string());
    assert_eq!(DiscordHandler::reaction_add(&smile, &image).as_deref(), Some("😀"));
    assert_eq!(DiscordHandler::reaction_add(&cat, &image).as_deref(), Some("mxc://a/b"));
    assert_eq!(DiscordHandler::reaction_add(&cat, &None).as_deref(), Some("cat"));
    assert!(DiscordHandler::reaction_add(&ReactionEmoji::Unknown, &image).is_none());
    assert_eq!(discord_client::make_reaction_key(5, 1, "a:b"), "5:1:a:b");
}

#[test]
fn a_reaction_that_was_found_is_taken_back() {
    let handler = DiscordHandler::new(MatrixClient::new(Config::default()));
    assert!(handler.take_reaction_back("!r:x", &None).is_none());
    let request = handler.take_reaction_back("!r:x", &Some("$e".to_string())).unwrap();
    assert!(request.path.starts_with("/rooms/%21r%3Ax/redact/%24e/"));
    assert!(request.user_id.is_none());
}

#[test]
fn reactions_are_remembered_apart() {
    let mut cache = Cache::new();
    DiscordHandler::keep_reaction(&mut cache, 5, 1, "cat", "$r".to_string());
    cache.insert_message_mapping("$m".to_string(), "5".to_string());
    assert_eq!(DiscordHandler::reaction_remove(&cache, 5, 1, "cat").as_deref(), Some("$r"));
    assert!(DiscordHandler::reaction_remove(&cache, 5, 1, "dog").is_none());
    assert!(DiscordHandler::reaction_remove(&cache, 51, 1, "cat").is_none());
    DiscordHandler::forget_reaction(&mut cache, 5, 1, "cat");
    assert!(DiscordHandler::reaction_remove(&cache, 5, 1, "cat").is_none());
    assert_eq!(cache.d_messages.get("5").as_deref(), Some("$m"));
}

#[test]
fn uploaded_emotes_are_remembered() {
    let mut cache = Cache::new();
    let mut lookup = EmoteLookup::new();
    lookup.keep(&mut cache, "cat");
    assert!(cache.m_emotes.get("cat").is_none());
    lookup.uploaded = Some(None);
    lookup.keep(&mut cache, "cat");
    assert!(cache.m_emotes.get("cat").is_none());
    lookup.uploaded = Some(Some("mxc://a/b".to_string()));
    lookup.keep(&mut cache, "cat");
    assert_eq!(cache.m_emotes.get("cat").as_deref(), Some("mxc://a/b"));
}

#[test]
fn a_deleted_message_is_taken_back_and_forgotten() {
    let handler = DiscordHandler::new(MatrixClient::new(Config::default()));
    let mut bridge = BridgedRoom {
        room_id: "!r:x".to_string(),
        channel_id: "77".to_string(),
        d2m_enabled: true,
        m2d_enabled: true,
        d2m_mod_deletions: false,
        m2d_mod_deletions: false,
        d2m_typing: true,
        m2d_typing: true,
    };
    assert!(handler.take_message_back(&bridge, "$e", Some("@a:x")).is_none());
    assert!(handler.take_message_back(&bridge, "$e", None).is_none());
    let request = handler.take_message_back(&bridge, "$e", Some("@_discord_1:x")).unwrap();
    assert!(request.path.starts_with("/rooms/%21r%3Ax/redact/%24e/"));
    bridge.d2m_mod_deletions = true;
    assert!(handler.take_message_back(&bridge, "$e", None).is_some());

    let mut cache = Cache::new();
    cache.insert_message_mapping("$e".to_string(), "5".to_string());
    DiscordHandler::settle_deletion(&mut cache, "$e", 5, false);
    assert_eq!(cache.d_messages.get("5").as_deref(), Some("$e"));
    assert_eq!(cache.m_messages.get("$e").as_deref(), Some("5"));
    DiscordHandler::settle_deletion(&mut cache, "$e", 5, true);
    assert!(cache.d_messages.get("5").is_none() && cache.m_messages.get("$e").is_none());
}

#[test]
fn a_reaction_is_taken_back_once() {
    let handler = DiscordHandler::new(MatrixClient::new(Config::default()));
    let mut cache = Cache::new();
    DiscordHandler::settle_reaction_add(&mut cache, 5, 1, "cat", None);
    assert!(DiscordHandler::reaction_remove(&cache, 5, 1, "cat").is_none());
    DiscordHandler::settle_reaction_add(&mut cache, 5, 1, "cat", Some("$r".to_string()));
    DiscordHandler::settle_reaction(&mut cache, 5, 1, "cat", false);
    let found = DiscordHandler::reaction_remove(&cache, 5, 1, "cat");
    assert_eq!(found.as_deref(), Some("$r"));
    assert!(handler.take_reaction_back("!r:x", &found).is_some());
    DiscordHandler::settle_reaction(&mut cache, 5, 1, "cat", true);
    let found = DiscordHandler::reaction_remove(&cache, 5, 1, "cat");
    assert!(handler.take_reaction_back("!r:x", &found).is_none());
}

#[test]
fn puppets_are_brought_into_rooms() {
    let handler = DiscordHandler::new(MatrixClient::new(Config::default()));
    assert!(handler.bring_into_room("!r:x", "@p:x", true).is_none());
    let (invitation, entry) = handler.bring_into_room("!r:x", "@p:x", false).unwrap();
    assert_eq!(invitation.path, "/rooms/%21r%3Ax/invite");
    assert!(invitation.user_id.is_none());
    assert_eq!((entry.path.as_str(), entry.user_id.as_deref()), ("/join/%21r%3Ax", Some("@p:x")));
}

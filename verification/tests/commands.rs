use bridge::admin_commands;
use bridge::admin_commands::{
    AdminCommandHandler, AdminRoute, ChannelInfo, ConfigStep, JoinTally, LinkCase, LinkStep,
    Pagination, UnlinkCase, UnlinkStep,
};
use bridge::cache::Cache;
use bridge::config::Config;
use bridge::db;
use bridge::db::{BridgedRoom, PendingInvite, UserPreference};
use bridge::json::Json;
use bridge::matrix_client::MatrixClient;
use bridge::user_commands;
use bridge::user_commands::{
    BridgeCommand, PauseStep, Scope, UserCommand, UserCommandHandler, UserRoute,
};
use bridge::utils;

fn preference(room: &str, status: &str, until_ts: Option<i64>) -> UserPreference {
    UserPreference { room_id: room.to_string(), status: status.to_string(), until_ts }
}

fn user_text(response: utils::CommandResponse) -> String {
    match response {
        utils::CommandResponse::Text(s) => s,
        _ => panic!("no text"),
    }
}

fn text(response: admin_commands::CommandResponse) -> String {
    match response {
        admin_commands::CommandResponse::Text(s) => s,
        _ => panic!("no text"),
    }
}

fn yaml(response: admin_commands::CommandResponse) -> String {
    match response {
        admin_commands::CommandResponse::Yaml(s) => s,
        _ => panic!("no YAML"),
    }
}

fn table(response: admin_commands::CommandResponse) -> (Vec<String>, Vec<Vec<String>>, String) {
    match response {
        admin_commands::CommandResponse::Table { headers, rows, footer } => {
            (headers, rows, footer.unwrap())
        }
        _ => panic!("no table"),
    }
}

fn error<T>() -> Result<T, String> {
    Err("broken".to_string())
}

#[test]
fn answers_to_users_are_sent_in_the_name_of_the_bridge() {
    let config = Config { homeserver: "https://hs".to_string(), ..Config::default() };
    let handler = UserCommandHandler::new(MatrixClient::new(config));
    assert_eq!(handler.matrix.config.homeserver, "https://hs");
    let long = "line of text\n".repeat(4_000);
    let chunks = utils::CommandResponse::Text(long.clone()).render_chunks();
    let requests = handler.send_response("!r:x", utils::CommandResponse::Text(long));
    assert!(chunks.len() > 1);
    assert_eq!(requests.len(), chunks.len());
    for (request, (plain, html)) in requests.iter().zip(&chunks) {
        assert!(request.path.starts_with("/rooms/%21r%3Ax/send/m.room.message/"));
        assert!(request.user_id.is_none());
        let body = request.body.as_ref().unwrap();
        assert_eq!(body.text_at("body").as_deref(), Some(plain.as_str()));
        assert_eq!(body.text_at("formatted_body").as_deref(), Some(html.as_str()));
    }
}

#[test]
fn user_messages_are_routed() {
    assert!(matches!(UserCommandHandler::process_event(" !nobridge secret"), UserRoute::Keep));
    assert!(matches!(UserCommandHandler::process_event("!nobridges"), UserRoute::Keep));
    assert!(matches!(UserCommandHandler::process_event("hello"), UserRoute::Ordinary));
    assert!(matches!(UserCommandHandler::process_event("!bridge 'open"), UserRoute::Garbled));
    for (body, command) in [
        ("!bridge status", UserCommand::Bridge),
        ("!neverbridge here", UserCommand::NeverBridge),
        ("!allowbridge global", UserCommand::AllowBridge),
        ("!nobridgefor 15m", UserCommand::NoBridgeFor),
    ] {
        match UserCommandHandler::process_event(body) {
            UserRoute::Command(c, words) => {
                assert_eq!(c, command);
                assert_eq!(words.join(" "), body);
            }
            _ => panic!("{} is a command", body),
        }
    }
    match UserCommandHandler::process_event("!nobridgefor '1 5m' \"here\"") {
        UserRoute::Command(_, words) => assert_eq!(words, vec!["!nobridgefor", "1 5m", "here"]),
        _ => panic!("a command"),
    }
    assert_eq!(user_text(UserCommandHandler::garbled()), "Invalid command format.");
    assert_eq!(user_commands::find_command("!help"), None);
}

#[test]
fn durations_are_read() {
    for (s, seconds) in [
        ("15m", Some(900)),
        ("2h", Some(7200)),
        ("1d", Some(86_400)),
        ("1M", Some(2_592_000)),
        ("1y", Some(31_536_000)),
        ("1 5 m", Some(900)),
        ("0m", Some(0)),
        ("", None),
        ("15", None),
        ("m", None),
        ("15s", None),
        ("15min", None),
        ("-5m", None),
        ("99999999999999999999m", None),
    ] {
        assert!(user_commands::duration_fits(s), "{}", s);
        assert_eq!(UserCommandHandler::parse_duration(s), seconds, "{}", s);
    }
    assert!(!user_commands::duration_fits("18446744073709551615y"));
    assert_eq!(
        user_text(UserCommandHandler::bad_duration()),
        "Invalid time format. Use something like 15m, 2h, 1d, 1M, 1y."
    );
    assert_eq!(UserCommandHandler::until(1000, 900), 1900);
    assert_eq!(user_commands::to_signed(u64::MAX), -1);
    assert_eq!(user_commands::to_signed(7), 7);
}

#[test]
fn wishes_are_answered() {
    let ok: Result<(), String> = Ok(());
    let c = &mut Cache::new();
    let (u, r) = ("@a:x", "!r:x");
    assert_eq!(
        user_text(UserCommandHandler::handle_neverbridge(c, u, r, Scope::Here, &ok)),
        "Bridging disabled in this room."
    );
    assert_eq!(
        user_text(UserCommandHandler::handle_neverbridge(c, u, r, Scope::Global, &ok)),
        "Bridging disabled globally."
    );
    assert_eq!(
        user_text(UserCommandHandler::handle_allowbridge(c, u, r, Scope::Here, &ok)),
        "Removed bridging restrictions in this room. Messages will now be bridged."
    );
    assert_eq!(
        user_text(UserCommandHandler::handle_nobridgefor(c, u, r, Scope::Global, "15m", &ok)),
        "Bridging disabled globally for 15m."
    );
    for response in [
        UserCommandHandler::handle_neverbridge(c, u, r, Scope::Here, &error()),
        UserCommandHandler::handle_allowbridge(c, u, r, Scope::Here, &error()),
        UserCommandHandler::handle_nobridgefor(c, u, r, Scope::Here, "15m", &error()),
    ] {
        assert_eq!(user_text(response), "Error updating preferences: broken");
    }
    assert_eq!(user_commands::target_room(Scope::Here, "!r:x"), "!r:x");
    assert_eq!(user_commands::target_room(Scope::Global, "!r:x"), "global");
}

#[test]
fn wishes_are_listed() {
    let help = user_text(UserCommandHandler::handle_bridge_cmd(BridgeCommand::Help, &error()));
    assert!(help.starts_with("**User Commands**\n`!nobridge [text]`"));
    let status = |p| UserCommandHandler::handle_bridge_cmd(BridgeCommand::Status, &p);
    assert_eq!(user_text(status(error())), "Error fetching status: broken");
    assert!(user_text(status(Ok(Vec::new()))).starts_with("You have no explicit"));
    let listed = status(Ok(vec![
        preference("global", "never", None),
        preference("!r:x", "until", Some(-5)),
        preference("!s:x", "until", None),
        preference("!t:x", "odd", None),
    ]));
    match listed {
        utils::CommandResponse::Table { headers, rows, footer } => {
            assert_eq!(headers, vec!["Scope", "Status"]);
            assert_eq!(
                rows,
                vec![
                    vec!["Global", "Never bridge"],
                    vec!["!r:x", "No bridge until timestamp: -5"],
                    vec!["!s:x", "Unknown"],
                    vec!["!t:x", "odd"],
                ]
            );
            assert!(footer.is_none());
        }
        _ => panic!("a table"),
    }
}

#[test]
fn wishes_hold() {
    let never = || Some(preference("!r:x", "never", None));
    let until = |ts| Some(preference("!r:x", "until", ts));
    assert!(UserCommandHandler::should_bridge(&None, &None, 0));
    assert!(!UserCommandHandler::should_bridge(&never(), &None, 0));
    assert!(!UserCommandHandler::should_bridge(&None, &never(), 0));
    assert!(!UserCommandHandler::check_pref_allows(&until(Some(100)), 99));
    assert!(UserCommandHandler::check_pref_allows(&until(Some(100)), 100));
    assert!(UserCommandHandler::check_pref_allows(&until(None), 0));
    assert!(UserCommandHandler::check_pref_allows(&Some(preference("", "odd", Some(9))), 0));
}

#[test]
fn changed_wishes_are_forgotten() {
    let mut cache = Cache::new();
    cache.user_prefs.insert("@a:x", "!r:x", Some(preference("!r:x", "never", None)));
    cache.user_prefs.insert("@a:x", "global", None);
    assert_eq!(cache.user_prefs.get("@a:x", "!r:x").unwrap().unwrap().status, "never");
    UserCommandHandler::forget_preference(&mut cache, "@a:x", "!r:x", Scope::Here);
    assert!(cache.user_prefs.get("@a:x", "!r:x").is_none());
    assert!(matches!(cache.user_prefs.get("@a:x", "global"), Some(None)));
    UserCommandHandler::forget_preference(&mut cache, "@a:x", "!r:x", Scope::Global);
    assert!(cache.user_prefs.get("@a:x", "global").is_none());
}

#[test]
fn a_kept_wish_stops_bridging_and_its_removal_allows_it() {
    let wish = UserCommandHandler::never_wish(Scope::Here, "!r:x");
    assert_eq!((wish.room_id.as_str(), wish.status.as_str()), ("!r:x", "never"));
    assert!(wish.until_ts.is_none());
    assert!(!UserCommandHandler::should_bridge(&Some(wish), &None, i64::MAX));
    let wish = UserCommandHandler::never_wish(Scope::Global, "!r:x");
    assert_eq!(wish.room_id, "global");
    assert!(!UserCommandHandler::should_bridge(&None, &Some(wish), 0));

    let wish = UserCommandHandler::pause_wish(Scope::Global, "!r:x", 1_000, 900);
    assert_eq!((wish.room_id.as_str(), wish.status.as_str()), ("global", "until"));
    assert_eq!(wish.until_ts, Some(1_900));
    let wish = match UserCommandHandler::plan_pause(Scope::Here, "!r:x", "15 m", 1_000) {
        PauseStep::Keep(wish) => Some(wish),
        PauseStep::Refuse(_) => panic!("refused"),
    };
    assert_eq!(wish.as_ref().unwrap().room_id, "!r:x");
    assert!(!UserCommandHandler::should_bridge(&wish, &None, 1_899));
    assert!(UserCommandHandler::should_bridge(&wish, &None, 1_900));
    match UserCommandHandler::plan_pause(Scope::Here, "!r:x", "soon", 1_000) {
        PauseStep::Refuse(response) => assert_eq!(
            user_text(response),
            "Invalid time format. Use something like 15m, 2h, 1d, 1M, 1y."
        ),
        PauseStep::Keep(_) => panic!("kept"),
    }
}

#[test]
fn a_command_forgets_the_old_wish_where_the_new_one_was_kept() {
    let mut cache = Cache::new();
    cache.user_prefs.insert("@a:x", "!r:x", None);
    UserCommandHandler::handle_neverbridge(&mut cache, "@a:x", "!r:x", Scope::Here, &error());
    assert!(matches!(cache.user_prefs.get("@a:x", "!r:x"), Some(None)));
    UserCommandHandler::handle_neverbridge(&mut cache, "@a:x", "!r:x", Scope::Global, &Ok(()));
    assert!(matches!(cache.user_prefs.get("@a:x", "!r:x"), Some(None)));
    UserCommandHandler::handle_nobridgefor(
        &mut cache,
        "@a:x",
        "!r:x",
        Scope::Here,
        "1h",
        &Ok(()),
    );
    assert!(cache.user_prefs.get("@a:x", "!r:x").is_none());
}

#[test]
fn a_remembered_wish_counts_before_the_database() {
    let never = || Some(preference("!r:x", "never", None));
    let mut cache = Cache::new();
    let settle = |cache: &mut Cache, remembered, stored| {
        UserCommandHandler::settle_preference(cache, "@a:x", "!r:x", remembered, stored)
    };
    assert!(settle(&mut cache, None, None).is_none());
    assert!(cache.user_prefs.get("@a:x", "!r:x").is_none());
    assert!(settle(&mut cache, Some(None), Some(never())).is_none());
    assert!(cache.user_prefs.get("@a:x", "!r:x").is_none());
    assert_eq!(settle(&mut cache, None, Some(never())).unwrap().status, "never");
    assert_eq!(cache.user_prefs.get("@a:x", "!r:x").unwrap().unwrap().status, "never");
    assert_eq!(settle(&mut cache, Some(never()), None).unwrap().status, "never");
}

fn handler(room: Option<&str>) -> AdminCommandHandler {
    let mut config = Config::default();
    config.config_room_id = room.map(String::from);
    AdminCommandHandler::new(MatrixClient::new(config))
}

#[test]
fn commands_come_from_one_room() {
    let h = handler(Some("!admin:x"));
    assert!(matches!(h.handle_command("!r:x", "!bridge list"), AdminRoute::Ignore));
    assert!(matches!(h.handle_command("!admin:x", "bridge list"), AdminRoute::Ignore));
    assert!(matches!(h.handle_command("!admin:x", "!"), AdminRoute::Ignore));
    assert!(matches!(h.handle_command("!admin:x", "!bridge \"x"), AdminRoute::Garbled));
    assert!(matches!(handler(None).handle_command("!admin:x", "!bridge list"), AdminRoute::Ignore));
    match h.handle_command("!admin:x", " !bridge link '!a b:x' 7 ") {
        AdminRoute::Words(words) => assert_eq!(words, vec!["bot", "bridge", "link", "!a b:x", "7"]),
        _ => panic!("a command"),
    }
    assert_eq!(
        text(AdminCommandHandler::garbled()),
        "Error: Invalid command format. Please check your quotes."
    );
}

fn link(room: &str, channel: &str) -> LinkCase {
    LinkCase {
        room_id: room.to_string(),
        channel_id: channel.to_string(),
        bridged_to: None,
        channels: None,
        verified: None,
        added: None,
    }
}

fn answer(case: &LinkCase) -> String {
    match case.next() {
        LinkStep::Answer(response) => text(response),
        _ => panic!("no answer yet"),
    }
}

fn channel() -> ChannelInfo {
    ChannelInfo { id: "7".to_string(), name: "general".to_string(), guild_id: None, channel_type: 0 }
}

#[test]
fn links_are_made_step_by_step() {
    let mut case = link("!r:x", "7");
    assert!(matches!(case.next(), LinkStep::AskRoom));
    case.bridged_to = Some(error());
    assert_eq!(answer(&case), "Database error: broken");
    case.bridged_to = Some(Ok(Some("8".to_string())));
    assert_eq!(answer(&case), "Matrix room `!r:x` is already bridged.");
    case.bridged_to = Some(Ok(None));
    assert!(matches!(case.next(), LinkStep::AskChannels));
    case.channels = Some(error());
    assert_eq!(answer(&case), "Database error: broken");
    case.channels = Some(Ok(vec!["7".to_string()]));
    assert_eq!(answer(&case), "Discord channel `7` is already bridged to another room.");
    case.channels = Some(Ok(vec!["8".to_string()]));
    assert!(matches!(case.next(), LinkStep::AskDiscord));
    case.verified = Some(error());
    assert_eq!(answer(&case), "Failed to verify Discord channel `7`:\nbroken");
    case.verified = Some(Ok(channel()));
    assert!(matches!(case.next(), LinkStep::Add));
    case.added = Some(error());
    assert_eq!(answer(&case), "Failed to create bridge: broken");
    case.added = Some(Ok(()));
    assert_eq!(answer(&case), "Successfully linked!\n\nMatrix: `!r:x`\nDiscord: #general (`7`)");
}

#[test]
fn links_need_good_names() {
    for room in ["r:x", "!rx", ""] {
        assert_eq!(
            answer(&link(room, "7")),
            "Invalid Matrix room ID format. Should be like: !abc123:matrix.org"
        );
    }
    assert_eq!(
        answer(&link("!r:x", "seven")),
        "Invalid Discord channel ID format. Should be numeric."
    );
    let mut cache = Cache::new();
    handler(None).keep_link(&mut cache, "!r:x", "7");
    assert_eq!(cache.m_rooms.get("#_discord_7:localhost").as_deref(), Some("!r:x"));
}

#[test]
fn links_are_undone() {
    let some = Ok(Some("7".to_string()));
    assert_eq!(
        text(AdminCommandHandler::cmd_unlink("!r:x", &some, &Ok(()))),
        "Successfully unlinked Matrix room `!r:x` from Discord channel `7`"
    );
    assert_eq!(
        text(AdminCommandHandler::cmd_unlink("!r:x", &some, &error())),
        "Failed to remove bridge: broken"
    );
    assert_eq!(
        text(AdminCommandHandler::cmd_unlink("!r:x", &Ok(None), &Ok(()))),
        "Matrix room `!r:x` is not bridged."
    );
    assert_eq!(
        text(AdminCommandHandler::cmd_unlink("!r:x", &error(), &Ok(()))),
        "Database error: broken"
    );
}

#[test]
fn the_state_of_a_link_is_shown() {
    let some = Ok(Some("7".to_string()));
    assert_eq!(
        yaml(AdminCommandHandler::cmd_status("!r:x", &some, &Ok(channel()), 3)),
        "matrix_room: \"!r:x\"\ndiscord_channel:\n  id: \"7\"\n  name: \"general\"\nguild_id: \"Unknown\"\ncustom_emojis_cached: 3\nstatus: \"Active\""
    );
    assert_eq!(
        yaml(AdminCommandHandler::cmd_status("!r:x", &some, &error(), 3)),
        "matrix_room: \"!r:x\"\ndiscord_channel: \"7\"\nstatus: \"Discord channel not accessible\"\nerror: \"broken\""
    );
    assert_eq!(
        text(AdminCommandHandler::cmd_status("!r:x", &Ok(None), &error(), 0)),
        "Matrix room `!r:x` is not bridged."
    );
    assert_eq!(
        text(AdminCommandHandler::cmd_status("!r:x", &error(), &error(), 0)),
        "Database error: broken"
    );
}

#[test]
fn channels_are_verified() {
    let news = Json::object().with_number("type", 5).with_text("name", "n").with_text("guild_id", "3");
    let info = admin_commands::verify_discord_channel("7", &news).unwrap();
    assert_eq!((info.id.as_str(), info.name.as_str(), info.channel_type), ("7", "n", 5));
    assert_eq!(
        yaml(AdminCommandHandler::cmd_verify("7", &Ok(info))),
        "channel:\n  id: \"7\"\n  name: \"n\"\ntype: \"News\"\nguild_id: \"3\"\nverified: true"
    );
    let bare = Json::object().with_number("type", 0);
    assert_eq!(admin_commands::verify_discord_channel("7", &bare).unwrap().name, "unknown");
    for odd in [Json::object(), Json::object().with_number("type", 2)] {
        assert_eq!(
            admin_commands::verify_discord_channel("7", &odd).err().unwrap().message(),
            "Configuration error: Channel must be a text channel or news channel"
        );
    }
    assert_eq!(
        text(AdminCommandHandler::cmd_verify("x", &error())),
        "Invalid Discord channel ID format. Should be numeric."
    );
    assert_eq!(
        text(AdminCommandHandler::cmd_verify("7", &error())),
        "Failed to verify channel `7`:\nbroken"
    );
    assert!(AdminCommandHandler::is_channel_id("") && !AdminCommandHandler::is_channel_id("1a"));
}

fn room() -> BridgedRoom {
    BridgedRoom {
        room_id: "!r:x".to_string(),
        channel_id: "7".to_string(),
        d2m_enabled: true,
        m2d_enabled: false,
        d2m_mod_deletions: true,
        m2d_mod_deletions: false,
        d2m_typing: true,
        m2d_typing: false,
    }
}

#[test]
fn bridges_are_listed() {
    let page = |page, limit| Pagination { page, limit };
    let (headers, rows, footer) = table(AdminCommandHandler::cmd_list(page(1, 10), &Ok(vec![room()]), 1));
    assert_eq!(headers, vec!["Matrix Room", "Discord Channel", "Settings"]);
    assert_eq!(
        rows,
        vec![vec![
            "!r:x",
            "7",
            "D2M: true (ModDel: true, TypingStatus: true) | M2D: false (ModDel: false, TypingStatus: false)",
        ]]
    );
    assert_eq!(footer, "Total Bridges: 1");
    let (_, _, footer) = table(AdminCommandHandler::cmd_list(page(2, 10), &Ok(vec![room()]), 11));
    assert_eq!(footer, "Page 2 of 2 (Total: 11). Use --page <n> to navigate.");
    assert_eq!(text(AdminCommandHandler::cmd_list(page(1, 10), &Ok(Vec::new()), 0)), "No bridges configured.");
    assert_eq!(
        text(AdminCommandHandler::cmd_list(page(1, 10), &error(), 0)),
        "Error listing bridges: broken"
    );
}

#[test]
fn pages_have_bounds() {
    let bounds = |page, limit| Pagination { page, limit }.bounds();
    assert_eq!(bounds(1, 10), (10, 0));
    assert_eq!(bounds(3, 10), (10, 20));
    assert_eq!(bounds(0, 0), (1, 0));
    assert_eq!(bounds(2, 1000), (100, 100));
    assert!(Pagination { page: 1, limit: 100 }.fits());
    assert!(!Pagination { page: u32::MAX, limit: 100 }.fits());
    assert_eq!(admin_commands::total_pages(0, 10), 0);
    assert_eq!(admin_commands::total_pages(10, 10), 1);
    assert_eq!(admin_commands::total_pages(11, 10), 2);
    assert_eq!(admin_commands::total_pages(-5, 10), 0);
    assert_eq!(admin_commands::total_pages(i64::MAX, 1), u32::MAX);
}

fn invite(id: i64) -> PendingInvite {
    PendingInvite {
        id,
        room_id: format!("!{id}:x"),
        sender: "@a:x".to_string(),
        room_name: if id == 1 { Some("One".to_string()) } else { None },
    }
}

#[test]
fn invitations_are_listed() {
    let page = || Pagination { page: 1, limit: 10 };
    let (headers, rows, footer) =
        table(AdminCommandHandler::cmd_invite_list(page(), &Ok(vec![invite(1), invite(2)]), 2));
    assert_eq!(headers, vec!["List ID", "Matrix Room", "Room Name", "Sender"]);
    assert_eq!(rows, vec![vec!["1", "!1:x", "One", "@a:x"], vec!["2", "!2:x", "Unknown", "@a:x"]]);
    assert_eq!(footer, "Total Invites: 2");
    assert_eq!(
        text(AdminCommandHandler::cmd_invite_list(page(), &Ok(Vec::new()), 0)),
        "No pending invites."
    );
    assert_eq!(
        text(AdminCommandHandler::cmd_invite_list(page(), &error(), 0)),
        "Database error: broken"
    );
}

#[test]
fn numbers_and_ranges_are_read() {
    let parse = |s| AdminCommandHandler::parse_indices(s, 10);
    assert_eq!(parse("3,1,2"), vec![1, 2, 3]);
    assert_eq!(parse("1-3, 5 , 2-4"), vec![1, 2, 3, 4, 5]);
    assert_eq!(parse("0-2,9-99,11"), vec![1, 2, 9, 10]);
    assert_eq!(parse("4-2"), Vec::<usize>::new());
    assert_eq!(parse("x,1-y,-3,+7,"), vec![7]);
    assert_eq!(parse("1-2-3"), Vec::<usize>::new());
    let places = AdminCommandHandler::choose_invites("2-3", &vec![invite(1), invite(3), invite(2)]);
    assert_eq!(places, vec![1, 2]);
}

#[test]
fn invitations_are_accepted_and_deleted() {
    assert_eq!(text(AdminCommandHandler::cmd_invite_accept(2, &Vec::new())), "Accepted 2 invite(s).");
    let failures = vec![AdminCommandHandler::join_failure("!1:x", "no"), "b".to_string()];
    assert_eq!(
        text(AdminCommandHandler::cmd_invite_accept(1, &failures)),
        "Accepted 1 invite(s).\nErrors:\nFailed to join !1:x: no\nb"
    );
    assert_eq!(
        text(AdminCommandHandler::cmd_invite_accept(0, &failures)),
        "No invites found matching the provided IDs."
    );
    assert_eq!(text(AdminCommandHandler::cmd_invite_delete(3)), "Deleted 3 invite(s).");
    assert_eq!(
        text(AdminCommandHandler::cmd_invite_delete(0)),
        "No invites found matching the provided IDs."
    );
    assert_eq!(text(AdminCommandHandler::database_error("broken")), "Database error: broken");
}

fn configured(setting: Option<&str>, value: Option<&str>) -> ConfigStep {
    AdminCommandHandler::cmd_config("!r:x", &Ok(Some(room())), setting, value)
}

#[test]
fn settings_are_shown_and_changed() {
    match configured(Some("d2m_typing"), None) {
        ConfigStep::Answer(response) => assert_eq!(
            yaml(response),
            "bridge_config:\n  room_id: \"!r:x\"\n  d2m_enabled: true\n  m2d_enabled: false\n  d2m_mod_deletions: true\n  m2d_mod_deletions: false\n  d2m_typing: true\n  m2d_typing: false"
        ),
        ConfigStep::Update { .. } => panic!("nothing to change"),
    }
    match configured(Some("d2m_typing"), Some("OFF")) {
        ConfigStep::Update { setting, value } => assert_eq!((setting.as_str(), value), ("d2m_typing", false)),
        ConfigStep::Answer(_) => panic!("a change"),
    }
    match configured(Some("d2m_typing"), Some("maybe")) {
        ConfigStep::Answer(response) => assert_eq!(text(response), "Value must be true or false"),
        ConfigStep::Update { .. } => panic!("no value"),
    }
    for (bridge, sentence) in [
        (Ok(None), "No bridge found for room `!r:x`"),
        (error(), "Database error: broken"),
    ] {
        match AdminCommandHandler::cmd_config("!r:x", &bridge, None, None) {
            ConfigStep::Answer(response) => assert_eq!(text(response), sentence),
            ConfigStep::Update { .. } => panic!("no bridge"),
        }
    }
    assert_eq!(
        text(AdminCommandHandler::config_updated("!r:x", "d2m_typing", true, &Ok(()))),
        "Updated `d2m_typing` to `true` for bridge `!r:x`"
    );
    assert_eq!(
        text(AdminCommandHandler::config_updated("!r:x", "d2m_typing", true, &error())),
        "Failed to update config: broken"
    );
}

#[test]
fn truth_has_many_words() {
    for word in ["true", "1", "yes", "on", "YES"] {
        assert_eq!(admin_commands::read_truth(word), Some(true));
    }
    for word in ["false", "0", "no", "off", "Off"] {
        assert_eq!(admin_commands::read_truth(word), Some(false));
    }
    assert_eq!(admin_commands::read_truth("2"), None);
}

#[test]
fn settings_have_columns() {
    for name in [
        "d2m_enabled", "m2d_enabled", "d2m_mod_deletions", "m2d_mod_deletions", "d2m_typing", "m2d_typing",
    ] {
        assert!(db::update_bridge_config(name).unwrap().contains(name));
    }
    assert!(db::update_bridge_config("room_id").is_none());
}

#[test]
fn caches_are_counted() {
    assert_eq!(
        yaml(AdminCommandHandler::emoji_counts(1, 2, 3)),
        "cache_stats:\n  discord_emotes: 1\n  matrix_cached_uploads: 2\n  room_emoji_packs: 3\nnote: \"Detailed dump printed to application console log\""
    );
    assert_eq!(
        yaml(AdminCommandHandler::cmd_debug_emojis(&Cache::new())),
        yaml(AdminCommandHandler::emoji_counts(0, 0, 0))
    );
}

#[test]
fn a_bridge_is_removed_where_there_is_one() {
    let mut cache = Cache::new();
    cache.m_rooms.insert("#a:x".to_string(), "!r:x".to_string());
    cache.m_rooms.insert("#b:x".to_string(), "!s:x".to_string());
    let mut case = UnlinkCase { room_id: "!r:x".to_string(), channel: None, removed: None };
    assert!(matches!(case.next(), UnlinkStep::AskChannel));
    for (channel, answer) in [
        (error(), "Database error: broken"),
        (Ok(None), "Matrix room `!r:x` is not bridged."),
    ] {
        case.channel = Some(channel);
        match case.next() {
            UnlinkStep::Answer(response) => assert_eq!(text(response), answer),
            _ => panic!("no answer"),
        }
        case.clear(&mut cache);
        assert!(cache.m_rooms.get("#a:x").is_some());
    }
    case.channel = Some(Ok(Some("7".to_string())));
    match case.next() {
        UnlinkStep::Remove(room) => assert_eq!(room, "!r:x"),
        _ => panic!("not removed"),
    }
    case.removed = Some(error());
    case.clear(&mut cache);
    assert!(cache.m_rooms.get("#a:x").is_some());
    match case.next() {
        UnlinkStep::Answer(response) => {
            assert_eq!(text(response), "Failed to remove bridge: broken");
        }
        _ => panic!("no answer"),
    }
    case.removed = Some(Ok(()));
    case.clear(&mut cache);
    assert!(cache.m_rooms.get("#a:x").is_none());
    assert_eq!(cache.m_rooms.get("#b:x").as_deref(), Some("!s:x"));
    match case.next() {
        UnlinkStep::Answer(response) => assert_eq!(
            text(response),
            "Successfully unlinked Matrix room `!r:x` from Discord channel `7`"
        ),
        _ => panic!("no answer"),
    }
}

#[test]
fn a_link_is_remembered_where_it_was_made() {
    let handler = handler(None);
    let mut case = LinkCase {
        room_id: "!r:x".to_string(),
        channel_id: "77".to_string(),
        bridged_to: Some(Ok(None)),
        channels: Some(Ok(vec!["7".to_string()])),
        verified: Some(Ok(ChannelInfo {
            id: "77".to_string(),
            name: "n".to_string(),
            guild_id: None,
            channel_type: 0,
        })),
        added: None,
    };
    let mut cache = Cache::new();
    assert!(case.is_checked());
    for added in [None, Some(error())] {
        case.added = added;
        handler.settle_link(&mut cache, &case);
        assert!(cache.m_rooms.get("#_discord_77:localhost").is_none());
    }
    case.added = Some(Ok(()));
    case.bridged_to = Some(Ok(Some("8".to_string())));
    assert!(!case.is_checked());
    handler.settle_link(&mut cache, &case);
    assert!(cache.m_rooms.get("#_discord_77:localhost").is_none());
    case.bridged_to = Some(Ok(None));
    handler.settle_link(&mut cache, &case);
    assert_eq!(cache.m_rooms.get("#_discord_77:localhost").as_deref(), Some("!r:x"));
}

#[test]
fn joined_rooms_are_counted() {
    let mut tally = JoinTally::new();
    assert!(tally.record("!a:x", &Ok(())));
    assert!(!tally.record("!b:x", &error()));
    assert_eq!(tally.joined, 1);
    assert_eq!(tally.errors, vec!["Failed to join !b:x: broken".to_string()]);
}

#[test]
fn answers_to_administrators_are_sent_in_the_name_of_the_bridge() {
    let response = admin_commands::CommandResponse::Text("hi".to_string());
    let requests = handler(None).send_command_response("!r:x", response);
    assert_eq!(requests.len(), 1);
    assert!(requests[0].path.starts_with("/rooms/%21r%3Ax/send/m.room.message/"));
    assert!(requests[0].user_id.is_none());
    let body = requests[0].body.as_ref().unwrap();
    assert_eq!(body.text_at("body").as_deref(), Some("hi"));
}

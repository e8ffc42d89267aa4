//! The settings of the bridge.

use vstd::prelude::*;
use vstd::string::*;

use crate::text;
use crate::web;

verus! {

/// The settings of the bridge.
#[derive(Debug)]
pub struct Config {
    pub as_token: String,
    pub hs_token: String,
    pub user_id: String,
    pub homeserver: String,
    pub server_name: String,
    pub discord_token: String,
    pub port: u16,
    pub database: String,
    /// The room in which administrators give commands.
    pub config_room_id: Option<String>,
    /// The key under which avatar links are signed.
    pub avatar_proxy_secret: String,
    /// Where avatar links lead.
    pub avatar_public_url: String,
}

/// What the settings say.
pub struct ConfigView {
    pub as_token: Seq<char>,
    pub hs_token: Seq<char>,
    pub user_id: Seq<char>,
    pub homeserver: Seq<char>,
    pub server_name: Seq<char>,
    pub discord_token: Seq<char>,
    pub port: u16,
    pub database: Seq<char>,
    pub config_room_id: Option<Seq<char>>,
    pub avatar_proxy_secret: Seq<char>,
    pub avatar_public_url: Seq<char>,
}

impl View for Config {
    type V = ConfigView;

    open spec fn view(&self) -> ConfigView {
        ConfigView {
            as_token: self.as_token@,
            hs_token: self.hs_token@,
            user_id: self.user_id@,
            homeserver: self.homeserver@,
            server_name: self.server_name@,
            discord_token: self.discord_token@,
            port: self.port,
            database: self.database@,
            config_room_id: web::opt_text(self.config_room_id),
            avatar_proxy_secret: self.avatar_proxy_secret@,
            avatar_public_url: self.avatar_public_url@,
        }
    }
}

impl ConfigView {
    /// The Matrix user of the bridge itself.
    pub open spec fn bot_user(self) -> Seq<char> {
        "@"@ + self.user_id + ":"@ + self.server_name
    }
}

impl Config {
    /// The Matrix user of the bridge itself.
    pub fn full_user_id(&self) -> (s: String)
        ensures
            s@ == self@.bot_user(),
    {
        "@".to_owned().concat(self.user_id.as_str()).concat(":").concat(self.server_name.as_str())
    }

    /// A second value with the same settings.
    pub fn copy(&self) -> (res: Config)
        ensures
            res@ == self@,
    {
        Config {
            as_token: self.as_token.clone(),
            hs_token: self.hs_token.clone(),
            user_id: self.user_id.clone(),
            homeserver: self.homeserver.clone(),
            server_name: self.server_name.clone(),
            discord_token: self.discord_token.clone(),
            port: self.port,
            database: self.database.clone(),
            config_room_id: text::copy_optional(&self.config_room_id),
            avatar_proxy_secret: self.avatar_proxy_secret.clone(),
            avatar_public_url: self.avatar_public_url.clone(),
        }
    }
}

impl Default for Config {
    /// The settings that a new installation begins with.
    fn default() -> (config: Self)
        ensures
            config@ == (ConfigView {
                as_token: "my-secret-as-token"@,
                hs_token: "my-secret-hs-token"@,
                user_id: "appservice-discord"@,
                homeserver: "http://127.0.0.1:8008"@,
                server_name: "localhost"@,
                discord_token: "my-secret-discord-token"@,
                port: 5000,
                database: "bridge.db"@,
                config_room_id: None,
                avatar_proxy_secret: "my-secret-avatar-key"@,
                avatar_public_url: "http://127.0.0.1:5000"@,
            }),
    {
        Config {
            as_token: "my-secret-as-token".to_owned(),
            hs_token: "my-secret-hs-token".to_owned(),
            user_id: "appservice-discord".to_owned(),
            homeserver: "http://127.0.0.1:8008".to_owned(),
            server_name: "localhost".to_owned(),
            discord_token: "my-secret-discord-token".to_owned(),
            port: 5000,
            database: "bridge.db".to_owned(),
            config_room_id: None,
            avatar_proxy_secret: "my-secret-avatar-key".to_owned(),
            avatar_public_url: "http://127.0.0.1:5000".to_owned(),
        }
    }
}

/// Whether a Matrix user belongs to the bridge: its own user, or one that stands for a Discord user.
pub open spec fn is_bridge_user(config: ConfigView, user: Seq<char>) -> bool {
    "@_discord_"@.is_prefix_of(user) || user == config.bot_user()
}

/// Whether a Matrix user stands for a Discord user.
pub fn is_puppet(user: &str) -> (res: bool)
    ensures
        res == "@_discord_"@.is_prefix_of(user@),
{
    text::starts_with(user, "@_discord_")
}

/// Whether a Matrix user belongs to the bridge.
pub fn is_own_user(config: &Config, user: &str) -> (res: bool)
    ensures
        res == is_bridge_user(config@, user@),
{
    is_puppet(user) || text::same(user, config.full_user_id().as_str())
}

/// The bridge's own users are its bot and its puppets, and nobody else.
pub proof fn law_own_users(config: ConfigView, id: Seq<char>, user: Seq<char>)
    ensures
        is_bridge_user(config, "@"@ + config.user_id + ":"@ + config.server_name),
        is_bridge_user(config, "@_discord_"@ + id),
        user.len() < 10 && user != config.bot_user() ==> !is_bridge_user(config, user),
        user.len() > 0 && user[0] != '@' ==> !is_bridge_user(config, user),
        user.len() > 1 && user[1] != '_' && user != config.bot_user() ==> !is_bridge_user(
            config,
            user,
        ),
{
    reveal_strlit("@_discord_");
    reveal_strlit("@");
    let puppet = "@_discord_"@ + id;
    assert(puppet.subrange(0, 10) =~= "@_discord_"@);
    if "@_discord_"@.is_prefix_of(user) {
        assert(user.subrange(0, 10)[0] == user[0] && user.subrange(0, 10)[1] == user[1]);
    }
    assert(config.bot_user()[0] == '@');
}

} // verus!

//! The rows that the database holds.

use vstd::prelude::*;

use crate::table::Duplicate;
use crate::text;

verus! {

/// A Matrix room and the Discord channel that it is bridged to, with what passes between them.
#[derive(Debug)]
pub struct BridgedRoom {
    pub room_id: String,
    pub channel_id: String,
    pub d2m_enabled: bool,
    pub m2d_enabled: bool,
    pub d2m_mod_deletions: bool,
    pub m2d_mod_deletions: bool,
    pub d2m_typing: bool,
    pub m2d_typing: bool,
}

/// The Matrix user of a Discord user, as it was last told to the homeserver.
#[derive(Debug)]
pub struct BridgedUser {
    pub mxid: String,
    pub avatar_url: Option<String>,
    pub username: Option<String>,
}

/// An invitation that no administrator has answered yet.
#[derive(Debug)]
pub struct PendingInvite {
    pub id: i64,
    pub room_id: String,
    pub sender: String,
    pub room_name: Option<String>,
}

/// What a Matrix user wants for the messages of one room, or of all of them.
#[derive(Debug)]
pub struct UserPreference {
    pub room_id: String,
    pub status: String,
    pub until_ts: Option<i64>,
}

/// What a preference says.
pub struct UserPreferenceView {
    pub room_id: Seq<char>,
    pub status: Seq<char>,
    pub until_ts: Option<i64>,
}

impl View for UserPreference {
    type V = UserPreferenceView;

    open spec fn view(&self) -> UserPreferenceView {
        UserPreferenceView {
            room_id: self.room_id@,
            status: self.status@,
            until_ts: self.until_ts,
        }
    }
}

impl Duplicate for UserPreference {
    fn duplicate(&self) -> (copy: Self) {
        UserPreference {
            room_id: self.room_id.clone(),
            status: self.status.clone(),
            until_ts: self.until_ts,
        }
    }
}

/// The statement that changes a setting of a bridge, where there is such a setting.
pub open spec fn setting_statement(setting: Seq<char>) -> Option<Seq<char>> {
    if setting == "d2m_enabled"@ {
        Some("UPDATE bridge SET d2m_enabled = ? WHERE room_id = ?"@)
    } else if setting == "m2d_enabled"@ {
        Some("UPDATE bridge SET m2d_enabled = ? WHERE room_id = ?"@)
    } else if setting == "d2m_mod_deletions"@ {
        Some("UPDATE bridge SET d2m_mod_deletions = ? WHERE room_id = ?"@)
    } else if setting == "m2d_mod_deletions"@ {
        Some("UPDATE bridge SET m2d_mod_deletions = ? WHERE room_id = ?"@)
    } else if setting == "d2m_typing"@ {
        Some("UPDATE bridge SET d2m_typing = ? WHERE room_id = ?"@)
    } else if setting == "m2d_typing"@ {
        Some("UPDATE bridge SET m2d_typing = ? WHERE room_id = ?"@)
    } else {
        None
    }
}

/// The statement that changes a setting of a bridge, where there is such a setting. The setting
/// itself never becomes part of a statement.
pub fn update_bridge_config(setting: &str) -> (res: Option<&'static str>)
    ensures
        res is Some <==> setting_statement(setting@) is Some,
        res matches Some(s) ==> setting_statement(setting@) == Some(s@),
{
    if text::same(setting, "d2m_enabled") {
        Some("UPDATE bridge SET d2m_enabled = ? WHERE room_id = ?")
    } else if text::same(setting, "m2d_enabled") {
        Some("UPDATE bridge SET m2d_enabled = ? WHERE room_id = ?")
    } else if text::same(setting, "d2m_mod_deletions") {
        Some("UPDATE bridge SET d2m_mod_deletions = ? WHERE room_id = ?")
    } else if text::same(setting, "m2d_mod_deletions") {
        Some("UPDATE bridge SET m2d_mod_deletions = ? WHERE room_id = ?")
    } else if text::same(setting, "d2m_typing") {
        Some("UPDATE bridge SET d2m_typing = ? WHERE room_id = ?")
    } else if text::same(setting, "m2d_typing") {
        Some("UPDATE bridge SET m2d_typing = ? WHERE room_id = ?")
    } else {
        None
    }
}

/// The statement for a setting writes that setting, and there is one for each of the six and for
/// nothing else.
pub proof fn law_statements_write_their_setting(setting: Seq<char>)
    ensures
        setting_statement(setting) matches Some(statement) ==> statement == "UPDATE bridge SET "@
            + setting + " = ? WHERE room_id = ?"@,
        setting_statement(setting) is Some <==> setting == "d2m_enabled"@ || setting
            == "m2d_enabled"@ || setting == "d2m_mod_deletions"@ || setting
            == "m2d_mod_deletions"@ || setting == "d2m_typing"@ || setting == "m2d_typing"@,
{
    reveal_strlit("UPDATE bridge SET ");
    reveal_strlit(" = ? WHERE room_id = ?");
    reveal_strlit("d2m_enabled");
    reveal_strlit("m2d_enabled");
    reveal_strlit("d2m_mod_deletions");
    reveal_strlit("m2d_mod_deletions");
    reveal_strlit("d2m_typing");
    reveal_strlit("m2d_typing");
    reveal_strlit("UPDATE bridge SET d2m_enabled = ? WHERE room_id = ?");
    reveal_strlit("UPDATE bridge SET m2d_enabled = ? WHERE room_id = ?");
    reveal_strlit("UPDATE bridge SET d2m_mod_deletions = ? WHERE room_id = ?");
    reveal_strlit("UPDATE bridge SET m2d_mod_deletions = ? WHERE room_id = ?");
    reveal_strlit("UPDATE bridge SET d2m_typing = ? WHERE room_id = ?");
    reveal_strlit("UPDATE bridge SET m2d_typing = ? WHERE room_id = ?");
    if let Some(statement) = setting_statement(setting) {
        assert(statement =~= "UPDATE bridge SET "@ + setting + " = ? WHERE room_id = ?"@);
    }
}

} // verus!

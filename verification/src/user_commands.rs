//! What Matrix users decide about the bridging of their own messages.

use vstd::prelude::*;
use vstd::string::*;

use crate::cache;
use crate::cache::Cache;
use crate::db::{UserPreference, UserPreferenceView};
use crate::matrix_client;
use crate::matrix_client::{MatrixClient, MatrixRequest};
use crate::message;
use crate::message::MessageContent;
use crate::number;
use crate::shell;
use crate::table::Duplicate;
use crate::text;
use crate::utils;
use crate::utils::{CommandResponse, ResponseView};

verus! {

/// Where a wish holds.
#[derive(Clone, Copy, PartialEq, Eq, Structural, Debug)]
pub enum Scope {
    Here,
    Global,
}

/// The `!bridge` command.
#[derive(Debug)]
pub struct BridgeCli {
    pub command: BridgeCommand,
}

/// What `!bridge` is asked.
#[derive(Clone, Copy, PartialEq, Eq, Structural, Debug)]
pub enum BridgeCommand {
    Help,
    Status,
}

/// The `!neverbridge` command.
#[derive(Debug)]
pub struct NeverBridgeCli {
    pub scope: Scope,
}

/// The `!allowbridge` command.
#[derive(Debug)]
pub struct AllowBridgeCli {
    pub scope: Scope,
}

/// The `!nobridgefor` command.
#[derive(Debug)]
pub struct NoBridgeForCli {
    pub duration: String,
    pub scope: Scope,
}

/// Which command a message is.
#[derive(Clone, Copy, PartialEq, Eq, Structural, Debug)]
pub enum UserCommand {
    Bridge,
    NeverBridge,
    AllowBridge,
    NoBridgeFor,
}

/// What is done with a message.
pub enum UserRoute {
    /// It stays on Matrix.
    Keep,
    /// It is a command whose words cannot be told apart.
    Garbled,
    /// It is a command with these words.
    Command(UserCommand, Vec<String>),
    /// It crosses the bridge if its sender's wishes allow it.
    Ordinary,
}

/// What is done with a message, over texts.
pub enum UserRouteView {
    Keep,
    Garbled,
    Command(UserCommand, Seq<Seq<char>>),
    Ordinary,
}

impl View for UserRoute {
    type V = UserRouteView;

    open spec fn view(&self) -> UserRouteView {
        match self {
            UserRoute::Keep => UserRouteView::Keep,
            UserRoute::Garbled => UserRouteView::Garbled,
            UserRoute::Command(command, words) => UserRouteView::Command(
                *command,
                text::texts(words@),
            ),
            UserRoute::Ordinary => UserRouteView::Ordinary,
        }
    }
}

/// Which command a text begins with.
pub open spec fn command_of(body: Seq<char>) -> Option<UserCommand> {
    if "!bridge"@.is_prefix_of(body) {
        Some(UserCommand::Bridge)
    } else if "!neverbridge"@.is_prefix_of(body) {
        Some(UserCommand::NeverBridge)
    } else if "!allowbridge"@.is_prefix_of(body) {
        Some(UserCommand::AllowBridge)
    } else if "!nobridgefor"@.is_prefix_of(body) {
        Some(UserCommand::NoBridgeFor)
    } else {
        None
    }
}

/// What is done with a text, given its words.
pub open spec fn user_route(body: Seq<char>, words: Option<Seq<Seq<char>>>) -> UserRouteView {
    if "!nobridge"@.is_prefix_of(body) && !"!nobridgefor"@.is_prefix_of(body) {
        UserRouteView::Keep
    } else {
        match command_of(body) {
            Some(command) => match words {
                Some(list) => UserRouteView::Command(command, list),
                None => UserRouteView::Garbled,
            },
            None => UserRouteView::Ordinary,
        }
    }
}

/// Tells which command a text begins with.
pub fn find_command(body: &str) -> (res: Option<UserCommand>)
    ensures
        res == command_of(body@),
{
    if text::starts_with(body, "!bridge") {
        Some(UserCommand::Bridge)
    } else if text::starts_with(body, "!neverbridge") {
        Some(UserCommand::NeverBridge)
    } else if text::starts_with(body, "!allowbridge") {
        Some(UserCommand::AllowBridge)
    } else if text::starts_with(body, "!nobridgefor") {
        Some(UserCommand::NoBridgeFor)
    } else {
        None
    }
}

/// Decides what is done with a text, given its words.
pub fn route_words(body: &str, words: Option<Vec<String>>) -> (route: UserRoute)
    ensures
        route@ == user_route(body@, shell::optional_texts(words)),
{
    if text::starts_with(body, "!nobridge") && !text::starts_with(body, "!nobridgefor") {
        return UserRoute::Keep;
    }
    match find_command(body) {
        Some(command) => match words {
            Some(list) => UserRoute::Command(command, list),
            None => UserRoute::Garbled,
        },
        None => UserRoute::Ordinary,
    }
}

/// The room that a wish is kept under.
pub open spec fn target(scope: Scope, room: Seq<char>) -> Seq<char> {
    match scope {
        Scope::Global => "global"@,
        Scope::Here => room,
    }
}

/// Where a wish holds, in words.
pub open spec fn scope_words(scope: Scope) -> Seq<char> {
    match scope {
        Scope::Global => "globally"@,
        Scope::Here => "in this room"@,
    }
}

/// The room that a wish is kept under.
pub fn target_room(scope: Scope, room_id: &str) -> (room: String)
    ensures
        room@ == target(scope, room_id@),
{
    match scope {
        Scope::Global => "global".to_owned(),
        Scope::Here => room_id.to_owned(),
    }
}

fn words_for(scope: Scope) -> (s: String)
    ensures
        s@ == scope_words(scope),
{
    match scope {
        Scope::Global => "globally".to_owned(),
        Scope::Here => "in this room".to_owned(),
    }
}

/// How many seconds a unit of time has.
pub open spec fn unit_seconds(unit: Seq<char>) -> Option<nat> {
    if unit == "m"@ {
        Some(60)
    } else if unit == "h"@ {
        Some(3_600)
    } else if unit == "d"@ {
        Some(86_400)
    } else if unit == "M"@ {
        Some(2_592_000)
    } else if unit == "y"@ {
        Some(31_536_000)
    } else {
        None
    }
}

/// How many decimal digits a text begins with.
pub open spec fn leading_digits(s: Seq<char>) -> int
    decreases s.len(),
{
    if s.len() > 0 && '0' <= s[0] <= '9' {
        1 + leading_digits(s.drop_first())
    } else {
        0
    }
}

/// How many seconds a length of time has that is written as a number and a unit, such as `15m`.
/// Spaces do not count.
pub open spec fn duration(s: Seq<char>) -> Option<nat> {
    let bare = text::replaced(s, " "@, Seq::empty());
    let n = leading_digits(bare);
    match (number::unsigned_value(bare.take(n)), unit_seconds(bare.skip(n))) {
        (Some(count), Some(unit)) => if count <= u64::MAX {
            Some(count * unit)
        } else {
            None
        },
        _ => None,
    }
}

/// Reads a length of time as a number and the seconds of its unit.
fn read_duration(s: &str) -> (res: Option<(u64, u64)>)
    ensures
        match res {
            Some(parts) => duration(s@) == Some((parts.0 * parts.1) as nat) && parts.1 > 0,
            None => duration(s@) is None,
        },
{
    proof {
        reveal_strlit(" ");
        reveal_strlit("");
        assert(""@ =~= Seq::<char>::empty());
    }
    let bare = text::replace(s, " ", "");
    let chars = text::chars_of(bare.as_str());
    let length: usize = chars.len();
    let mut n: usize = 0;
    assert(bare@.skip(0) =~= bare@);
    while n < length && '0' <= chars[n] && chars[n] <= '9'
        invariant
            chars@ == bare@,
            length == bare@.len(),
            n <= length,
            n + leading_digits(bare@.skip(n as int)) == leading_digits(bare@),
        decreases length - n,
    {
        proof {
            assert(bare@.skip(n as int)[0] == bare@[n as int]);
            assert(bare@.skip(n as int).drop_first() =~= bare@.skip(n + 1));
        }
        n += 1;
    }
    proof {
        if n < length {
            assert(bare@.skip(n as int)[0] == bare@[n as int]);
        }
        assert(leading_digits(bare@) == n);
    }
    let digits = text::string_of(&chars, 0, n);
    let unit = text::string_of(&chars, n, length);
    proof {
        assert(digits@ =~= bare@.take(n as int));
        assert(unit@ =~= bare@.skip(n as int));
    }
    let count: u64 = match number::parse_u64(digits.as_str()) {
        Some(count) => count,
        None => {
            return None;
        },
    };
    let seconds: u64 = if text::same(unit.as_str(), "m") {
        60
    } else if text::same(unit.as_str(), "h") {
        3_600
    } else if text::same(unit.as_str(), "d") {
        86_400
    } else if text::same(unit.as_str(), "M") {
        2_592_000
    } else if text::same(unit.as_str(), "y") {
        31_536_000
    } else {
        return None;
    };
    Some((count, seconds))
}

/// Whether a length of time, where it is one, can be counted in seconds.
pub fn duration_fits(s: &str) -> (res: bool)
    ensures
        res == (duration(s@) matches Some(seconds) ==> seconds <= u64::MAX),
{
    match read_duration(s) {
        None => true,
        Some((count, unit)) => {
            let most: u64 = u64::MAX / unit;
            proof {
                let c = count as int;
                let u = unit as int;
                let m = u64::MAX as int;
                assert((c <= m / u) == (c * u <= m)) by (nonlinear_arith)
                    requires
                        u > 0,
                        0 <= c,
                        0 <= m,
                ;
            }
            count <= most
        },
    }
}

/// A number of 64 bits as a signed one.
pub open spec fn as_signed(n: int) -> int {
    if n <= i64::MAX {
        n
    } else {
        n - 0x1_0000_0000_0000_0000
    }
}

/// A number of 64 bits as a signed one.
pub fn to_signed(n: u64) -> (res: i64)
    ensures
        res == as_signed(n as int),
{
    if n <= i64::MAX as u64 {
        n as i64
    } else {
        let distance: u64 = u64::MAX - n;
        -(distance as i64) - 1
    }
}

/// Whether a wish lets messages cross the bridge at second `now`.
pub open spec fn allows(preference: Option<UserPreferenceView>, now: int) -> bool {
    match preference {
        None => true,
        Some(wish) => {
            &&& wish.status != "never"@
            &&& wish.status == "until"@ ==> match wish.until_ts {
                Some(end) => now >= end,
                None => true,
            }
        },
    }
}

/// Whether messages cross the bridge at second `now`, given the sender's wishes for the room and for
/// all rooms.
pub open spec fn crosses(
    room: Option<UserPreferenceView>,
    global: Option<UserPreferenceView>,
    now: int,
) -> bool {
    allows(room, now) && allows(global, now)
}

/// The wish never to be bridged.
pub open spec fn never(scope: Scope, room: Seq<char>) -> UserPreferenceView {
    UserPreferenceView { room_id: target(scope, room), status: "never"@, until_ts: None }
}

/// The wish not to be bridged before second `end`.
pub open spec fn pause(scope: Scope, room: Seq<char>, end: i64) -> UserPreferenceView {
    UserPreferenceView { room_id: target(scope, room), status: "until"@, until_ts: Some(end) }
}

/// The wish that counts: the one that is remembered, and where none is, the one that was read, if
/// the read did not fail.
pub open spec fn counting_wish(
    remembered: Option<Option<UserPreferenceView>>,
    stored: Option<Option<UserPreferenceView>>,
) -> Option<UserPreferenceView> {
    match (remembered, stored) {
        (Some(wish), _) => wish,
        (None, Some(wish)) => wish,
        (None, None) => None,
    }
}

/// A wish that was looked for, over texts.
pub open spec fn recalled_view(found: Option<Option<UserPreference>>) -> Option<
    Option<UserPreferenceView>,
> {
    match found {
        Some(wish) => Some(cache::preference_view(wish)),
        None => None,
    }
}

/// How `!nobridgefor` begins.
pub enum PauseStep {
    /// The length of time is none; this is answered, and nothing is kept.
    Refuse(CommandResponse),
    /// This wish is to be kept.
    Keep(UserPreference),
}

/// Whether a cache is what is left of `before` once a wish was changed, or could not be: then nothing
/// is forgotten.
pub open spec fn has_forgotten(
    after: Cache,
    before: Cache,
    sender: Seq<char>,
    room: Seq<char>,
    kept: Result<(), String>,
) -> bool {
    match kept {
        Ok(()) => {
            &&& after.user_prefs@ == before.user_prefs@.remove((sender, room))
            &&& after == (Cache { user_prefs: after.user_prefs, ..before })
        },
        Err(_) => after == before,
    }
}

/// How a wish is shown.
pub open spec fn shown_preference(wish: UserPreferenceView) -> Seq<Seq<char>> {
    let scope = if wish.room_id == "global"@ {
        "Global"@
    } else {
        wish.room_id
    };
    let status = if wish.status == "never"@ {
        "Never bridge"@
    } else if wish.status == "until"@ {
        match wish.until_ts {
            Some(end) => "No bridge until timestamp: "@ + number::signed_decimal(end as int),
            None => "Unknown"@,
        }
    } else {
        wish.status
    };
    seq![scope, status]
}

/// How wishes are shown.
pub open spec fn shown_preferences(wishes: Seq<UserPreference>) -> Seq<Seq<Seq<char>>> {
    Seq::new(wishes.len(), |i: int| shown_preference(wishes[i]@))
}

/// The help for users.
pub open spec fn user_help() -> Seq<char> {
    "**User Commands**\n`!nobridge [text]` - Do not bridge this message\n`!nobridgefor <time> [here|global]` - Disable bridging temporarily (e.g. 15m, 2h, 1d)\n`!neverbridge <here|global>` - Permanently disable bridging\n`!allowbridge <here|global>` - Remove bridging restrictions\n`!bridge status` - View your current bridging configuration"@
}

/// What `!bridge status` answers.
pub open spec fn status_response(wishes: Result<Seq<UserPreference>, Seq<char>>) -> ResponseView {
    match wishes {
        Ok(list) => if list.len() == 0 {
            ResponseView::Text(
                "You have no explicit bridge configuration. Your messages will be bridged normally."@,
            )
        } else {
            ResponseView::Table {
                headers: seq!["Scope"@, "Status"@],
                rows: shown_preferences(list),
                footer: None,
            }
        },
        Err(e) => ResponseView::Text("Error fetching status: "@ + e),
    }
}

/// The wishes that were found, over sequences.
pub open spec fn wishes_view(wishes: Result<Vec<UserPreference>, String>) -> Result<
    Seq<UserPreference>,
    Seq<char>,
> {
    match wishes {
        Ok(list) => Ok(list@),
        Err(e) => Err(e@),
    }
}

/// Shows a wish.
fn show_preference(wish: &UserPreference) -> (row: Vec<String>)
    ensures
        text::texts(row@) == shown_preference(wish@),
{
    let scope = if text::same(wish.room_id.as_str(), "global") {
        "Global".to_owned()
    } else {
        wish.room_id.clone()
    };
    let status = if text::same(wish.status.as_str(), "never") {
        "Never bridge".to_owned()
    } else if text::same(wish.status.as_str(), "until") {
        match wish.until_ts {
            Some(end) => "No bridge until timestamp: ".to_owned().concat(
                number::to_signed_decimal(end).as_str(),
            ),
            None => "Unknown".to_owned(),
        }
    } else {
        wish.status.clone()
    };
    let mut row: Vec<String> = Vec::new();
    row.push(scope);
    row.push(status);
    assert(text::texts(row@) =~= shown_preference(wish@));
    row
}

/// What a command answers once the wish was kept, or could not be.
pub open spec fn kept_response(kept: Result<(), String>, sentence: Seq<char>) -> ResponseView {
    match kept {
        Ok(()) => ResponseView::Text(sentence),
        Err(e) => ResponseView::Text("Error updating preferences: "@ + e@),
    }
}

/// Handles the commands by which users decide about their own messages.
pub struct UserCommandHandler {
    pub matrix: MatrixClient,
}

impl UserCommandHandler {
    /// A handler with the given access to Matrix.
    pub fn new(matrix: MatrixClient) -> (handler: Self)
        ensures
            handler.matrix == matrix,
    {
        UserCommandHandler { matrix }
    }

    /// Sends an answer into a room, message by message, in the name of the bridge.
    pub fn send_response(&self, room_id: &str, response: CommandResponse) -> (requests: Vec<
        MatrixRequest,
    >)
        ensures
            requests@.len() == utils::response_messages(response@).len(),
            forall|i: int|
                0 <= i < requests@.len() ==> ({
                    let (plain, html) = utils::response_messages(response@)[i];
                    matrix_client::sends_event(
                        (#[trigger] requests@[i])@,
                        room_id@,
                        "m.room.message"@,
                        message::html_content(plain, html).json(),
                        None,
                    )
                }),
    {
        let chunks = response.render_chunks();
        let ghost views = utils::message_views(chunks@);
        let count: usize = chunks.len();
        let mut requests: Vec<MatrixRequest> = Vec::new();
        let mut i: usize = 0;
        while i < count
            invariant
                count == chunks@.len(),
                views == utils::message_views(chunks@),
                i <= count,
                requests@.len() == i,
                forall|j: int|
                    0 <= j < i ==> matrix_client::sends_event(
                        (#[trigger] requests@[j])@,
                        room_id@,
                        "m.room.message"@,
                        message::html_content(views[j].0, views[j].1).json(),
                        None,
                    ),
            decreases count - i,
        {
            let content = MessageContent::text_html(chunks[i].0.as_str(), chunks[i].1.as_str());
            requests.push(self.matrix.send_message(room_id, &content, None));
            i += 1;
        }
        requests
    }

    /// Decides what is done with a message.
    pub fn process_event(body: &str) -> (route: UserRoute)
        ensures
            route@ == user_route(
                text::trimmed_white(body@),
                shell::shell_words(text::trimmed_white(body@)),
            ),
    {
        let trimmed = text::trim(body);
        let words = if find_command(trimmed.as_str()).is_some() {
            shell::split_words(trimmed.as_str())
        } else {
            None
        };
        route_words(trimmed.as_str(), words)
    }

    /// What a garbled command is answered.
    pub fn garbled() -> (response: CommandResponse)
        ensures
            response@ == ResponseView::Text("Invalid command format."@),
    {
        CommandResponse::Text("Invalid command format.".to_owned())
    }

    /// What `!bridge` answers, given the sender's wishes.
    pub fn handle_bridge_cmd(
        command: BridgeCommand,
        preferences: &Result<Vec<UserPreference>, String>,
    ) -> (response: CommandResponse)
        ensures
            command == BridgeCommand::Help ==> response@ == ResponseView::Text(user_help()),
            command == BridgeCommand::Status ==> response@ == status_response(
                wishes_view(*preferences),
            ),
    {
        match command {
            BridgeCommand::Help => CommandResponse::Text(
                "**User Commands**\n`!nobridge [text]` - Do not bridge this message\n`!nobridgefor <time> [here|global]` - Disable bridging temporarily (e.g. 15m, 2h, 1d)\n`!neverbridge <here|global>` - Permanently disable bridging\n`!allowbridge <here|global>` - Remove bridging restrictions\n`!bridge status` - View your current bridging configuration".to_owned(),
            ),
            BridgeCommand::Status => match preferences {
                Err(e) => CommandResponse::Text(
                    "Error fetching status: ".to_owned().concat(e.as_str()),
                ),
                Ok(list) => {
                    let count: usize = list.len();
                    if count == 0 {
                        return CommandResponse::Text(
                            "You have no explicit bridge configuration. Your messages will be bridged normally.".to_owned(),
                        );
                    }
                    let mut rows: Vec<Vec<String>> = Vec::new();
                    let mut i: usize = 0;
                    while i < count
                        invariant
                            count == list@.len(),
                            i <= count,
                            rows@.len() == i,
                            forall|j: int|
                                0 <= j < i ==> text::texts((#[trigger] rows@[j])@)
                                    == shown_preference(list@[j]@),
                        decreases count - i,
                    {
                        rows.push(show_preference(&list[i]));
                        i += 1;
                    }
                    let mut headers: Vec<String> = Vec::new();
                    headers.push("Scope".to_owned());
                    headers.push("Status".to_owned());
                    proof {
                        assert(text::texts(headers@) =~= seq!["Scope"@, "Status"@]);
                        assert(utils::row_texts(rows@) =~= shown_preferences(list@));
                    }
                    CommandResponse::Table { headers, rows, footer: None }
                },
            },
        }
    }

    /// Forgets what is remembered of a wish that was changed.
    pub fn forget_preference(cache: &mut Cache, sender: &str, room_id: &str, scope: Scope)
        ensures
            final(cache).user_prefs@ == old(cache).user_prefs@.remove(
                (sender@, target(scope, room_id@)),
            ),
            *final(cache) == (Cache { user_prefs: final(cache).user_prefs, ..*old(cache) }),
    {
        let room = target_room(scope, room_id);
        cache.user_prefs.invalidate(sender, room.as_str());
    }

    /// The wish that `!neverbridge` keeps.
    pub fn never_wish(scope: Scope, room_id: &str) -> (wish: UserPreference)
        ensures
            wish@ == never(scope, room_id@),
    {
        UserPreference {
            room_id: target_room(scope, room_id),
            status: "never".to_owned(),
            until_ts: None,
        }
    }

    /// The wish that `!nobridgefor` keeps at second `now`, for that many seconds.
    pub fn pause_wish(scope: Scope, room_id: &str, now: u64, seconds: u64) -> (wish: UserPreference)
        requires
            now + seconds <= u64::MAX,
        ensures
            wish@ == pause(scope, room_id@, as_signed(now + seconds) as i64),
    {
        UserPreference {
            room_id: target_room(scope, room_id),
            status: "until".to_owned(),
            until_ts: Some(UserCommandHandler::until(now, seconds)),
        }
    }

    /// How `!nobridgefor` begins at second `now`.
    pub fn plan_pause(scope: Scope, room_id: &str, duration_text: &str, now: u64) -> (step: PauseStep)
        requires
            duration(duration_text@) matches Some(seconds) ==> now + seconds <= u64::MAX,
        ensures
            match duration(duration_text@) {
                Some(seconds) => step matches PauseStep::Keep(wish) && wish@ == pause(
                    scope,
                    room_id@,
                    as_signed(now + seconds) as i64,
                ),
                None => step matches PauseStep::Refuse(response) && response@ == ResponseView::Text(
                    "Invalid time format. Use something like 15m, 2h, 1d, 1M, 1y."@,
                ),
            },
    {
        match UserCommandHandler::parse_duration(duration_text) {
            Some(seconds) => PauseStep::Keep(
                UserCommandHandler::pause_wish(scope, room_id, now, seconds),
            ),
            None => PauseStep::Refuse(UserCommandHandler::bad_duration()),
        }
    }

    /// Forgets what is remembered of a wish, where the change of it was kept.
    fn forget_where_kept(
        cache: &mut Cache,
        sender: &str,
        room_id: &str,
        scope: Scope,
        kept: &Result<(), String>,
    )
        ensures
            has_forgotten(*final(cache), *old(cache), sender@, target(scope, room_id@), *kept),
    {
        if kept.is_ok() {
            UserCommandHandler::forget_preference(cache, sender, room_id, scope);
        }
    }

    /// What `!neverbridge` answers once the wish was kept, or could not be. What is remembered of the
    /// wish is forgotten where it was kept.
    pub fn handle_neverbridge(
        cache: &mut Cache,
        sender: &str,
        room_id: &str,
        scope: Scope,
        kept: &Result<(), String>,
    ) -> (response: CommandResponse)
        ensures
            has_forgotten(*final(cache), *old(cache), sender@, target(scope, room_id@), *kept),
            response@ == kept_response(
                *kept,
                "Bridging disabled "@ + scope_words(scope) + "."@,
            ),
    {
        UserCommandHandler::forget_where_kept(cache, sender, room_id, scope, kept);
        match kept {
            Ok(()) => CommandResponse::Text(
                "Bridging disabled ".to_owned().concat(words_for(scope).as_str()).concat("."),
            ),
            Err(e) => CommandResponse::Text(
                "Error updating preferences: ".to_owned().concat(e.as_str()),
            ),
        }
    }

    /// What `!allowbridge` answers once the wish was taken back, or could not be. What is remembered
    /// of the wish is forgotten where it was taken back.
    pub fn handle_allowbridge(
        cache: &mut Cache,
        sender: &str,
        room_id: &str,
        scope: Scope,
        kept: &Result<(), String>,
    ) -> (response: CommandResponse)
        ensures
            has_forgotten(*final(cache), *old(cache), sender@, target(scope, room_id@), *kept),
            response@ == kept_response(
                *kept,
                "Removed bridging restrictions "@ + scope_words(scope)
                    + ". Messages will now be bridged."@,
            ),
    {
        UserCommandHandler::forget_where_kept(cache, sender, room_id, scope, kept);
        match kept {
            Ok(()) => CommandResponse::Text(
                "Removed bridging restrictions ".to_owned().concat(
                    words_for(scope).as_str(),
                ).concat(". Messages will now be bridged."),
            ),
            Err(e) => CommandResponse::Text(
                "Error updating preferences: ".to_owned().concat(e.as_str()),
            ),
        }
    }

    /// What `!nobridgefor` answers once the wish was kept, or could not be. What is remembered of the
    /// wish is forgotten where it was kept.
    pub fn handle_nobridgefor(
        cache: &mut Cache,
        sender: &str,
        room_id: &str,
        scope: Scope,
        duration_text: &str,
        kept: &Result<(), String>,
    ) -> (response: CommandResponse)
        ensures
            has_forgotten(*final(cache), *old(cache), sender@, target(scope, room_id@), *kept),
            response@ == kept_response(
                *kept,
                "Bridging disabled "@ + scope_words(scope) + " for "@ + duration_text@ + "."@,
            ),
    {
        UserCommandHandler::forget_where_kept(cache, sender, room_id, scope, kept);
        match kept {
            Ok(()) => CommandResponse::Text(
                "Bridging disabled ".to_owned().concat(words_for(scope).as_str()).concat(
                    " for ",
                ).concat(duration_text).concat("."),
            ),
            Err(e) => CommandResponse::Text(
                "Error updating preferences: ".to_owned().concat(e.as_str()),
            ),
        }
    }

    /// What a length of time that is none is answered.
    pub fn bad_duration() -> (response: CommandResponse)
        ensures
            response@ == ResponseView::Text(
                "Invalid time format. Use something like 15m, 2h, 1d, 1M, 1y."@,
            ),
    {
        CommandResponse::Text(
            "Invalid time format. Use something like 15m, 2h, 1d, 1M, 1y.".to_owned(),
        )
    }

    /// The second until which messages stay on Matrix, from `now` on.
    pub fn until(now: u64, seconds: u64) -> (end: i64)
        requires
            now + seconds <= u64::MAX,
        ensures
            end == as_signed(now + seconds),
    {
        to_signed(now + seconds)
    }

    /// Reads a length of time, in seconds.
    pub fn parse_duration(s: &str) -> (res: Option<u64>)
        requires
            duration(s@) matches Some(seconds) ==> seconds <= u64::MAX,
        ensures
            res is Some <==> duration(s@) is Some,
            res matches Some(seconds) ==> duration(s@) == Some(seconds as nat),
    {
        match read_duration(s) {
            Some((count, unit)) => Some(count * unit),
            None => None,
        }
    }

    /// Whether messages cross the bridge, given the sender's wishes for the room and for all rooms.
    pub fn should_bridge(
        room: &Option<UserPreference>,
        global: &Option<UserPreference>,
        now: i64,
    ) -> (res: bool)
        ensures
            res == crosses(
                cache::preference_view(*room),
                cache::preference_view(*global),
                now as int,
            ),
    {
        UserCommandHandler::check_pref_allows(room, now) && UserCommandHandler::check_pref_allows(
            global,
            now,
        )
    }

    /// The wish of a user for a room that counts, given the one that was remembered and the one that
    /// the database holds, if it could be read. The remembered one counts; where there was none, the
    /// database's is remembered from now on, and a failed read is not.
    pub fn settle_preference(
        cache: &mut Cache,
        sender: &str,
        room_id: &str,
        remembered: Option<Option<UserPreference>>,
        stored: Option<Option<UserPreference>>,
    ) -> (wish: Option<UserPreference>)
        ensures
            cache::preference_view(wish) == counting_wish(
                recalled_view(remembered),
                recalled_view(stored),
            ),
            if remembered is None && stored is Some {
                final(cache).user_prefs@ == old(cache).user_prefs@.insert(
                    (sender@, room_id@),
                    cache::preference_view(stored->0),
                )
            } else {
                final(cache).user_prefs == old(cache).user_prefs
            },
            *final(cache) == (Cache { user_prefs: final(cache).user_prefs, ..*old(cache) }),
    {
        match (remembered, stored) {
            (Some(wish), _) => wish,
            (None, Some(wish)) => {
                let copy = match &wish {
                    Some(p) => Some(p.duplicate()),
                    None => None,
                };
                cache.user_prefs.insert(sender, room_id, copy);
                wish
            },
            (None, None) => None,
        }
    }

    /// Whether a wish lets messages cross the bridge at second `now`.
    pub fn check_pref_allows(preference: &Option<UserPreference>, now: i64) -> (res: bool)
        ensures
            res == allows(cache::preference_view(*preference), now as int),
    {
        match preference {
            None => true,
            Some(wish) => {
                if text::same(wish.status.as_str(), "never") {
                    return false;
                }
                if text::same(wish.status.as_str(), "until") {
                    match wish.until_ts {
                        Some(end) => {
                            return now >= end;
                        },
                        None => {},
                    }
                }
                true
            },
        }
    }
}

/// Who asked for a pause of some seconds is not bridged before it is over, and is bridged again from
/// its last second on, unless another wish forbids it.
pub proof fn law_a_pause_ends(room: Seq<char>, made: nat, seconds: nat, now: int)
    requires
        made + seconds <= i64::MAX,
    ensures
        allows(
            Some(
                UserPreferenceView {
                    room_id: room,
                    status: "until"@,
                    until_ts: Some(as_signed((made + seconds) as int) as i64),
                },
            ),
            now,
        ) <==> now >= made + seconds,
{
    reveal_strlit("until");
    reveal_strlit("never");
    assert("until"@[0] != "never"@[0]);
}

/// Who never wants to be bridged is not bridged at any time.
pub proof fn law_never_means_never(room: Seq<char>, until_ts: Option<i64>, now: int)
    ensures
        !allows(
            Some(UserPreferenceView { room_id: room, status: "never"@, until_ts }),
            now,
        ),
{
}

/// The wish of a user for a room among the wishes that are kept, by user and room.
pub open spec fn wish_of(
    wishes: Map<(Seq<char>, Seq<char>), UserPreferenceView>,
    sender: Seq<char>,
    room: Seq<char>,
) -> Option<UserPreferenceView> {
    if wishes.contains_key((sender, room)) {
        Some(wishes[(sender, room)])
    } else {
        None
    }
}

/// The wishes that are kept once a wish of a user is among them.
pub open spec fn with_wish(
    wishes: Map<(Seq<char>, Seq<char>), UserPreferenceView>,
    sender: Seq<char>,
    wish: UserPreferenceView,
) -> Map<(Seq<char>, Seq<char>), UserPreferenceView> {
    wishes.insert((sender, wish.room_id), wish)
}

/// Whether the messages of a user in a room cross the bridge at second `now`, given all the wishes
/// that are kept.
pub open spec fn bridged(
    wishes: Map<(Seq<char>, Seq<char>), UserPreferenceView>,
    sender: Seq<char>,
    room: Seq<char>,
    now: int,
) -> bool {
    crosses(wish_of(wishes, sender, room), wish_of(wishes, sender, "global"@), now)
}

/// Who asked with `!neverbridge` is not bridged at any time: in the room where it was asked, or in
/// every room. The wishes of other users, and of the same user for other rooms, stay as they are.
pub proof fn law_neverbridge_stops_bridging(
    wishes: Map<(Seq<char>, Seq<char>), UserPreferenceView>,
    sender: Seq<char>,
    scope: Scope,
    room: Seq<char>,
    now: int,
)
    ensures
        !bridged(with_wish(wishes, sender, never(scope, room)), sender, room, now),
        scope == Scope::Global ==> forall|other: Seq<char>|
            !#[trigger] bridged(
                with_wish(wishes, sender, never(scope, room)),
                sender,
                other,
                now,
            ),
        forall|user: Seq<char>, other: Seq<char>|
            (user, other) != (sender, target(scope, room)) ==> #[trigger] wish_of(
                with_wish(wishes, sender, never(scope, room)),
                user,
                other,
            ) == wish_of(wishes, user, other),
{
}

/// Who asked with `!nobridgefor` is not bridged before the time is over, in the room where it was
/// asked or in every room, and from then on as if it had not been asked. The wishes of other users,
/// and of the same user for other rooms, stay as they are.
pub proof fn law_nobridgefor_pauses_bridging(
    wishes: Map<(Seq<char>, Seq<char>), UserPreferenceView>,
    sender: Seq<char>,
    scope: Scope,
    room: Seq<char>,
    made: nat,
    seconds: nat,
    now: int,
)
    requires
        made + seconds <= i64::MAX,
    ensures
        ({
            let wish = pause(scope, room, as_signed((made + seconds) as int) as i64);
            let after = with_wish(wishes, sender, wish);
            let without = wishes.remove((sender, target(scope, room)));
            &&& now < made + seconds ==> !bridged(after, sender, room, now)
            &&& now < made + seconds && scope == Scope::Global ==> forall|other: Seq<char>|
                !#[trigger] bridged(after, sender, other, now)
            &&& now >= made + seconds ==> forall|other: Seq<char>| #[trigger]
                bridged(after, sender, other, now) == bridged(without, sender, other, now)
            &&& forall|user: Seq<char>, other: Seq<char>|
                (user, other) != (sender, target(scope, room)) ==> #[trigger] wish_of(
                    after,
                    user,
                    other,
                ) == wish_of(wishes, user, other)
        }),
{
    reveal_strlit("until");
    reveal_strlit("never");
    assert("until"@[0] != "never"@[0]);
}

/// `!allowbridge` undoes what was asked with `!neverbridge` or `!nobridgefor`: who had no wish before
/// has none again, and is bridged at every time.
pub proof fn law_allowbridge_undoes_a_wish(
    wishes: Map<(Seq<char>, Seq<char>), UserPreferenceView>,
    sender: Seq<char>,
    scope: Scope,
    room: Seq<char>,
    wish: UserPreferenceView,
    now: int,
)
    requires
        wish_of(wishes, sender, room) is None,
        wish_of(wishes, sender, "global"@) is None,
        wish == never(scope, room) || exists|end: i64| wish == #[trigger] pause(scope, room, end),
    ensures
        with_wish(wishes, sender, wish).remove((sender, target(scope, room))) == wishes,
        bridged(wishes, sender, room, now),
{
    assert(with_wish(wishes, sender, wish).remove((sender, target(scope, room))) =~= wishes);
}

/// A command takes effect at once: what is remembered after a wish was changed is never the old
/// wish, so that the one that is kept counts, whatever was remembered before.
pub proof fn law_commands_take_effect_at_once(
    before: Cache,
    after: Cache,
    sender: Seq<char>,
    room: Seq<char>,
    found: Option<Option<UserPreference>>,
    kept: Option<UserPreferenceView>,
)
    requires
        has_forgotten(after, before, sender, room, Ok(())),
        cache::may_recall(after.user_prefs@, sender, room, found),
    ensures
        counting_wish(recalled_view(found), Some(kept)) == kept,
{
}

/// A message that begins with `!nobridge` stays on Matrix, whatever follows, unless it asks for a
/// pause.
pub proof fn law_nobridge_keeps_a_message(rest: Seq<char>, words: Option<Seq<Seq<char>>>)
    requires
        !"!nobridgefor"@.is_prefix_of("!nobridge"@ + rest),
    ensures
        user_route("!nobridge"@ + rest, words) == UserRouteView::Keep,
{
    let body = "!nobridge"@ + rest;
    assert(body.subrange(0, "!nobridge"@.len() as int) =~= "!nobridge"@);
}

/// A length of time that is written as a number and a unit is that many times the seconds of its
/// unit, spaces or not; a number that is too large, and any other unit, is none.
pub proof fn law_written_durations(n: nat)
    ensures
        n <= u64::MAX ==> duration(number::decimal(n) + seq!['m']) == Some(n * 60),
        n <= u64::MAX ==> duration(number::decimal(n) + seq!['h']) == Some(n * 3_600),
        n <= u64::MAX ==> duration(number::decimal(n) + seq!['d']) == Some(n * 86_400),
        n <= u64::MAX ==> duration(number::decimal(n) + seq!['M']) == Some(n * 2_592_000),
        n <= u64::MAX ==> duration(number::decimal(n) + seq!['y']) == Some(n * 31_536_000),
        n > u64::MAX ==> forall|unit: Seq<char>|
            unit.len() > 0 && !('0' <= unit[0] <= '9') && !unit.contains(' ')
                ==> #[trigger] duration(number::decimal(n) + unit) is None,
        forall|unit: Seq<char>|
            (unit.len() != 1 || (unit[0] != 'm' && unit[0] != 'h' && unit[0] != 'd' && unit[0]
                != 'M' && unit[0] != 'y')) && !unit.contains(' ') && (unit.len() > 0 ==> !('0'
                <= unit[0] <= '9')) ==> #[trigger] duration(number::decimal(n) + unit) is None,
{
    reveal_strlit("m");
    reveal_strlit("h");
    reveal_strlit("d");
    reveal_strlit("M");
    reveal_strlit("y");
    assert("m"@ =~= seq!['m'] && "h"@ =~= seq!['h'] && "d"@ =~= seq!['d'] && "M"@ =~= seq!['M']
        && "y"@ =~= seq!['y']);
    assert(seq!['m'][0] == 'm' && seq!['h'][0] == 'h' && seq!['d'][0] == 'd' && seq!['M'][0] == 'M'
        && seq!['y'][0] == 'y');
    lemma_written_duration(n, seq!['m']);
    lemma_written_duration(n, seq!['h']);
    lemma_written_duration(n, seq!['d']);
    lemma_written_duration(n, seq!['M']);
    lemma_written_duration(n, seq!['y']);
    assert forall|unit: Seq<char>|
        !unit.contains(' ') && (unit.len() > 0 ==> !('0' <= unit[0] <= '9')) implies (
    #[trigger] duration(number::decimal(n) + unit)) == (match unit_seconds(unit) {
        Some(seconds) => if n <= u64::MAX {
            Some(n * seconds)
        } else {
            None
        },
        None => None,
    }) by {
        lemma_written_duration(n, unit);
    }
}

/// How many digits a text begins with that has digits first and then something else.
proof fn lemma_leading_digits(digits: Seq<char>, rest: Seq<char>)
    requires
        text::all_digits(digits),
        rest.len() > 0 ==> !('0' <= rest[0] <= '9'),
    ensures
        leading_digits(digits + rest) == digits.len(),
    decreases digits.len(),
{
    let all = digits + rest;
    if digits.len() == 0 {
        assert(all =~= rest);
    } else {
        assert(all[0] == digits[0]);
        assert(all.drop_first() =~= digits.drop_first() + rest);
        assert forall|i: int| 0 <= i < digits.drop_first().len() implies '0'
            <= #[trigger] digits.drop_first()[i] <= '9' by {
            assert(digits.drop_first()[i] == digits[i + 1]);
        }
        lemma_leading_digits(digits.drop_first(), rest);
    }
}

proof fn lemma_written_duration(n: nat, unit: Seq<char>)
    requires
        !unit.contains(' '),
        unit.len() > 0 ==> !('0' <= unit[0] <= '9'),
    ensures
        duration(number::decimal(n) + unit) == (match unit_seconds(unit) {
            Some(seconds) => if n <= u64::MAX {
                Some(n * seconds)
            } else {
                None
            },
            None => None,
        }),
{
    number::lemma_decimal_value(n);
    number::law_decimal_reads_back(n);
    lemma_digits_and_unit(number::decimal(n), unit);
}

/// Spaces in a length of time do not count, wherever they stand.
pub proof fn law_spaces_in_durations_do_not_count(before: Seq<char>, behind: Seq<char>)
    ensures
        duration(before + seq![' '] + behind) == duration(before + behind),
{
    reveal_strlit(" ");
    assert(" "@ =~= seq![' ']);
    lemma_spaces_go(before, behind);
}

proof fn lemma_spaces_go(before: Seq<char>, behind: Seq<char>)
    ensures
        text::replaced(before + seq![' '] + behind, seq![' '], Seq::empty()) == text::replaced(
            before + behind,
            seq![' '],
            Seq::empty(),
        ),
    decreases before.len(),
{
    let space = seq![' '];
    let none = Seq::<char>::empty();
    text::lemma_find_char(before, ' ');
    if before.contains(' ') {
        let i = text::find(before, space)->0;
        let clean = before.take(i);
        let rest = before.skip(i + 1);
        assert(!clean.contains(' ')) by {
            if clean.contains(' ') {
                assert(before[clean.index_of(' ')] == ' ');
            }
        }
        assert(before =~= clean + (space + rest));
        assert(before + space + behind =~= clean + (space + (rest + space + behind)));
        assert(before + behind =~= clean + (space + (rest + behind)));
        text::lemma_replacing_behind(clean, space + (rest + space + behind), space, none);
        text::lemma_replacing_behind(clean, space + (rest + behind), space, none);
        text::lemma_replacing_at_the_start(rest + space + behind, space, none);
        text::lemma_replacing_at_the_start(rest + behind, space, none);
        lemma_spaces_go(rest, behind);
    } else {
        assert(before + space + behind =~= before + (space + behind));
        text::lemma_replacing_behind(before, space + behind, space, none);
        text::lemma_replacing_behind(before, behind, space, none);
        text::lemma_replacing_at_the_start(behind, space, none);
        assert(none + text::replaced(behind, space, none) =~= text::replaced(behind, space, none));
    }
}

/// A message that begins with a command's word is that command, whatever follows; every other is
/// ordinary.
pub proof fn law_commands_are_told_by_their_word(
    rest: Seq<char>,
    body: Seq<char>,
    words: Seq<Seq<char>>,
)
    ensures
        user_route("!bridge"@ + rest, Some(words)) == UserRouteView::Command(
            UserCommand::Bridge,
            words,
        ),
        user_route("!neverbridge"@ + rest, Some(words)) == UserRouteView::Command(
            UserCommand::NeverBridge,
            words,
        ),
        user_route("!allowbridge"@ + rest, Some(words)) == UserRouteView::Command(
            UserCommand::AllowBridge,
            words,
        ),
        user_route("!nobridgefor"@ + rest, Some(words)) == UserRouteView::Command(
            UserCommand::NoBridgeFor,
            words,
        ),
        body.len() == 0 || body[0] != '!' ==> user_route(body, Some(words))
            == UserRouteView::Ordinary,
{
    reveal_strlit("!bridge");
    reveal_strlit("!neverbridge");
    reveal_strlit("!allowbridge");
    reveal_strlit("!nobridgefor");
    reveal_strlit("!nobridge");
    lemma_word_begins("!bridge"@, rest);
    lemma_word_begins("!neverbridge"@, rest);
    lemma_word_begins("!allowbridge"@, rest);
    lemma_word_begins("!nobridgefor"@, rest);
    lemma_word_differs("!nobridge"@, "!bridge"@ + rest, 1);
    lemma_word_differs("!nobridge"@, "!neverbridge"@ + rest, 2);
    lemma_word_differs("!nobridge"@, "!allowbridge"@ + rest, 1);
    lemma_word_differs("!bridge"@, "!neverbridge"@ + rest, 1);
    lemma_word_differs("!bridge"@, "!allowbridge"@ + rest, 1);
    lemma_word_differs("!bridge"@, "!nobridgefor"@ + rest, 1);
    lemma_word_differs("!neverbridge"@, "!allowbridge"@ + rest, 1);
    lemma_word_differs("!neverbridge"@, "!nobridgefor"@ + rest, 2);
    lemma_word_differs("!allowbridge"@, "!nobridgefor"@ + rest, 1);
    if body.len() == 0 || body[0] != '!' {
        lemma_word_differs("!nobridge"@, body, 0);
        lemma_word_differs("!bridge"@, body, 0);
        lemma_word_differs("!neverbridge"@, body, 0);
        lemma_word_differs("!allowbridge"@, body, 0);
        lemma_word_differs("!nobridgefor"@, body, 0);
    }
}

proof fn lemma_word_begins(word: Seq<char>, rest: Seq<char>)
    ensures
        word.is_prefix_of(word + rest),
{
    assert((word + rest).subrange(0, word.len() as int) =~= word);
}

proof fn lemma_word_differs(word: Seq<char>, body: Seq<char>, i: int)
    requires
        0 <= i < word.len(),
        i < body.len() ==> word[i] != body[i],
    ensures
        !word.is_prefix_of(body),
{
    if word.is_prefix_of(body) {
        assert(body.subrange(0, word.len() as int)[i] == body[i]);
    }
}

/// A message crosses only where neither wish forbids it; a wish for one room says nothing of others;
/// and no wish allows everything.
pub proof fn law_both_wishes_count(
    room: Option<UserPreferenceView>,
    global: Option<UserPreferenceView>,
    now: int,
)
    ensures
        crosses(room, global, now) <==> crosses(room, None, now) && crosses(None, global, now),
        crosses(None, None, now),
        crosses(room, global, now) == crosses(global, room, now),
{
}

/// Every wish has its row, in the order of the wishes, with its room and when it ends.
pub proof fn law_every_wish_is_shown(wishes: Seq<UserPreference>, i: int)
    requires
        0 <= i < wishes.len(),
    ensures
        status_response(Ok(wishes)) matches ResponseView::Table { headers, rows, footer }
            && rows.len() == wishes.len() && rows[i].len() == 2 && headers.len() == 2 && rows[i][0]
            == if wishes[i]@.room_id == "global"@ {
            "Global"@
        } else {
            wishes[i]@.room_id
        },
        wishes[i]@.status == "until"@ && wishes[i]@.until_ts is Some ==> (status_response(
            Ok(wishes),
        ) matches ResponseView::Table { headers, rows, footer } && rows[i][1]
            == "No bridge until timestamp: "@ + number::signed_decimal(
            wishes[i]@.until_ts->0 as int,
        )),
        wishes[i]@.status == "never"@ ==> (status_response(Ok(wishes)) matches ResponseView::Table {
            headers,
            rows,
            footer,
        } && rows[i][1] == "Never bridge"@),
{
    reveal_strlit("until");
    reveal_strlit("never");
    assert("until"@[0] == 'u' && "never"@[0] == 'n');
}

/// Any digits and a unit make a length of time, zeros before the number among them, and no digits make
/// none.
pub proof fn law_any_digits_make_a_duration(digits: Seq<char>)
    requires
        text::all_digits(digits),
        digits.len() > 0,
        number::digits_value(digits) <= u64::MAX,
    ensures
        duration(digits + seq!['m']) == Some(number::digits_value(digits) * 60),
        duration(digits + seq!['h']) == Some(number::digits_value(digits) * 3_600),
        duration(digits + seq!['d']) == Some(number::digits_value(digits) * 86_400),
        duration(digits + seq!['M']) == Some(number::digits_value(digits) * 2_592_000),
        duration(digits + seq!['y']) == Some(number::digits_value(digits) * 31_536_000),
        forall|unit: Seq<char>|
            !unit.contains(' ') && (unit.len() > 0 ==> !('0' <= unit[0] <= '9'))
                ==> #[trigger] duration(unit) is None,
{
    reveal_strlit("m");
    reveal_strlit("h");
    reveal_strlit("d");
    reveal_strlit("M");
    reveal_strlit("y");
    assert("m"@ =~= seq!['m'] && "h"@ =~= seq!['h'] && "d"@ =~= seq!['d'] && "M"@ =~= seq!['M']
        && "y"@ =~= seq!['y']);
    assert(seq!['m'][0] == 'm' && seq!['h'][0] == 'h' && seq!['d'][0] == 'd' && seq!['M'][0] == 'M'
        && seq!['y'][0] == 'y');
    lemma_digits_and_unit(digits, seq!['m']);
    lemma_digits_and_unit(digits, seq!['h']);
    lemma_digits_and_unit(digits, seq!['d']);
    lemma_digits_and_unit(digits, seq!['M']);
    lemma_digits_and_unit(digits, seq!['y']);
    number::law_numbers_are_read_digit_by_digit(digits, '0', 0);
    assert('0' <= digits[0] <= '9');
    assert(number::unsigned_value(digits) == Some(number::digits_value(digits)));
    assert forall|unit: Seq<char>|
        !unit.contains(' ') && (unit.len() > 0 ==> !('0' <= unit[0]
            <= '9')) implies #[trigger] duration(unit) is None by {
        let none = Seq::<char>::empty();
        lemma_digits_and_unit(none, unit);
        assert(none + unit =~= unit);
    }
}

proof fn lemma_digits_and_unit(digits: Seq<char>, unit: Seq<char>)
    requires
        text::all_digits(digits),
        !unit.contains(' '),
        unit.len() > 0 ==> !('0' <= unit[0] <= '9'),
    ensures
        duration(digits + unit) == (match (number::unsigned_value(digits), unit_seconds(unit)) {
            (Some(count), Some(seconds)) => if count <= u64::MAX {
                Some(count * seconds)
            } else {
                None
            },
            _ => None,
        }),
{
    reveal_strlit(" ");
    let all = digits + unit;
    assert(" "@ =~= seq![' ']);
    assert(!all.contains(' ')) by {
        if all.contains(' ') {
            let k = all.index_of(' ');
            if k < digits.len() {
                assert('0' <= digits[k] <= '9');
            } else {
                assert(unit[k - digits.len()] == ' ');
            }
        }
    }
    text::lemma_find_char(all, ' ');
    assert(text::replaced(all, " "@, Seq::empty()) == all);
    lemma_leading_digits(digits, unit);
    assert(all.take(digits.len() as int) =~= digits);
    assert(all.skip(digits.len() as int) =~= unit);
}

/// What is remembered of a wish counts before what is stored, also that there is none; what is stored
/// counts where nothing is remembered.
pub proof fn law_what_is_remembered_counts_first(
    wish: Option<UserPreferenceView>,
    stored: Option<Option<UserPreferenceView>>,
)
    ensures
        counting_wish(Some(wish), stored) == wish,
        counting_wish(None, Some(wish)) == wish,
        counting_wish(None, None) is None,
{
}

/// A wish for a room is kept for that room and one for everywhere for all rooms, and each says so.
pub proof fn law_scopes_are_kept_apart(room: Seq<char>, end: i64)
    ensures
        never(Scope::Here, room).room_id == room,
        pause(Scope::Here, room, end).room_id == room,
        never(Scope::Global, room).room_id == "global"@,
        pause(Scope::Global, room, end).room_id == "global"@,
        pause(Scope::Here, room, end).until_ts == Some(end),
        never(Scope::Here, room).until_ts is None,
        scope_words(Scope::Here) != scope_words(Scope::Global),
{
    reveal_strlit("globally");
    reveal_strlit("in this room");
    assert("globally"@.len() == 8 && "in this room"@.len() == 12);
}

/// A time that fits is kept as it is, and one that does not counts on from the least.
pub proof fn law_times_wrap_around(n: int)
    requires
        0 <= n <= u64::MAX,
    ensures
        n <= i64::MAX ==> as_signed(n) == n,
        n > i64::MAX ==> as_signed(n) == n - u64::MAX - 1 && as_signed(n) < 0,
        i64::MIN <= as_signed(n) <= i64::MAX,
{
}

} // verus!

//! What comes from Discord.

use vstd::prelude::*;
use vstd::string::*;

use crate::cache;
use crate::cache::{Cache, TextsCache};
use crate::crypto;
use crate::db::{BridgedRoom, BridgedUser};
use crate::matrix_client;
use crate::matrix_client::{MatrixClient, MatrixRequest};
use crate::message;
use crate::message::{MessageContent, ReplyTarget};
use crate::number;
use crate::pattern;
use crate::pattern::{Match, MatchView, Pattern};
use crate::table::TextMap;
use crate::text;
use crate::utils;
use crate::web;

verus! {

/// A file that was sent with a Discord message.
#[derive(Debug)]
pub struct AttachmentInfo {
    pub url: String,
    pub filename: String,
    pub content_type: Option<String>,
    pub size: u32,
    pub width: Option<u32>,
    pub height: Option<u32>,
}

/// What is known of a file.
pub struct AttachmentView {
    pub url: Seq<char>,
    pub filename: Seq<char>,
    pub content_type: Option<Seq<char>>,
    pub size: u32,
    pub width: Option<u32>,
    pub height: Option<u32>,
}

impl View for AttachmentInfo {
    type V = AttachmentView;

    open spec fn view(&self) -> AttachmentView {
        AttachmentView {
            url: self.url@,
            filename: self.filename@,
            content_type: web::opt_text(self.content_type),
            size: self.size,
            width: self.width,
            height: self.height,
        }
    }
}

/// A Discord user.
#[derive(Debug)]
pub struct DiscordUser {
    pub id: u64,
    pub name: String,
    pub bot: bool,
    pub discriminator: Option<u16>,
    /// Where the user's avatar is.
    pub face: String,
}

/// A sticker of a Discord message.
#[derive(Debug)]
pub struct StickerItem {
    pub id: u64,
    /// Whether the sticker is a vector animation, which Matrix cannot show.
    pub is_lottie: bool,
}

/// A field of an embed.
#[derive(Debug)]
pub struct EmbedField {
    pub name: String,
    pub value: String,
}

/// An embed of a Discord message.
#[derive(Debug)]
pub struct Embed {
    pub author: Option<String>,
    pub title: Option<String>,
    pub url: Option<String>,
    pub description: Option<String>,
    pub fields: Vec<EmbedField>,
    pub footer: Option<String>,
    pub image: Option<String>,
    pub thumbnail: Option<String>,
}

/// A Discord message.
#[derive(Debug)]
pub struct DiscordMessage {
    pub id: u64,
    pub channel_id: u64,
    pub guild_id: Option<u64>,
    pub webhook_id: Option<u64>,
    pub author: DiscordUser,
    pub content: String,
    pub mentions: Vec<DiscordUser>,
    pub attachments: Vec<AttachmentInfo>,
    pub stickers: Vec<StickerItem>,
    pub embeds: Vec<Embed>,
    /// The message that this one answers.
    pub referenced_id: Option<u64>,
}

/// A number of Discord in decimal.
pub open spec fn id_text(id: u64) -> Seq<char> {
    number::decimal(id as nat)
}

/// The text with `@name` in place of each mention of a user.
pub open spec fn with_user_names(content: Seq<char>, users: Seq<DiscordUser>) -> Seq<char>
    decreases users.len(),
{
    if users.len() == 0 {
        content
    } else {
        let before = with_user_names(content, users.drop_last());
        let user = users.last();
        let shown = "@"@ + user.name@;
        text::replaced(
            text::replaced(before, "<@"@ + id_text(user.id) + ">"@, shown),
            "<@!"@ + id_text(user.id) + ">"@,
            shown,
        )
    }
}

/// Puts `@name` in place of each mention of a user.
fn name_users(content: &str, users: &Vec<DiscordUser>) -> (res: String)
    ensures
        res@ == with_user_names(content@, users@),
{
    let mut res = content.to_owned();
    let count: usize = users.len();
    let mut i: usize = 0;
    assert(users@.take(0) =~= Seq::<DiscordUser>::empty());
    while i < count
        invariant
            count == users@.len(),
            i <= count,
            res@ == with_user_names(content@, users@.take(i as int)),
        decreases count - i,
    {
        proof {
            assert(users@.take(i + 1).drop_last() =~= users@.take(i as int));
            assert(users@.take(i + 1).last() == users@[i as int]);
            reveal_strlit("<@");
            reveal_strlit("<@!");
        }
        let id = number::to_decimal(users[i].id);
        let mention = "<@".to_owned().concat(id.as_str()).concat(">");
        let nick_mention = "<@!".to_owned().concat(id.as_str()).concat(">");
        let shown = "@".to_owned().concat(users[i].name.as_str());
        let once = text::replace(res.as_str(), mention.as_str(), shown.as_str());
        res = text::replace(once.as_str(), nick_mention.as_str(), shown.as_str());
        i += 1;
    }
    assert(users@.take(count as int) =~= users@);
    res
}

/// How mentions of roles or of channels are shown.
#[derive(Clone, Copy, PartialEq, Eq, Structural, Debug)]
pub enum MentionKind {
    Role,
    Channel,
}

impl MentionKind {
    /// The pattern of such a mention.
    pub open spec fn pattern(self) -> Pattern {
        match self {
            MentionKind::Role => Pattern::RoleMention,
            MentionKind::Channel => Pattern::ChannelMention,
        }
    }

    /// How a mention is shown. Without a guild there are no names; within one, what has no name is
    /// shown by its number.
    pub open spec fn shown(self, names: Option<Map<Seq<char>, Seq<char>>>, id: Seq<char>) -> Seq<
        char,
    > {
        match names {
            None => match self {
                MentionKind::Role => "@deleted-role"@,
                MentionKind::Channel => "#deleted-channel"@,
            },
            Some(known) => if known.contains_key(id) {
                match self {
                    MentionKind::Role => "@"@ + known[id],
                    MentionKind::Channel => "#"@ + known[id],
                }
            } else {
                match self {
                    MentionKind::Role => "@role-"@ + id,
                    MentionKind::Channel => "#channel-"@ + id,
                }
            },
        }
    }

    fn find(self, s: &str) -> (found: Vec<Match>)
        ensures
            pattern::match_views(found@) == pattern::matches_of(self.pattern(), s@),
            pattern::well_placed(pattern::match_views(found@), s@, 1),
    {
        match self {
            MentionKind::Role => pattern::find_all(Pattern::RoleMention, s),
            MentionKind::Channel => pattern::find_all(Pattern::ChannelMention, s),
        }
    }

    fn show(self, names: &Option<TextMap<String>>, id: &str) -> (s: String)
        ensures
            s@ == self.shown(opt_map(*names), id@),
    {
        match names {
            None => match self {
                MentionKind::Role => "@deleted-role".to_owned(),
                MentionKind::Channel => "#deleted-channel".to_owned(),
            },
            Some(known) => match known.get(id) {
                Some(name) => match self {
                    MentionKind::Role => "@".to_owned().concat(name.as_str()),
                    MentionKind::Channel => "#".to_owned().concat(name.as_str()),
                },
                None => match self {
                    MentionKind::Role => "@role-".to_owned().concat(id),
                    MentionKind::Channel => "#channel-".to_owned().concat(id),
                },
            },
        }
    }
}

/// The map that an optional map holds.
pub open spec fn opt_map(map: Option<TextMap<String>>) -> Option<Map<Seq<char>, Seq<char>>> {
    match map {
        Some(m) => Some(m@),
        None => None,
    }
}

/// The text with names in place of the mentions that were found.
pub open spec fn with_names(
    content: Seq<char>,
    kind: MentionKind,
    found: Seq<MatchView>,
    names: Option<Map<Seq<char>, Seq<char>>>,
) -> Seq<char>
    decreases found.len(),
{
    if found.len() == 0 {
        content
    } else {
        text::replaced(
            with_names(content, kind, found.drop_last(), names),
            found.last().groups[0],
            kind.shown(names, found.last().groups[1]),
        )
    }
}

/// Puts names in place of the mentions that were found.
pub fn name_mentions(
    content: &str,
    kind: MentionKind,
    found: &Vec<Match>,
    names: &Option<TextMap<String>>,
) -> (res: String)
    requires
        forall|i: int|
            0 <= i < found@.len() ==> (#[trigger] pattern::match_views(found@)[i]).groups.len() >= 2
                && pattern::match_views(found@)[i].groups[0].len() > 0,
    ensures
        res@ == with_names(content@, kind, pattern::match_views(found@), opt_map(*names)),
{
    let mut res = content.to_owned();
    let count: usize = found.len();
    let ghost views = pattern::match_views(found@);
    let mut i: usize = 0;
    assert(views.take(0) =~= Seq::<MatchView>::empty());
    while i < count
        invariant
            count == found@.len(),
            views == pattern::match_views(found@),
            forall|j: int|
                0 <= j < count ==> (#[trigger] views[j]).groups.len() >= 2
                    && views[j].groups[0].len() > 0,
            i <= count,
            res@ == with_names(content@, kind, views.take(i as int), opt_map(*names)),
        decreases count - i,
    {
        proof {
            assert(views[i as int] == found@[i as int]@);
            assert(views[i as int].groups.len() >= 2);
            assert(views.take(i + 1).drop_last() =~= views.take(i as int));
            assert(views.take(i + 1).last() == views[i as int]);
            assert(found@[i as int].groups@[0]@ == views[i as int].groups[0]);
            assert(found@[i as int].groups@[1]@ == views[i as int].groups[1]);
        }
        let shown = kind.show(names, found[i].groups[1].as_str());
        res = text::replace(res.as_str(), found[i].groups[0].as_str(), shown.as_str());
        i += 1;
    }
    assert(views.take(count as int) =~= views);
    res
}

/// A matched text is not empty.
proof fn lemma_groups(found: Seq<MatchView>, s: Seq<char>, groups: nat)
    requires
        pattern::well_placed(found, s, groups),
    ensures
        forall|i: int|
            0 <= i < found.len() ==> (#[trigger] found[i]).groups.len() == groups + 1
                && found[i].groups[0].len() > 0,
{
    assert forall|i: int| 0 <= i < found.len() implies (#[trigger] found[i]).groups.len() == groups
        + 1 && found[i].groups[0].len() > 0 by {
        assert(found[i].groups[0] == s.subrange(found[i].start, found[i].end));
    }
}

/// Shortcodes in place of Discord emotes.
pub open spec fn shortcodes(found: Seq<MatchView>) -> Seq<Seq<char>> {
    Seq::new(found.len(), |i: int| ":"@ + found[i].groups[1] + ":"@)
}

/// Puts shortcodes in place of Discord emotes.
pub fn shorten_emotes(content: &str, found: &Vec<Match>) -> (res: String)
    requires
        pattern::well_placed(pattern::match_views(found@), content@, 2),
    ensures
        res@ == pattern::spliced(
            content@,
            pattern::match_views(found@),
            shortcodes(pattern::match_views(found@)),
            0,
        ),
{
    let count: usize = found.len();
    let ghost views = pattern::match_views(found@);
    let mut codes: Vec<String> = Vec::new();
    let mut i: usize = 0;
    while i < count
        invariant
            count == found@.len(),
            views == pattern::match_views(found@),
            pattern::well_placed(views, content@, 2),
            i <= count,
            codes@.len() == i,
            forall|j: int| 0 <= j < i ==> (#[trigger] codes@[j])@ == ":"@ + views[j].groups[1] + ":"@,
        decreases count - i,
    {
        proof {
            assert(views[i as int] == found@[i as int]@);
            assert(views[i as int].groups.len() == 3);
            assert(found@[i as int].groups@[1]@ == views[i as int].groups[1]);
        }
        codes.push(":".to_owned().concat(found[i].groups[1].as_str()).concat(":"));
        i += 1;
    }
    assert(text::texts(codes@) =~= shortcodes(views));
    pattern::splice(content, found, &codes)
}

/// The emotes of a message, by name, with their numbers.
pub fn collect_emotes(found: &Vec<Match>) -> (emotes: TextMap<String>)
    requires
        forall|i: int|
            0 <= i < found@.len() ==> (#[trigger] pattern::match_views(found@)[i]).groups.len()
                >= 3,
    ensures
        emotes@ == message::keyed(pattern::match_views(found@), 1, 2),
{
    let mut emotes: TextMap<String> = TextMap::new();
    let count: usize = found.len();
    let ghost views = pattern::match_views(found@);
    let mut i: usize = 0;
    assert(emotes@ =~= message::keyed(views.take(0), 1, 2));
    while i < count
        invariant
            count == found@.len(),
            views == pattern::match_views(found@),
            forall|j: int| 0 <= j < count ==> (#[trigger] views[j]).groups.len() >= 3,
            i <= count,
            emotes@ == message::keyed(views.take(i as int), 1, 2),
        decreases count - i,
    {
        proof {
            assert(views[i as int] == found@[i as int]@);
            assert(views[i as int].groups.len() >= 3);
            assert(views.take(i + 1).drop_last() =~= views.take(i as int));
            assert(views.take(i + 1).last() == views[i as int]);
        }
        emotes.insert(found[i].groups[1].clone(), found[i].groups[2].clone());
        i += 1;
    }
    assert(views.take(count as int) =~= views);
    emotes
}

/// The text of a message with names in place of mentions of users, roles and channels.
pub open spec fn with_all_names(
    message: DiscordMessage,
    roles: Option<Map<Seq<char>, Seq<char>>>,
    channels: Option<Map<Seq<char>, Seq<char>>>,
) -> Seq<char> {
    let content = message.content@;
    let users = with_user_names(content, message.mentions@);
    let named = with_names(
        users,
        MentionKind::Role,
        pattern::matches_of(Pattern::RoleMention, content),
        roles,
    );
    with_names(
        named,
        MentionKind::Channel,
        pattern::matches_of(Pattern::ChannelMention, content),
        channels,
    )
}

/// The text of a message as Matrix shows it, and its emotes: mentions of users, roles and channels
/// become names, and Discord emotes become shortcodes.
pub open spec fn processed(
    message: DiscordMessage,
    roles: Option<Map<Seq<char>, Seq<char>>>,
    channels: Option<Map<Seq<char>, Seq<char>>>,
) -> (Seq<char>, Map<Seq<char>, Seq<char>>) {
    let named = with_all_names(message, roles, channels);
    let found = pattern::matches_of(Pattern::DiscordEmote, named);
    (
        pattern::spliced(named, found, shortcodes(found), 0),
        message::keyed(pattern::matches_of(Pattern::DiscordEmote, message.content@), 1, 2),
    )
}

/// Processes a message, given the names of its guild's roles and channels, or none where it comes
/// from no guild.
pub fn process_message(
    message: &DiscordMessage,
    roles: &Option<TextMap<String>>,
    channels: &Option<TextMap<String>>,
) -> (res: (String, TextMap<String>))
    ensures
        (res.0@, res.1@) == processed(*message, opt_map(*roles), opt_map(*channels)),
{
    let users = name_users(message.content.as_str(), &message.mentions);
    let role_mentions = MentionKind::Role.find(message.content.as_str());
    proof {
        lemma_groups(pattern::match_views(role_mentions@), message.content@, 1);
    }
    let with_roles = name_mentions(users.as_str(), MentionKind::Role, &role_mentions, roles);
    let channel_mentions = MentionKind::Channel.find(message.content.as_str());
    proof {
        lemma_groups(pattern::match_views(channel_mentions@), message.content@, 1);
    }
    let named = name_mentions(
        with_roles.as_str(),
        MentionKind::Channel,
        &channel_mentions,
        channels,
    );
    let emote_mentions = pattern::find_all(Pattern::DiscordEmote, message.content.as_str());
    proof {
        lemma_groups(pattern::match_views(emote_mentions@), message.content@, 2);
    }
    let emotes = collect_emotes(&emote_mentions);
    let found = pattern::find_all(Pattern::DiscordEmote, named.as_str());
    let content = shorten_emotes(named.as_str(), &found);
    (content, emotes)
}

/// Whether `names` may be what is remembered of a guild: nothing where there is no guild; for one
/// that is forgotten, no names.
pub open spec fn remembered_names(
    contents: Map<Seq<char>, Map<Seq<char>, Seq<char>>>,
    guild: Option<u64>,
    names: Option<Map<Seq<char>, Seq<char>>>,
) -> bool {
    match guild {
        None => names is None,
        Some(id) => names matches Some(map) && (map == Map::<Seq<char>, Seq<char>>::empty() || (
        contents.contains_key(id_text(id)) && map == contents[id_text(id)])),
    }
}

/// Whether `names` are those of a guild as the look-up in a cache gives them: no names at all only
/// where the cache gives nothing, or gives none.
pub open spec fn guild_names(
    cache: TextsCache,
    guild: Option<u64>,
    names: Option<Map<Seq<char>, Seq<char>>>,
) -> bool {
    match guild {
        None => names is None,
        Some(id) => names is Some && exists|found: Option<Map<Seq<char>, Seq<char>>>| #[trigger]
            cache.answers(id_text(id), found) && names == Some(
                match found {
                    Some(map) => map,
                    None => Map::<Seq<char>, Seq<char>>::empty(),
                },
            ),
    }
}

/// The addresses of the stickers that Matrix can show.
pub open spec fn sticker_urls(stickers: Seq<StickerItem>) -> Seq<Seq<char>>
    decreases stickers.len(),
{
    if stickers.len() == 0 {
        Seq::empty()
    } else {
        let before = sticker_urls(stickers.drop_last());
        if stickers.last().is_lottie {
            before
        } else {
            before.push(
                "https://cdn.discordapp.com/stickers/"@ + id_text(stickers.last().id) + ".png"@,
            )
        }
    }
}

/// An optional text between two others, on nothing where there is none.
pub open spec fn wrapped(before: Seq<char>, s: Option<String>, after: Seq<char>) -> Seq<char> {
    match s {
        Some(value) => before + value@ + after,
        None => Seq::empty(),
    }
}

/// The title of an embed, as a link where it has an address.
pub open spec fn embed_title(embed: Embed) -> Seq<char> {
    match embed.title {
        Some(title) => match embed.url {
            Some(url) => "**["@ + title@ + "]("@ + url@ + ")**\n"@,
            None => "**"@ + title@ + "**\n"@,
        },
        None => Seq::empty(),
    }
}

/// The fields of an embed.
pub open spec fn embed_fields(fields: Seq<EmbedField>) -> Seq<char>
    decreases fields.len(),
{
    if fields.len() == 0 {
        Seq::empty()
    } else {
        embed_fields(fields.drop_last()) + ("\n**"@ + fields.last().name@ + "**\n"@
            + fields.last().value@ + "\n"@)
    }
}

/// An embed as Markdown.
pub open spec fn embed_text(embed: Embed) -> Seq<char> {
    "\n\n---\n"@ + wrapped("**"@, embed.author, "**\n"@) + embed_title(embed) + wrapped(
        Seq::empty(),
        embed.description,
        "\n"@,
    ) + embed_fields(embed.fields@) + wrapped("\n\n*"@, embed.footer, "*"@) + wrapped(
        "\n"@,
        embed.image,
        Seq::empty(),
    ) + wrapped("\n"@, embed.thumbnail, Seq::empty())
}

/// Embeds as Markdown.
pub open spec fn embeds_text(embeds: Seq<Embed>) -> Seq<char>
    decreases embeds.len(),
{
    if embeds.len() == 0 {
        Seq::empty()
    } else {
        embeds_text(embeds.drop_last()) + embed_text(embeds.last())
    }
}

/// Writes an optional text between two others.
fn wrap(before: &str, s: &Option<String>, after: &str) -> (res: String)
    ensures
        res@ == wrapped(before@, *s, after@),
{
    match s {
        Some(value) => before.to_owned().concat(value.as_str()).concat(after),
        None => String::new(),
    }
}

/// Writes an embed as Markdown.
fn write_embed(embed: &Embed) -> (s: String)
    ensures
        s@ == embed_text(*embed),
{
    let title = match &embed.title {
        Some(title) => match &embed.url {
            Some(url) => "**[".to_owned().concat(title.as_str()).concat("](").concat(
                url.as_str(),
            ).concat(")**\n"),
            None => "**".to_owned().concat(title.as_str()).concat("**\n"),
        },
        None => String::new(),
    };
    let count: usize = embed.fields.len();
    let mut fields = String::new();
    let mut i: usize = 0;
    assert(embed.fields@.take(0) =~= Seq::<EmbedField>::empty());
    while i < count
        invariant
            count == embed.fields@.len(),
            i <= count,
            fields@ == embed_fields(embed.fields@.take(i as int)),
        decreases count - i,
    {
        proof {
            assert(embed.fields@.take(i + 1).drop_last() =~= embed.fields@.take(i as int));
            assert(embed.fields@.take(i + 1).last() == embed.fields@[i as int]);
        }
        let field = "\n**".to_owned().concat(embed.fields[i].name.as_str()).concat("**\n").concat(
            embed.fields[i].value.as_str(),
        ).concat("\n");
        fields.append(field.as_str());
        i += 1;
    }
    proof {
        assert(embed.fields@.take(count as int) =~= embed.fields@);
        reveal_strlit("");
        assert(""@ =~= Seq::<char>::empty());
    }
    "\n\n---\n".to_owned().concat(wrap("**", &embed.author, "**\n").as_str()).concat(
        title.as_str(),
    ).concat(wrap("", &embed.description, "\n").as_str()).concat(fields.as_str()).concat(
        wrap("\n\n*", &embed.footer, "*").as_str(),
    ).concat(wrap("\n", &embed.image, "").as_str()).concat(
        wrap("\n", &embed.thumbnail, "").as_str(),
    )
}

/// The name of a Discord user as Matrix shows it. Users of the old kind have four digits behind
/// their names.
pub open spec fn shown_name(name: Seq<char>, discriminator: u16) -> Seq<char> {
    if discriminator == 0 {
        name
    } else {
        name + "#"@ + number::four_digits(discriminator as nat)
    }
}

/// The name of a Discord user as Matrix shows it.
pub fn show_name(name: &str, discriminator: u16) -> (s: String)
    ensures
        s@ == shown_name(name@, discriminator),
{
    if discriminator == 0 {
        name.to_owned()
    } else {
        name.to_owned().concat("#").concat(number::to_four_digits(discriminator).as_str())
    }
}

impl DiscordUser {
    /// The digits behind the user's name, zero where there are none.
    pub open spec fn digits(self) -> u16 {
        match self.discriminator {
            Some(d) => d,
            None => 0,
        }
    }

    /// The digits behind the user's name, zero where there are none.
    pub fn get_discriminator(&self) -> (d: u16)
        ensures
            d == self.digits(),
    {
        match self.discriminator {
            Some(d) => d,
            None => 0,
        }
    }
}

/// What has to be told to the homeserver of a user that changed.
pub struct ProfileChanges {
    pub display_name: Option<String>,
    pub avatar_url: Option<String>,
}

/// What has to be told of a user that is shown as `name` with the avatar at `avatar`: nothing of a
/// user that is not known yet, and of one that is known what differs.
pub open spec fn profile_changes(
    profile: Option<BridgedUser>,
    name: Seq<char>,
    avatar: Seq<char>,
) -> (Option<Seq<char>>, Option<Seq<char>>) {
    match profile {
        None => (None, None),
        Some(known) => (
            if web::opt_text(known.username) == Some(name) {
                None
            } else {
                Some(name)
            },
            if web::opt_text(known.avatar_url) == Some(avatar) {
                None
            } else {
                Some(avatar)
            },
        ),
    }
}

/// Whether an optional string holds a text.
fn holds(s: &Option<String>, expected: &str) -> (res: bool)
    ensures
        res == (web::opt_text(*s) == Some(expected@)),
{
    match s {
        Some(value) => text::same(value.as_str(), expected),
        None => false,
    }
}

/// How a puppet is made ready for a message.
#[derive(Clone, Copy, PartialEq, Eq, Structural, Debug)]
pub enum PuppetCare {
    /// It is registered, named and given its avatar.
    Register,
    /// Its profile is brought up to date.
    Synchronise,
    /// It is ready.
    Nothing,
}

/// What is known while an event of a Discord channel is considered.
pub struct ChannelGate {
    pub channel_id: String,
    /// Whether the event is left alone whatever the channel.
    pub is_ignored: bool,
    /// Whether the event is about a message that Matrix must know.
    pub needs_event: bool,
    /// Whether the event is a typing notice.
    pub is_typing: bool,
    /// Whether it matters who caused the event.
    pub needs_user: bool,
    /// The channels that are bridged.
    pub channels: Option<Vec<String>>,
    /// The Matrix event of the message, where it is remembered.
    pub event_id: Option<Option<String>>,
    /// The bridge of the channel, where it has one.
    pub bridge: Option<Option<BridgedRoom>>,
    /// Who caused the event, where that could be found out.
    pub user: Option<Option<DiscordUser>>,
}

/// What happens next with an event of a Discord channel.
#[derive(Clone, Copy, PartialEq, Eq, Structural, Debug)]
pub enum GateStep {
    /// The bridged channels must be found out.
    AskChannels,
    /// The Matrix event of the message must be found out.
    AskEvent,
    /// The bridge of the channel must be found out.
    AskBridge,
    /// Who caused the event must be found out.
    AskUser,
    /// Nothing comes of the event.
    Stop,
    /// The event crosses the bridge.
    Pass,
}

/// Whether a text is among strings.
pub open spec fn is_listed(list: Seq<String>, s: Seq<char>) -> bool {
    text::texts(list).contains(s)
}

/// Whether a text is among strings.
pub fn listed(list: &Vec<String>, s: &str) -> (res: bool)
    ensures
        res == is_listed(list@, s@),
{
    let count: usize = list.len();
    let mut i: usize = 0;
    while i < count
        invariant
            count == list@.len(),
            i <= count,
            forall|j: int| 0 <= j < i ==> (#[trigger] list@[j])@ != s@,
        decreases count - i,
    {
        if text::same(list[i].as_str(), s) {
            assert(text::texts(list@)[i as int] == s@);
            return true;
        }
        i += 1;
    }
    proof {
        if text::texts(list@).contains(s@) {
            let j = text::texts(list@).index_of(s@);
            assert(list@[j]@ == s@);
        }
    }
    false
}

impl ChannelGate {
    /// A gate for an event of a channel, of which nothing else is known yet.
    pub fn new(channel_id: u64) -> (gate: Self)
        ensures
            gate.channel_id@ == id_text(channel_id),
            !gate.is_ignored && !gate.needs_event && !gate.is_typing && !gate.needs_user,
            gate.channels is None && gate.event_id is None && gate.bridge is None,
            gate.user is None,
    {
        ChannelGate {
            channel_id: number::to_decimal(channel_id),
            is_ignored: false,
            needs_event: false,
            is_typing: false,
            needs_user: false,
            channels: None,
            event_id: None,
            bridge: None,
            user: None,
        }
    }

    /// Whether the event is not left alone and its channel is known to be bridged.
    pub open spec fn is_bridged(self) -> bool {
        !self.is_ignored && (self.channels matches Some(list) && is_listed(
            list@,
            self.channel_id@,
        ))
    }

    /// Whether the message is known to Matrix too, where the event is about one.
    pub open spec fn has_event(self) -> bool {
        self.is_bridged() && (self.needs_event ==> self.event_id matches Some(Some(_)))
    }

    /// Whether the bridge lets such events through too.
    pub open spec fn is_enabled(self) -> bool {
        self.has_event() && (self.bridge matches Some(Some(bridge)) && bridge.d2m_enabled && (
        self.is_typing ==> bridge.d2m_typing))
    }

    /// Whether a person caused the event too, where that matters.
    pub open spec fn is_personal(self) -> bool {
        self.is_enabled() && (self.needs_user ==> (self.user matches Some(Some(user))
            && !user.bot))
    }

    /// What happens next. An event passes if it is not left alone, its channel is bridged, its
    /// message is known to Matrix where it is about one, the bridge lets such events through to
    /// Matrix, and no bot caused it where that matters. It stops as soon as one of these is known
    /// not to hold; else the first of them that is not known is asked for.
    pub fn next(&self) -> (step: GateStep)
        ensures
            step == GateStep::AskChannels <==> !self.is_ignored && self.channels is None,
            step == GateStep::AskEvent <==> self.is_bridged() && self.needs_event
                && self.event_id is None,
            step == GateStep::AskBridge <==> self.has_event() && self.bridge is None,
            step == GateStep::AskUser <==> self.is_enabled() && self.needs_user
                && self.user is None,
            step == GateStep::Pass <==> self.is_personal(),
    {
        if self.is_ignored {
            return GateStep::Stop;
        }
        match &self.channels {
            None => {
                return GateStep::AskChannels;
            },
            Some(list) => {
                if !listed(list, self.channel_id.as_str()) {
                    return GateStep::Stop;
                }
            },
        }
        if self.needs_event {
            match &self.event_id {
                None => {
                    return GateStep::AskEvent;
                },
                Some(None) => {
                    return GateStep::Stop;
                },
                Some(Some(_)) => {},
            }
        }
        match &self.bridge {
            None => {
                return GateStep::AskBridge;
            },
            Some(None) => {
                return GateStep::Stop;
            },
            Some(Some(bridge)) => {
                if !bridge.d2m_enabled || (self.is_typing && !bridge.d2m_typing) {
                    return GateStep::Stop;
                }
            },
        }
        if self.needs_user {
            match &self.user {
                None => {
                    return GateStep::AskUser;
                },
                Some(None) => {
                    return GateStep::Stop;
                },
                Some(Some(user)) => {
                    if user.bot {
                        return GateStep::Stop;
                    }
                },
            }
        }
        GateStep::Pass
    }
}

/// What is known while an emote is looked for on the Matrix side.
pub struct EmoteLookup {
    /// What the room calls by the emote's name.
    pub in_room: Option<Option<String>>,
    /// What was uploaded under the emote's name.
    pub uploaded_before: Option<Option<String>>,
    /// What an upload gave, nothing where it failed.
    pub uploaded: Option<Option<String>>,
}

/// What happens next in looking for an emote.
pub enum EmoteStep {
    AskRoom,
    AskUploads,
    Upload,
    Done(Option<String>),
}

impl EmoteLookup {
    /// A search in which nothing is known yet.
    pub fn new() -> (lookup: Self)
        ensures
            lookup.in_room is None && lookup.uploaded_before is None && lookup.uploaded is None,
    {
        EmoteLookup { in_room: None, uploaded_before: None, uploaded: None }
    }

    /// What happens next. The room's own emoji counts first, then an earlier upload, then a new one;
    /// each is asked for only where those before it are known to give nothing.
    pub fn next(&self) -> (step: EmoteStep)
        ensures
            step is AskRoom <==> self.in_room is None,
            step is AskUploads <==> self.in_room == Some(None::<String>)
                && self.uploaded_before is None,
            step is Upload <==> self.in_room == Some(None::<String>) && self.uploaded_before == Some(
                None::<String>,
            ) && self.uploaded is None,
            step matches EmoteStep::Done(url) ==> url == match (
                self.in_room,
                self.uploaded_before,
                self.uploaded,
            ) {
                (Some(Some(a)), _, _) => Some(a),
                (_, Some(Some(b)), _) => Some(b),
                (_, _, Some(c)) => c,
                _ => None,
            },
    {
        match &self.in_room {
            None => EmoteStep::AskRoom,
            Some(Some(url)) => EmoteStep::Done(Some(url.clone())),
            Some(None) => match &self.uploaded_before {
                None => EmoteStep::AskUploads,
                Some(Some(url)) => EmoteStep::Done(Some(url.clone())),
                Some(None) => match &self.uploaded {
                    None => EmoteStep::Upload,
                    Some(url) => EmoteStep::Done(text::copy_optional(url)),
                },
            },
        }
    }

    /// Remembers under the emote's name what an upload gave.
    pub fn keep(&self, cache: &mut Cache, name: &str)
        ensures
            match self.uploaded {
                Some(Some(url)) => final(cache).m_emotes@ == old(cache).m_emotes@.insert(
                    name@,
                    url@,
                ),
                _ => final(cache).m_emotes == old(cache).m_emotes,
            },
            *final(cache) == (Cache { m_emotes: final(cache).m_emotes, ..*old(cache) }),
    {
        match &self.uploaded {
            Some(Some(url)) => {
                cache.m_emotes.insert(name.to_owned(), url.clone());
            },
            _ => {},
        }
    }
}

/// Where the image of a Discord emote is.
pub open spec fn emote_url(id: Seq<char>, animated: bool) -> Seq<char> {
    "https://cdn.discordapp.com/emojis/"@ + id + if animated {
        ".gif"@
    } else {
        ".png"@
    }
}

/// Where the image of a Discord emote is.
pub fn make_emote_url(id: &str, animated: bool) -> (url: String)
    ensures
        url@ == emote_url(id@, animated),
{
    let base = "https://cdn.discordapp.com/emojis/".to_owned().concat(id);
    if animated {
        base.concat(".gif")
    } else {
        base.concat(".png")
    }
}

/// The emotes for which an image was found, the later entry counting before the earlier one.
pub open spec fn found_emotes(outcomes: Seq<(String, Option<String>)>) -> Map<Seq<char>, Seq<char>>
    decreases outcomes.len(),
{
    if outcomes.len() == 0 {
        Map::empty()
    } else {
        let before = found_emotes(outcomes.drop_last());
        match outcomes.last().1 {
            Some(url) => before.insert(outcomes.last().0@, url@),
            None => before,
        }
    }
}

/// Collects the images for a message: those found for its Discord emotes, and for the other
/// shortcodes in its text those of the room.
pub fn gather_emotes(
    outcomes: &Vec<(String, Option<String>)>,
    shortcodes_found: &Vec<Match>,
    room_emojis: &TextMap<String>,
) -> (emotes: TextMap<String>)
    requires
        forall|i: int|
            0 <= i < shortcodes_found@.len() ==> (#[trigger] pattern::match_views(
                shortcodes_found@,
            )[i]).groups.len() >= 2,
    ensures
        emotes@ == message::named_emotes(
            pattern::match_views(shortcodes_found@),
            room_emojis@,
        ).union_prefer_right(found_emotes(outcomes@)),
{
    let mut emotes = message::pick_named(shortcodes_found, room_emojis);
    let ghost named = emotes@;
    let count: usize = outcomes.len();
    let mut i: usize = 0;
    proof {
        assert(outcomes@.take(0) =~= Seq::<(String, Option<String>)>::empty());
        assert(named =~= named.union_prefer_right(found_emotes(outcomes@.take(0))));
    }
    while i < count
        invariant
            count == outcomes@.len(),
            i <= count,
            emotes@ == named.union_prefer_right(found_emotes(outcomes@.take(i as int))),
        decreases count - i,
    {
        proof {
            assert(outcomes@.take(i + 1).drop_last() =~= outcomes@.take(i as int));
            assert(outcomes@.take(i + 1).last() == outcomes@[i as int]);
        }
        match &outcomes[i].1 {
            Some(url) => {
                emotes.insert(outcomes[i].0.clone(), url.clone());
            },
            None => {},
        }
        proof {
            assert(emotes@ =~= named.union_prefer_right(found_emotes(outcomes@.take(i + 1))));
        }
        i += 1;
    }
    assert(outcomes@.take(count as int) =~= outcomes@);
    emotes
}

/// An emoji that someone reacted with.
#[derive(Debug)]
pub enum ReactionEmoji {
    Unicode(String),
    Custom { id: u64, name: Option<String>, animated: bool },
    /// A kind that the bridge does not know.
    Unknown,
}

impl ReactionEmoji {
    /// What the reaction is called.
    pub open spec fn called(self) -> Option<Seq<char>> {
        match self {
            ReactionEmoji::Unicode(emoji) => Some(emoji@),
            ReactionEmoji::Custom { id, name, animated } => Some(
                match name {
                    Some(n) => n@,
                    None => "custom_"@ + id_text(id),
                },
            ),
            ReactionEmoji::Unknown => None,
        }
    }

    /// What the reaction is called.
    pub fn name(&self) -> (res: Option<String>)
        ensures
            web::opt_text(res) == self.called(),
    {
        match self {
            ReactionEmoji::Unicode(emoji) => Some(emoji.clone()),
            ReactionEmoji::Custom { id, name, animated } => Some(
                match name {
                    Some(n) => n.clone(),
                    None => "custom_".to_owned().concat(number::to_decimal(*id).as_str()),
                },
            ),
            ReactionEmoji::Unknown => None,
        }
    }
}

/// Under what a reaction of a Discord user to a message is remembered.
pub open spec fn reaction_key(message_id: u64, user_id: u64, name: Seq<char>) -> Seq<char> {
    id_text(message_id) + ":"@ + id_text(user_id) + ":"@ + name
}

/// Under what a reaction of a Discord user to a message is remembered.
pub fn make_reaction_key(message_id: u64, user_id: u64, name: &str) -> (key: String)
    ensures
        key@ == reaction_key(message_id, user_id, name@),
{
    number::to_decimal(message_id).concat(":").concat(number::to_decimal(user_id).as_str()).concat(
        ":",
    ).concat(name)
}

/// A custom emote of a guild.
#[derive(Debug)]
pub struct GuildEmote {
    pub id: u64,
    pub name: String,
    pub animated: bool,
}

/// An emote as Discord writes it.
pub open spec fn discord_emote(emote: GuildEmote) -> Seq<char> {
    if emote.animated {
        "<a:"@ + emote.name@ + ":"@ + id_text(emote.id) + ">"@
    } else {
        "<:"@ + emote.name@ + ":"@ + id_text(emote.id) + ">"@
    }
}

/// The emotes of a guild, by name.
pub open spec fn guild_emotes(emotes: Seq<GuildEmote>) -> Map<Seq<char>, Seq<char>>
    decreases emotes.len(),
{
    if emotes.len() == 0 {
        Map::empty()
    } else {
        guild_emotes(emotes.drop_last()).insert(emotes.last().name@, discord_emote(emotes.last()))
    }
}

/// Names by their numbers.
pub open spec fn names_by_id(names: Seq<(u64, String)>) -> Map<Seq<char>, Seq<char>>
    decreases names.len(),
{
    if names.len() == 0 {
        Map::empty()
    } else {
        names_by_id(names.drop_last()).insert(id_text(names.last().0), names.last().1@)
    }
}

/// Makes a map of names by their numbers.
fn map_names(names: &Vec<(u64, String)>) -> (map: TextMap<String>)
    ensures
        map@ == names_by_id(names@),
{
    let mut map: TextMap<String> = TextMap::new();
    let count: usize = names.len();
    let mut i: usize = 0;
    assert(names@.take(0) =~= Seq::<(u64, String)>::empty());
    while i < count
        invariant
            count == names@.len(),
            i <= count,
            map@ == names_by_id(names@.take(i as int)),
        decreases count - i,
    {
        proof {
            assert(names@.take(i + 1).drop_last() =~= names@.take(i as int));
            assert(names@.take(i + 1).last() == names@[i as int]);
        }
        map.insert(number::to_decimal(names[i].0), names[i].1.clone());
        i += 1;
    }
    assert(names@.take(count as int) =~= names@);
    map
}

/// What a guild tells of itself.
pub struct GuildInfo {
    pub id: u64,
    pub emotes: Vec<GuildEmote>,
    pub roles: Vec<(u64, String)>,
    pub channels: Vec<(u64, String)>,
}

/// A message as it is sent to Matrix.
pub struct SendPlan {
    /// The text, unless it is blank.
    pub text: Option<String>,
    pub emotes: TextMap<String>,
    /// Address and name of each sticker.
    pub stickers: Vec<(String, String)>,
}

/// The name of the file at an address.
pub open spec fn file_name(url: Seq<char>) -> Seq<char> {
    text::split_text(url, seq!['/']).last()
}

fn file_name_of(url: &str) -> (name: String)
    ensures
        name@ == file_name(url@),
{
    proof {
        reveal_strlit("/");
        assert("/"@ =~= seq!['/']);
        text::lemma_split_not_empty(url@, "/"@);
    }
    let parts = text::split(url, "/");
    assert(text::texts(parts@).len() == parts@.len());
    assert(text::texts(parts@).last() == parts@[parts@.len() - 1]@);
    parts[parts.len() - 1].clone()
}

/// Addresses and names of stickers.
pub open spec fn named_stickers(urls: Seq<Seq<char>>) -> Seq<(Seq<char>, Seq<char>)> {
    Seq::new(urls.len(), |i: int| (urls[i], file_name(urls[i])))
}

/// The texts of pairs.
pub open spec fn pair_texts(pairs: Seq<(String, String)>) -> Seq<(Seq<char>, Seq<char>)> {
    Seq::new(pairs.len(), |i: int| (pairs[i].0@, pairs[i].1@))
}

/// What was sent to Matrix for a message.
#[derive(Clone, Copy, PartialEq, Eq, Structural, Debug)]
pub enum SentKind {
    Text,
    File,
    Sticker,
}

/// Which Matrix event a message became, as far as it was sent.
pub struct SentRecord {
    pub message_id: u64,
    /// Whether an event counts as the message already.
    pub has_event: bool,
}

impl SentRecord {
    /// A record of a message of which nothing was sent.
    pub fn new(message_id: u64) -> (record: Self)
        ensures
            record.message_id == message_id,
            !record.has_event,
    {
        SentRecord { message_id, has_event: false }
    }

    /// Whether an event counts as the message: its text and its stickers do, a file only where
    /// nothing else did before it.
    pub open spec fn counts(self, kind: SentKind) -> bool {
        kind != SentKind::File || !self.has_event
    }

    /// Remembers an event that was sent for the message, where it counts.
    pub fn record(&mut self, cache: &mut Cache, kind: SentKind, event_id: String)
        ensures
            final(self).message_id == old(self).message_id,
            final(self).has_event,
            if old(self).counts(kind) {
                &&& final(cache).m_messages@ == old(cache).m_messages@.insert(
                    event_id@,
                    id_text(old(self).message_id),
                )
                &&& final(cache).d_messages@ == old(cache).d_messages@.insert(
                    id_text(old(self).message_id),
                    event_id@,
                )
                &&& final(cache).same_but_messages(*old(cache))
            } else {
                *final(cache) == *old(cache)
            },
    {
        let counts = match kind {
            SentKind::File => !self.has_event,
            _ => true,
        };
        if counts {
            cache.insert_message_mapping(event_id, number::to_decimal(self.message_id));
        }
        self.has_event = true;
    }
}

/// The Discord side of the bridge.
pub struct DiscordHandler {
    pub matrix: MatrixClient,
}

impl DiscordHandler {
    /// The Discord side of a bridge with the given access to Matrix.
    pub fn new(matrix: MatrixClient) -> (handler: Self)
        ensures
            handler.matrix == matrix,
    {
        DiscordHandler { matrix }
    }

    /// The text of a message as Matrix shows it, and its emotes.
    pub fn process_discord_message(cache: &Cache, message: &DiscordMessage) -> (res: (
        String,
        TextMap<String>,
    ))
        ensures
            exists|
                roles: Option<Map<Seq<char>, Seq<char>>>,
                channels: Option<Map<Seq<char>, Seq<char>>>,
            |
                remembered_names(cache.d_roles@, message.guild_id, roles) && remembered_names(
                    cache.d_channels@,
                    message.guild_id,
                    channels,
                ) && guild_names(cache.d_roles, message.guild_id, roles) && guild_names(
                    cache.d_channels,
                    message.guild_id,
                    channels,
                ) && (res.0@, res.1@) == #[trigger] processed(*message, roles, channels),
    {
        let (roles, channels) = match message.guild_id {
            None => (None, None),
            Some(id) => {
                let guild = number::to_decimal(id);
                let found_roles = cache.d_roles.get(guild.as_str());
                assert(cache.d_roles.answers(id_text(id), cache::opt_view(found_roles)));
                let roles = match found_roles {
                    Some(map) => map,
                    None => TextMap::new(),
                };
                let found_channels = cache.d_channels.get(guild.as_str());
                assert(cache.d_channels.answers(id_text(id), cache::opt_view(found_channels)));
                let channels = match found_channels {
                    Some(map) => map,
                    None => TextMap::new(),
                };
                (Some(roles), Some(channels))
            },
        };
        let res = process_message(message, &roles, &channels);
        assert(guild_names(cache.d_roles, message.guild_id, opt_map(roles)));
        assert(guild_names(cache.d_channels, message.guild_id, opt_map(channels)));
        assert(remembered_names(cache.d_roles@, message.guild_id, opt_map(roles)));
        assert(remembered_names(cache.d_channels@, message.guild_id, opt_map(channels)));
        res
    }

    /// The addresses of the stickers that Matrix can show.
    pub fn process_stickers(stickers: &Vec<StickerItem>) -> (urls: Vec<String>)
        ensures
            text::texts(urls@) == sticker_urls(stickers@),
    {
        let mut urls: Vec<String> = Vec::new();
        let count: usize = stickers.len();
        let mut i: usize = 0;
        proof {
            assert(stickers@.take(0) =~= Seq::<StickerItem>::empty());
            assert(text::texts(urls@) =~= sticker_urls(stickers@.take(0)));
        }
        while i < count
            invariant
                count == stickers@.len(),
                i <= count,
                text::texts(urls@) == sticker_urls(stickers@.take(i as int)),
            decreases count - i,
        {
            let ghost before = text::texts(urls@);
            proof {
                assert(stickers@.take(i + 1).drop_last() =~= stickers@.take(i as int));
                assert(stickers@.take(i + 1).last() == stickers@[i as int]);
            }
            if !stickers[i].is_lottie {
                let url = "https://cdn.discordapp.com/stickers/".to_owned().concat(
                    number::to_decimal(stickers[i].id).as_str(),
                ).concat(".png");
                let ghost shown = url@;
                urls.push(url);
                assert(text::texts(urls@) =~= before.push(shown));
            }
            i += 1;
        }
        assert(stickers@.take(count as int) =~= stickers@);
        urls
    }

    /// Embeds as Markdown.
    pub fn process_embeds(embeds: &Vec<Embed>) -> (s: String)
        ensures
            s@ == embeds_text(embeds@),
    {
        let mut s = String::new();
        let count: usize = embeds.len();
        let mut i: usize = 0;
        assert(embeds@.take(0) =~= Seq::<Embed>::empty());
        while i < count
            invariant
                count == embeds@.len(),
                i <= count,
                s@ == embeds_text(embeds@.take(i as int)),
            decreases count - i,
        {
            proof {
                assert(embeds@.take(i + 1).drop_last() =~= embeds@.take(i as int));
                assert(embeds@.take(i + 1).last() == embeds@[i as int]);
            }
            s.append(write_embed(&embeds[i]).as_str());
            i += 1;
        }
        assert(embeds@.take(count as int) =~= embeds@);
        s
    }

    /// The text of a reply without the quote at its beginning.
    pub fn strip_reply_fallback(body: &str) -> (res: String)
        ensures
            res@ == message::without_quote(body@),
    {
        message::strip_reply_fallback(body)
    }

    /// The HTML of a reply without the quote in it.
    pub fn strip_reply_fallback_html(html: &str) -> (res: String)
        ensures
            res@ == message::without_matches(
                html@,
                pattern::matches_of(Pattern::ReplyFallback, html@),
            ),
    {
        message::strip_reply_fallback_html(html)
    }

    /// What has to be told to the homeserver of a user.
    pub fn sync_profile(
        profile: &Option<BridgedUser>,
        username: &str,
        discriminator: u16,
        avatar_url: &str,
    ) -> (changes: ProfileChanges)
        ensures
            (web::opt_text(changes.display_name), web::opt_text(changes.avatar_url))
                == profile_changes(*profile, shown_name(username@, discriminator), avatar_url@),
    {
        match profile {
            None => ProfileChanges { display_name: None, avatar_url: None },
            Some(known) => {
                let name = show_name(username, discriminator);
                let same_name = holds(&known.username, name.as_str());
                let same_avatar = holds(&known.avatar_url, avatar_url);
                ProfileChanges {
                    display_name: if same_name {
                        None
                    } else {
                        Some(name)
                    },
                    avatar_url: if same_avatar {
                        None
                    } else {
                        Some(avatar_url.to_owned())
                    },
                }
            },
        }
    }

    /// The Matrix user that stands for the author of a message. Webhooks share one number, so their
    /// users are told apart by a digest of their names.
    pub fn author_puppet(&self, message: &DiscordMessage) -> (mxid: String)
        ensures
            mxid@ == matrix_client::puppet(
                self.matrix.config@,
                id_text(message.author.id),
                if message.webhook_id is Some {
                    Some(crypto::short_hash_text(message.author.name@))
                } else {
                    None
                },
            ),
    {
        let id = number::to_decimal(message.author.id);
        if message.webhook_id.is_some() {
            let hash = crypto::short_hash(message.author.name.as_str());
            self.matrix.matrixify_user(id.as_str(), Some(hash.as_str()))
        } else {
            self.matrix.matrixify_user(id.as_str(), None)
        }
    }

    /// How a puppet is made ready for a message: one that is not known is registered, and one that
    /// stands for a webhook is brought up to date.
    pub fn ensure_user_in_room(message: &DiscordMessage, is_known: bool) -> (care: PuppetCare)
        ensures
            care == PuppetCare::Register <==> !is_known,
            care == PuppetCare::Synchronise <==> is_known && message.webhook_id is Some,
    {
        if !is_known {
            PuppetCare::Register
        } else if message.webhook_id.is_some() {
            PuppetCare::Synchronise
        } else {
            PuppetCare::Nothing
        }
    }

    /// How a puppet comes into a room: it is invited and joins, unless it is there already.
    pub fn bring_into_room(&self, room_id: &str, mxid: &str, is_there: bool) -> (requests: Option<
        (MatrixRequest, MatrixRequest),
    >)
        ensures
            requests is Some <==> !is_there,
            requests matches Some((invitation, entry)) ==> invitation@
                == matrix_client::invitation_request(room_id@, mxid@) && entry@
                == matrix_client::entry_request(room_id@, Some(mxid@)),
    {
        if is_there {
            None
        } else {
            Some(
                (
                    self.matrix.send_invite(room_id, mxid),
                    self.matrix.join_room(room_id, Some(mxid)),
                ),
            )
        }
    }

    /// The room of a channel, where it is remembered.
    pub fn resolve_room_id(&self, cache: &Cache, channel_id: &str) -> (found: Option<String>)
        ensures
            cache.m_rooms.answers(
                matrix_client::room_alias(self.matrix.config@, channel_id@),
                web::opt_text(found),
            ),
            found matches Some(room) ==> cache.m_rooms@.contains_key(
                matrix_client::room_alias(self.matrix.config@, channel_id@),
            ) && room@ == cache.m_rooms@[matrix_client::room_alias(
                self.matrix.config@,
                channel_id@,
            )],
    {
        cache.m_rooms.get(self.matrix.matrixify_room(channel_id).as_str())
    }

    /// The room of a channel, given the one that was remembered and the one that the database holds.
    /// The remembered one counts; where there was none, the database's is remembered from now on.
    pub fn settle_room_id(
        &self,
        cache: &mut Cache,
        channel_id: &str,
        remembered: Option<String>,
        stored: Option<String>,
    ) -> (room: Option<String>)
        ensures
            room == if remembered is Some {
                remembered
            } else {
                stored
            },
            if remembered is None && stored is Some {
                &&& final(cache).m_rooms@ == old(cache).m_rooms@.insert(
                    matrix_client::room_alias(self.matrix.config@, channel_id@),
                    stored->0@,
                )
                &&& final(cache).m_rooms.lost() == old(cache).m_rooms.lost().remove(
                    matrix_client::room_alias(self.matrix.config@, channel_id@),
                )
            } else {
                final(cache).m_rooms == old(cache).m_rooms
            },
            *final(cache) == (Cache { m_rooms: final(cache).m_rooms, ..*old(cache) }),
    {
        if remembered.is_some() {
            return remembered;
        }
        match &stored {
            Some(room_id) => {
                self.keep_room_id(cache, channel_id, room_id.as_str());
            },
            None => {},
        }
        stored
    }

    /// Remembers the room of a channel.
    pub fn keep_room_id(&self, cache: &mut Cache, channel_id: &str, room_id: &str)
        ensures
            final(cache).m_rooms@ == old(cache).m_rooms@.insert(
                matrix_client::room_alias(self.matrix.config@, channel_id@),
                room_id@,
            ),
            final(cache).m_rooms.lost() == old(cache).m_rooms.lost().remove(
                matrix_client::room_alias(self.matrix.config@, channel_id@),
            ),
            *final(cache) == (Cache { m_rooms: final(cache).m_rooms, ..*old(cache) }),
    {
        let alias = self.matrix.matrixify_room(channel_id);
        cache.m_rooms.insert(alias, room_id.to_owned());
    }

    /// Whether a message came through a webhook of the bridge.
    pub fn is_bridge_webhook(cache: &mut Cache, message: &DiscordMessage) -> (res: bool)
        ensures
            res == (message.webhook_id matches Some(id) && cache::has_webhook(
                old(cache).d_webhooks@,
                final(cache).d_webhooks.lost(),
                id_text(id),
            )),
            final(cache).d_webhooks@ == old(cache).d_webhooks@,
            old(cache).d_webhooks.lost().subset_of(final(cache).d_webhooks.lost()),
            *final(cache) == (Cache { d_webhooks: final(cache).d_webhooks, ..*old(cache) }),
    {
        match message.webhook_id {
            Some(id) => cache.d_webhooks.has_id(number::to_decimal(id).as_str()),
            None => false,
        }
    }

    /// Whether a message is left alone: it is a bot's, or it came through a webhook of the bridge.
    pub fn ignores(cache: &mut Cache, message: &DiscordMessage) -> (res: bool)
        ensures
            res == (message.author.bot || (message.webhook_id matches Some(id)
                && cache::has_webhook(
                old(cache).d_webhooks@,
                final(cache).d_webhooks.lost(),
                id_text(id),
            ))),
            final(cache).d_webhooks@ == old(cache).d_webhooks@,
            old(cache).d_webhooks.lost().subset_of(final(cache).d_webhooks.lost()),
            *final(cache) == (Cache { d_webhooks: final(cache).d_webhooks, ..*old(cache) }),
    {
        if message.author.bot {
            true
        } else {
            DiscordHandler::is_bridge_webhook(cache, message)
        }
    }

    /// What is sent to Matrix for a message whose text was processed.
    pub fn plan(message: &DiscordMessage, content: &str, emotes: TextMap<String>) -> (plan: SendPlan)
        ensures
            web::opt_text(plan.text) == ({
                let full = content@ + embeds_text(message.embeds@);
                if text::trimmed_white(full).len() == 0 {
                    None
                } else {
                    Some(full)
                }
            }),
            plan.emotes == emotes,
            pair_texts(plan.stickers@) == named_stickers(sticker_urls(message.stickers@)),
    {
        let embeds = DiscordHandler::process_embeds(&message.embeds);
        let full = content.to_owned().concat(embeds.as_str());
        let trimmed = text::trim(full.as_str());
        let urls = DiscordHandler::process_stickers(&message.stickers);
        let count: usize = urls.len();
        let ghost views = text::texts(urls@);
        let mut stickers: Vec<(String, String)> = Vec::new();
        let mut i: usize = 0;
        while i < count
            invariant
                count == urls@.len(),
                i <= count,
                stickers@.len() == i,
                forall|j: int|
                    0 <= j < i ==> (#[trigger] stickers@[j]).0@ == urls@[j]@ && stickers@[j].1@
                        == file_name(urls@[j]@),
            decreases count - i,
        {
            let name = file_name_of(urls[i].as_str());
            stickers.push((urls[i].clone(), name));
            i += 1;
        }
        assert(pair_texts(stickers@) =~= named_stickers(views));
        SendPlan {
            text: if text::number_of_chars(trimmed.as_str()) == 0 {
                None
            } else {
                Some(full)
            },
            emotes,
            stickers,
        }
    }

    /// A message as Matrix shows it, given its emotes and what it answers.
    pub fn create_matrix_message_content_with_emojis(
        room_id: &str,
        content: &str,
        outcomes: &Vec<(String, Option<String>)>,
        room_emojis: &TextMap<String>,
        reply: &Option<ReplyTarget>,
    ) -> (res: MessageContent)
        ensures
            res@ == message::bridged_content(
                room_id@,
                content@,
                message::named_emotes(
                    pattern::matches_of(Pattern::Shortcode, content@),
                    room_emojis@,
                ).union_prefer_right(found_emotes(outcomes@)),
                message::target_view(*reply),
            ),
    {
        let found = pattern::find_all(Pattern::Shortcode, content);
        let emotes = gather_emotes(outcomes, &found, room_emojis);
        message::make_content(room_id, content, &emotes, reply)
    }

    /// Remembers the emotes, roles and channels of a guild.
    pub fn guild_create(cache: &mut Cache, guild: &GuildInfo)
        ensures
            final(cache).d_emotes@ == old(cache).d_emotes@.union_prefer_right(
                guild_emotes(guild.emotes@),
            ),
            final(cache).d_roles@ == old(cache).d_roles@.insert(
                id_text(guild.id),
                names_by_id(guild.roles@),
            ),
            final(cache).d_channels@ == old(cache).d_channels@.insert(
                id_text(guild.id),
                names_by_id(guild.channels@),
            ),
            *final(cache) == (Cache {
                d_emotes: final(cache).d_emotes,
                d_roles: final(cache).d_roles,
                d_channels: final(cache).d_channels,
                ..*old(cache)
            }),
    {
        let ghost before = *cache;
        let count: usize = guild.emotes.len();
        let mut i: usize = 0;
        assert(guild.emotes@.take(0) =~= Seq::<GuildEmote>::empty());
        while i < count
            invariant
                count == guild.emotes@.len(),
                i <= count,
                cache.d_emotes@ == before.d_emotes@.union_prefer_right(
                    guild_emotes(guild.emotes@.take(i as int)),
                ),
                *cache == (Cache { d_emotes: cache.d_emotes, ..before }),
            decreases count - i,
        {
            let emote = &guild.emotes[i];
            let ghost shorter = guild_emotes(guild.emotes@.take(i as int));
            proof {
                assert(guild.emotes@.take(i + 1).drop_last() =~= guild.emotes@.take(i as int));
                assert(guild.emotes@.take(i + 1).last() == *emote);
            }
            let id = number::to_decimal(emote.id);
            let start = if emote.animated {
                "<a:".to_owned()
            } else {
                "<:".to_owned()
            };
            let shown = start.concat(emote.name.as_str()).concat(":").concat(id.as_str()).concat(
                ">",
            );
            cache.d_emotes.insert(emote.name.clone(), shown);
            proof {
                let wider = before.d_emotes@.union_prefer_right(shorter);
                let longer = guild_emotes(guild.emotes@.take(i + 1));
                assert(wider.insert(emote.name@, discord_emote(*emote))
                    =~= before.d_emotes@.union_prefer_right(longer));
            }
            i += 1;
        }
        assert(guild.emotes@.take(count as int) =~= guild.emotes@);
        let guild_id = number::to_decimal(guild.id);
        cache.d_roles.insert(guild_id.clone(), map_names(&guild.roles));
        cache.d_channels.insert(guild_id, map_names(&guild.channels));
    }

    /// Forgets a guild.
    pub fn guild_delete(cache: &mut Cache, guild_id: u64)
        ensures
            final(cache).d_roles@ == old(cache).d_roles@.remove(id_text(guild_id)),
            final(cache).d_channels@ == old(cache).d_channels@.remove(id_text(guild_id)),
            *final(cache) == (Cache {
                d_roles: final(cache).d_roles,
                d_channels: final(cache).d_channels,
                ..*old(cache)
            }),
    {
        cache.remove_guild_data(number::to_decimal(guild_id).as_str());
    }

    /// What replaces a message that was edited.
    pub fn message_update(content: &str, emotes: &TextMap<String>, embeds: &Vec<Embed>) -> (res:
        MessageContent)
        ensures
            res@ == ({
                let full = content@ + embeds_text(embeds@);
                message::plain_or_html(full, message::matrix_html(full, emotes@))
            }),
    {
        let shown = DiscordHandler::process_embeds(embeds);
        let full = content.to_owned().concat(shown.as_str());
        let (plain, html) = MatrixClient::process_for_matrix(full.as_str(), emotes);
        MessageContent::plain_or_html(plain.as_str(), html.as_str())
    }

    /// Whether a message that was deleted on Discord is taken back on Matrix, given who sent it
    /// there, where that could be found out. What a puppet sent came from Discord and may go; the
    /// rest goes only where the bridge lets moderators delete.
    pub fn message_delete(bridge: &BridgedRoom, sender: Option<&str>) -> (redacts: bool)
        ensures
            redacts == is_taken_back(*bridge, utils::opt_str(sender)),
    {
        let from_discord = match sender {
            Some(s) => text::starts_with(s, "@_discord_"),
            None => false,
        };
        from_discord || bridge.d2m_mod_deletions
    }

    /// Takes back on Matrix a message that was deleted on Discord, where that is done.
    pub fn take_message_back(&self, bridge: &BridgedRoom, event_id: &str, sender: Option<&str>) -> (
        request: Option<MatrixRequest>)
        ensures
            request is Some <==> is_taken_back(*bridge, utils::opt_str(sender)),
            request matches Some(r) ==> exists|transaction: Seq<char>|
                matrix_client::is_uuid(transaction) && matrix_client::is_drawn(transaction) && r@
                    == #[trigger] matrix_client::redaction_request(
                    bridge.room_id@,
                    event_id@,
                    transaction,
                    None,
                ),
    {
        if DiscordHandler::message_delete(bridge, sender) {
            Some(self.matrix.redact_event(bridge.room_id.as_str(), event_id, None))
        } else {
            None
        }
    }

    /// Forgets a message that was deleted on Discord, where it was taken back on Matrix. Where it was
    /// not, all stays as it is.
    pub fn settle_deletion(cache: &mut Cache, event_id: &str, message_id: u64, redacted: bool)
        ensures
            final(cache).has_settled(*old(cache), event_id@, id_text(message_id), redacted),
    {
        cache.settle_deletion(event_id, number::to_decimal(message_id).as_str(), redacted);
    }

    /// What a reaction is on Matrix: the emoji itself, or for a custom one the image that was found,
    /// or else its name.
    pub fn reaction_add(emoji: &ReactionEmoji, image: &Option<String>) -> (key: Option<String>)
        ensures
            web::opt_text(key) == match *emoji {
                ReactionEmoji::Custom { id, name, animated } => match *image {
                    Some(url) => Some(url@),
                    None => emoji.called(),
                },
                _ => emoji.called(),
            },
    {
        match emoji {
            ReactionEmoji::Custom { id, name, animated } => match image {
                Some(url) => Some(url.clone()),
                None => emoji.name(),
            },
            _ => emoji.name(),
        }
    }

    /// Remembers the Matrix event of a reaction.
    pub fn keep_reaction(
        cache: &mut Cache,
        message_id: u64,
        user_id: u64,
        name: &str,
        event_id: String,
    )
        ensures
            final(cache).d_messages@ == old(cache).d_messages@.insert(
                reaction_key(message_id, user_id, name@),
                event_id@,
            ),
            *final(cache) == (Cache { d_messages: final(cache).d_messages, ..*old(cache) }),
    {
        cache.d_messages.insert(make_reaction_key(message_id, user_id, name), event_id);
    }

    /// The Matrix event of a reaction, where it is remembered.
    pub fn reaction_remove(cache: &Cache, message_id: u64, user_id: u64, name: &str) -> (found:
        Option<String>)
        ensures
            cache::may_find(
                cache.d_messages@,
                reaction_key(message_id, user_id, name@),
                found,
            ),
            cache.d_messages.answers(
                reaction_key(message_id, user_id, name@),
                web::opt_text(found),
            ),
    {
        cache.d_messages.get(make_reaction_key(message_id, user_id, name).as_str())
    }

    /// Takes back the Matrix event of a reaction, where one was found.
    pub fn take_reaction_back(&self, room_id: &str, found: &Option<String>) -> (request: Option<
        MatrixRequest,
    >)
        ensures
            request is Some <==> found is Some,
            request matches Some(r) ==> exists|transaction: Seq<char>|
                matrix_client::is_uuid(transaction) && matrix_client::is_drawn(transaction) && r@
                    == #[trigger] matrix_client::redaction_request(
                    room_id@,
                    found->0@,
                    transaction,
                    None,
                ),
    {
        match found {
            Some(event_id) => Some(self.matrix.redact_event(room_id, event_id.as_str(), None)),
            None => None,
        }
    }

    /// Forgets the Matrix event of a reaction.
    pub fn forget_reaction(cache: &mut Cache, message_id: u64, user_id: u64, name: &str)
        ensures
            final(cache).d_messages@ == old(cache).d_messages@.remove(
                reaction_key(message_id, user_id, name@),
            ),
            *final(cache) == (Cache { d_messages: final(cache).d_messages, ..*old(cache) }),
    {
        cache.d_messages.invalidate(make_reaction_key(message_id, user_id, name).as_str());
    }
    /// Remembers the Matrix event of a reaction, where it could be sent.
    pub fn settle_reaction_add(
        cache: &mut Cache,
        message_id: u64,
        user_id: u64,
        name: &str,
        sent: Option<String>,
    )
        ensures
            match sent {
                Some(event) => {
                    &&& final(cache).d_messages@ == old(cache).d_messages@.insert(
                        reaction_key(message_id, user_id, name@),
                        event@,
                    )
                    &&& *final(cache) == (Cache {
                        d_messages: final(cache).d_messages,
                        ..*old(cache)
                    })
                },
                None => *final(cache) == *old(cache),
            },
    {
        match sent {
            Some(event_id) => {
                DiscordHandler::keep_reaction(cache, message_id, user_id, name, event_id);
            },
            None => {},
        }
    }

    /// Forgets the Matrix event of a reaction, where it was taken back. Where it was not, it stays, to
    /// be tried again.
    pub fn settle_reaction(
        cache: &mut Cache,
        message_id: u64,
        user_id: u64,
        name: &str,
        redacted: bool,
    )
        ensures
            has_settled_reaction(
                *final(cache),
                *old(cache),
                reaction_key(message_id, user_id, name@),
                redacted,
            ),
    {
        if redacted {
            DiscordHandler::forget_reaction(cache, message_id, user_id, name);
        }
    }
}

/// Whether a message that was deleted on Discord is taken back on Matrix, given who sent it there.
pub open spec fn is_taken_back(bridge: BridgedRoom, sender: Option<Seq<char>>) -> bool {
    bridge.d2m_mod_deletions || (sender matches Some(s) && "@_discord_"@.is_prefix_of(s))
}

/// Whether a cache is what is left of `before` once the reaction under `key` was taken back, or could
/// not be.
pub open spec fn has_settled_reaction(
    after: Cache,
    before: Cache,
    key: Seq<char>,
    redacted: bool,
) -> bool {
    if redacted {
        &&& after.d_messages@ == before.d_messages@.remove(key)
        &&& after == (Cache { d_messages: after.d_messages, ..before })
    } else {
        after == before
    }
}

/// A reaction is taken back once. After its event was remembered, whatever is found for it is that
/// event; once the event was taken back, nothing is found for it, so that nothing is taken back
/// again; and where it could not be taken back, whatever is found is that event still. What is
/// remembered of other messages and reactions stays as it is.
pub proof fn law_reactions_are_taken_back_once(
    before: Cache,
    kept: Cache,
    after: Cache,
    message: u64,
    user: u64,
    name: Seq<char>,
    event: Seq<char>,
    redacted: bool,
    found: Option<String>,
    again: Option<String>,
)
    requires
        kept.d_messages@ == before.d_messages@.insert(reaction_key(message, user, name), event),
        cache::may_find(kept.d_messages@, reaction_key(message, user, name), found),
        has_settled_reaction(after, kept, reaction_key(message, user, name), redacted),
        cache::may_find(after.d_messages@, reaction_key(message, user, name), again),
    ensures
        found matches Some(e) ==> e@ == event,
        redacted ==> again is None,
        !redacted ==> after == kept,
        !redacted ==> (again matches Some(e) ==> e@ == event),
        forall|other: Seq<char>|
            other != reaction_key(message, user, name) ==> {
                &&& #[trigger] after.d_messages@.contains_key(other)
                    == before.d_messages@.contains_key(other)
                &&& after.d_messages@.contains_key(other) ==> after.d_messages@[other]
                    == before.d_messages@[other]
            },
{
}

/// A user whose profile was told to the homeserver has no changes left to tell.
pub proof fn law_synchronised_profiles_are_quiet(known: BridgedUser, name: Seq<char>, avatar: Seq<char>)
    requires
        web::opt_text(known.username) == Some(name),
        web::opt_text(known.avatar_url) == Some(avatar),
    ensures
        profile_changes(Some(known), name, avatar) == (None::<Seq<char>>, None::<Seq<char>>),
{
}

/// A text of digits holds no colon.
proof fn lemma_id_has_no_colon(id: u64)
    ensures
        id_text(id).len() > 0,
        !id_text(id).contains(':'),
{
    number::lemma_decimal_value(id as nat);
    if id_text(id).contains(':') {
        let i = id_text(id).index_of(':');
        assert('0' <= id_text(id)[i] <= '9');
    }
}

/// No two reactions are remembered under the same key: it tells the message, the user and the
/// reaction.
pub proof fn law_reaction_keys_are_distinct(
    message: u64,
    user: u64,
    name: Seq<char>,
    other_message: u64,
    other_user: u64,
    other_name: Seq<char>,
)
    requires
        reaction_key(message, user, name) == reaction_key(other_message, other_user, other_name),
    ensures
        message == other_message,
        user == other_user,
        name == other_name,
{
    reveal_strlit(":");
    assert(":"@ =~= seq![':']);
    let colon = seq![':'];
    let x = id_text(user) + colon + name;
    let y = id_text(other_user) + colon + other_name;
    lemma_id_has_no_colon(message);
    lemma_id_has_no_colon(other_message);
    lemma_id_has_no_colon(user);
    lemma_id_has_no_colon(other_user);
    assert(reaction_key(message, user, name) =~= id_text(message) + colon + x);
    assert(reaction_key(other_message, other_user, other_name) =~= id_text(other_message) + colon
        + y);
    text::lemma_mark_splits(':', id_text(message), x, id_text(other_message), y);
    text::lemma_mark_splits(':', id_text(user), name, id_text(other_user), other_name);
    number::law_decimal_reads_back(message as nat);
    number::law_decimal_reads_back(other_message as nat);
    number::law_decimal_reads_back(user as nat);
    number::law_decimal_reads_back(other_user as nat);
}

/// Messages and reactions are remembered in one place and never take each other's: no message has
/// the key of a reaction.
pub proof fn law_messages_and_reactions_keep_apart(
    message: u64,
    reacted_to: u64,
    user: u64,
    name: Seq<char>,
)
    ensures
        id_text(message) != reaction_key(reacted_to, user, name),
{
    reveal_strlit(":");
    lemma_id_has_no_colon(message);
    let key = reaction_key(reacted_to, user, name);
    assert(key[id_text(reacted_to).len() as int] == ':');
    assert(key.contains(':'));
}

/// How Discord writes a mention of a user, plainly or by nickname.
pub open spec fn mention_of(id: u64, by_nickname: bool) -> Seq<char> {
    if by_nickname {
        "<@!"@ + id_text(id) + ">"@
    } else {
        "<@"@ + id_text(id) + ">"@
    }
}

/// The shape of a mention: it begins with `<@`, ends with `>`, and has neither character elsewhere.
proof fn lemma_mention_shape(id: u64, by_nickname: bool)
    ensures
        ({
            let m = mention_of(id, by_nickname);
            &&& m.len() > 3
            &&& m[0] == '<'
            &&& m[1] == '@'
            &&& by_nickname ==> m[2] == '!'
            &&& !by_nickname ==> m[2] != '!'
            &&& m.last() == '>'
            &&& forall|k: int| 1 <= k < m.len() ==> #[trigger] m[k] != '<'
            &&& forall|k: int| 2 <= k < m.len() ==> #[trigger] m[k] != '@'
            &&& forall|k: int| 0 <= k < m.len() - 1 ==> #[trigger] m[k] != '>'
        }),
{
    reveal_strlit("<@");
    reveal_strlit("<@!");
    reveal_strlit(">");
    number::lemma_decimal_value(id as nat);
    let m = mention_of(id, by_nickname);
    let start: int = if by_nickname {
        3
    } else {
        2
    };
    assert forall|k: int| start <= k < m.len() - 1 implies '0' <= #[trigger] m[k] <= '9' by {
        assert(m[k] == id_text(id)[k - start]);
    }
}

/// Different mentions are written differently, and none begins another.
proof fn lemma_mentions_differ(id: u64, by_nickname: bool, other: u64, other_by_nickname: bool)
    requires
        id != other || by_nickname != other_by_nickname,
    ensures
        !mention_of(id, by_nickname).is_prefix_of(mention_of(other, other_by_nickname)),
{
    let m = mention_of(id, by_nickname);
    let n = mention_of(other, other_by_nickname);
    lemma_mention_shape(id, by_nickname);
    lemma_mention_shape(other, other_by_nickname);
    if m.is_prefix_of(n) {
        assert forall|k: int| 0 <= k < m.len() implies m[k] == #[trigger] n[k] by {
            assert(n.subrange(0, m.len() as int)[k] == n[k]);
        }
        assert(m[m.len() - 1] == '>');
        assert(n[m.len() - 1] == '>');
        assert(m.len() == n.len());
        assert(m[2] == n[2]);
        let start: int = if by_nickname {
            3
        } else {
            2
        };
        reveal_strlit("<@");
        reveal_strlit("<@!");
        reveal_strlit(">");
        assert(id_text(id) =~= m.subrange(start, m.len() - 1));
        assert(id_text(other) =~= n.subrange(start, n.len() - 1));
        assert(m =~= n);
        number::law_decimal_reads_back(id as nat);
        number::law_decimal_reads_back(other as nat);
    }
}

/// Both ways of mentioning a user are replaced, one after the other.
proof fn lemma_one_user_named(content: Seq<char>, users: Seq<DiscordUser>)
    requires
        users.len() > 0,
    ensures
        with_user_names(content, users) == text::replaced(
            text::replaced(
                with_user_names(content, users.drop_last()),
                mention_of(users.last().id, false),
                "@"@ + users.last().name@,
            ),
            mention_of(users.last().id, true),
            "@"@ + users.last().name@,
        ),
{
}

/// What replacing a mention by a name keeps: no mention comes in, and no two `<` come side by side.
proof fn lemma_naming_keeps(
    s: Seq<char>,
    id: u64,
    by_nickname: bool,
    name: Seq<char>,
    other: u64,
    other_by_nickname: bool,
)
    requires
        !name.contains('<'),
        !text::doubles(s, '<'),
    ensures
        ({
            let out = text::replaced(s, mention_of(id, by_nickname), "@"@ + name);
            &&& !text::doubles(out, '<')
            &&& text::holds(out, mention_of(other, other_by_nickname)) ==> text::holds(
                s,
                mention_of(other, other_by_nickname),
            ) && (id != other || by_nickname != other_by_nickname)
        }),
{
    reveal_strlit("@");
    let from = mention_of(id, by_nickname);
    let to = "@"@ + name;
    let q = mention_of(other, other_by_nickname);
    lemma_mention_shape(id, by_nickname);
    lemma_mention_shape(other, other_by_nickname);
    assert(!to.contains('<')) by {
        if to.contains('<') {
            let k = to.index_of('<');
            assert(name[k - 1] == '<');
        }
    }
    assert forall|p: int| 0 <= p < to.len() implies to[p] != q[0] || (#[trigger] to[p] == q[0] && p
        + 1 < to.len() && q.len() > 1 && to[p + 1] != q[1]) by {
        if to[p] == '<' {
            assert(to.contains('<'));
        }
    }
    text::lemma_replacing_brings_in_nothing(s, from, to, q);
    text::lemma_replacing_doubles_nothing(s, from, to, '<');
}

/// Every user that a message mentions is shown by name, wherever the user stands in the list: no
/// mention of any of them is left, neither plain nor by nickname. This needs names without `<`, and a
/// text without two of them side by side, since what stands before a mention could else make up a
/// mention with the name.
pub proof fn law_no_mention_is_left(content: Seq<char>, users: Seq<DiscordUser>, at: int)
    requires
        !text::doubles(content, '<'),
        forall|i: int| 0 <= i < users.len() ==> !(#[trigger] users[i]).name@.contains('<'),
        0 <= at < users.len(),
    ensures
        !text::holds(with_user_names(content, users), "<@"@ + id_text(users[at].id) + ">"@),
        !text::holds(with_user_names(content, users), "<@!"@ + id_text(users[at].id) + ">"@),
{
    lemma_no_mention_is_left(content, users);
    assert(!text::holds(with_user_names(content, users), mention_of(users[at].id, false)));
    assert(!text::holds(with_user_names(content, users), mention_of(users[at].id, true)));
}

proof fn lemma_no_mention_is_left(content: Seq<char>, users: Seq<DiscordUser>)
    requires
        !text::doubles(content, '<'),
        forall|i: int| 0 <= i < users.len() ==> !(#[trigger] users[i]).name@.contains('<'),
    ensures
        !text::doubles(with_user_names(content, users), '<'),
        forall|i: int, n: bool|
            0 <= i < users.len() ==> !text::holds(
                with_user_names(content, users),
                #[trigger] mention_of(users[i].id, n),
            ),
    decreases users.len(),
{
    if users.len() > 0 {
        let fewer = users.drop_last();
        let last = users.last();
        assert forall|i: int| 0 <= i < fewer.len() implies !(
        #[trigger] fewer[i]).name@.contains('<') by {
            assert(fewer[i] == users[i]);
        }
        lemma_no_mention_is_left(content, fewer);
        lemma_one_user_named(content, users);
        assert(users[users.len() - 1] == last);
        let before = with_user_names(content, fewer);
        let once = text::replaced(before, mention_of(last.id, false), "@"@ + last.name@);
        lemma_naming_keeps(before, last.id, false, last.name@, last.id, false);
        lemma_naming_keeps(once, last.id, true, last.name@, last.id, true);
        assert forall|i: int, n: bool| 0 <= i < users.len() implies !text::holds(
            with_user_names(content, users),
            #[trigger] mention_of(users[i].id, n),
        ) by {
            let id = users[i].id;
            lemma_naming_keeps(before, last.id, false, last.name@, id, n);
            lemma_naming_keeps(once, last.id, true, last.name@, id, n);
            if i < fewer.len() {
                assert(fewer[i] == users[i]);
                assert(!text::holds(before, mention_of(fewer[i].id, n)));
            }
        }
    }
}

/// A mention becomes `@` and the name of its user, wherever the user stands in the list, and what
/// follows is treated alike; what stands before it, without `<`, stays as it is. Where several users
/// have the same number, the first of them counts.
#[verifier::rlimit(40)]
pub proof fn law_a_mention_becomes_the_name(
    before: Seq<char>,
    at: int,
    by_nickname: bool,
    behind: Seq<char>,
    users: Seq<DiscordUser>,
)
    requires
        !before.contains('<'),
        0 <= at < users.len(),
        !users[at].name@.contains('<'),
        forall|i: int| 0 <= i < at ==> (#[trigger] users[i]).id != users[at].id,
    ensures
        with_user_names(before + mention_of(users[at].id, by_nickname) + behind, users) == before
            + "@"@ + users[at].name@ + with_user_names(behind, users),
    decreases users.len(),
{
    let m = mention_of(users[at].id, by_nickname);
    let whole = before + m + behind;
    let shown = "@"@ + users[at].name@;
    let last = users.last();
    let fewer = users.drop_last();
    let plain = mention_of(last.id, false);
    let nick = mention_of(last.id, true);
    let to = "@"@ + last.name@;
    let done = with_user_names(behind, fewer);
    lemma_mention_shape(users[at].id, by_nickname);
    lemma_mention_shape(last.id, false);
    lemma_mention_shape(last.id, true);
    lemma_one_user_named(whole, users);
    lemma_one_user_named(behind, users);
    if at < users.len() - 1 {
        assert(fewer[at] == users[at]);
        assert forall|i: int| 0 <= i < at implies (#[trigger] fewer[i]).id != fewer[at].id by {
            assert(fewer[i] == users[i]);
        }
        law_a_mention_becomes_the_name(before, at, by_nickname, behind, fewer);
        let clean = before + "@"@ + users[at].name@;
        lemma_clean_name(before, users[at].name@);
        text::lemma_replacing_behind(clean, done, plain, to);
        text::lemma_replacing_behind(clean, text::replaced(done, plain, to), nick, to);
    } else {
        lemma_a_mention_waits(before, m, users[at].id, by_nickname, behind, fewer);
        let clean = before + "@"@ + users[at].name@;
        lemma_clean_name(before, users[at].name@);
        assert(before + m + done =~= before + (m + done));
        text::lemma_replacing_behind(before, m + done, plain, to);
        let once = text::replaced(done, plain, to);
        if by_nickname {
            lemma_mentions_differ(last.id, false, last.id, true);
            lemma_tag(m);
            lemma_tag(plain);
            text::lemma_replacing_skips_a_tag(m, done, plain, to, '>');
            text::lemma_replacing_behind(before, m + once, nick, to);
            text::lemma_replacing_at_the_start(once, nick, to);
            assert(before + (to + text::replaced(once, nick, to)) =~= clean + text::replaced(
                once,
                nick,
                to,
            ));
        } else {
            text::lemma_replacing_at_the_start(done, plain, to);
            assert(before + (to + once) =~= clean + once);
            text::lemma_replacing_behind(clean, once, nick, to);
        }
    }
}

proof fn lemma_clean_name(before: Seq<char>, name: Seq<char>)
    requires
        !before.contains('<'),
        !name.contains('<'),
    ensures
        !(before + "@"@ + name).contains('<'),
{
    reveal_strlit("@");
    let all = before + "@"@ + name;
    if all.contains('<') {
        let k = all.index_of('<');
        if k < before.len() {
            assert(before[k] == '<');
        } else if k > before.len() {
            assert(name[k - before.len() - 1] == '<');
        }
    }
}

proof fn lemma_tag(m: Seq<char>)
    requires
        m.len() > 1,
        m.last() == '>',
        forall|k: int| 1 <= k < m.len() ==> #[trigger] m[k] != '<',
        forall|k: int| 0 <= k < m.len() - 1 ==> #[trigger] m[k] != '>',
    ensures
        !m.drop_first().contains('<'),
        !m.drop_last().contains('>'),
{
    if m.drop_first().contains('<') {
        let k = m.drop_first().index_of('<');
        assert(m[k + 1] == '<');
    }
    if m.drop_last().contains('>') {
        let k = m.drop_last().index_of('>');
        assert(m[k] == '>');
    }
}

/// A mention is not touched by users with other numbers.
proof fn lemma_a_mention_waits(
    before: Seq<char>,
    m: Seq<char>,
    id: u64,
    by_nickname: bool,
    behind: Seq<char>,
    users: Seq<DiscordUser>,
)
    requires
        !before.contains('<'),
        m == mention_of(id, by_nickname),
        forall|i: int| 0 <= i < users.len() ==> (#[trigger] users[i]).id != id,
    ensures
        with_user_names(before + m + behind, users) == before + m + with_user_names(behind, users),
    decreases users.len(),
{
    if users.len() > 0 {
        let fewer = users.drop_last();
        assert forall|i: int| 0 <= i < fewer.len() implies (#[trigger] fewer[i]).id != id by {
            assert(fewer[i] == users[i]);
        }
        assert(users[users.len() - 1].id != id);
        lemma_a_mention_waits(before, m, id, by_nickname, behind, fewer);
        lemma_mention_shape(id, by_nickname);
        lemma_tag(m);
        lemma_tag_is_kept(before, m, with_user_names(behind, fewer), users.last(), by_nickname, id);
        lemma_one_user_named(before + m + behind, users);
        lemma_one_user_named(behind, users);
    }
}

#[verifier::rlimit(40)]
proof fn lemma_tag_is_kept(
    before: Seq<char>,
    m: Seq<char>,
    done: Seq<char>,
    user: DiscordUser,
    by_nickname: bool,
    id: u64,
)
    requires
        !before.contains('<'),
        m == mention_of(id, by_nickname),
        user.id != id,
    ensures
        ({
            let to = "@"@ + user.name@;
            let plain = mention_of(user.id, false);
            let nick = mention_of(user.id, true);
            text::replaced(text::replaced(before + m + done, plain, to), nick, to) == before + m
                + text::replaced(text::replaced(done, plain, to), nick, to)
        }),
{
    let to = "@"@ + user.name@;
    let plain = mention_of(user.id, false);
    let nick = mention_of(user.id, true);
    lemma_mention_shape(id, by_nickname);
    lemma_mention_shape(user.id, false);
    lemma_mention_shape(user.id, true);
    lemma_tag(m);
    lemma_tag(plain);
    lemma_tag(nick);
    lemma_mentions_differ(user.id, false, id, by_nickname);
    lemma_mentions_differ(user.id, true, id, by_nickname);
    let once = text::replaced(done, plain, to);
    assert(before + m + done =~= before + (m + done));
    text::lemma_replacing_behind(before, m + done, plain, to);
    text::lemma_replacing_skips_a_tag(m, done, plain, to, '>');
    text::lemma_replacing_behind(before, m + once, nick, to);
    text::lemma_replacing_skips_a_tag(m, once, nick, to, '>');
    assert(before + (m + text::replaced(once, nick, to)) =~= before + m + text::replaced(
        once,
        nick,
        to,
    ));
}

/// A text without `<` mentions nobody and stays as it is.
pub proof fn law_plain_text_stays(content: Seq<char>, users: Seq<DiscordUser>)
    requires
        !content.contains('<'),
    ensures
        with_user_names(content, users) == content,
    decreases users.len(),
{
    if users.len() > 0 {
        law_plain_text_stays(content, users.drop_last());
        lemma_one_user_named(content, users);
        lemma_mention_shape(users.last().id, false);
        lemma_mention_shape(users.last().id, true);
        let to = "@"@ + users.last().name@;
        let nothing = Seq::<char>::empty();
        let plain = mention_of(users.last().id, false);
        let nick = mention_of(users.last().id, true);
        assert(content + nothing =~= content);
        text::lemma_replacing_behind(content, nothing, plain, to);
        text::lemma_replacing_behind(content, nothing, nick, to);
        text::law_find_is_first(nothing, plain);
        text::law_find_is_first(nothing, nick);
        text::law_replacing_is_splitting_and_joining(nothing, plain, to);
        text::law_replacing_is_splitting_and_joining(nothing, nick, to);
    }
}

/// What was remembered of a reaction is found: where the cache still has something to give for it,
/// the removal of the reaction gives its event, and no other.
pub proof fn law_a_remembered_reaction_is_found(
    before: Cache,
    kept: Cache,
    message: u64,
    user: u64,
    name: Seq<char>,
    event: Seq<char>,
    found: Option<String>,
)
    requires
        kept.d_messages@ == before.d_messages@.insert(reaction_key(message, user, name), event),
        kept.d_messages.answers(reaction_key(message, user, name), web::opt_text(found)),
        !kept.d_messages.answers(reaction_key(message, user, name), None),
    ensures
        web::opt_text(found) == Some(event),
{
    kept.d_messages.lemma_answer(reaction_key(message, user, name), web::opt_text(found));
}

/// Every emote of a guild is known by its name, whatever its place in the list; where a name occurs
/// more than once, the last one counts; and nothing else is known.
pub proof fn law_every_emote_of_a_guild_is_known(emotes: Seq<GuildEmote>)
    ensures
        forall|k: Seq<char>| #[trigger]
            guild_emotes(emotes).contains_key(k) <==> exists|i: int|
                0 <= i < emotes.len() && (#[trigger] emotes[i]).name@ == k,
        forall|i: int|
            0 <= i < emotes.len() && (forall|j: int|
                i < j < emotes.len() ==> (#[trigger] emotes[j]).name@ != emotes[i].name@)
                ==> guild_emotes(emotes)[(#[trigger] emotes[i]).name@] == discord_emote(emotes[i]),
    decreases emotes.len(),
{
    if emotes.len() > 0 {
        let fewer = emotes.drop_last();
        let last = emotes.len() - 1;
        law_every_emote_of_a_guild_is_known(fewer);
        assert forall|k: Seq<char>| #[trigger]
            guild_emotes(emotes).contains_key(k) <==> exists|i: int|
                0 <= i < emotes.len() && (#[trigger] emotes[i]).name@ == k by {
            if guild_emotes(emotes).contains_key(k) {
                if guild_emotes(fewer).contains_key(k) {
                    let i = choose|i: int|
                        0 <= i < fewer.len() && (#[trigger] fewer[i]).name@ == k;
                    assert(emotes[i] == fewer[i]);
                } else {
                    assert(emotes[last].name@ == k);
                }
            }
            if exists|i: int| 0 <= i < emotes.len() && (#[trigger] emotes[i]).name@ == k {
                let i = choose|i: int|
                    0 <= i < emotes.len() && (#[trigger] emotes[i]).name@ == k;
                if i < last {
                    assert(fewer[i].name@ == k);
                    assert(guild_emotes(fewer).contains_key(k));
                }
            }
        }
        assert forall|i: int|
            0 <= i < emotes.len() && (forall|j: int|
                i < j < emotes.len() ==> (#[trigger] emotes[j]).name@
                    != emotes[i].name@) implies
            guild_emotes(emotes)[(#[trigger] emotes[i]).name@]
            == discord_emote(emotes[i]) by {
            if i < last {
                assert(fewer[i] == emotes[i]);
                assert forall|j: int| i < j < fewer.len() implies (#[trigger] fewer[j]).name@
                    != fewer[i].name@ by {
                    assert(fewer[j] == emotes[j]);
                }
                assert(guild_emotes(fewer)[fewer[i].name@] == discord_emote(fewer[i]));
                assert(emotes[last] == emotes.last());
            }
        }
    }
}

/// Every role or channel is known by its number, whatever its place in the list; where a number
/// occurs more than once, the last one counts; and nothing else is known.
pub proof fn law_every_name_is_known(names: Seq<(u64, String)>)
    ensures
        forall|k: Seq<char>| #[trigger]
            names_by_id(names).contains_key(k) <==> exists|i: int|
                0 <= i < names.len() && id_text((#[trigger] names[i]).0) == k,
        forall|i: int|
            0 <= i < names.len() && (forall|j: int|
                i < j < names.len() ==> id_text((#[trigger] names[j]).0) != id_text(names[i].0))
                ==> names_by_id(names)[id_text((#[trigger] names[i]).0)] == names[i].1@,
    decreases names.len(),
{
    if names.len() > 0 {
        let fewer = names.drop_last();
        let last = names.len() - 1;
        law_every_name_is_known(fewer);
        assert forall|k: Seq<char>| #[trigger]
            names_by_id(names).contains_key(k) <==> exists|i: int|
                0 <= i < names.len() && id_text((#[trigger] names[i]).0) == k by {
            if names_by_id(names).contains_key(k) {
                if names_by_id(fewer).contains_key(k) {
                    let i = choose|i: int|
                        0 <= i < fewer.len() && id_text((#[trigger] fewer[i]).0) == k;
                    assert(names[i] == fewer[i]);
                } else {
                    assert(id_text(names[last].0) == k);
                }
            }
            if exists|i: int| 0 <= i < names.len() && id_text((#[trigger] names[i]).0) == k {
                let i = choose|i: int|
                    0 <= i < names.len() && id_text((#[trigger] names[i]).0) == k;
                if i < last {
                    assert(id_text(fewer[i].0) == k);
                    assert(names_by_id(fewer).contains_key(k));
                }
            }
        }
        assert forall|i: int|
            0 <= i < names.len() && (forall|j: int|
                i < j < names.len() ==> id_text((#[trigger] names[j]).0)
                    != id_text(names[i].0)) implies
            names_by_id(names)[id_text((#[trigger] names[i]).0)]
            == names[i].1@ by {
            if i < last {
                assert(fewer[i] == names[i]);
                assert forall|j: int| i < j < fewer.len() implies id_text((#[trigger] fewer[j]).0)
                    != id_text(fewer[i].0) by {
                    assert(fewer[j] == names[j]);
                }
                assert(names_by_id(fewer)[id_text(fewer[i].0)] == fewer[i].1@);
                assert(names[last] == names.last());
            }
        }
    }
}

/// Every emote for which an image was found is shown by it, whatever its place in the list; where a
/// name occurs more than once, the last one found counts; and no other is shown.
pub proof fn law_every_found_emote_counts(outcomes: Seq<(String, Option<String>)>)
    ensures
        forall|k: Seq<char>| #[trigger]
            found_emotes(outcomes).contains_key(k) <==> exists|i: int|
                0 <= i < outcomes.len() && (#[trigger] outcomes[i]).0@ == k && outcomes[i].1 is Some,
        forall|i: int|
            0 <= i < outcomes.len() && outcomes[i].1 is Some && (forall|j: int|
                i < j < outcomes.len() && outcomes[j].1 is Some ==> (#[trigger] outcomes[j]).0@
                    != outcomes[i].0@)
                ==> found_emotes(outcomes)[(#[trigger] outcomes[i]).0@] == outcomes[i].1->0@,
    decreases outcomes.len(),
{
    if outcomes.len() > 0 {
        let fewer = outcomes.drop_last();
        let last = outcomes.len() - 1;
        law_every_found_emote_counts(fewer);
        assert forall|k: Seq<char>| #[trigger]
            found_emotes(outcomes).contains_key(k) <==> exists|i: int|
                0 <= i < outcomes.len() && (#[trigger] outcomes[i]).0@ == k && outcomes[i].1 is Some by {
            if found_emotes(outcomes).contains_key(k) {
                if found_emotes(fewer).contains_key(k) {
                    let i = choose|i: int|
                        0 <= i < fewer.len() && (#[trigger] fewer[i]).0@ == k && fewer[i].1 is Some;
                    assert(outcomes[i] == fewer[i]);
                } else {
                    assert(outcomes[last].0@ == k);
                }
            }
            if exists|i: int|
                0 <= i < outcomes.len() && (#[trigger] outcomes[i]).0@ == k && outcomes[i].1 is Some {
                let i = choose|i: int|
                    0 <= i < outcomes.len() && (#[trigger] outcomes[i]).0@ == k && outcomes[i].1 is Some;
                if i < last {
                    assert(fewer[i].0@ == k);
                    assert(found_emotes(fewer).contains_key(k));
                }
            }
        }
        assert forall|i: int|
            0 <= i < outcomes.len() && outcomes[i].1 is Some && (forall|j: int|
                i < j < outcomes.len() && outcomes[j].1 is Some ==> (#[trigger] outcomes[j]).0@
                    != outcomes[i].0@) implies
            found_emotes(outcomes)[(#[trigger] outcomes[i]).0@]
            == outcomes[i].1->0@ by {
            if i < last {
                assert(fewer[i] == outcomes[i]);
                assert forall|j: int| i < j < fewer.len() && fewer[j].1 is Some implies (#[trigger] fewer[j]).0@
                    != fewer[i].0@ by {
                    assert(fewer[j] == outcomes[j]);
                }
                assert(found_emotes(fewer)[fewer[i].0@] == fewer[i].1->0@);
                assert(outcomes[last] == outcomes.last());
            }
        }
    }
}

/// Every sticker that Matrix can show has its address, in the order of the stickers, and no other
/// has one.
pub proof fn law_every_sticker_is_shown(a: Seq<StickerItem>, b: Seq<StickerItem>, one: StickerItem)
    ensures
        sticker_urls(a + b) == sticker_urls(a) + sticker_urls(b),
        sticker_urls(seq![one]) == if one.is_lottie {
            Seq::<Seq<char>>::empty()
        } else {
            seq!["https://cdn.discordapp.com/stickers/"@ + id_text(one.id) + ".png"@]
        },
    decreases b.len(),
{
    assert(seq![one].drop_last() =~= Seq::<StickerItem>::empty());
    assert(sticker_urls(Seq::<StickerItem>::empty()) =~= Seq::empty());
    assert(sticker_urls(seq![one]) =~= if one.is_lottie {
        Seq::<Seq<char>>::empty()
    } else {
        seq!["https://cdn.discordapp.com/stickers/"@ + id_text(one.id) + ".png"@]
    });
    if b.len() == 0 {
        assert(a + b =~= a);
        assert(sticker_urls(a) + Seq::<Seq<char>>::empty() =~= sticker_urls(a));
    } else {
        law_every_sticker_is_shown(a, b.drop_last(), one);
        assert((a + b).drop_last() =~= a + b.drop_last());
        assert((a + b).last() == b.last());
        assert(sticker_urls(a + b) =~= sticker_urls(a) + sticker_urls(b));
    }
}

/// Every embed is written behind the one before it, each begins with a rule, and every field of an
/// embed is written with its name and its value.
#[verifier::rlimit(40)]
pub proof fn law_every_embed_is_written(
    a: Seq<Embed>,
    b: Seq<Embed>,
    one: Embed,
    fields: Seq<EmbedField>,
    more: Seq<EmbedField>,
    field: EmbedField,
)
    ensures
        embeds_text(a + b) == embeds_text(a) + embeds_text(b),
        embeds_text(seq![one]) == embed_text(one),
        "\n\n---\n"@.is_prefix_of(embed_text(one)),
        embed_fields(fields + more) == embed_fields(fields) + embed_fields(more),
        embed_fields(seq![field]) == "\n**"@ + field.name@ + "**\n"@ + field.value@ + "\n"@,
        text::holds(embed_text(one), embed_fields(one.fields@)),
    decreases b.len() + more.len(),
{
    assert(seq![one].drop_last() =~= Seq::<Embed>::empty());
    assert(embeds_text(Seq::<Embed>::empty()) =~= Seq::empty());
    assert(embeds_text(seq![one]) =~= embed_text(one));
    assert(seq![field].drop_last() =~= Seq::<EmbedField>::empty());
    assert(embed_fields(Seq::<EmbedField>::empty()) =~= Seq::empty());
    assert(embed_fields(seq![field]) =~= "\n**"@ + field.name@ + "**\n"@ + field.value@ + "\n"@);
    let before = "\n\n---\n"@ + wrapped("**"@, one.author, "**\n"@) + embed_title(one) + wrapped(
        Seq::empty(),
        one.description,
        "\n"@,
    );
    let written = embed_fields(one.fields@);
    let at = before.len() as int;
    assert(embed_text(one).subrange(at, at + written.len()) =~= written);
    assert(text::stands_at(embed_text(one), written, at));
    let rule = "\n\n---\n"@;
    assert(embed_text(one).subrange(0, rule.len() as int) =~= rule);
    if b.len() == 0 {
        assert(a + b =~= a);
        assert(embeds_text(a) + Seq::<char>::empty() =~= embeds_text(a));
    } else {
        law_every_embed_is_written(a, b.drop_last(), one, fields, more, field);
        assert((a + b).drop_last() =~= a + b.drop_last());
        assert((a + b).last() == b.last());
        assert(embeds_text(a + b) =~= embeds_text(a) + embeds_text(b));
    }
    if more.len() == 0 {
        assert(fields + more =~= fields);
        assert(embed_fields(fields) + Seq::<char>::empty() =~= embed_fields(fields));
    } else {
        law_every_embed_is_written(a, b, one, fields, more.drop_last(), field);
        assert((fields + more).drop_last() =~= fields + more.drop_last());
        assert((fields + more).last() == more.last());
        assert(embed_fields(fields + more) =~= embed_fields(fields) + embed_fields(more));
    }
}

/// Every emote in a message becomes its name between colons, wherever it stands, and the text around
/// the emotes stays.
pub proof fn law_every_emote_becomes_a_shortcode(s: Seq<char>, found: Seq<MatchView>)
    requires
        pattern::well_placed(found, s, 2),
    ensures
        ({
            let out = pattern::spliced(s, found, shortcodes(found), 0);
            &&& forall|i: int|
                0 <= i < found.len() ==> text::stands_at(
                    out,
                    ":"@ + (#[trigger] found[i]).groups[1] + ":"@,
                    found[i].start + pattern::drift(found, shortcodes(found), i),
                )
            &&& out.len() == s.len() + pattern::drift(found, shortcodes(found), found.len() as int)
        }),
{
    assert(pattern::in_order(found, 0, s.len() as int));
    pattern::law_every_match_is_replaced(s, found, shortcodes(found));
    assert forall|i: int| 0 <= i < found.len() implies text::stands_at(
        pattern::spliced(s, found, shortcodes(found), 0),
        ":"@ + (#[trigger] found[i]).groups[1] + ":"@,
        found[i].start + pattern::drift(found, shortcodes(found), i),
    ) by {
        assert(shortcodes(found)[i] == ":"@ + found[i].groups[1] + ":"@);
    }
}

/// A role or a channel that is known is shown by its name behind `@` or `#`, and one that is not by
/// its number.
pub proof fn law_roles_and_channels_are_named(
    known: Map<Seq<char>, Seq<char>>,
    id: Seq<char>,
)
    ensures
        known.contains_key(id) ==> MentionKind::Role.shown(Some(known), id) == "@"@ + known[id],
        known.contains_key(id) ==> MentionKind::Channel.shown(Some(known), id) == "#"@ + known[id],
        !known.contains_key(id) ==> MentionKind::Role.shown(Some(known), id) == "@role-"@ + id,
        !known.contains_key(id) ==> MentionKind::Channel.shown(Some(known), id) == "#channel-"@
            + id,
        MentionKind::Role.shown(None, id) == "@deleted-role"@,
        MentionKind::Channel.shown(None, id) == "#deleted-channel"@,
{
}

/// What a mention of a role or a channel begins with behind its `<`, and so does what is shown.
pub open spec fn mark_of(kind: MentionKind) -> char {
    match kind {
        MentionKind::Role => '@',
        MentionKind::Channel => '#',
    }
}

/// Whether a text has the shape of a mention of a role or a channel: it begins with `<` and the mark,
/// ends with `>`, and has none of these, nor the other mark, elsewhere.
pub open spec fn is_tag(kind: MentionKind, m: MatchView) -> bool {
    let tag = m.groups[0];
    &&& tag.len() > 2
    &&& tag[0] == '<'
    &&& tag[1] == mark_of(kind)
    &&& tag.last() == '>'
    &&& forall|k: int| 1 <= k < tag.len() ==> #[trigger] tag[k] != '<'
    &&& forall|k: int| 2 <= k < tag.len() ==> #[trigger] tag[k] != '@' && tag[k] != '#'
    &&& forall|k: int| 0 <= k < tag.len() - 1 ==> #[trigger] tag[k] != '>'
}

proof fn lemma_shown_begins(
    kind: MentionKind,
    names: Option<Map<Seq<char>, Seq<char>>>,
    id: Seq<char>,
)
    ensures
        kind.shown(names, id).len() > 0,
        kind.shown(names, id)[0] == mark_of(kind),
{
    reveal_strlit("@");
    reveal_strlit("#");
    reveal_strlit("@role-");
    reveal_strlit("#channel-");
    reveal_strlit("@deleted-role");
    reveal_strlit("#deleted-channel");
}

/// Every role or channel that a message mentions is shown by name: none of the mentions is left,
/// wherever it stands. This needs names without `<`, and a text without two of them side by side.
pub proof fn law_no_tag_is_left(
    content: Seq<char>,
    kind: MentionKind,
    found: Seq<MatchView>,
    names: Option<Map<Seq<char>, Seq<char>>>,
    i: int,
)
    requires
        !text::doubles(content, '<'),
        0 <= i < found.len(),
        forall|j: int| 0 <= j < found.len() ==> is_tag(kind, #[trigger] found[j]),
        forall|j: int|
            0 <= j < found.len() ==> !kind.shown(
                names,
                (#[trigger] found[j]).groups[1],
            ).contains('<'),
    ensures
        !text::holds(with_names(content, kind, found, names), found[i].groups[0]),
{
    lemma_no_tag_is_left(content, kind, found, names);
}

proof fn lemma_no_tag_is_left(
    content: Seq<char>,
    kind: MentionKind,
    found: Seq<MatchView>,
    names: Option<Map<Seq<char>, Seq<char>>>,
)
    requires
        !text::doubles(content, '<'),
        forall|j: int| 0 <= j < found.len() ==> is_tag(kind, #[trigger] found[j]),
        forall|j: int|
            0 <= j < found.len() ==> !kind.shown(
                names,
                (#[trigger] found[j]).groups[1],
            ).contains('<'),
    ensures
        !text::doubles(with_names(content, kind, found, names), '<'),
        forall|i: int|
            0 <= i < found.len() ==> !text::holds(
                with_names(content, kind, found, names),
                (#[trigger] found[i]).groups[0],
            ),
    decreases found.len(),
{
    if found.len() > 0 {
        let fewer = found.drop_last();
        let last = found[found.len() - 1];
        assert forall|j: int| 0 <= j < fewer.len() implies is_tag(kind, #[trigger] fewer[j])
            && !kind.shown(names, fewer[j].groups[1]).contains('<') by {
            assert(fewer[j] == found[j]);
        }
        lemma_no_tag_is_left(content, kind, fewer, names);
        let before = with_names(content, kind, fewer, names);
        let to = kind.shown(names, last.groups[1]);
        lemma_shown_begins(kind, names, last.groups[1]);
        text::lemma_replacing_doubles_nothing(before, last.groups[0], to, '<');
        assert forall|i: int| 0 <= i < found.len() implies !text::holds(
            with_names(content, kind, found, names),
            (#[trigger] found[i]).groups[0],
        ) by {
            let other = found[i].groups[0];
            assert forall|p: int| 0 <= p < to.len() implies to[p] != other[0] || (
            #[trigger] to[p] == other[0] && p + 1 < to.len() && other.len() > 1 && to[p + 1]
                != other[1]) by {
                if to[p] == '<' {
                    assert(to.contains('<'));
                }
            }
            text::lemma_replacing_brings_in_nothing(before, last.groups[0], to, other);
            if i < found.len() - 1 {
                assert(fewer[i] == found[i]);
            }
        }
    }
}

/// A mention of a role or a channel becomes what is shown for it, wherever it stands in the list of
/// those found, and what follows is treated alike; what stands before it, without `<`, stays as it
/// is.
pub proof fn law_a_tag_becomes_its_name(
    before: Seq<char>,
    i: int,
    behind: Seq<char>,
    kind: MentionKind,
    found: Seq<MatchView>,
    names: Option<Map<Seq<char>, Seq<char>>>,
)
    requires
        !before.contains('<'),
        0 <= i < found.len(),
        forall|j: int| 0 <= j < found.len() ==> is_tag(kind, #[trigger] found[j]),
        forall|j: int| 0 <= j < i ==> (#[trigger] found[j]).groups[0] != found[i].groups[0],
        !kind.shown(names, found[i].groups[1]).contains('<'),
    ensures
        with_names(before + found[i].groups[0] + behind, kind, found, names) == before + kind.shown(
            names,
            found[i].groups[1],
        ) + with_names(behind, kind, found, names),
    decreases found.len(),
{
    let tag = found[i].groups[0];
    let shown = kind.shown(names, found[i].groups[1]);
    let fewer = found.drop_last();
    let last = found[found.len() - 1];
    let done = with_names(behind, kind, fewer, names);
    let from = last.groups[0];
    let to = kind.shown(names, last.groups[1]);
    assert(is_tag(kind, last));
    assert forall|j: int| 0 <= j < fewer.len() implies is_tag(kind, #[trigger] fewer[j]) by {
        assert(fewer[j] == found[j]);
    }
    if i < found.len() - 1 {
        assert(fewer[i] == found[i]);
        assert forall|j: int| 0 <= j < i implies (#[trigger] fewer[j]).groups[0]
            != fewer[i].groups[0] by {
            assert(fewer[j] == found[j]);
        }
        law_a_tag_becomes_its_name(before, i, behind, kind, fewer, names);
        let clean = before + shown;
        assert(!clean.contains('<')) by {
            if clean.contains('<') {
                let k = clean.index_of('<');
                if k < before.len() {
                    assert(before[k] == '<');
                } else {
                    assert(shown[k - before.len()] == '<');
                }
            }
        }
        text::lemma_replacing_behind(clean, done, from, to);
    } else {
        assert forall|j: int| 0 <= j < fewer.len() implies (#[trigger] fewer[j]).groups[0]
            != tag by {
            assert(fewer[j] == found[j]);
        }
        lemma_a_tag_waits(before, tag, behind, kind, fewer, names);
        assert(before + tag + done =~= before + (tag + done));
        text::lemma_replacing_behind(before, tag + done, tag, to);
        text::lemma_replacing_at_the_start(done, tag, to);
        assert(before + (to + text::replaced(done, tag, to)) =~= before + to + text::replaced(
            done,
            tag,
            to,
        ));
    }
}

proof fn lemma_a_tag_waits(
    before: Seq<char>,
    tag: Seq<char>,
    behind: Seq<char>,
    kind: MentionKind,
    found: Seq<MatchView>,
    names: Option<Map<Seq<char>, Seq<char>>>,
)
    requires
        !before.contains('<'),
        tag.len() > 2,
        tag[0] == '<',
        tag.last() == '>',
        forall|k: int| 1 <= k < tag.len() ==> #[trigger] tag[k] != '<',
        forall|k: int| 0 <= k < tag.len() - 1 ==> #[trigger] tag[k] != '>',
        forall|j: int| 0 <= j < found.len() ==> is_tag(kind, #[trigger] found[j]),
        forall|j: int| 0 <= j < found.len() ==> (#[trigger] found[j]).groups[0] != tag,
    ensures
        with_names(before + tag + behind, kind, found, names) == before + tag + with_names(
            behind,
            kind,
            found,
            names,
        ),
    decreases found.len(),
{
    if found.len() > 0 {
        let fewer = found.drop_last();
        let last = found[found.len() - 1];
        let from = last.groups[0];
        let to = kind.shown(names, last.groups[1]);
        assert forall|j: int| 0 <= j < fewer.len() implies is_tag(kind, #[trigger] fewer[j])
            && fewer[j].groups[0] != tag by {
            assert(fewer[j] == found[j]);
        }
        lemma_a_tag_waits(before, tag, behind, kind, fewer, names);
        assert(is_tag(kind, last));
        let done = with_names(behind, kind, fewer, names);
        lemma_tag(tag);
        lemma_tag(from);
        assert(!from.is_prefix_of(tag)) by {
            if from.is_prefix_of(tag) {
                assert forall|k: int| 0 <= k < from.len() implies from[k] == #[trigger] tag[k] by {
                    assert(tag.subrange(0, from.len() as int)[k] == tag[k]);
                }
                assert(tag[from.len() - 1] == '>');
                assert(from.len() == tag.len());
                assert(from =~= tag);
            }
        }
        assert(before + tag + done =~= before + (tag + done));
        text::lemma_replacing_behind(before, tag + done, from, to);
        text::lemma_replacing_skips_a_tag(tag, done, from, to, '>');
        assert(before + (tag + text::replaced(done, from, to)) =~= before + tag + text::replaced(
            done,
            from,
            to,
        ));
    }
}

/// A profile is changed where it differs, and only there: the name where the name differs, and the
/// picture where the picture does.
pub proof fn law_profiles_change_where_they_differ(
    known: BridgedUser,
    name: Seq<char>,
    avatar: Seq<char>,
)
    ensures
        profile_changes(Some(known), name, avatar).0 == if web::opt_text(known.username) != Some(
            name,
        ) {
            Some(name)
        } else {
            None
        },
        profile_changes(Some(known), name, avatar).1 == if web::opt_text(known.avatar_url) != Some(
            avatar,
        ) {
            Some(avatar)
        } else {
            None
        },
        profile_changes(None, name, avatar) == (None::<Seq<char>>, None::<Seq<char>>),
{
}

/// Names with different discriminators are shown differently, and a name without one as it is.
pub proof fn law_names_are_told_apart(name: Seq<char>, a: u16, b: u16)
    ensures
        a == 0 ==> shown_name(name, a) == name,
        shown_name(name, a) == shown_name(name, b) ==> a == b,
        a > 0 ==> name.is_prefix_of(shown_name(name, a)) && number::unsigned_value(
            shown_name(name, a).skip(1 + name.len() as int),
        ) == Some(a as nat),
{
    reveal_strlit("#");
    number::law_four_digits(a as nat);
    number::law_four_digits(b as nat);
    if a > 0 {
        let shown = shown_name(name, a);
        assert(shown.subrange(0, name.len() as int) =~= name);
        assert(shown.skip(1 + name.len() as int) =~= number::four_digits(a as nat));
    }
    if b > 0 {
        assert(shown_name(name, b).skip(1 + name.len() as int) =~= number::four_digits(b as nat));
    }
}

/// A gate opens exactly where nothing stands against it: the event is not to be ignored, its channel
/// is bridged, its event is known where it needs one, its bridge carries what it brings, and its user
/// is no bot where it needs one.
pub proof fn law_gates_open_for_bridged_events(gate: ChannelGate)
    ensures
        gate.is_personal() <==> {
            &&& !gate.is_ignored
            &&& gate.channels matches Some(list) && is_listed(list@, gate.channel_id@)
            &&& !gate.needs_event || (gate.event_id matches Some(Some(_)))
            &&& gate.bridge matches Some(Some(bridge)) && bridge.d2m_enabled && (!gate.is_typing
                || bridge.d2m_typing)
            &&& !gate.needs_user || (gate.user matches Some(Some(user)) && !user.bot)
        },
{
}

/// A file is named by what stands behind the last slash of its address.
pub proof fn law_files_are_named_by_their_end(address: Seq<char>, name: Seq<char>)
    requires
        !name.contains('/'),
    ensures
        file_name(address + seq!['/'] + name) == name,
        file_name(name) == name,
{
    text::law_splitting_at_a_character(address, '/', name);
    text::lemma_split_whole(name, '/');
    let all = text::split_text(address, seq!['/']) + seq![name];
    assert(all.last() == name);
}

/// A deletion on Discord takes back what a puppet sent, and what others sent only where the bridge
/// lets moderators delete.
pub proof fn law_deletions_are_passed_on(bridge: BridgedRoom, id: Seq<char>, sender: Seq<char>)
    ensures
        is_taken_back(bridge, Some("@_discord_"@ + id)),
        bridge.d2m_mod_deletions ==> is_taken_back(bridge, Some(sender)) && is_taken_back(
            bridge,
            None,
        ),
        !bridge.d2m_mod_deletions && !"@_discord_"@.is_prefix_of(sender) ==> !is_taken_back(
            bridge,
            Some(sender),
        ),
        !bridge.d2m_mod_deletions ==> !is_taken_back(bridge, None),
{
    let puppet = "@_discord_"@ + id;
    assert(puppet.subrange(0, "@_discord_"@.len() as int) =~= "@_discord_"@);
}

/// What naming roles or channels brings in: nothing that has the shape of a mention, and no two `<`
/// side by side.
proof fn lemma_names_bring_in_nothing(
    content: Seq<char>,
    kind: MentionKind,
    found: Seq<MatchView>,
    names: Option<Map<Seq<char>, Seq<char>>>,
    other: Seq<char>,
)
    requires
        !text::doubles(content, '<'),
        forall|j: int| 0 <= j < found.len() ==> is_tag(kind, #[trigger] found[j]),
        forall|j: int|
            0 <= j < found.len() ==> !kind.shown(
                names,
                (#[trigger] found[j]).groups[1],
            ).contains('<'),
        other.len() > 1,
        other[0] == '<',
        forall|d: int| 2 <= d < other.len() ==> #[trigger] other[d] != mark_of(kind),
    ensures
        text::holds(with_names(content, kind, found, names), other) ==> text::holds(content, other),
    decreases found.len(),
{
    if found.len() > 0 {
        let fewer = found.drop_last();
        let last = found[found.len() - 1];
        assert forall|j: int| 0 <= j < fewer.len() implies is_tag(kind, #[trigger] fewer[j])
            && !kind.shown(names, fewer[j].groups[1]).contains('<') by {
            assert(fewer[j] == found[j]);
        }
        lemma_names_bring_in_nothing(content, kind, fewer, names, other);
        lemma_no_tag_is_left(content, kind, fewer, names);
        let before = with_names(content, kind, fewer, names);
        let to = kind.shown(names, last.groups[1]);
        lemma_shown_begins(kind, names, last.groups[1]);
        assert forall|p: int| 0 <= p < to.len() implies to[p] != other[0] || (#[trigger] to[p]
            == other[0] && p + 1 < to.len() && other.len() > 1 && to[p + 1] != other[1]) by {
            if to[p] == '<' {
                assert(to.contains('<'));
            }
        }
        text::lemma_replacing_brings_in_nothing(before, last.groups[0], to, other);
    }
}

/// Whether every match is a mention of its kind, and is shown without `<`.
pub open spec fn are_tags(
    kind: MentionKind,
    found: Seq<MatchView>,
    names: Option<Map<Seq<char>, Seq<char>>>,
) -> bool {
    &&& forall|j: int| 0 <= j < found.len() ==> is_tag(kind, #[trigger] found[j])
    &&& forall|j: int|
        0 <= j < found.len() ==> !kind.shown(names, (#[trigger] found[j]).groups[1]).contains('<')
}

/// Of all the users, roles and channels that a message mentions, no mention is left.
pub proof fn law_all_mentions_are_named(
    message: DiscordMessage,
    roles: Option<Map<Seq<char>, Seq<char>>>,
    channels: Option<Map<Seq<char>, Seq<char>>>,
    i: int,
)
    requires
        !text::doubles(message.content@, '<'),
        forall|j: int|
            0 <= j < message.mentions@.len() ==> !(#[trigger] message.mentions@[j]).name@.contains(
                '<',
            ),
        are_tags(
            MentionKind::Role,
            pattern::matches_of(Pattern::RoleMention, message.content@),
            roles,
        ),
        are_tags(
            MentionKind::Channel,
            pattern::matches_of(Pattern::ChannelMention, message.content@),
            channels,
        ),
    ensures
        ({
            let out = with_all_names(message, roles, channels);
            let found_roles = pattern::matches_of(Pattern::RoleMention, message.content@);
            let found_channels = pattern::matches_of(Pattern::ChannelMention, message.content@);
            &&& 0 <= i < message.mentions@.len() ==> !text::holds(
                out,
                "<@"@ + id_text(message.mentions@[i].id) + ">"@,
            ) && !text::holds(out, "<@!"@ + id_text(message.mentions@[i].id) + ">"@)
            &&& 0 <= i < found_roles.len() ==> !text::holds(out, found_roles[i].groups[0])
            &&& 0 <= i < found_channels.len() ==> !text::holds(out, found_channels[i].groups[0])
        }),
{
    let content = message.content@;
    let users = message.mentions@;
    let found_roles = pattern::matches_of(Pattern::RoleMention, content);
    let found_channels = pattern::matches_of(Pattern::ChannelMention, content);
    let with_users = with_user_names(content, users);
    let with_roles = with_names(with_users, MentionKind::Role, found_roles, roles);
    lemma_no_mention_is_left(content, users);
    lemma_no_tag_is_left(with_users, MentionKind::Role, found_roles, roles);
    lemma_no_tag_is_left(with_roles, MentionKind::Channel, found_channels, channels);
    if 0 <= i < users.len() {
        law_no_mention_is_left(content, users, i);
        lemma_mention_stays_away(
            users[i].id,
            false,
            with_users,
            found_roles,
            roles,
            found_channels,
            channels,
        );
        lemma_mention_stays_away(
            users[i].id,
            true,
            with_users,
            found_roles,
            roles,
            found_channels,
            channels,
        );
    }
    if 0 <= i < found_roles.len() {
        let tag = found_roles[i].groups[0];
        assert(is_tag(MentionKind::Role, found_roles[i]));
        lemma_names_bring_in_nothing(
            with_roles,
            MentionKind::Channel,
            found_channels,
            channels,
            tag,
        );
    }
}

proof fn lemma_mention_stays_away(
    id: u64,
    by_nickname: bool,
    content: Seq<char>,
    found_roles: Seq<MatchView>,
    roles: Option<Map<Seq<char>, Seq<char>>>,
    found_channels: Seq<MatchView>,
    channels: Option<Map<Seq<char>, Seq<char>>>,
)
    requires
        !text::doubles(content, '<'),
        !text::holds(content, mention_of(id, by_nickname)),
        are_tags(MentionKind::Role, found_roles, roles),
        are_tags(MentionKind::Channel, found_channels, channels),
    ensures
        !text::holds(
            with_names(
                with_names(content, MentionKind::Role, found_roles, roles),
                MentionKind::Channel,
                found_channels,
                channels,
            ),
            mention_of(id, by_nickname),
        ),
{
    let m = mention_of(id, by_nickname);
    lemma_mention_shape(id, by_nickname);
    lemma_no_number_sign(id, by_nickname);
    lemma_names_bring_in_nothing(content, MentionKind::Role, found_roles, roles, m);
    lemma_no_tag_is_left(content, MentionKind::Role, found_roles, roles);
    lemma_names_bring_in_nothing(
        with_names(content, MentionKind::Role, found_roles, roles),
        MentionKind::Channel,
        found_channels,
        channels,
        m,
    );
}

proof fn lemma_no_number_sign(id: u64, by_nickname: bool)
    ensures
        forall|k: int|
            2 <= k < mention_of(id, by_nickname).len() ==> #[trigger] mention_of(
                id,
                by_nickname,
            )[k] != '#',
{
    reveal_strlit("<@");
    reveal_strlit("<@!");
    reveal_strlit(">");
    number::lemma_decimal_value(id as nat);
    let m = mention_of(id, by_nickname);
    let start: int = if by_nickname {
        3
    } else {
        2
    };
    assert forall|k: int| start <= k < m.len() - 1 implies '0' <= #[trigger] m[k] <= '9' by {
        assert(m[k] == id_text(id)[k - start]);
    }
}

/// Every sticker keeps its address and is called by the end of it.
pub proof fn law_stickers_are_named(urls: Seq<Seq<char>>, i: int)
    requires
        0 <= i < urls.len(),
    ensures
        named_stickers(urls).len() == urls.len(),
        named_stickers(urls)[i].0 == urls[i],
        named_stickers(urls)[i].1 == file_name(urls[i]),
{
}

/// The picture of an emote is told to move by its extension, whatever its number.
pub proof fn law_emotes_move_by_their_extension(id: u64)
    ensures
        text::extension_of(emote_url(id_text(id), true)) == Some("gif"@),
        text::extension_of(emote_url(id_text(id), false)) == Some("png"@),
        file_name(emote_url(id_text(id), true)) == id_text(id) + ".gif"@,
        file_name(emote_url(id_text(id), false)) == id_text(id) + ".png"@,
{
    lemma_picture_name(id, "gif"@, ".gif"@, 'g', 'i', 'f');
    lemma_picture_name(id, "png"@, ".png"@, 'p', 'n', 'g');
}

proof fn lemma_picture_name(id: u64, end: Seq<char>, dotted: Seq<char>, a: char, b: char, c: char)
    requires
        (end == "gif"@ && dotted == ".gif"@ && a == 'g' && b == 'i' && c == 'f') || (end == "png"@
            && dotted == ".png"@ && a == 'p' && b == 'n' && c == 'g'),
    ensures
        text::extension_of("https://cdn.discordapp.com/emojis/"@ + id_text(id) + dotted) == Some(
            end,
        ),
        file_name("https://cdn.discordapp.com/emojis/"@ + id_text(id) + dotted) == id_text(id)
            + dotted,
{
    reveal_strlit("gif");
    reveal_strlit("png");
    reveal_strlit(".gif");
    reveal_strlit(".png");
    reveal_strlit("https://cdn.discordapp.com/emojis/");
    reveal_strlit("https://cdn.discordapp.com/emojis");
    reveal_strlit(".");
    let stem = id_text(id);
    let place = "https://cdn.discordapp.com/emojis"@;
    number::lemma_decimal_value(id as nat);
    assert(end =~= seq![a, b, c]);
    assert(dotted =~= seq!['.'] + end);
    assert("https://cdn.discordapp.com/emojis/"@ =~= place + seq!['/']);
    assert(forall|k: int| 0 <= k < stem.len() ==> '0' <= #[trigger] stem[k] <= '9');
    assert(!stem.contains('/')) by {
        if stem.contains('/') {
            assert(stem[stem.index_of('/')] == '/');
        }
    }
    assert(!end.contains('/') && !end.contains('.')) by {
        if end.contains('/') {
            assert(end[end.index_of('/')] == '/');
        }
        if end.contains('.') {
            assert(end[end.index_of('.')] == '.');
        }
    }
    let name = stem + seq!['.'] + end;
    assert(!name.contains('/')) by {
        if name.contains('/') {
            let k = name.index_of('/');
            if k < stem.len() {
                assert(stem[k] == '/');
            } else if k > stem.len() {
                assert(end[k - stem.len() - 1] == '/');
            }
        }
    }
    assert("https://cdn.discordapp.com/emojis/"@ + stem + dotted =~= place + seq!['/'] + name);
    assert(stem + dotted =~= name);
    text::law_extensions(place, stem, end);
    law_files_are_named_by_their_end(place, name);
}

/// A reaction is called by its emoji, or by the name of its emote, or by the emote's number where it
/// has no name.
pub proof fn law_reactions_are_called(emoji: String, id: u64, name: String, animated: bool)
    ensures
        ReactionEmoji::Unicode(emoji).called() == Some(emoji@),
        (ReactionEmoji::Custom { id, name: Some(name), animated }).called() == Some(name@),
        (ReactionEmoji::Custom { id, name: None, animated }).called() == Some(
            "custom_"@ + id_text(id),
        ),
        ReactionEmoji::Unknown.called() is None,
{
}

/// What an embed says is written out: who wrote it, its title with its address, its description,
/// its footer and its pictures.
pub proof fn law_embeds_say_what_they_hold(embed: Embed)
    ensures
        embed.author matches Some(author) ==> text::holds(
            embed_text(embed),
            "**"@ + author@ + "**\n"@,
        ),
        embed.title is Some && embed.url is Some ==> text::holds(
            embed_text(embed),
            "**["@ + embed.title->0@ + "]("@ + embed.url->0@ + ")**\n"@,
        ),
        embed.title is Some && embed.url is None ==> text::holds(
            embed_text(embed),
            "**"@ + embed.title->0@ + "**\n"@,
        ),
        embed.description matches Some(description) ==> text::holds(
            embed_text(embed),
            description@,
        ),
        embed.footer matches Some(footer) ==> text::holds(
            embed_text(embed),
            "\n\n*"@ + footer@ + "*"@,
        ),
        embed.image matches Some(image) ==> text::holds(embed_text(embed), "\n"@ + image@),
        embed.thumbnail matches Some(thumbnail) ==> text::holds(
            embed_text(embed),
            "\n"@ + thumbnail@,
        ),
{
    let none = Seq::<char>::empty();
    let a = wrapped("**"@, embed.author, "**\n"@);
    let b = embed_title(embed);
    let c = wrapped(none, embed.description, "\n"@);
    let d = embed_fields(embed.fields@);
    let e = wrapped("\n\n*"@, embed.footer, "*"@);
    let f = wrapped("\n"@, embed.image, none);
    let g = wrapped("\n"@, embed.thumbnail, none);
    lemma_seven_parts("\n\n---\n"@, a, b, c, d, e, f, g);
    if let Some(description) = embed.description {
        assert(c == none + description@ + "\n"@);
        text::lemma_part_is_held(none, description@, "\n"@);
        lemma_held_within(embed_text(embed), c, description@);
    }
    if let Some(image) = embed.image {
        assert(f =~= "\n"@ + image@);
    }
    if let Some(thumbnail) = embed.thumbnail {
        assert(g =~= "\n"@ + thumbnail@);
    }
}

proof fn lemma_seven_parts(
    start: Seq<char>,
    a: Seq<char>,
    b: Seq<char>,
    c: Seq<char>,
    d: Seq<char>,
    e: Seq<char>,
    f: Seq<char>,
    g: Seq<char>,
)
    ensures
        ({
            let whole = start + a + b + c + d + e + f + g;
            &&& text::holds(whole, a)
            &&& text::holds(whole, b)
            &&& text::holds(whole, c)
            &&& text::holds(whole, d)
            &&& text::holds(whole, e)
            &&& text::holds(whole, f)
            &&& text::holds(whole, g)
        }),
{
    text::lemma_last_is_held(start, a);
    text::lemma_last_is_held(start + a, b);
    text::lemma_last_is_held(start + a + b, c);
    text::lemma_last_is_held(start + a + b + c, d);
    text::lemma_last_is_held(start + a + b + c + d, e);
    text::lemma_last_is_held(start + a + b + c + d + e, f);
    text::lemma_last_is_held(start + a + b + c + d + e + f, g);
}

proof fn lemma_held_within(whole: Seq<char>, part: Seq<char>, inner: Seq<char>)
    requires
        text::holds(whole, part),
        text::holds(part, inner),
    ensures
        text::holds(whole, inner),
{
    let at = choose|at: int| text::stands_at(whole, part, at);
    let k = choose|k: int| text::stands_at(part, inner, k);
    assert(whole.subrange(at + k, at + k + inner.len()) =~= part.subrange(k, k + inner.len())) by {
        assert(part =~= whole.subrange(at, at + part.len()));
    }
    assert(text::stands_at(whole, inner, at + k));
}

} // verus!

//! Searching text for the patterns that the bridge rewrites.

use vstd::prelude::*;

use crate::number;
use crate::text;

verus! {

/// The patterns that the bridge looks for.
#[derive(Clone, Copy, PartialEq, Eq, Structural, Debug)]
pub enum Pattern {
    /// A Discord role mention.
    RoleMention,
    /// A Discord channel mention.
    ChannelMention,
    /// A Discord custom emote.
    DiscordEmote,
    /// The quoted fallback of a Matrix reply.
    ReplyFallback,
    /// An emote shortcode between colons.
    Shortcode,
    /// An emoticon image whose source stands before its title.
    ImageTag,
    /// An emoticon image whose title stands before its source.
    ImageTagTitleFirst,
    /// The Matrix user of a Discord user.
    PuppetMention,
    /// A word between colons.
    Emote,
    /// The number at the end of a Discord emote.
    EmoteId,
}

impl Pattern {
    /// The regular expression of a pattern.
    pub open spec fn expression(self) -> Seq<char> {
        match self {
            Pattern::RoleMention => r"<@&(\d+)>"@,
            Pattern::ChannelMention => r"<#(\d+)>"@,
            Pattern::DiscordEmote => r"<a?:(\w+):(\d+)>"@,
            Pattern::ReplyFallback => r"(?s)<mx-reply>.*?</mx-reply>"@,
            Pattern::Shortcode => r":([a-zA-Z0-9_-]+):"@,
            Pattern::ImageTag =>
                r#"<img[^>]*data-mx-emoticon[^>]*src="(mxc://[^"]+)"[^>]*(?:alt|title)="?:?([^:">]+):?"?[^>]*/?>"#@,
            Pattern::ImageTagTitleFirst =>
                r#"<img[^>]*(?:alt|title)="?:?([^:">]+):?"?[^>]*data-mx-emoticon[^>]*src="(mxc://[^"]+)"[^>]*/?>"#@,
            Pattern::PuppetMention => r"@_discord_(\d+)(?:-\d+)?:[\w.\-]+"@,
            Pattern::Emote => r":(\w+):"@,
            Pattern::EmoteId => r":(\d+)>$"@,
        }
    }

    /// How many groups a pattern captures. Each of them takes part in every match.
    pub open spec fn groups(self) -> nat {
        match self {
            Pattern::ReplyFallback => 0,
            Pattern::DiscordEmote => 2,
            Pattern::ImageTag => 2,
            Pattern::ImageTagTitleFirst => 2,
            _ => 1,
        }
    }

    fn expression_text(self) -> (s: &'static str)
        ensures
            s@ == self.expression(),
    {
        match self {
            Pattern::RoleMention => r"<@&(\d+)>",
            Pattern::ChannelMention => r"<#(\d+)>",
            Pattern::DiscordEmote => r"<a?:(\w+):(\d+)>",
            Pattern::ReplyFallback => r"(?s)<mx-reply>.*?</mx-reply>",
            Pattern::Shortcode => r":([a-zA-Z0-9_-]+):",
            Pattern::ImageTag =>
                r#"<img[^>]*data-mx-emoticon[^>]*src="(mxc://[^"]+)"[^>]*(?:alt|title)="?:?([^:">]+):?"?[^>]*/?>"#,
            Pattern::ImageTagTitleFirst =>
                r#"<img[^>]*(?:alt|title)="?:?([^:">]+):?"?[^>]*data-mx-emoticon[^>]*src="(mxc://[^"]+)"[^>]*/?>"#,
            Pattern::PuppetMention => r"@_discord_(\d+)(?:-\d+)?:[\w.\-]+",
            Pattern::Emote => r":(\w+):",
            Pattern::EmoteId => r":(\d+)>$",
        }
    }

    fn group_count(self) -> (n: usize)
        ensures
            n == self.groups(),
    {
        match self {
            Pattern::ReplyFallback => 0,
            Pattern::DiscordEmote => 2,
            Pattern::ImageTag => 2,
            Pattern::ImageTagTitleFirst => 2,
            _ => 1,
        }
    }
}

/// A match by its place in bytes, with the text of the whole match and of its groups.
struct Capture {
    start: usize,
    end: usize,
    groups: Vec<String>,
}

/// A match: where it stands and what its groups hold, the whole match first.
#[verifier::ext_equal]
pub struct MatchView {
    pub start: int,
    pub end: int,
    pub groups: Seq<Seq<char>>,
}

impl Capture {
    spec fn view(&self) -> MatchView {
        MatchView {
            start: self.start as int,
            end: self.end as int,
            groups: text::texts(self.groups@),
        }
    }
}

/// The matches of a regular expression in a text, places counted in bytes, with the whole match and
/// the first `groups` groups of each.
pub uninterp spec fn regex_captures(
    expression: Seq<char>,
    groups: nat,
    s: Seq<char>,
) -> Seq<MatchView>;

/// Whether a match that is placed in bytes lies on characters of `s`.
pub open spec fn lies_on_characters(m: MatchView, s: Seq<char>) -> bool {
    exists|a: int, b: int|
        0 <= a <= b <= s.len() && m.start == #[trigger] number::utf8_len(s.take(a)) && m.end
            == #[trigger] number::utf8_len(s.take(b)) && m.groups[0] == s.subrange(a, b)
}

/// Searches with `regex::Regex::captures_iter`, taking each match's start and end and the text of
/// its groups. Trusted: for one of the known expressions, all of whose groups take part in every
/// match, the outcome depends on the expression and the text alone; matches come in order, do not
/// overlap and are not empty, since each of the expressions asks for some character; their places
/// are character boundaries, and the first group is the text between them.
#[verifier::external_body]
fn captures(expression: &str, groups: usize, s: &str) -> (found: Vec<Capture>)
    requires
        exists|p: Pattern| expression@ == #[trigger] p.expression() && groups == p.groups(),
    ensures
        found@.map_values(|c: Capture| c.view()) == regex_captures(expression@, groups as nat, s@),
        forall|i: int|
            0 <= i < found@.len() ==> (#[trigger] found@[i]).view().groups.len() == groups + 1,
        forall|i: int|
            0 <= i < found@.len() ==> lies_on_characters((#[trigger] found@[i]).view(), s@),
        forall|i: int|
            0 <= i < found@.len() ==> (#[trigger] found@[i]).view().start < found@[i].view().end,
        forall|i: int, j: int|
            0 <= i < j < found@.len() ==> (#[trigger] found@[i]).view().end <= (
            #[trigger] found@[j]).view().start,
{
    regex::Regex::new(expression).unwrap().captures_iter(s).map(
        |c| Capture {
            start: c.get(0).unwrap().start(),
            end: c.get(0).unwrap().end(),
            groups: (0..=groups).map(|g| c[g].to_string()).collect(),
        },
    ).collect()
}

/// How many characters begin before byte `at` of the encoding of `s`.
pub open spec fn characters_before(s: Seq<char>, at: int) -> int
    decreases s.len(),
{
    if at <= 0 || s.len() == 0 {
        0
    } else {
        1 + characters_before(s.drop_first(), at - number::utf8_len(seq![s[0]]))
    }
}

/// The first `k` characters begin before the byte where they end.
proof fn lemma_characters_before(s: Seq<char>, k: int)
    requires
        0 <= k <= s.len(),
    ensures
        characters_before(s, number::utf8_len(s.take(k)) as int) == k,
    decreases s.len(),
{
    if k == 0 {
        assert(s.take(0) =~= Seq::<char>::empty());
        assert(vstd::utf8::encode_utf8(Seq::<char>::empty()).len() == 0);
    } else {
        let rest = s.drop_first();
        lemma_characters_before(rest, k - 1);
        assert(s.take(k) =~= seq![s[0]] + rest.take(k - 1));
        number::lemma_encode_concat(seq![s[0]], rest.take(k - 1));
        number::lemma_utf8_len_push(Seq::<char>::empty(), s[0]);
    }
}

/// Counts the characters that begin before byte `at`.
fn count_characters_before(chars: &Vec<char>, at: usize) -> (n: usize)
    ensures
        n == characters_before(chars@, at as int),
        n <= chars@.len(),
{
    let length: usize = chars.len();
    let mut left: usize = at;
    let mut i: usize = 0;
    assert(chars@.skip(0) =~= chars@);
    while left > 0 && i < length
        invariant
            length == chars@.len(),
            i <= length,
            i + characters_before(chars@.skip(i as int), left as int) == characters_before(
                chars@,
                at as int,
            ),
        decreases length - i,
    {
        let width: usize = number::char_width(chars[i]);
        proof {
            let rest = chars@.skip(i as int);
            assert(rest.drop_first() =~= chars@.skip(i + 1));
            assert(characters_before(rest, left as int) == 1 + characters_before(
                chars@.skip(i + 1),
                left - width,
            ));
        }
        if left < width {
            left = 0;
        } else {
            left = left - width;
        }
        i += 1;
    }
    i
}

/// A match: where it stands, counted in characters, and what its groups hold, the whole match
/// first.
pub struct Match {
    pub start: usize,
    pub end: usize,
    pub groups: Vec<String>,
}

impl View for Match {
    type V = MatchView;

    open spec fn view(&self) -> MatchView {
        MatchView {
            start: self.start as int,
            end: self.end as int,
            groups: text::texts(self.groups@),
        }
    }
}

/// The views of matches.
pub open spec fn match_views(found: Seq<Match>) -> Seq<MatchView> {
    Seq::new(found.len(), |i: int| found[i]@)
}

/// A match whose place is counted in characters, from one whose place is counted in bytes.
pub open spec fn in_characters(m: MatchView, s: Seq<char>) -> MatchView {
    MatchView {
        start: characters_before(s, m.start),
        end: characters_before(s, m.end),
        groups: m.groups,
    }
}

/// The matches of a pattern in a text, in order.
pub open spec fn matches_of(pattern: Pattern, s: Seq<char>) -> Seq<MatchView> {
    regex_captures(pattern.expression(), pattern.groups(), s).map_values(
        |m: MatchView| in_characters(m, s),
    )
}

/// Whether matches lie in `s`, one after the other, with `groups` groups each.
pub open spec fn well_placed(found: Seq<MatchView>, s: Seq<char>, groups: nat) -> bool {
    &&& forall|i: int|
        0 <= i < found.len() ==> {
            &&& 0 <= (#[trigger] found[i]).start < found[i].end <= s.len()
            &&& found[i].groups.len() == groups + 1
            &&& found[i].groups[0] == s.subrange(found[i].start, found[i].end)
        }
    &&& forall|i: int, j: int|
        0 <= i < j < found.len() ==> (#[trigger] found[i]).end <= (#[trigger] found[j]).start
}

/// Finds the matches of a pattern.
pub fn find_all(pattern: Pattern, s: &str) -> (found: Vec<Match>)
    ensures
        match_views(found@) == matches_of(pattern, s@),
        well_placed(match_views(found@), s@, pattern.groups()),
{
    let expression = pattern.expression_text();
    let groups: usize = pattern.group_count();
    let captured = captures(expression, groups, s);
    let chars = text::chars_of(s);
    let count: usize = captured.len();
    let ghost all = captured@;
    let mut found: Vec<Match> = Vec::new();
    let mut i: usize = 0;
    while i < count
        invariant
            chars@ == s@,
            all == captured@,
            count == all.len(),
            i <= count,
            found@.len() == i,
            forall|j: int|
                0 <= j < i ==> (#[trigger] found@[j])@ == in_characters(all[j].view(), s@),
        decreases count - i,
    {
        let start: usize = count_characters_before(&chars, captured[i].start);
        let end: usize = count_characters_before(&chars, captured[i].end);
        found.push(Match { start, end, groups: text::copy_texts(&captured[i].groups) });
        i += 1;
    }
    proof {
        let named = regex_captures(pattern.expression(), pattern.groups(), s@);
        assert forall|i: int| 0 <= i < all.len() implies named[i] == (#[trigger] all[i]).view() by {
            assert(all.map_values(|c: Capture| c.view())[i] == all[i].view());
        }
        assert(match_views(found@) =~= matches_of(pattern, s@));
        lemma_well_placed(named, s@, pattern.groups());
    }
    found
}

/// Matches that lie on characters are well placed once their places are counted in characters.
proof fn lemma_well_placed(named: Seq<MatchView>, s: Seq<char>, groups: nat)
    requires
        forall|i: int| 0 <= i < named.len() ==> (#[trigger] named[i]).groups.len() == groups + 1,
        forall|i: int| 0 <= i < named.len() ==> lies_on_characters(#[trigger] named[i], s),
        forall|i: int| 0 <= i < named.len() ==> (#[trigger] named[i]).start < named[i].end,
        forall|i: int, j: int|
            0 <= i < j < named.len() ==> (#[trigger] named[i]).end <= (#[trigger] named[j]).start,
    ensures
        well_placed(named.map_values(|m: MatchView| in_characters(m, s)), s, groups),
{
    let found = named.map_values(|m: MatchView| in_characters(m, s));
    assert forall|i: int| 0 <= i < found.len() implies {
        &&& 0 <= (#[trigger] found[i]).start < found[i].end <= s.len()
        &&& found[i].groups.len() == groups + 1
        &&& found[i].groups[0] == s.subrange(found[i].start, found[i].end)
    } by {
        lemma_placed(named[i], s);
    }
    assert forall|i: int, j: int| 0 <= i < j < found.len() implies (#[trigger] found[i]).end <= (
    #[trigger] found[j]).start by {
        lemma_placed(named[i], s);
        lemma_placed(named[j], s);
        assert(named[i].end <= named[j].start);
        lemma_prefix_order(s, found[i].end, found[j].start);
    }
}

/// Where a match that lies on characters is, counted in characters.
proof fn lemma_placed(m: MatchView, s: Seq<char>)
    requires
        lies_on_characters(m, s),
    ensures
        0 <= in_characters(m, s).start <= in_characters(m, s).end <= s.len(),
        m.start == number::utf8_len(s.take(in_characters(m, s).start)),
        m.end == number::utf8_len(s.take(in_characters(m, s).end)),
        m.groups[0] == s.subrange(in_characters(m, s).start, in_characters(m, s).end),
{
    let (a, b) = choose|a: int, b: int|
        0 <= a <= b <= s.len() && m.start == #[trigger] number::utf8_len(s.take(a)) && m.end
            == #[trigger] number::utf8_len(s.take(b)) && m.groups[0] == s.subrange(a, b);
    lemma_characters_before(s, a);
    lemma_characters_before(s, b);
}

/// A longer beginning of a text takes more bytes.
proof fn lemma_prefix_order(s: Seq<char>, a: int, b: int)
    requires
        0 <= a <= s.len(),
        0 <= b <= s.len(),
        number::utf8_len(s.take(a)) <= number::utf8_len(s.take(b)),
    ensures
        a <= b,
    decreases a,
{
    if b < a {
        lemma_prefix_grows(s, b, a);
    }
}

proof fn lemma_prefix_grows(s: Seq<char>, a: int, b: int)
    requires
        0 <= a < b <= s.len(),
    ensures
        number::utf8_len(s.take(a)) < number::utf8_len(s.take(b)),
    decreases b - a,
{
    assert(s.take(b) =~= s.take(b - 1).push(s[b - 1]));
    number::lemma_utf8_len_push(s.take(b - 1), s[b - 1]);
    if a < b - 1 {
        lemma_prefix_grows(s, a, b - 1);
    }
}

/// The text from `from` on with `replacements` in place of the matches.
pub open spec fn spliced(
    s: Seq<char>,
    found: Seq<MatchView>,
    replacements: Seq<Seq<char>>,
    from: int,
) -> Seq<char>
    decreases found.len(),
{
    if found.len() == 0 {
        s.skip(from)
    } else {
        s.subrange(from, found[0].start) + replacements[0] + spliced(
            s,
            found.drop_first(),
            replacements.drop_first(),
            found[0].end,
        )
    }
}

/// Puts a replacement in place of each match.
pub fn splice(s: &str, found: &Vec<Match>, replacements: &Vec<String>) -> (res: String)
    requires
        found@.len() == replacements@.len(),
        exists|groups: nat| well_placed(match_views(found@), s@, groups),
    ensures
        res@ == spliced(s@, match_views(found@), text::texts(replacements@), 0),
{
    let chars = text::chars_of(s);
    let count: usize = found.len();
    let ghost views = match_views(found@);
    let ghost reps = text::texts(replacements@);
    let mut res = String::new();
    let mut from: usize = 0;
    let mut i: usize = 0;
    proof {
        assert(views.skip(0) =~= views);
        assert(reps.skip(0) =~= reps);
        assert(res@ + spliced(s@, views, reps, 0) =~= spliced(s@, views, reps, 0));
    }
    while i < count
        invariant
            chars@ == s@,
            count == found@.len(),
            count == replacements@.len(),
            views == match_views(found@),
            reps == text::texts(replacements@),
            exists|groups: nat| well_placed(views, s@, groups),
            0 <= i <= count,
            from <= s@.len(),
            i > 0 ==> from == views[i - 1].end,
            i == 0 ==> from == 0,
            res@ + spliced(s@, views.skip(i as int), reps.skip(i as int), from as int) == spliced(
                s@,
                views,
                reps,
                0,
            ),
        decreases count - i,
    {
        let m = &found[i];
        proof {
            assert(views[i as int] == m@);
            assert(views.skip(i as int)[0] == m@);
            assert(reps.skip(i as int)[0] == replacements@[i as int]@);
            assert(views.skip(i as int).drop_first() =~= views.skip(i + 1));
            assert(reps.skip(i as int).drop_first() =~= reps.skip(i + 1));
        }
        let ghost before = res@;
        let between = text::string_of(&chars, from, m.start);
        res.append(between.as_str());
        res.append(replacements[i].as_str());
        from = m.end;
        i += 1;
        proof {
            let rest = spliced(s@, views.skip(i as int), reps.skip(i as int), from as int);
            assert(res@ + rest =~= before + (between@ + replacements@[i - 1]@ + rest));
        }
    }
    let tail = text::string_of(&chars, from, chars.len());
    assert(tail@ =~= s@.skip(from as int));
    res.append(tail.as_str());
    res
}

/// A text in which a pattern does not occur stays as it is.
pub proof fn law_splice_without_matches(s: Seq<char>)
    ensures
        spliced(s, Seq::empty(), Seq::empty(), 0) == s,
{
    assert(s.skip(0) =~= s);
}

/// How much further back a text stands once the first `n` matches before it have their replacements.
pub open spec fn drift(found: Seq<MatchView>, replacements: Seq<Seq<char>>, n: int) -> int
    decreases n,
{
    if n <= 0 {
        0
    } else {
        drift(found, replacements, n - 1) + replacements[n - 1].len() - (found[n - 1].end - found[n
            - 1].start)
    }
}

/// Whether matches lie in a text, one after the other.
pub open spec fn in_order(found: Seq<MatchView>, from: int, length: int) -> bool {
    &&& 0 <= from <= length
    &&& forall|i: int|
        0 <= i < found.len() ==> from <= (#[trigger] found[i]).start <= found[i].end <= length
    &&& forall|i: int, j: int|
        0 <= i < j < found.len() ==> (#[trigger] found[i]).end <= (#[trigger] found[j]).start
}

proof fn lemma_drift_front(found: Seq<MatchView>, replacements: Seq<Seq<char>>, n: int)
    requires
        0 < n <= found.len(),
        found.len() == replacements.len(),
    ensures
        drift(found, replacements, n) == replacements[0].len() - (found[0].end - found[0].start)
            + drift(found.drop_first(), replacements.drop_first(), n - 1),
    decreases n,
{
    if n > 1 {
        lemma_drift_front(found, replacements, n - 1);
        assert(found.drop_first()[n - 2] == found[n - 1]);
        assert(replacements.drop_first()[n - 2] == replacements[n - 1]);
    } else {
        assert(drift(found, replacements, 0) == 0);
        assert(drift(found.drop_first(), replacements.drop_first(), 0) == 0);
    }
}

proof fn lemma_rest_in_order(found: Seq<MatchView>, from: int, length: int)
    requires
        in_order(found, from, length),
        found.len() > 0,
    ensures
        in_order(found.drop_first(), found[0].end, length),
        from <= found[0].start <= found[0].end <= length,
{
    let rest = found.drop_first();
    assert forall|i: int| 0 <= i < rest.len() implies found[0].end <= (#[trigger] rest[i]).start
        <= rest[i].end <= length by {
        assert(rest[i] == found[i + 1]);
    }
    assert forall|i: int, j: int| 0 <= i < j < rest.len() implies (#[trigger] rest[i]).end <= (
    #[trigger] rest[j]).start by {
        assert(rest[i] == found[i + 1] && rest[j] == found[j + 1]);
    }
}

proof fn lemma_spliced_length(
    s: Seq<char>,
    found: Seq<MatchView>,
    replacements: Seq<Seq<char>>,
    from: int,
)
    requires
        in_order(found, from, s.len() as int),
        found.len() == replacements.len(),
    ensures
        spliced(s, found, replacements, from).len() == s.len() - from + drift(
            found,
            replacements,
            found.len() as int,
        ),
    decreases found.len(),
{
    if found.len() > 0 {
        lemma_rest_in_order(found, from, s.len() as int);
        lemma_spliced_length(s, found.drop_first(), replacements.drop_first(), found[0].end);
        lemma_drift_front(found, replacements, found.len() as int);
    }
}

proof fn lemma_spliced_match(
    s: Seq<char>,
    found: Seq<MatchView>,
    replacements: Seq<Seq<char>>,
    from: int,
    i: int,
)
    requires
        in_order(found, from, s.len() as int),
        found.len() == replacements.len(),
        0 <= i < found.len(),
    ensures
        text::stands_at(
            spliced(s, found, replacements, from),
            replacements[i],
            found[i].start - from + drift(found, replacements, i),
        ),
    decreases found.len(),
{
    let out = spliced(s, found, replacements, from);
    let rest_found = found.drop_first();
    let rest_replacements = replacements.drop_first();
    let rest = spliced(s, rest_found, rest_replacements, found[0].end);
    let head = s.subrange(from, found[0].start);
    let shift = (head.len() + replacements[0].len()) as int;
    lemma_rest_in_order(found, from, s.len() as int);
    assert(out == head + replacements[0] + rest);
    if i == 0 {
        assert(drift(found, replacements, 0) == 0);
        assert(out.subrange(head.len() as int, shift) =~= replacements[0]);
    } else {
        lemma_spliced_match(s, rest_found, rest_replacements, found[0].end, i - 1);
        lemma_drift_front(found, replacements, i);
        assert(rest_found[i - 1] == found[i]);
        assert(rest_replacements[i - 1] == replacements[i]);
        let at = found[i].start - found[0].end + drift(rest_found, rest_replacements, i - 1);
        let len = replacements[i].len();
        assert(out.subrange(at + shift, at + shift + len) =~= rest.subrange(at, at + len));
    }
}

proof fn lemma_spliced_outside(
    s: Seq<char>,
    found: Seq<MatchView>,
    replacements: Seq<Seq<char>>,
    from: int,
    i: int,
    k: int,
)
    requires
        in_order(found, from, s.len() as int),
        found.len() == replacements.len(),
        0 <= i <= found.len(),
        from <= k < s.len(),
        i > 0 ==> found[i - 1].end <= k,
        i < found.len() ==> k < found[i].start,
    ensures
        ({
            let at = k - from + drift(found, replacements, i);
            0 <= at < spliced(s, found, replacements, from).len() && spliced(
                s,
                found,
                replacements,
                from,
            )[at] == s[k]
        }),
    decreases found.len(),
{
    let out = spliced(s, found, replacements, from);
    if i == 0 {
        assert(drift(found, replacements, 0) == 0);
        if found.len() > 0 {
            let head = s.subrange(from, found[0].start);
            lemma_rest_in_order(found, from, s.len() as int);
            assert(out[k - from] == head[k - from]);
        } else {
            assert(out == s.skip(from));
        }
    } else {
        let rest_found = found.drop_first();
        let rest_replacements = replacements.drop_first();
        let rest = spliced(s, rest_found, rest_replacements, found[0].end);
        let head = s.subrange(from, found[0].start);
        let shift = (head.len() + replacements[0].len()) as int;
        lemma_rest_in_order(found, from, s.len() as int);
        lemma_drift_front(found, replacements, i);
        if i > 1 {
            assert(rest_found[i - 2] == found[i - 1]);
            assert(found[0].end <= found[i - 1].start);
        }
        if i < found.len() {
            assert(rest_found[i - 1] == found[i]);
        }
        lemma_spliced_outside(s, rest_found, rest_replacements, found[0].end, i - 1, k);
        let at = k - found[0].end + drift(rest_found, rest_replacements, i - 1);
        assert(out == head + replacements[0] + rest);
        assert(out[at + shift] == rest[at]);
    }
}

/// Every match has its replacement in its place, and every character outside the matches is still
/// there: each stands as much further back as the matches before it have grown.
pub proof fn law_every_match_is_replaced(
    s: Seq<char>,
    found: Seq<MatchView>,
    replacements: Seq<Seq<char>>,
)
    requires
        in_order(found, 0, s.len() as int),
        found.len() == replacements.len(),
    ensures
        ({
            let out = spliced(s, found, replacements, 0);
            &&& out.len() == s.len() + drift(found, replacements, found.len() as int)
            &&& forall|i: int|
                0 <= i < found.len() ==> text::stands_at(
                    out,
                    replacements[i],
                    (#[trigger] found[i]).start + drift(found, replacements, i),
                )
            &&& forall|i: int, k: int|
                0 <= i <= found.len() && 0 <= k < s.len() && (i > 0 ==> found[i - 1].end <= k) && (i
                    < found.len() ==> k < found[i].start) ==> {
                    let at = k + #[trigger] drift(found, replacements, i);
                    0 <= at < out.len() && out[at] == #[trigger] s[k]
                }
        }),
{
    let out = spliced(s, found, replacements, 0);
    lemma_spliced_length(s, found, replacements, 0);
    assert forall|i: int| 0 <= i < found.len() implies text::stands_at(
        out,
        replacements[i],
        (#[trigger] found[i]).start + drift(found, replacements, i),
    ) by {
        lemma_spliced_match(s, found, replacements, 0, i);
    }
    assert forall|i: int, k: int|
        0 <= i <= found.len() && 0 <= k < s.len() && (i > 0 ==> found[i - 1].end <= k) && (i
            < found.len() ==> k < found[i].start) implies ({
        let at = k + #[trigger] drift(found, replacements, i);
        0 <= at < out.len() && out[at] == #[trigger] s[k]
    }) by {
        lemma_spliced_outside(s, found, replacements, 0, i, k);
    }
}

/// A place among the bytes of a text is turned into the place of the same character.
pub proof fn law_places_are_counted_in_characters(s: Seq<char>, n: int)
    requires
        0 <= n <= s.len(),
    ensures
        characters_before(s, number::utf8_len(s.take(n)) as int) == n,
{
    lemma_characters_before(s, n);
}

/// Every match is kept, in its order and with its groups; only its place is counted in characters.
pub proof fn law_every_match_is_kept(pattern: Pattern, s: Seq<char>, i: int)
    ensures
        ({
            let raw = regex_captures(pattern.expression(), pattern.groups(), s);
            let found = matches_of(pattern, s);
            &&& found.len() == raw.len()
            &&& 0 <= i < raw.len() ==> found[i].groups == raw[i].groups && found[i].start
                == characters_before(s, raw[i].start) && found[i].end == characters_before(
                s,
                raw[i].end,
            )
        }),
{
}

/// Numbers and names are written alike in all patterns: a mention has its sign before a number, an
/// emote its name and its number, and a puppet its number, whatever hash and server follow.
pub proof fn law_patterns_share_numbers_and_names()
    ensures
        ({
            let number = r"(\d+)"@;
            let name = r"(\w+)"@;
            &&& Pattern::RoleMention.expression() == "<@&"@ + number + ">"@
            &&& Pattern::ChannelMention.expression() == "<#"@ + number + ">"@
            &&& Pattern::DiscordEmote.expression() == "<a?:"@ + name + ":"@ + number + ">"@
            &&& Pattern::Emote.expression() == ":"@ + name + ":"@
            &&& Pattern::EmoteId.expression() == ":"@ + number + ">$"@
            &&& Pattern::PuppetMention.expression() == "@_discord_"@ + number
                + r"(?:-\d+)?:[\w.\-]+"@
            &&& Pattern::Shortcode.expression() == ":"@ + r"([a-zA-Z0-9_-]+)"@ + ":"@
        }),
{
    reveal_strlit(r"<@&(\d+)>");
    reveal_strlit(r"<#(\d+)>");
    reveal_strlit(r"<a?:(\w+):(\d+)>");
    reveal_strlit(r":(\w+):");
    reveal_strlit(r":(\d+)>$");
    reveal_strlit(r"@_discord_(\d+)(?:-\d+)?:[\w.\-]+");
    reveal_strlit(r"(\d+)");
    reveal_strlit(r"(\w+)");
    reveal_strlit("<@&");
    reveal_strlit("<#");
    reveal_strlit("<a?:");
    reveal_strlit(":");
    reveal_strlit(">");
    reveal_strlit(">$");
    reveal_strlit("@_discord_");
    reveal_strlit(r"(?:-\d+)?:[\w.\-]+");
    reveal_strlit(r":([a-zA-Z0-9_-]+):");
    reveal_strlit(r"([a-zA-Z0-9_-]+)");
    let number = r"(\d+)"@;
    let name = r"(\w+)"@;
    assert(r"<@&(\d+)>"@ =~= "<@&"@ + number + ">"@);
    assert(r"<#(\d+)>"@ =~= "<#"@ + number + ">"@);
    assert(r"<a?:(\w+):(\d+)>"@ =~= "<a?:"@ + name + ":"@ + number + ">"@);
    assert(r":(\w+):"@ =~= ":"@ + name + ":"@);
    assert(r":(\d+)>$"@ =~= ":"@ + number + ">$"@);
    assert(r"@_discord_(\d+)(?:-\d+)?:[\w.\-]+"@ =~= "@_discord_"@ + number
        + r"(?:-\d+)?:[\w.\-]+"@);
    assert(r":([a-zA-Z0-9_-]+):"@ =~= ":"@ + r"([a-zA-Z0-9_-]+)"@ + ":"@);
}

/// The two patterns for images have the same parts, with the title behind the address or before it.
pub proof fn law_images_have_their_parts_in_either_order()
    ensures
        ({
            let start = "<img[^>]*"@;
            let address = r#"data-mx-emoticon[^>]*src="(mxc://[^"]+)"[^>]*"#@;
            let title = r#"(?:alt|title)="?:?([^:">]+):?"?[^>]*"#@;
            let end = "/?>"@;
            &&& Pattern::ImageTag.expression() == start + address + title + end
            &&& Pattern::ImageTagTitleFirst.expression() == start + title + address + end
        }),
{
    reveal_strlit("<img[^>]*");
    reveal_strlit(r#"data-mx-emoticon[^>]*src="(mxc://[^"]+)"[^>]*"#);
    reveal_strlit(r#"(?:alt|title)="?:?([^:">]+):?"?[^>]*"#);
    reveal_strlit("/?>");
    reveal_strlit(r#"<img[^>]*data-mx-emoticon[^>]*src="(mxc://[^"]+)"[^>]*(?:alt|title)="?:?([^:">]+):?"?[^>]*/?>"#);
    reveal_strlit(r#"<img[^>]*(?:alt|title)="?:?([^:">]+):?"?[^>]*data-mx-emoticon[^>]*src="(mxc://[^"]+)"[^>]*/?>"#);
    let start = "<img[^>]*"@;
    let address = r#"data-mx-emoticon[^>]*src="(mxc://[^"]+)"[^>]*"#@;
    let title = r#"(?:alt|title)="?:?([^:">]+):?"?[^>]*"#@;
    let end = "/?>"@;
    assert(Pattern::ImageTag.expression() =~= start + address + title + end);
    assert(Pattern::ImageTagTitleFirst.expression() =~= start + title + address + end);
}

} // verus!

//! Escaping for HTML and URLs, and the parts of a URL.

use vstd::prelude::*;
use vstd::utf8::*;

use crate::text;

verus! {

/// What stands for a character in the text of an HTML document.
pub open spec fn html_char(c: char) -> Seq<char> {
    if c == '&' {
        "&amp;"@
    } else if c == '<' {
        "&lt;"@
    } else if c == '>' {
        "&gt;"@
    } else {
        seq![c]
    }
}

/// A text written so that HTML shows it as it is.
pub open spec fn html_text(s: Seq<char>) -> Seq<char>
    decreases s.len(),
{
    if s.len() == 0 {
        Seq::empty()
    } else {
        html_char(s[0]) + html_text(s.drop_first())
    }
}

/// Escapes with `html_escape::encode_text`. Trusted: it replaces `&`, `<` and `>` and keeps every
/// other character.
#[verifier::external_body]
pub(crate) fn escape_html(s: &str) -> (res: String)
    ensures
        res@ == html_text(s@),
{
    html_escape::encode_text(s).into_owned()
}

/// Whether a byte stands for itself in a URL component.
pub open spec fn is_unreserved(b: u8) -> bool {
    ||| 0x30 <= b <= 0x39
    ||| 0x41 <= b <= 0x5a
    ||| 0x61 <= b <= 0x7a
    ||| b == 0x2d
    ||| b == 0x2e
    ||| b == 0x5f
    ||| b == 0x7e
}

/// The upper-case hexadecimal digit of value `d`.
pub open spec fn upper_digit(d: int) -> char {
    if d < 10 {
        (0x30 + d) as char
    } else {
        (0x37 + d) as char
    }
}

/// What stands for a byte in a URL component.
pub open spec fn percent_byte(b: u8) -> Seq<char> {
    if is_unreserved(b) {
        seq![b as char]
    } else {
        seq!['%', upper_digit(b as int / 16), upper_digit(b as int % 16)]
    }
}

/// Bytes written as a URL component.
pub open spec fn percent_bytes(bytes: Seq<u8>) -> Seq<char>
    decreases bytes.len(),
{
    if bytes.len() == 0 {
        Seq::empty()
    } else {
        percent_byte(bytes[0]) + percent_bytes(bytes.drop_first())
    }
}

/// A text written as a URL component.
pub open spec fn percent_text(s: Seq<char>) -> Seq<char> {
    percent_bytes(encode_utf8(s))
}

/// Escapes with `urlencoding::encode`. Trusted: of the text's UTF-8 bytes it keeps ASCII letters,
/// digits and `-`, `.`, `_`, `~`, and writes every other one as `%` and two upper-case digits.
#[verifier::external_body]
pub(crate) fn percent_encode(s: &str) -> (res: String)
    ensures
        res@ == percent_text(s@),
{
    urlencoding::encode(s).into_owned()
}

/// Whether a character may stand in an escaped URL component.
pub open spec fn is_component_char(c: char) -> bool {
    ||| '0' <= c <= '9'
    ||| 'A' <= c <= 'Z'
    ||| 'a' <= c <= 'z'
    ||| c == '-'
    ||| c == '.'
    ||| c == '_'
    ||| c == '~'
    ||| c == '%'
}

/// An escaped byte holds only characters of a URL component.
proof fn lemma_percent_byte(b: u8)
    ensures
        forall|i: int|
            0 <= i < percent_byte(b).len() ==> is_component_char(#[trigger] percent_byte(b)[i]),
{
    let high = b as int / 16;
    let low = b as int % 16;
    assert(0 <= high < 16 && 0 <= low < 16);
    assert(is_component_char(upper_digit(high)));
    assert(is_component_char(upper_digit(low)));
}

/// Escaped bytes hold only characters of a URL component.
proof fn lemma_percent_bytes(bytes: Seq<u8>)
    ensures
        forall|i: int|
            0 <= i < percent_bytes(bytes).len() ==> is_component_char(
                #[trigger] percent_bytes(bytes)[i],
            ),
    decreases bytes.len(),
{
    if bytes.len() > 0 {
        lemma_percent_byte(bytes[0]);
        lemma_percent_bytes(bytes.drop_first());
        let head = percent_byte(bytes[0]);
        let tail = percent_bytes(bytes.drop_first());
        assert forall|i: int| 0 <= i < (head + tail).len() implies is_component_char(
            #[trigger] (head + tail)[i],
        ) by {
            if i < head.len() {
                assert((head + tail)[i] == head[i]);
            } else {
                assert((head + tail)[i] == tail[i - head.len()]);
            }
        }
    }
}

/// An escaped text can neither end the path segment or the query parameter it stands in, nor begin
/// another one: it holds no `/`, `?`, `#` or `&`.
pub proof fn law_percent_text_stays_in_its_place(s: Seq<char>, i: int)
    requires
        0 <= i < percent_text(s).len(),
    ensures
        is_component_char(percent_text(s)[i]),
        percent_text(s)[i] != '/',
        percent_text(s)[i] != '?',
        percent_text(s)[i] != '#',
        percent_text(s)[i] != '&',
{
    lemma_percent_bytes(encode_utf8(s));
}

/// The parts of a URL that decide whom it reaches.
pub struct UrlParts {
    pub scheme: Option<String>,
    pub host: Option<String>,
}

/// What reading a URL gives: its scheme and host, or what is wrong with it.
pub uninterp spec fn url_reading(url: Seq<char>) -> Result<
    (Option<Seq<char>>, Option<Seq<char>>),
    Seq<char>,
>;

/// The text that an optional string holds.
pub open spec fn opt_text(s: Option<String>) -> Option<Seq<char>> {
    match s {
        Some(value) => Some(value@),
        None => None,
    }
}

/// A reading over the texts it holds.
pub open spec fn reading_texts(res: Result<UrlParts, String>) -> Result<
    (Option<Seq<char>>, Option<Seq<char>>),
    Seq<char>,
> {
    match res {
        Ok(parts) => Ok((opt_text(parts.scheme), opt_text(parts.host))),
        Err(message) => Err(message@),
    }
}

/// Reads a URL with the `FromStr` of `hyper::Uri`, and takes its `scheme_str` and `host`, or the
/// text of its error. Trusted: the outcome depends on the URL's text alone.
#[verifier::external_body]
fn read_url(url: &str) -> (res: Result<UrlParts, String>)
    ensures
        reading_texts(res) == url_reading(url@),
{
    match url.parse::<hyper::Uri>() {
        Ok(uri) => Ok(
            UrlParts {
                scheme: uri.scheme_str().map(String::from),
                host: uri.host().map(String::from),
            },
        ),
        Err(e) => Err(e.to_string()),
    }
}

/// Whether a URL with this scheme and host leads to Discord's own file servers.
pub open spec fn reaches_discord_files(
    scheme: Option<Seq<char>>,
    host: Option<Seq<char>>,
) -> bool {
    &&& scheme == Some("https"@)
    &&& (host == Some("cdn.discordapp.com"@) || host == Some("media.discordapp.net"@))
}

impl UrlParts {
    /// Whether a URL with these parts leads to Discord's own file servers.
    pub fn is_trusted(&self) -> (res: bool)
        ensures
            res == reaches_discord_files(opt_text(self.scheme), opt_text(self.host)),
    {
        let scheme_fits = match &self.scheme {
            Some(scheme) => text::same(scheme.as_str(), "https"),
            None => false,
        };
        let host_fits = match &self.host {
            Some(host) => text::same(host.as_str(), "cdn.discordapp.com") || text::same(
                host.as_str(),
                "media.discordapp.net",
            ),
            None => false,
        };
        scheme_fits && host_fits
    }
}

/// Whether the bridge fetches from a URL.
pub enum SourceCheck {
    /// It is no URL, for this reason.
    Malformed(String),
    /// It leads elsewhere than to Discord's file servers.
    Untrusted,
    /// It leads to one of them.
    Trusted,
}

/// Whether the bridge fetches from a URL, over texts.
pub enum SourceCheckView {
    Malformed(Seq<char>),
    Untrusted,
    Trusted,
}

impl View for SourceCheck {
    type V = SourceCheckView;

    open spec fn view(&self) -> SourceCheckView {
        match self {
            SourceCheck::Malformed(reason) => SourceCheckView::Malformed(reason@),
            SourceCheck::Untrusted => SourceCheckView::Untrusted,
            SourceCheck::Trusted => SourceCheckView::Trusted,
        }
    }
}

/// Whether the bridge fetches from a URL that reads like this.
pub open spec fn source_check(
    reading: Result<(Option<Seq<char>>, Option<Seq<char>>), Seq<char>>,
) -> SourceCheckView {
    match reading {
        Err(reason) => SourceCheckView::Malformed(reason),
        Ok(parts) => if reaches_discord_files(parts.0, parts.1) {
            SourceCheckView::Trusted
        } else {
            SourceCheckView::Untrusted
        },
    }
}

/// Whether the bridge fetches from a URL that reads like this.
pub fn judge_reading(reading: Result<UrlParts, String>) -> (res: SourceCheck)
    ensures
        res@ == source_check(reading_texts(reading)),
{
    match reading {
        Err(reason) => SourceCheck::Malformed(reason),
        Ok(parts) => if parts.is_trusted() {
            SourceCheck::Trusted
        } else {
            SourceCheck::Untrusted
        },
    }
}

/// Whether the bridge fetches from `url`.
pub fn check_source(url: &str) -> (res: SourceCheck)
    ensures
        res@ == source_check(url_reading(url@)),
{
    judge_reading(read_url(url))
}

/// What is escaped for HTML holds no tag: neither `<` nor `>` is left in it.
pub proof fn law_html_text_has_no_tags(s: Seq<char>)
    ensures
        !html_text(s).contains('<'),
        !html_text(s).contains('>'),
    decreases s.len(),
{
    reveal_strlit("&amp;");
    reveal_strlit("&lt;");
    reveal_strlit("&gt;");
    if s.len() > 0 {
        let head = html_char(s[0]);
        let tail = html_text(s.drop_first());
        law_html_text_has_no_tags(s.drop_first());
        assert forall|c: char| c == '<' || c == '>' implies !(head + tail).contains(c) by {
            if (head + tail).contains(c) {
                let i = (head + tail).index_of(c);
                if i < head.len() {
                    assert(head[i] == c);
                } else {
                    assert(tail[i - head.len()] == c);
                }
            }
        }
    }
}

/// The bridge fetches a file only over an encrypted connection and only from one of Discord's file
/// servers.
pub proof fn law_only_discord_files_are_trusted(
    reading: Result<(Option<Seq<char>>, Option<Seq<char>>), Seq<char>>,
)
    requires
        source_check(reading) is Trusted,
    ensures
        reading matches Ok(parts) && parts.0 == Some("https"@) && (parts.1 == Some(
            "cdn.discordapp.com"@,
        ) || parts.1 == Some("media.discordapp.net"@)),
{
}

/// Text is escaped and encoded piece by piece: what stands before does not change what follows.
pub proof fn law_pieces_are_escaped_alike(a: Seq<char>, b: Seq<char>, c: char)
    ensures
        html_text(a + b) == html_text(a) + html_text(b),
        percent_text(a + b) == percent_text(a) + percent_text(b),
        c != '&' && c != '<' && c != '>' ==> html_text(seq![c]) == seq![c],
        html_text(seq!['&']) == "&amp;"@,
        html_text(seq!['<']) == "&lt;"@,
        html_text(seq!['>']) == "&gt;"@,
    decreases a.len(),
{
    crate::number::lemma_encode_concat(a, b);
    lemma_percent_joins(encode_utf8(a), encode_utf8(b));
    let none = Seq::<char>::empty();
    assert(html_text(none) =~= none);
    assert(seq![c].drop_first() =~= none);
    assert(html_text(seq![c]) =~= html_char(c));
    assert(seq!['&'].drop_first() =~= none);
    assert(html_text(seq!['&']) =~= html_char('&'));
    assert(seq!['<'].drop_first() =~= none);
    assert(html_text(seq!['<']) =~= html_char('<'));
    assert(seq!['>'].drop_first() =~= none);
    assert(html_text(seq!['>']) =~= html_char('>'));
    if a.len() == 0 {
        assert(a + b =~= b);
        assert(none + html_text(b) =~= html_text(b));
    } else {
        law_pieces_are_escaped_alike(a.drop_first(), b, c);
        assert((a + b).drop_first() =~= a.drop_first() + b);
        assert(html_char(a[0]) + (html_text(a.drop_first()) + html_text(b)) =~= (html_char(a[0])
            + html_text(a.drop_first())) + html_text(b));
    }
}

proof fn lemma_percent_joins(a: Seq<u8>, b: Seq<u8>)
    ensures
        percent_bytes(a + b) == percent_bytes(a) + percent_bytes(b),
    decreases a.len(),
{
    if a.len() == 0 {
        assert(a + b =~= b);
        assert(Seq::<char>::empty() + percent_bytes(b) =~= percent_bytes(b));
    } else {
        lemma_percent_joins(a.drop_first(), b);
        assert((a + b).drop_first() =~= a.drop_first() + b);
        assert(percent_byte(a[0]) + (percent_bytes(a.drop_first()) + percent_bytes(b)) =~= (
        percent_byte(a[0]) + percent_bytes(a.drop_first())) + percent_bytes(b));
    }
}

/// Both of Discord's hosts for files are trusted over HTTPS; another host is not, nor another scheme,
/// nor an address without either.
pub proof fn law_discord_files_are_trusted(
    scheme: Option<Seq<char>>,
    host: Option<Seq<char>>,
    reason: Seq<char>,
)
    ensures
        source_check(Ok((Some("https"@), Some("cdn.discordapp.com"@)))) is Trusted,
        source_check(Ok((Some("https"@), Some("media.discordapp.net"@)))) is Trusted,
        scheme != Some("https"@) ==> source_check(Ok((scheme, host))) is Untrusted,
        host != Some("cdn.discordapp.com"@) && host != Some("media.discordapp.net"@)
            ==> source_check(Ok((scheme, host))) is Untrusted,
        source_check(Err(reason)) == SourceCheckView::Malformed(reason),
{
}

} // verus!

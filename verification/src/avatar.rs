//! Links under which Discord can fetch the avatars of Matrix users.

use vstd::prelude::*;
use vstd::string::*;
use vstd::utf8::*;

use crate::config::{Config, ConfigView};
use crate::crypto;
use crate::crypto::SignatureCheck;
use crate::http;
use crate::http::{BodyView, HttpReply, ReplyBody, ReplyView};
use crate::number;
use crate::text;
use crate::text::Trim;
use crate::utils;
use crate::web;

verus! {

/// How many seconds a link stays valid.
pub const LINK_LIFETIME: u64 = 172_800;

/// The server and the file of a Matrix content URL, whether or not `mxc://` stands before them.
pub open spec fn mxc_parts(mxc: Seq<char>) -> Option<(Seq<char>, Seq<char>)> {
    let parts = text::split_text(text::without_leading(mxc, "mxc://"@), seq!['/']);
    if parts.len() == 2 {
        Some((parts[0], parts[1]))
    } else {
        None
    }
}

/// The server and the file of a Matrix content URL.
pub fn split_mxc(mxc: &str) -> (res: Option<(String, String)>)
    ensures
        res is Some <==> mxc_parts(mxc@) is Some,
        res matches Some(parts) ==> mxc_parts(mxc@) == Some((parts.0@, parts.1@)),
{
    proof {
        reveal_strlit("/");
        assert("/"@ =~= seq!['/']);
    }
    let rest = text::trim_start_text(mxc, "mxc://");
    let parts = text::split(rest.as_str(), "/");
    let ghost views = text::texts(parts@);
    if parts.len() == 2 {
        assert(views[0] == parts@[0]@ && views[1] == parts@[1]@);
        Some((parts[0].clone(), parts[1].clone()))
    } else {
        None
    }
}

/// What is signed for a link.
pub open spec fn signed_text(server: Seq<char>, media: Seq<char>, expiry: Seq<char>) -> Seq<char> {
    server + "/"@ + media + "?exp="@ + expiry
}

/// The signature of a link.
pub open spec fn link_signature(
    config: ConfigView,
    server: Seq<char>,
    media: Seq<char>,
    expiry: Seq<char>,
) -> Seq<char> {
    crypto::signature_text(
        encode_utf8(config.avatar_proxy_secret),
        encode_utf8(signed_text(server, media, expiry)),
    )
}

/// Where a link leads on the bridge's web server.
pub open spec fn link_path(server: Seq<char>, media: Seq<char>) -> Seq<char> {
    "/avatar/"@ + server + "/"@ + media
}

/// The query of a link.
pub open spec fn link_query(
    config: ConfigView,
    server: Seq<char>,
    media: Seq<char>,
    expiry: Seq<char>,
) -> Seq<char> {
    "exp="@ + expiry + "&sig="@ + link_signature(config, server, media, expiry)
}

/// The link to an avatar, made at second `now`.
pub open spec fn avatar_link(config: ConfigView, mxc: Seq<char>, now: int) -> Option<Seq<char>> {
    match mxc_parts(mxc) {
        Some(parts) => if "mxc://"@.is_prefix_of(mxc) {
            let expiry = number::decimal((now + LINK_LIFETIME) as nat);
            Some(
                text::trimmed_end(config.avatar_public_url, Trim::Only('/')) + link_path(
                    parts.0,
                    parts.1,
                ) + "?"@ + link_query(config, parts.0, parts.1, expiry),
            )
        } else {
            None
        },
        None => None,
    }
}

/// Makes a link to an avatar.
pub fn make_link(config: &Config, mxc: &str, now: u64) -> (link: Option<String>)
    requires
        now + LINK_LIFETIME <= u64::MAX,
    ensures
        web::opt_text(link) == avatar_link(config@, mxc@, now as int),
{
    if !text::starts_with(mxc, "mxc://") {
        return None;
    }
    match split_mxc(mxc) {
        None => None,
        Some((server, media)) => {
            let expiry = number::to_decimal(now + LINK_LIFETIME);
            let signed = server.clone().concat("/").concat(media.as_str()).concat("?exp=").concat(
                expiry.as_str(),
            );
            let signature = crypto::sign(
                config.avatar_proxy_secret.as_str().as_bytes(),
                signed.as_str().as_bytes(),
            );
            let base = text::trim_end(config.avatar_public_url.as_str(), Trim::Only('/'));
            let link = base.clone().concat("/avatar/").concat(server.as_str()).concat("/").concat(
                media.as_str(),
            ).concat("?").concat("exp=").concat(expiry.as_str()).concat("&sig=").concat(
                signature.as_str(),
            );
            proof {
                let path = link_path(server@, media@);
                let query = link_query(config@, server@, media@, expiry@);
                assert(base@ + "/avatar/"@ + server@ + "/"@ + media@ =~= base@ + path);
                assert(link@ =~= base@ + path + "?"@ + query);
            }
            Some(link)
        },
    }
}

/// A character that a server name or a file name in a link may have.
pub open spec fn is_safe_char(c: char) -> bool {
    ||| '0' <= c <= '9'
    ||| 'A' <= c <= 'Z'
    ||| 'a' <= c <= 'z'
    ||| c == '-'
    ||| c == '_'
    ||| c == '.'
    ||| c == ':'
}

/// Whether a server name or a file name in a link is taken: it has no other characters, and never
/// two dots in a row.
pub open spec fn is_safe(s: Seq<char>) -> bool {
    &&& text::find(s, ".."@) is None
    &&& forall|i: int| 0 <= i < s.len() ==> is_safe_char(#[trigger] s[i])
}

/// Whether a server name or a file name in a link is taken.
pub fn check_safe(s: &str) -> (res: bool)
    ensures
        res == is_safe(s@),
{
    if text::contains(s, "..") {
        return false;
    }
    let chars = text::chars_of(s);
    let length: usize = chars.len();
    let mut i: usize = 0;
    while i < length
        invariant
            chars@ == s@,
            length == s@.len(),
            i <= length,
            text::find(s@, ".."@) is None,
            forall|j: int| 0 <= j < i ==> is_safe_char(#[trigger] s@[j]),
        decreases length - i,
    {
        let c = chars[i];
        let safe = ('0' <= c && c <= '9') || ('A' <= c && c <= 'Z') || ('a' <= c && c <= 'z') || c
            == '-' || c == '_' || c == '.' || c == ':';
        if !safe {
            assert(!is_safe_char(s@[i as int]));
            return false;
        }
        i += 1;
    }
    true
}

/// What becomes of a request for an avatar.
pub enum AvatarVerdict {
    /// It is refused with this reply.
    Refuse(HttpReply),
    /// The file of this content URL is sent.
    Serve(String),
}

/// What becomes of a request for an avatar, over texts.
pub enum VerdictView {
    Refuse(ReplyView),
    Serve(Seq<char>),
}

impl View for AvatarVerdict {
    type V = VerdictView;

    open spec fn view(&self) -> VerdictView {
        match self {
            AvatarVerdict::Refuse(reply) => VerdictView::Refuse(reply@),
            AvatarVerdict::Serve(mxc) => VerdictView::Serve(mxc@),
        }
    }
}

/// A refusal.
pub open spec fn refusal(status: u16, sentence: Seq<char>) -> VerdictView {
    VerdictView::Refuse(http::plain_reply(status, sentence))
}

/// What becomes of a request for an avatar that comes at second `now`: the first thing that is wrong
/// with it decides.
pub open spec fn avatar_verdict(
    config: ConfigView,
    path: Seq<char>,
    query: Option<Seq<char>>,
    now: int,
) -> VerdictView {
    let parts = text::split_text(path, seq!['/']);
    let expiry = http::query_value(query, "exp="@);
    let signature = http::query_value(query, "sig="@);
    if parts.len() < 4 {
        refusal(400, "Invalid path"@)
    } else if !is_safe(parts[2]) || !is_safe(parts[3]) {
        refusal(400, "Invalid characters in request"@)
    } else if expiry is None {
        refusal(401, "Missing expiry parameter"@)
    } else {
        match number::unsigned_value(expiry->0) {
            None => refusal(400, "Invalid expiry format"@),
            Some(end) => if end > u64::MAX {
                refusal(400, "Invalid expiry format"@)
            } else if now > end {
                refusal(403, "Link has expired"@)
            } else if signature is None {
                refusal(401, "Missing signature"@)
            } else {
                match crypto::signature_check(
                    encode_utf8(config.avatar_proxy_secret),
                    encode_utf8(signed_text(parts[2], parts[3], expiry->0)),
                    signature->0,
                ) {
                    SignatureCheck::Malformed => refusal(400, "Invalid signature format"@),
                    SignatureCheck::Wrong => refusal(403, "Invalid signature"@),
                    SignatureCheck::Valid => VerdictView::Serve(
                        "mxc://"@ + parts[2] + "/"@ + parts[3],
                    ),
                }
            },
        }
    }
}

/// Decides what becomes of a request for an avatar.
pub fn judge(config: &Config, path: &str, query: Option<&str>, now: u64) -> (res: AvatarVerdict)
    ensures
        res@ == avatar_verdict(config@, path@, utils::opt_str(query), now as int),
{
    proof {
        reveal_strlit("/");
        assert("/"@ =~= seq!['/']);
    }
    let parts = text::split(path, "/");
    let ghost views = text::texts(parts@);
    if parts.len() < 4 {
        return AvatarVerdict::Refuse(HttpReply::plain(400, "Invalid path"));
    }
    assert(views[2] == parts@[2]@ && views[3] == parts@[3]@);
    let server = &parts[2];
    let media = &parts[3];
    if !check_safe(server.as_str()) || !check_safe(media.as_str()) {
        return AvatarVerdict::Refuse(HttpReply::plain(400, "Invalid characters in request"));
    }
    let expiry = match http::query_parameter(query, "exp=") {
        Some(expiry) => expiry,
        None => {
            return AvatarVerdict::Refuse(HttpReply::plain(401, "Missing expiry parameter"));
        },
    };
    let end: u64 = match number::parse_u64(expiry.as_str()) {
        Some(end) => end,
        None => {
            return AvatarVerdict::Refuse(HttpReply::plain(400, "Invalid expiry format"));
        },
    };
    if now > end {
        return AvatarVerdict::Refuse(HttpReply::plain(403, "Link has expired"));
    }
    let signature = match http::query_parameter(query, "sig=") {
        Some(signature) => signature,
        None => {
            return AvatarVerdict::Refuse(HttpReply::plain(401, "Missing signature"));
        },
    };
    let signed = server.clone().concat("/").concat(media.as_str()).concat("?exp=").concat(
        expiry.as_str(),
    );
    match crypto::check_signature(
        config.avatar_proxy_secret.as_str().as_bytes(),
        signed.as_str().as_bytes(),
        signature.as_str(),
    ) {
        SignatureCheck::Malformed => AvatarVerdict::Refuse(
            HttpReply::plain(400, "Invalid signature format"),
        ),
        SignatureCheck::Wrong => AvatarVerdict::Refuse(HttpReply::plain(403, "Invalid signature")),
        SignatureCheck::Valid => AvatarVerdict::Serve(
            "mxc://".to_owned().concat(server.as_str()).concat("/").concat(media.as_str()),
        ),
    }
}

/// A text of safe characters holds no `/`.
proof fn lemma_safe_text(s: Seq<char>)
    requires
        is_safe(s),
    ensures
        !s.contains('/'),
{
    if s.contains('/') {
        let i = s.index_of('/');
        assert(is_safe_char(s[i]));
    }
}

/// The path of a link leads to its server and file.
proof fn lemma_link_path(server: Seq<char>, media: Seq<char>)
    requires
        is_safe(server),
        is_safe(media),
    ensures
        text::split_text(link_path(server, media), seq!['/']) == seq![
            Seq::<char>::empty(),
            "avatar"@,
            server,
            media,
        ],
{
    reveal_strlit("/avatar/");
    reveal_strlit("avatar");
    reveal_strlit("/");
    let slash = seq!['/'];
    let path = link_path(server, media);
    lemma_safe_text(server);
    lemma_safe_text(media);
    assert("/"@ =~= slash);
    let last = server + slash + media;
    let middle = "avatar"@ + slash + last;
    assert(path =~= Seq::<char>::empty() + slash + middle);
    assert(!"avatar"@.contains('/'));
    text::lemma_split_first(Seq::<char>::empty(), '/', middle);
    text::lemma_split_first("avatar"@, '/', last);
    text::lemma_split_first(server, '/', media);
    text::lemma_split_whole(media, '/');
    assert(text::split_text(path, slash) =~= seq![
        Seq::<char>::empty(),
        "avatar"@,
        server,
        media,
    ]);
}

/// The query of a link gives its expiry and its signature.
proof fn lemma_link_query(expiry: Seq<char>, signature: Seq<char>)
    requires
        !expiry.contains('&'),
        !signature.contains('&'),
    ensures
        http::query_value(Some("exp="@ + expiry + "&sig="@ + signature), "exp="@) == Some(expiry),
        http::query_value(Some("exp="@ + expiry + "&sig="@ + signature), "sig="@) == Some(
            signature,
        ),
{
    reveal_strlit("exp=");
    reveal_strlit("sig=");
    reveal_strlit("&sig=");
    let first = "exp="@ + expiry;
    let second = "sig="@ + signature;
    let query = "exp="@ + expiry + "&sig="@ + signature;
    assert(query =~= first + seq!['&'] + second);
    assert(!first.contains('&')) by {
        if first.contains('&') {
            let i = first.index_of('&');
            if i >= 4 {
                assert(expiry[i - 4] == '&');
            }
        }
    }
    assert(!second.contains('&')) by {
        if second.contains('&') {
            let i = second.index_of('&');
            if i >= 4 {
                assert(signature[i - 4] == '&');
            }
        }
    }
    text::lemma_split_first(first, '&', second);
    text::lemma_split_whole(second, '&');
    let pieces = text::split_text(query, seq!['&']);
    assert(pieces =~= seq![first, second]);
    assert("exp="@.is_prefix_of(first)) by {
        assert(first.take(4) =~= "exp="@);
    }
    assert(first.skip(4) =~= expiry);
    assert(!"sig="@.is_prefix_of(first)) by {
        if "sig="@.is_prefix_of(first) {
            assert(first[0] == "sig="@[0]);
        }
    }
    assert("sig="@.is_prefix_of(second)) by {
        assert(second.take(4) =~= "sig="@);
    }
    assert(second.skip(4) =~= signature);
    assert(pieces.drop_first() =~= seq![second]);
    assert(http::first_with_prefix(pieces.drop_first(), "sig="@) == Some(signature));
}

/// Decimal digits hold no ampersand.
proof fn lemma_decimal_clean(n: nat)
    ensures
        !number::decimal(n).contains('&'),
{
    number::lemma_decimal_value(n);
    if number::decimal(n).contains('&') {
        let i = number::decimal(n).index_of('&');
        assert('0' <= number::decimal(n)[i] <= '9');
    }
}

/// Hexadecimal digits hold no ampersand.
proof fn lemma_hex_clean(bytes: Seq<u8>)
    ensures
        !crypto::hex_text(bytes).contains('&'),
{
    if crypto::hex_text(bytes).contains('&') {
        let i = crypto::hex_text(bytes).index_of('&');
        assert(crypto::hex_text(bytes)[i] == '&');
    }
}

/// A link that the bridge made is honoured until it expires, and for the file it was made for: where
/// the names of the server and the file are safe, the request that follows the link is served at
/// every second up to [`LINK_LIFETIME`] after the link was made.
pub proof fn law_links_are_honoured(config: ConfigView, mxc: Seq<char>, made: nat, now: nat)
    requires
        mxc_parts(mxc) is Some,
        "mxc://"@.is_prefix_of(mxc),
        is_safe((mxc_parts(mxc)->0).0),
        is_safe((mxc_parts(mxc)->0).1),
        made + LINK_LIFETIME <= u64::MAX,
        now <= made + LINK_LIFETIME,
    ensures
        ({
            let parts = mxc_parts(mxc)->0;
            let expiry = number::decimal((made + LINK_LIFETIME) as nat);
            let path = link_path(parts.0, parts.1);
            let query = link_query(config, parts.0, parts.1, expiry);
            &&& avatar_link(config, mxc, made as int) == Some(
                text::trimmed_end(config.avatar_public_url, Trim::Only('/')) + path + "?"@ + query,
            )
            &&& avatar_verdict(config, path, Some(query), now as int) == VerdictView::Serve(
                "mxc://"@ + parts.0 + "/"@ + parts.1,
            )
        }),
{
    let parts = mxc_parts(mxc)->0;
    let end = (made + LINK_LIFETIME) as nat;
    let expiry = number::decimal(end);
    let signature = link_signature(config, parts.0, parts.1, expiry);
    lemma_link_path(parts.0, parts.1);
    lemma_decimal_clean(end);
    lemma_hex_clean(
        crypto::hmac_sha256(
            encode_utf8(config.avatar_proxy_secret),
            encode_utf8(signed_text(parts.0, parts.1, expiry)),
        ),
    );
    lemma_link_query(expiry, signature);
    number::law_decimal_reads_back(end);
    crypto::law_signature_is_valid(
        encode_utf8(config.avatar_proxy_secret),
        encode_utf8(signed_text(parts.0, parts.1, expiry)),
    );
}

/// A link that the bridge made is refused once it has expired: at every second later than
/// [`LINK_LIFETIME`] after the link was made.
pub proof fn law_expired_links_are_refused(config: ConfigView, mxc: Seq<char>, made: nat, now: nat)
    requires
        mxc_parts(mxc) is Some,
        "mxc://"@.is_prefix_of(mxc),
        is_safe((mxc_parts(mxc)->0).0),
        is_safe((mxc_parts(mxc)->0).1),
        made + LINK_LIFETIME <= u64::MAX,
        now > made + LINK_LIFETIME,
    ensures
        ({
            let parts = mxc_parts(mxc)->0;
            let expiry = number::decimal((made + LINK_LIFETIME) as nat);
            let path = link_path(parts.0, parts.1);
            let query = link_query(config, parts.0, parts.1, expiry);
            &&& avatar_link(config, mxc, made as int) == Some(
                text::trimmed_end(config.avatar_public_url, Trim::Only('/')) + path + "?"@ + query,
            )
            &&& avatar_verdict(config, path, Some(query), now as int) == refusal(
                403,
                "Link has expired"@,
            )
        }),
{
    let parts = mxc_parts(mxc)->0;
    let end = (made + LINK_LIFETIME) as nat;
    let expiry = number::decimal(end);
    lemma_link_path(parts.0, parts.1);
    lemma_decimal_clean(end);
    lemma_hex_clean(
        crypto::hmac_sha256(
            encode_utf8(config.avatar_proxy_secret),
            encode_utf8(signed_text(parts.0, parts.1, expiry)),
        ),
    );
    lemma_link_query(expiry, link_signature(config, parts.0, parts.1, expiry));
    number::law_decimal_reads_back(end);
}

/// Two links with the same signed text are for the same file and expire at the same time.
proof fn lemma_signed_text_is_injective(
    server: Seq<char>,
    media: Seq<char>,
    expiry: Seq<char>,
    other_server: Seq<char>,
    other_media: Seq<char>,
    other_expiry: Seq<char>,
)
    requires
        is_safe(server),
        is_safe(media),
        is_safe(other_server),
        is_safe(other_media),
        signed_text(server, media, expiry) == signed_text(other_server, other_media, other_expiry),
    ensures
        server == other_server,
        media == other_media,
        expiry == other_expiry,
{
    reveal_strlit("/");
    reveal_strlit("?exp=");
    lemma_safe_text(server);
    lemma_safe_text(other_server);
    let equals = seq!['e', 'x', 'p', '='];
    let x = media + "?exp="@ + expiry;
    let y = other_media + "?exp="@ + other_expiry;
    assert("/"@ =~= seq!['/']);
    assert(signed_text(server, media, expiry) =~= server + seq!['/'] + x);
    assert(signed_text(other_server, other_media, other_expiry) =~= other_server + seq!['/'] + y);
    text::lemma_mark_splits('/', server, x, other_server, y);
    assert("?exp="@ =~= seq!['?'] + equals);
    assert(x =~= media + seq!['?'] + (equals + expiry));
    assert(y =~= other_media + seq!['?'] + (equals + other_expiry));
    assert(!media.contains('?')) by {
        if media.contains('?') {
            assert(is_safe_char(media[media.index_of('?')]));
        }
    }
    assert(!other_media.contains('?')) by {
        if other_media.contains('?') {
            assert(is_safe_char(other_media[other_media.index_of('?')]));
        }
    }
    text::lemma_mark_splits('?', media, equals + expiry, other_media, equals + other_expiry);
    assert(expiry =~= (equals + expiry).skip(4));
    assert(other_expiry =~= (equals + other_expiry).skip(4));
}

/// A link that was changed while its signature was kept is served only if HMAC-SHA256 gives two
/// different messages the same tag under the bridge's secret.
pub proof fn law_changed_links_need_a_collision(
    config: ConfigView,
    server: Seq<char>,
    media: Seq<char>,
    expiry: Seq<char>,
    path: Seq<char>,
    query: Option<Seq<char>>,
    now: nat,
)
    requires
        is_safe(server),
        is_safe(media),
        http::query_value(query, "sig="@) == Some(link_signature(config, server, media, expiry)),
        avatar_verdict(config, path, query, now as int) is Serve,
        ({
            let parts = text::split_text(path, seq!['/']);
            (parts[2], parts[3], http::query_value(query, "exp="@)->0) != (server, media, expiry)
        }),
    ensures
        ({
            let parts = text::split_text(path, seq!['/']);
            let secret = encode_utf8(config.avatar_proxy_secret);
            let signed = encode_utf8(signed_text(server, media, expiry));
            let asked = encode_utf8(
                signed_text(parts[2], parts[3], http::query_value(query, "exp="@)->0),
            );
            signed != asked && crypto::hmac_sha256(secret, signed) == crypto::hmac_sha256(
                secret,
                asked,
            )
        }),
{
    let parts = text::split_text(path, seq!['/']);
    let asked_expiry = http::query_value(query, "exp="@)->0;
    let signed = signed_text(server, media, expiry);
    let asked = signed_text(parts[2], parts[3], asked_expiry);
    law_only_valid_links_are_served(config, path, query, now);
    crypto::law_hex_reads_back(
        crypto::hmac_sha256(encode_utf8(config.avatar_proxy_secret), encode_utf8(signed)),
    );
    if encode_utf8(signed) == encode_utf8(asked) {
        encode_utf8_decode_utf8(signed);
        encode_utf8_decode_utf8(asked);
        lemma_signed_text_is_injective(
            server,
            media,
            expiry,
            parts[2],
            parts[3],
            asked_expiry,
        );
    }
}

/// No file is sent on a link that has expired or whose signature is not the one that the bridge
/// would give it.
pub proof fn law_only_valid_links_are_served(
    config: ConfigView,
    path: Seq<char>,
    query: Option<Seq<char>>,
    now: nat,
)
    requires
        avatar_verdict(config, path, query, now as int) is Serve,
    ensures
        ({
            let parts = text::split_text(path, seq!['/']);
            let expiry = http::query_value(query, "exp="@)->0;
            &&& http::query_value(query, "exp="@) is Some
            &&& number::unsigned_value(expiry) matches Some(end) && now <= end
            &&& http::query_value(query, "sig="@) is Some
            &&& crypto::hex_bytes(http::query_value(query, "sig="@)->0) == Some(
                crypto::hmac_sha256(
                    encode_utf8(config.avatar_proxy_secret),
                    encode_utf8(signed_text(parts[2], parts[3], expiry)),
                ),
            )
        }),
{
}

/// The media type of a file, told from its first bytes.
pub open spec fn mime_type(data: Seq<u8>) -> Seq<char> {
    if seq![0x89u8, 0x50, 0x4e, 0x47, 0x0d, 0x0a, 0x1a, 0x0a].is_prefix_of(data) {
        "image/png"@
    } else if seq![0xffu8, 0xd8, 0xff].is_prefix_of(data) {
        "image/jpeg"@
    } else if seq![0x47u8, 0x49, 0x46, 0x38, 0x37, 0x61].is_prefix_of(data) || seq![
        0x47u8,
        0x49,
        0x46,
        0x38,
        0x39,
        0x61,
    ].is_prefix_of(data) {
        "image/gif"@
    } else if seq![0x52u8, 0x49, 0x46, 0x46].is_prefix_of(data) && seq![
        0x57u8,
        0x45,
        0x42,
        0x50,
    ].is_prefix_of(data.skip(8)) && data.len() > 11 {
        "image/webp"@
    } else {
        "application/octet-stream"@
    }
}

/// Whether `data` holds `marks` from place `at` on.
fn bytes_at(data: &[u8], at: usize, marks: &[u8]) -> (res: bool)
    requires
        at <= data@.len(),
    ensures
        res == marks@.is_prefix_of(data@.skip(at as int)),
{
    let length: usize = data.len();
    if length - at < marks.len() {
        return false;
    }
    let mut i: usize = 0;
    while i < marks.len()
        invariant
            length == data@.len(),
            at <= length,
            marks@.len() <= length - at,
            i <= marks@.len(),
            forall|j: int| 0 <= j < i ==> data@[at + j] == marks@[j],
        decreases marks@.len() - i,
    {
        if data[at + i] != marks[i] {
            assert(data@.skip(at as int)[i as int] == data@[at + i]);
            return false;
        }
        i += 1;
    }
    assert(data@.skip(at as int).subrange(0, marks@.len() as int) =~= marks@);
    true
}

/// The media type of a file, told from its first bytes.
pub fn guess_mime_type(data: &[u8]) -> (res: String)
    ensures
        res@ == mime_type(data@),
{
    let png = [0x89u8, 0x50, 0x4e, 0x47, 0x0d, 0x0a, 0x1a, 0x0a];
    let jpeg = [0xffu8, 0xd8, 0xff];
    let gif87 = [0x47u8, 0x49, 0x46, 0x38, 0x37, 0x61];
    let gif89 = [0x47u8, 0x49, 0x46, 0x38, 0x39, 0x61];
    let riff = [0x52u8, 0x49, 0x46, 0x46];
    let webp = [0x57u8, 0x45, 0x42, 0x50];
    proof {
        assert(data@.skip(0) =~= data@);
        assert(png@ =~= seq![0x89u8, 0x50, 0x4e, 0x47, 0x0d, 0x0a, 0x1a, 0x0a]);
        assert(jpeg@ =~= seq![0xffu8, 0xd8, 0xff]);
        assert(gif87@ =~= seq![0x47u8, 0x49, 0x46, 0x38, 0x37, 0x61]);
        assert(gif89@ =~= seq![0x47u8, 0x49, 0x46, 0x38, 0x39, 0x61]);
        assert(riff@ =~= seq![0x52u8, 0x49, 0x46, 0x46]);
        assert(webp@ =~= seq![0x57u8, 0x45, 0x42, 0x50]);
    }
    if bytes_at(data, 0, png.as_slice()) {
        "image/png".to_owned()
    } else if bytes_at(data, 0, jpeg.as_slice()) {
        "image/jpeg".to_owned()
    } else if bytes_at(data, 0, gif87.as_slice()) || bytes_at(data, 0, gif89.as_slice()) {
        "image/gif".to_owned()
    } else if bytes_at(data, 0, riff.as_slice()) && data.len() > 11 && bytes_at(
        data,
        8,
        webp.as_slice(),
    ) {
        "image/webp".to_owned()
    } else {
        "application/octet-stream".to_owned()
    }
}

/// The reply that carries an avatar.
pub open spec fn avatar_reply_view(data: Seq<u8>) -> ReplyView {
    ReplyView {
        status: 200,
        content_type: Some(mime_type(data)),
        cache_control: Some("public, max-age=86400"@),
        body: BodyView::Bytes(data),
    }
}

/// The reply that carries an avatar.
pub fn avatar_reply(data: Vec<u8>) -> (reply: HttpReply)
    ensures
        reply@ == avatar_reply_view(data@),
{
    HttpReply {
        status: 200,
        content_type: Some(guess_mime_type(data.as_slice())),
        cache_control: Some("public, max-age=86400".to_owned()),
        body: ReplyBody::Bytes(data),
    }
}

/// A media address has a server and a media id, and gives both back.
pub proof fn law_media_addresses_are_read(server: Seq<char>, media: Seq<char>)
    requires
        !server.contains('/'),
        !media.contains('/'),
    ensures
        mxc_parts("mxc://"@ + server + "/"@ + media) == Some((server, media)),
        mxc_parts("mxc://"@ + server) is None,
        mxc_parts("mxc://"@ + server + "/"@ + media + "/"@) is None,
{
    reveal_strlit("mxc://");
    reveal_strlit("/");
    assert("/"@ =~= seq!['/']);
    let both = server + seq!['/'] + media;
    let more = both + seq!['/'];
    text::lemma_split_whole(media, '/');
    text::lemma_split_whole(server, '/');
    text::lemma_split_first(server, '/', media);
    assert(!Seq::<char>::empty().contains('/'));
    text::lemma_split_whole(Seq::empty(), '/');
    text::lemma_split_first(media, '/', Seq::empty());
    text::lemma_split_first(server, '/', media + seq!['/']);
    assert(media + seq!['/'] + Seq::<char>::empty() =~= media + seq!['/']);
    assert(more =~= server + seq!['/'] + (media + seq!['/']));
    assert("mxc://"@ + server + "/"@ + media =~= "mxc://"@ + both);
    assert("mxc://"@ + server + "/"@ + media + "/"@ =~= "mxc://"@ + more);
    lemma_scheme_goes(both, server, media);
    lemma_scheme_goes(more, server, media + seq!['/']);
    text::law_leading_copies_are_removed(server, "mxc://"@);
    if "mxc://"@.is_prefix_of(server) {
        assert(server.subrange(0, 6)[4] == '/');
        assert(server[4] == '/');
    }
    assert(text::split_text(both, seq!['/']) =~= seq![server, media]);
    assert(text::split_text(server, seq!['/']).len() == 1);
    assert(text::split_text(more, seq!['/']).len() == 3);
}

proof fn lemma_scheme_goes(s: Seq<char>, server: Seq<char>, rest: Seq<char>)
    requires
        s == server + seq!['/'] + rest,
        !server.contains('/'),
        rest.len() > 0 ==> !rest.drop_last().contains('/'),
    ensures
        text::without_leading("mxc://"@ + s, "mxc://"@) == if "mxc://"@.is_prefix_of(s) {
            text::without_leading(s.skip(6), "mxc://"@)
        } else {
            s
        },
        !"mxc://"@.is_prefix_of(s) || (server.len() == 4 && rest =~= seq!['/']),
{
    reveal_strlit("mxc://");
    text::law_leading_copies_are_removed(s, "mxc://"@);
    if "mxc://"@.is_prefix_of(s) {
        let head = s.subrange(0, 6);
        assert(head[4] == '/' && head[5] == '/' && head[0] == 'm');
        assert(s[4] == '/' && s[5] == '/');
        assert(server.len() == 4) by {
            if server.len() > 4 {
                assert(server[4] == '/');
            } else if server.len() < 4 {
                assert(s[server.len() as int] == '/');
                assert(head[server.len() as int] == '/');
                assert(head[1] == 'x' && head[2] == 'c' && head[3] == ':');
            }
        }
        assert(rest[0] == '/');
        if rest.len() > 1 {
            assert(rest.drop_last()[0] == '/');
        }
    }
}

/// A picture is told by the bytes that it begins with, whatever follows them.
pub proof fn law_pictures_are_told_by_their_beginning(rest: Seq<u8>, size: Seq<u8>)
    requires
        size.len() == 4,
    ensures
        mime_type(seq![0x89u8, 0x50, 0x4e, 0x47, 0x0d, 0x0a, 0x1a, 0x0a] + rest) == "image/png"@,
        mime_type(seq![0xffu8, 0xd8, 0xff] + rest) == "image/jpeg"@,
        mime_type(seq![0x47u8, 0x49, 0x46, 0x38, 0x37, 0x61] + rest) == "image/gif"@,
        mime_type(seq![0x47u8, 0x49, 0x46, 0x38, 0x39, 0x61] + rest) == "image/gif"@,
        mime_type(seq![0x52u8, 0x49, 0x46, 0x46] + size + seq![0x57u8, 0x45, 0x42, 0x50] + rest)
            == "image/webp"@,
{
    let png = seq![0x89u8, 0x50, 0x4e, 0x47, 0x0d, 0x0a, 0x1a, 0x0a];
    let jpeg = seq![0xffu8, 0xd8, 0xff];
    let old_gif = seq![0x47u8, 0x49, 0x46, 0x38, 0x37, 0x61];
    let gif = seq![0x47u8, 0x49, 0x46, 0x38, 0x39, 0x61];
    let riff = seq![0x52u8, 0x49, 0x46, 0x46];
    let webp = seq![0x57u8, 0x45, 0x42, 0x50];
    let picture = riff + size + webp + rest;
    lemma_begins(png, rest);
    lemma_begins(jpeg, rest);
    lemma_begins(old_gif, rest);
    lemma_begins(gif, rest);
    assert(picture =~= riff + (size + webp + rest));
    lemma_begins(riff, size + webp + rest);
    assert(picture.skip(8) =~= webp + rest);
    lemma_begins(webp, rest);
    lemma_begins_otherwise(png, jpeg + rest);
    lemma_begins_otherwise(png, old_gif + rest);
    lemma_begins_otherwise(jpeg, old_gif + rest);
    lemma_begins_otherwise(png, gif + rest);
    lemma_begins_otherwise(jpeg, gif + rest);
    lemma_begins_otherwise(png, picture);
    lemma_begins_otherwise(jpeg, picture);
    lemma_begins_otherwise(old_gif, picture);
    lemma_begins_otherwise(gif, picture);
}

proof fn lemma_begins(marks: Seq<u8>, rest: Seq<u8>)
    ensures
        marks.is_prefix_of(marks + rest),
{
    assert((marks + rest).subrange(0, marks.len() as int) =~= marks);
}

proof fn lemma_begins_otherwise(marks: Seq<u8>, data: Seq<u8>)
    requires
        marks.len() > 0,
        data.len() > 0,
        marks[0] != data[0],
    ensures
        !marks.is_prefix_of(data),
{
    if marks.is_prefix_of(data) {
        assert(data.subrange(0, marks.len() as int)[0] == data[0]);
    }
}

/// Text that may stand in a path has no slash, no two dots in a row, and nothing that begins a query
/// or a fragment.
pub proof fn law_safe_text_stays_in_its_place(s: Seq<char>)
    requires
        is_safe(s),
    ensures
        !s.contains('/'),
        !s.contains('?'),
        !s.contains('#'),
        !s.contains('%'),
        !text::holds(s, ".."@),
{
    text::law_find_is_first(s, ".."@);
    assert forall|c: char| #[trigger] s.contains(c) implies is_safe_char(c) by {
        let i = s.index_of(c);
        assert(is_safe_char(s[i]));
    }
}

/// A link is served for two days from when it was made, and not a second longer.
pub proof fn law_links_live_two_days(config: ConfigView, mxc: Seq<char>, made: nat, now: nat)
    requires
        mxc_parts(mxc) is Some,
        "mxc://"@.is_prefix_of(mxc),
        is_safe((mxc_parts(mxc)->0).0),
        is_safe((mxc_parts(mxc)->0).1),
        made + 2 * 24 * 60 * 60 <= u64::MAX,
    ensures
        ({
            let parts = mxc_parts(mxc)->0;
            let path = link_path(parts.0, parts.1);
            let expiry = number::decimal(made + 2 * 24 * 60 * 60);
            let query = link_query(config, parts.0, parts.1, expiry);
            &&& avatar_link(config, mxc, made as int) == Some(
                text::trimmed_end(config.avatar_public_url, Trim::Only('/')) + path + "?"@ + query,
            )
            &&& avatar_verdict(config, path, Some(query), now as int) is Serve <==> now <= made + 2
                * 24 * 60 * 60
        }),
{
    if now <= made + 2 * 24 * 60 * 60 {
        law_links_are_honoured(config, mxc, made, now);
    } else {
        law_expired_links_are_refused(config, mxc, made, now);
    }
}

/// A picture is served byte for byte, under its own type, and may be kept for a day.
pub proof fn law_pictures_are_served_whole(data: Seq<u8>)
    ensures
        avatar_reply_view(data).status == 200,
        avatar_reply_view(data).body == BodyView::Bytes(data),
        avatar_reply_view(data).content_type == Some(mime_type(data)),
        avatar_reply_view(data).cache_control is Some,
{
}

/// Letters, digits and a few signs may stand in a request, as long as no two dots do in a row.
pub proof fn law_ordinary_text_is_safe(s: Seq<char>)
    requires
        forall|i: int|
            0 <= i < s.len() ==> 'a' <= #[trigger] s[i] <= 'z' || 'A' <= s[i] <= 'Z' || '0' <= s[i]
                <= '9' || s[i] == '-' || s[i] == '_' || s[i] == '.' || s[i] == ':',
    ensures
        is_safe(s) <==> !text::holds(s, ".."@),
{
    text::law_find_is_first(s, ".."@);
}

/// What follows the media in a path does not matter.
pub proof fn law_longer_paths_are_judged_alike(
    config: ConfigView,
    path: Seq<char>,
    more: Seq<char>,
    query: Option<Seq<char>>,
    now: int,
)
    requires
        text::split_text(path, seq!['/']).len() >= 4,
    ensures
        avatar_verdict(config, path + seq!['/'] + more, query, now) == avatar_verdict(
            config,
            path,
            query,
            now,
        ),
{
    text::law_splitting_at_a_character(path, '/', more);
    text::lemma_split_not_empty(more, seq!['/']);
    let parts = text::split_text(path, seq!['/']);
    let all = parts + text::split_text(more, seq!['/']);
    assert(all[2] == parts[2] && all[3] == parts[3]);
}

/// Whether a verdict refuses with a status.
pub open spec fn refuses_with(verdict: VerdictView, status: u16) -> bool {
    verdict matches VerdictView::Refuse(reply) && reply.status == status
}

/// A request is refused as bad where its path is short, unsafe, or has no number for its end; as not
/// signed where it has no end or no signature; and as forbidden where its time is over.
pub proof fn law_bad_requests_are_refused(
    config: ConfigView,
    path: Seq<char>,
    query: Option<Seq<char>>,
    now: nat,
)
    ensures
        ({
            let parts = text::split_text(path, seq!['/']);
            let expiry = http::query_value(query, "exp="@);
            let verdict = avatar_verdict(config, path, query, now as int);
            let good = parts.len() >= 4 && is_safe(parts[2]) && is_safe(parts[3]);
            let end = number::unsigned_value(expiry->0);
            &&& !good ==> refuses_with(verdict, 400)
            &&& good && expiry is None ==> refuses_with(verdict, 401)
            &&& good && expiry is Some && (end is None || end->0 > u64::MAX) ==> refuses_with(
                verdict,
                400,
            )
            &&& good && expiry is Some && end is Some && end->0 <= u64::MAX && now > end->0
                ==> refuses_with(verdict, 403)
            &&& good && expiry is Some && end is Some && now <= end->0 <= u64::MAX
                && http::query_value(query, "sig="@) is None ==> refuses_with(verdict, 401)
        }),
{
}

} // verus!

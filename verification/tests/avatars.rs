use bridge::appservice::AppService;
use bridge::avatar;
use bridge::avatar::AvatarVerdict;
use bridge::cache::Cache;
use bridge::config::Config;
use bridge::crypto;
use bridge::crypto::SignatureCheck;
use bridge::http::{HttpReply, ReplyBody};
use bridge::matrix_client::MatrixClient;

fn service() -> AppService {
    AppService::new(MatrixClient::new(Config::default()))
}

fn refused(verdict: AvatarVerdict) -> (u16, String) {
    match verdict {
        AvatarVerdict::Refuse(HttpReply { status, body: ReplyBody::Text(s), .. }) => (status, s),
        _ => panic!("not refused"),
    }
}

fn served(verdict: AvatarVerdict) -> String {
    match verdict {
        AvatarVerdict::Serve(mxc) => mxc,
        AvatarVerdict::Refuse(reply) => panic!("refused with {}", reply.status),
    }
}

#[test]
fn a_link_is_signed_for_two_days() {
    let client = MatrixClient::new(Config::default());
    assert_eq!(
        client.mxc_to_http("mxc://example.org/abc", 1_000_000).unwrap(),
        "http://127.0.0.1:5000/avatar/example.org/abc?exp=1172800&sig=\
         ea400a8b3b56099237b8d9b8e6508bc423afc0aeccd79bf105efe72e0f792d96"
    );
}

#[test]
fn slashes_at_the_end_of_the_public_address_do_not_count() {
    let mut config = Config::default();
    config.avatar_public_url = "https://bridge.example//".to_string();
    config.avatar_proxy_secret = "k".to_string();
    assert_eq!(
        MatrixClient::new(config).mxc_to_http("mxc://example.org/abc", 1).unwrap(),
        "https://bridge.example/avatar/example.org/abc?exp=172801&sig=\
         b578ea17a4c6dfdbfa26833ff4012648ea3a6f7cc3c540fdf0af970313380baf"
    );
}

#[test]
fn only_content_urls_have_links() {
    let client = MatrixClient::new(Config::default());
    assert_eq!(client.mxc_to_http("https://example.org/abc", 1), None);
    assert_eq!(client.mxc_to_http("mxc://example.org", 1), None);
    assert_eq!(client.mxc_to_http("mxc://example.org/a/b", 1), None);
}

fn made_link(now: u64) -> (String, String) {
    let client = MatrixClient::new(Config::default());
    let link = client.mxc_to_http("mxc://example.org/abc", now).unwrap();
    let rest = link.strip_prefix("http://127.0.0.1:5000").unwrap();
    let (path, query) = rest.split_once('?').unwrap();
    (path.to_string(), query.to_string())
}

#[test]
fn a_link_is_honoured_until_it_expires() {
    let (path, query) = made_link(1_000);
    let service = service();
    for now in [0, 1_000, 1_000 + avatar::LINK_LIFETIME] {
        assert_eq!(
            served(service.handle_avatar_request(&path, Some(&query), now)),
            "mxc://example.org/abc"
        );
    }
    assert_eq!(
        refused(service.handle_avatar_request(&path, Some(&query), 1_001 + avatar::LINK_LIFETIME)),
        (403, "Link has expired".to_string())
    );
}

#[test]
fn a_signature_in_capitals_is_the_same_signature() {
    let (path, query) = made_link(1_000);
    let (exp, sig) = query.split_once("&sig=").unwrap();
    let shouted = format!("{exp}&sig={}", sig.to_uppercase());
    assert_eq!(
        served(service().handle_avatar_request(&path, Some(&shouted), 1_000)),
        "mxc://example.org/abc"
    );
}

#[test]
fn every_fault_of_a_request_has_its_reply() {
    let (path, query) = made_link(1_000);
    let s = service();
    let cases: Vec<(&str, Option<&str>, u16, &str)> = vec![
        ("/avatar/example.org", Some(&query), 400, "Invalid path"),
        ("/avatar/exa mple/abc", Some(&query), 400, "Invalid characters in request"),
        ("/avatar/example.org/a..b", Some(&query), 400, "Invalid characters in request"),
        (&path, None, 401, "Missing expiry parameter"),
        (&path, Some("sig=00"), 401, "Missing expiry parameter"),
        (&path, Some("exp=soon&sig=00"), 400, "Invalid expiry format"),
        (&path, Some("exp=99999999999999999999"), 400, "Invalid expiry format"),
        (&path, Some("exp=999"), 403, "Link has expired"),
        (&path, Some("exp=2000"), 401, "Missing signature"),
        (&path, Some("exp=2000&sig=xyz"), 400, "Invalid signature format"),
        (&path, Some("exp=2000&sig=abc"), 400, "Invalid signature format"),
        (&path, Some("exp=2000&sig=00"), 403, "Invalid signature"),
    ];
    for (path, query, status, sentence) in cases {
        assert_eq!(
            refused(s.handle_avatar_request(path, query, 1_000)),
            (status, sentence.to_string()),
            "{} {:?}",
            path,
            query
        );
    }
}

#[test]
fn a_link_for_another_file_is_not_honoured() {
    let (_, query) = made_link(1_000);
    assert_eq!(
        refused(service().handle_avatar_request("/avatar/example.org/abd", Some(&query), 1_000)),
        (403, "Invalid signature".to_string())
    );
}

#[test]
fn signatures_follow_the_published_vector() {
    // RFC 4231, test case 2.
    let signature = crypto::sign(b"Jefe", b"what do ya want for nothing?");
    assert_eq!(
        signature,
        "5bdcc146bf60754e6a042426089575c75a003f089d2739839dec58b964ec3843"
    );
    let message = b"what do ya want for nothing?";
    assert_eq!(crypto::check_signature(b"Jefe", message, &signature), SignatureCheck::Valid);
    assert_eq!(crypto::check_signature(b"jefe", message, &signature), SignatureCheck::Wrong);
    assert_eq!(crypto::check_signature(b"Jefe", message, "5b"), SignatureCheck::Wrong);
    assert_eq!(crypto::check_signature(b"Jefe", message, "5"), SignatureCheck::Malformed);
    assert_eq!(crypto::check_signature(b"Jefe", message, "zz"), SignatureCheck::Malformed);
}

#[test]
fn digests_follow_the_published_vectors() {
    assert_eq!(crypto::short_hash(""), "2cc5d05");
    assert_eq!(crypto::short_hash("abc"), "32d153ff");
}

#[test]
fn files_are_told_by_their_first_bytes() {
    for (data, mime) in [
        (&b"\x89PNG\r\n\x1a\n..."[..], "image/png"),
        (&b"\xff\xd8\xff\xe0"[..], "image/jpeg"),
        (&b"GIF87a"[..], "image/gif"),
        (&b"GIF89a..."[..], "image/gif"),
        (&b"RIFF\x00\x00\x00\x00WEBP"[..], "image/webp"),
        (&b"RIFF\x00\x00\x00\x00WAVE"[..], "application/octet-stream"),
        (&b"RIFF\x00\x00\x00\x00WEB"[..], "application/octet-stream"),
        (&b""[..], "application/octet-stream"),
    ] {
        assert_eq!(avatar::guess_mime_type(data), mime);
    }
}

#[test]
fn an_avatar_that_was_fetched_is_remembered() {
    let mut cache = Cache::new();
    assert!(AppService::cached_avatar(&cache, "mxc://a/b").is_none());
    let reply = AppService::fetched_avatar(&mut cache, "mxc://a/b", b"GIF89a".to_vec());
    assert_eq!(reply.status, 200);
    assert_eq!(reply.content_type.as_deref(), Some("image/gif"));
    assert_eq!(reply.cache_control.as_deref(), Some("public, max-age=86400"));
    let again = AppService::cached_avatar(&cache, "mxc://a/b").unwrap();
    match again.body {
        ReplyBody::Bytes(bytes) => assert_eq!(bytes, b"GIF89a"),
        _ => panic!("no file"),
    }
    assert!(AppService::avatar_found(None).is_none());
    let png = AppService::avatar_found(Some(b"\x89PNG\r\n\x1a\n".to_vec())).unwrap();
    assert_eq!(png.content_type.as_deref(), Some("image/png"));
    let missing = AppService::missing_avatar();
    assert_eq!(missing.status, 404);
}

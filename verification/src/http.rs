//! Requests and replies of the bridge's own web server.

use vstd::prelude::*;
use vstd::string::*;

use crate::error::BridgeError;
use crate::json::{Json, JsonView};
use crate::text;
use crate::utils;
use crate::web;

verus! {

/// What a reply carries.
pub enum ReplyBody {
    Text(String),
    Json(Json),
    Bytes(Vec<u8>),
}

/// What a reply's body says.
pub enum BodyView {
    Text(Seq<char>),
    Json(JsonView),
    Bytes(Seq<u8>),
}

impl View for ReplyBody {
    type V = BodyView;

    open spec fn view(&self) -> BodyView {
        match self {
            ReplyBody::Text(s) => BodyView::Text(s@),
            ReplyBody::Json(json) => BodyView::Json(json@),
            ReplyBody::Bytes(bytes) => BodyView::Bytes(bytes@),
        }
    }
}

/// A reply to a request.
pub struct HttpReply {
    pub status: u16,
    pub content_type: Option<String>,
    pub cache_control: Option<String>,
    pub body: ReplyBody,
}

/// What a reply says.
pub struct ReplyView {
    pub status: u16,
    pub content_type: Option<Seq<char>>,
    pub cache_control: Option<Seq<char>>,
    pub body: BodyView,
}

impl View for HttpReply {
    type V = ReplyView;

    open spec fn view(&self) -> ReplyView {
        ReplyView {
            status: self.status,
            content_type: web::opt_text(self.content_type),
            cache_control: web::opt_text(self.cache_control),
            body: self.body@,
        }
    }
}

/// A reply that is a plain sentence.
pub open spec fn plain_reply(status: u16, sentence: Seq<char>) -> ReplyView {
    ReplyView {
        status,
        content_type: None,
        cache_control: None,
        body: BodyView::Text(sentence),
    }
}

/// A reply that is a JSON value.
pub open spec fn json_reply(status: u16, json: JsonView) -> ReplyView {
    ReplyView { status, content_type: None, cache_control: None, body: BodyView::Json(json) }
}

impl HttpReply {
    /// A reply that is a plain sentence.
    pub fn plain(status: u16, sentence: &str) -> (reply: Self)
        ensures
            reply@ == plain_reply(status, sentence@),
    {
        HttpReply {
            status,
            content_type: None,
            cache_control: None,
            body: ReplyBody::Text(sentence.to_owned()),
        }
    }

    /// A reply that is a JSON value.
    pub fn json(status: u16, json: Json) -> (reply: Self)
        ensures
            reply@ == json_reply(status, json@),
    {
        HttpReply { status, content_type: None, cache_control: None, body: ReplyBody::Json(json) }
    }

    /// The reply to a request that failed.
    pub fn failure(error: &BridgeError) -> (reply: Self)
        ensures
            reply@ == json_reply(
                500,
                JsonView::object().with("errcode"@, JsonView::Text("M_UNKNOWN"@)).with(
                    "error"@,
                    JsonView::Text(error@.sentence()),
                ),
            ),
    {
        let body = Json::object().with_text("errcode", "M_UNKNOWN").with_text(
            "error",
            error.message().as_str(),
        );
        HttpReply::json(500, body)
    }
}

/// The first piece that begins with `prefix`, without it.
pub open spec fn first_with_prefix(pieces: Seq<Seq<char>>, prefix: Seq<char>) -> Option<Seq<char>>
    decreases pieces.len(),
{
    if pieces.len() == 0 {
        None
    } else if prefix.is_prefix_of(pieces[0]) {
        Some(pieces[0].skip(prefix.len() as int))
    } else {
        first_with_prefix(pieces.drop_first(), prefix)
    }
}

/// The value of a query parameter, given as its name with the equals sign.
pub open spec fn query_value(query: Option<Seq<char>>, name: Seq<char>) -> Option<Seq<char>> {
    match query {
        Some(q) => first_with_prefix(text::split_text(q, seq!['&']), name),
        None => first_with_prefix(seq![Seq::empty()], name),
    }
}

/// The value of a query parameter, given as its name with the equals sign.
pub fn query_parameter(query: Option<&str>, name: &str) -> (res: Option<String>)
    ensures
        web::opt_text(res) == query_value(utils::opt_str(query), name@),
{
    let given = match query {
        Some(q) => q,
        None => "",
    };
    proof {
        reveal_strlit("&");
        reveal_strlit("");
        assert("&"@ =~= seq!['&']);
        assert(""@ =~= Seq::<char>::empty());
        if query is None {
            assert(!""@.contains('&'));
            text::lemma_split_whole(""@, '&');
        }
    }
    let pieces = text::split(given, "&");
    let count: usize = pieces.len();
    let ghost views = text::texts(pieces@);
    let mut i: usize = 0;
    assert(views.skip(0) =~= views);
    while i < count
        invariant
            count == pieces@.len(),
            views == text::texts(pieces@),
            i <= count,
            first_with_prefix(views.skip(i as int), name@) == first_with_prefix(views, name@),
            first_with_prefix(views, name@) == query_value(utils::opt_str(query), name@),
        decreases count - i,
    {
        proof {
            assert(views.skip(i as int)[0] == pieces@[i as int]@);
            assert(views.skip(i as int).drop_first() =~= views.skip(i + 1));
        }
        match text::strip_prefix(pieces[i].as_str(), name) {
            Some(value) => {
                return Some(value);
            },
            None => {},
        }
        i += 1;
    }
    None
}

/// A parameter of a query is what follows its name in the first part that begins with it, wherever
/// among the parts that is; there is none where no part begins with it.
pub proof fn law_the_first_parameter_counts(pieces: Seq<Seq<char>>, prefix: Seq<char>, i: int)
    ensures
        0 <= i < pieces.len() && prefix.is_prefix_of(pieces[i]) && (forall|j: int|
            0 <= j < i ==> !prefix.is_prefix_of(#[trigger] pieces[j])) ==> first_with_prefix(
            pieces,
            prefix,
        ) == Some(pieces[i].skip(prefix.len() as int)),
        (forall|j: int| 0 <= j < pieces.len() ==> !prefix.is_prefix_of(#[trigger] pieces[j]))
            ==> first_with_prefix(pieces, prefix) is None,
    decreases pieces.len(),
{
    if pieces.len() > 0 {
        let rest = pieces.drop_first();
        law_the_first_parameter_counts(rest, prefix, i - 1);
        assert forall|j: int| 0 <= j < rest.len() implies #[trigger] rest[j] == pieces[j + 1] by {}
        if 0 < i < pieces.len() {
            assert(rest[i - 1] == pieces[i]);
        }
    }
}

/// A parameter is found in a query with another before or behind it.
pub proof fn law_parameters_are_found(
    before: Seq<char>,
    name: Seq<char>,
    value: Seq<char>,
    behind: Seq<char>,
)
    requires
        !before.contains('&'),
        !name.contains('&'),
        !value.contains('&'),
        !name.is_prefix_of(before),
    ensures
        query_value(Some(name + value + seq!['&'] + behind), name) == Some(value),
        query_value(Some(name + value), name) == Some(value),
        query_value(Some(before + seq!['&'] + (name + value)), name) == Some(value),
        query_value(Some(before), name) is None,
{
    let piece = name + value;
    assert(!piece.contains('&')) by {
        if piece.contains('&') {
            let k = piece.index_of('&');
            if k < name.len() {
                assert(name[k] == '&');
            } else {
                assert(value[k - name.len()] == '&');
            }
        }
    }
    assert(piece.subrange(0, name.len() as int) =~= name);
    assert(piece.skip(name.len() as int) =~= value);
    text::lemma_split_whole(piece, '&');
    text::lemma_split_whole(before, '&');
    text::lemma_split_first(piece, '&', behind);
    text::lemma_split_first(before, '&', piece);
    law_the_first_parameter_counts(seq![piece], name, 0);
    law_the_first_parameter_counts(seq![before], name, 0);
    law_the_first_parameter_counts(seq![before] + seq![piece], name, 1);
    law_the_first_parameter_counts(seq![piece] + text::split_text(behind, seq!['&']), name, 0);
}

} // verus!
